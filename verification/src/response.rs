//! The service's answer to one request: whether the cached image applied,
//! and where the service spent its time.

use vstd::prelude::*;
use vstd::bytes::lemma_auto_spec_u128_to_from_le_bytes;
use vstd::bytes::spec_u128_from_le_bytes;
use vstd::bytes::spec_u128_to_le_bytes;
use vstd::bytes::u128_from_le_bytes;
use vstd::bytes::u128_to_le_bytes;
use vstd::slice::slice_subrange;
use crate::wire::append_bytes;
use crate::wire::ProtocolError;

verus! {

/// Byte length of an encoded response.
pub const RESPONSE_LEN: usize = 49;

/// One answer of the service, with its timings in nanoseconds.
#[derive(Clone, Copy, Debug, PartialEq, Eq, Structural)]
pub struct Response {
    pub hit: bool,
    pub server_ns: u128,
    pub parse_ns: u128,
    pub apply_ns: u128,
}

impl Response {
    /// The answer that sends the client down the ordinary linker path.
    pub fn miss() -> (response: Response)
        ensures
            response == (Response { hit: false, server_ns: 0, parse_ns: 0, apply_ns: 0 }),
    {
        Response { hit: false, server_ns: 0, parse_ns: 0, apply_ns: 0 }
    }
}

/// The answer after applying a parsed request: `parse_ns` were spent
/// parsing, and the rest of `total_ns` applying the cached image.
pub fn applied_response(hit: bool, parse_ns: u128, total_ns: u128) -> (response: Response)
    requires
        parse_ns <= total_ns,
    ensures
        response == (Response {
            hit,
            server_ns: 0,
            parse_ns,
            apply_ns: (total_ns - parse_ns) as u128,
        }),
{
    Response { hit, server_ns: 0, parse_ns, apply_ns: total_ns - parse_ns }
}

/// The answer the service sends for one connection: the applied response,
/// or a miss when the request could not be read or applied, stamped with
/// the time the service spent on it.
pub fn stamped_response(outcome: Option<Response>, server_ns: u128) -> (response: Response)
    ensures
        response == (match outcome {
            Some(applied) => Response { server_ns, ..applied },
            None => Response { hit: false, server_ns, parse_ns: 0, apply_ns: 0 },
        }),
{
    let mut response = match outcome {
        Some(applied) => applied,
        None => Response::miss(),
    };
    response.server_ns = server_ns;
    response
}

/// The encoded response: the hit flag as one byte, then the three timings
/// as 16 little-endian bytes each.
pub open spec fn response_frame(response: Response) -> Seq<u8> {
    seq![if response.hit { 1u8 } else { 0u8 }] + spec_u128_to_le_bytes(response.server_ns)
        + spec_u128_to_le_bytes(response.parse_ns) + spec_u128_to_le_bytes(response.apply_ns)
}

/// The response at the start of `buf`; any first byte other than 1 reads as
/// a miss.
pub open spec fn decode_response(buf: Seq<u8>) -> Result<Response, ProtocolError> {
    if buf.len() < RESPONSE_LEN {
        Err(ProtocolError::Truncated)
    } else {
        Ok(
            Response {
                hit: buf[0] == 1,
                server_ns: spec_u128_from_le_bytes(buf.subrange(1, 17)),
                parse_ns: spec_u128_from_le_bytes(buf.subrange(17, 33)),
                apply_ns: spec_u128_from_le_bytes(buf.subrange(33, 49)),
            },
        )
    }
}

/// Appends the encoded response.
pub fn write_response(out: &mut Vec<u8>, response: &Response)
    ensures
        final(out)@ == old(out)@ + response_frame(*response),
{
    let flag: u8 = if response.hit { 1 } else { 0 };
    out.push(flag);
    let server = u128_to_le_bytes(response.server_ns);
    append_bytes(out, server.as_slice());
    let parse = u128_to_le_bytes(response.parse_ns);
    append_bytes(out, parse.as_slice());
    let apply = u128_to_le_bytes(response.apply_ns);
    append_bytes(out, apply.as_slice());
    assert(out@ =~= old(out)@ + response_frame(*response));
}

/// Reads the response at the start of `buf`.
pub fn read_response(buf: &[u8]) -> (result: Result<Response, ProtocolError>)
    ensures
        result == decode_response(buf@),
{
    if buf.len() < RESPONSE_LEN {
        return Err(ProtocolError::Truncated);
    }
    let hit = buf[0] == 1;
    let server_ns: u128 = u128_from_le_bytes(slice_subrange(buf, 1, 17));
    let parse_ns: u128 = u128_from_le_bytes(slice_subrange(buf, 17, 33));
    let apply_ns: u128 = u128_from_le_bytes(slice_subrange(buf, 33, 49));
    Ok(Response { hit, server_ns, parse_ns, apply_ns })
}

/// Reading back a written response gives the same response, whatever
/// follows it.
pub proof fn lemma_response_roundtrip(response: Response, rest: Seq<u8>)
    ensures
        decode_response(response_frame(response) + rest) == Ok::<Response, ProtocolError>(response),
{
    lemma_auto_spec_u128_to_from_le_bytes();
    let buf = response_frame(response) + rest;
    let server = spec_u128_to_le_bytes(response.server_ns);
    let parse = spec_u128_to_le_bytes(response.parse_ns);
    let apply = spec_u128_to_le_bytes(response.apply_ns);
    assert(server.len() == 16 && parse.len() == 16 && apply.len() == 16);
    assert(buf.subrange(1, 17) =~= server);
    assert(buf.subrange(17, 33) =~= parse);
    assert(buf.subrange(33, 49) =~= apply);
    assert(spec_u128_from_le_bytes(server) == response.server_ns);
    assert(spec_u128_from_le_bytes(parse) == response.parse_ns);
    assert(spec_u128_from_le_bytes(apply) == response.apply_ns);
}


/// An encoded response is 49 bytes long and opens with 1 for a hit and 0 for
/// a miss; reading 49 or more bytes always gives a response, which is a hit
/// exactly when the first byte is 1.
pub proof fn lemma_response_hit_byte(response: Response, buf: Seq<u8>)
    ensures
        response_frame(response).len() == 49,
        response_frame(response)[0] == (if response.hit { 1u8 } else { 0u8 }),
        buf.len() >= 49 ==> decode_response(buf) is Ok && (decode_response(buf)->Ok_0.hit
            <==> buf[0] == 1),
        buf.len() < 49 ==> decode_response(buf) == Err::<Response, ProtocolError>(
            ProtocolError::Truncated,
        ),
{
    lemma_auto_spec_u128_to_from_le_bytes();
    assert(spec_u128_to_le_bytes(response.server_ns).len() == 16);
    assert(spec_u128_to_le_bytes(response.parse_ns).len() == 16);
    assert(spec_u128_to_le_bytes(response.apply_ns).len() == 16);
}

} // verus!
