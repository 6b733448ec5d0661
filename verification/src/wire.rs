//! The request frame that a client sends to the service: a magic prefix, the
//! client's working directory and its linker arguments, each string framed by
//! its little-endian 32-bit byte length.

use vstd::prelude::*;
use vstd::bytes::lemma_auto_spec_u32_to_from_le_bytes;
use vstd::bytes::spec_u32_from_le_bytes;
use vstd::bytes::spec_u32_to_le_bytes;
use vstd::bytes::u32_from_le_bytes;
use vstd::bytes::u32_to_le_bytes;
use vstd::slice::slice_subrange;
use vstd::slice::slice_to_vec;
use vstd::utf8::decode_utf8;
use vstd::utf8::decode_utf8_encode_utf8;
use vstd::utf8::encode_utf8;
use vstd::utf8::encode_utf8_decode_utf8;
use vstd::utf8::encode_utf8_valid_utf8;
use vstd::utf8::valid_utf8;

verus! {

/// Largest byte length of one framed string.
pub const MAX_FRAME_BYTES: usize = 16777216;

/// Largest number of arguments a request may carry.
pub const MAX_ARGUMENTS: usize = 100000;

/// Byte length of the request magic.
pub const REQUEST_MAGIC_LEN: usize = 27;

/// The bytes `WILD-MACHO-CACHE-SERVICE-3\0` that open every request.
pub open spec fn request_magic() -> Seq<u8> {
    seq![
        87u8, 73u8, 76u8, 68u8, 45u8, 77u8, 65u8, 67u8, 72u8, 79u8, 45u8, 67u8, 65u8, 67u8,
        72u8, 69u8, 45u8, 83u8, 69u8, 82u8, 86u8, 73u8, 67u8, 69u8, 45u8, 51u8, 0u8,
    ]
}

/// The request magic, as bytes to send or compare.
pub fn request_magic_bytes() -> (magic: Vec<u8>)
    ensures
        magic@ == request_magic(),
{
    let magic: Vec<u8> = vec![
        87u8, 73u8, 76u8, 68u8, 45u8, 77u8, 65u8, 67u8, 72u8, 79u8, 45u8, 67u8, 65u8, 67u8,
        72u8, 69u8, 45u8, 83u8, 69u8, 82u8, 86u8, 73u8, 67u8, 69u8, 45u8, 51u8, 0u8,
    ];
    assert(magic@ =~= request_magic());
    magic
}


/// The value that made a frame too large to send or accept.
#[derive(Clone, Copy, Debug, PartialEq, Eq, Structural)]
pub enum FrameValue {
    /// A byte length or argument count above its limit.
    Length(u64),
    /// A count that does not fit the frame's 32-bit field.
    OutOfRange,
}

/// Why a frame could not be written or read.
#[derive(Clone, Copy, Debug, PartialEq, Eq, Structural)]
pub enum ProtocolError {
    /// The bytes end before the frame does.
    Truncated,
    /// The request does not open with the request magic.
    WrongMagic,
    /// A string or the argument list is larger than the protocol allows.
    FrameTooLarge(FrameValue),
    /// A string field is not valid UTF-8.
    NonUtf8,
}

/// The error that reports `value` as exceeding the frame limits.
pub fn frame_too_large(value: FrameValue) -> (error: ProtocolError)
    ensures
        error == ProtocolError::FrameTooLarge(value),
{
    ProtocolError::FrameTooLarge(value)
}

/// The UTF-8 bytes of a text.
pub open spec fn text_bytes(text: Seq<char>) -> Seq<u8> {
    encode_utf8(text)
}

/// Whether a text is small enough to be framed.
pub open spec fn text_fits(text: Seq<char>) -> bool {
    text_bytes(text).len() <= MAX_FRAME_BYTES
}

/// A text framed by its byte length.
pub open spec fn string_frame(text: Seq<char>) -> Seq<u8> {
    spec_u32_to_le_bytes(text_bytes(text).len() as u32) + text_bytes(text)
}

/// The framed arguments, one after another.
pub open spec fn arguments_frame(arguments: Seq<Seq<char>>) -> Seq<u8>
    decreases arguments.len(),
{
    if arguments.len() == 0 {
        Seq::empty()
    } else {
        string_frame(arguments[0]) + arguments_frame(arguments.drop_first())
    }
}

/// The complete request for a working directory and its arguments.
pub open spec fn request_frame(current_dir: Seq<char>, arguments: Seq<Seq<char>>) -> Seq<u8> {
    request_magic() + string_frame(current_dir) + spec_u32_to_le_bytes(arguments.len() as u32)
        + arguments_frame(arguments)
}

/// The byte length of the first argument too large to frame, if any.
pub open spec fn first_oversized(arguments: Seq<Seq<char>>) -> Option<nat>
    decreases arguments.len(),
{
    if arguments.len() == 0 {
        None
    } else if !text_fits(arguments[0]) {
        Some(text_bytes(arguments[0]).len())
    } else {
        first_oversized(arguments.drop_first())
    }
}

/// How many arguments, from the first on, are small enough to frame.
pub open spec fn fitting_count(arguments: Seq<Seq<char>>) -> nat
    decreases arguments.len(),
{
    if arguments.len() == 0 || !text_fits(arguments[0]) {
        0
    } else {
        1 + fitting_count(arguments.drop_first())
    }
}

/// The bytes a request writer has appended when it stops at a field that is
/// too large: the magic, then, when the working directory fit, its frame,
/// and, when the count fit, the count and the arguments before the first
/// one too large.
pub open spec fn request_written_before_error(
    current_dir: Seq<char>,
    arguments: Seq<Seq<char>>,
) -> Seq<u8> {
    if !text_fits(current_dir) {
        request_magic()
    } else if arguments.len() > u32::MAX {
        request_magic() + string_frame(current_dir)
    } else {
        request_magic() + string_frame(current_dir) + spec_u32_to_le_bytes(arguments.len() as u32)
            + arguments_frame(arguments.take(fitting_count(arguments) as int))
    }
}

/// The error that writing a request reports, checking the working directory,
/// then the argument count, then each argument in order; `None` when the
/// request can be written.
pub open spec fn request_write_error(current_dir: Seq<char>, arguments: Seq<Seq<char>>) -> Option<
    ProtocolError,
> {
    if !text_fits(current_dir) {
        Some(ProtocolError::FrameTooLarge(FrameValue::Length(text_bytes(current_dir).len() as u64)))
    } else if arguments.len() > u32::MAX {
        Some(ProtocolError::FrameTooLarge(FrameValue::OutOfRange))
    } else {
        match first_oversized(arguments) {
            Some(n) => Some(ProtocolError::FrameTooLarge(FrameValue::Length(n as u64))),
            None => None,
        }
    }
}

/// The texts of a list of strings.
pub open spec fn texts(strings: Seq<String>) -> Seq<Seq<char>> {
    strings.map_values(|s: String| s@)
}

proof fn lemma_arguments_frame_push(arguments: Seq<Seq<char>>, last: Seq<char>)
    ensures
        arguments_frame(arguments.push(last)) == arguments_frame(arguments) + string_frame(last),
    decreases arguments.len(),
{
    if arguments.len() == 0 {
        let single = arguments.push(last);
        assert(single.drop_first() =~= Seq::<Seq<char>>::empty());
        assert(single[0] == last);
        assert(arguments_frame(single.drop_first()) == Seq::<u8>::empty());
        assert(arguments_frame(single) =~= string_frame(last));
        assert(arguments_frame(arguments) == Seq::<u8>::empty());
    } else {
        lemma_arguments_frame_push(arguments.drop_first(), last);
        assert(arguments.push(last).drop_first() =~= arguments.drop_first().push(last));
        assert(arguments_frame(arguments.push(last)) =~= arguments_frame(arguments) + string_frame(
            last,
        ));
    }
}

proof fn lemma_first_oversized_push(arguments: Seq<Seq<char>>, last: Seq<char>)
    requires
        first_oversized(arguments) is None,
    ensures
        first_oversized(arguments.push(last)) == (if text_fits(last) {
            None
        } else {
            Some(text_bytes(last).len())
        }),
    decreases arguments.len(),
{
    if arguments.len() == 0 {
        let single = arguments.push(last);
        assert(single.drop_first() =~= Seq::<Seq<char>>::empty());
        assert(single[0] == last);
        assert(first_oversized(single.drop_first()) is None);
    } else {
        assert(arguments.push(last)[0] == arguments[0]);
        lemma_first_oversized_push(arguments.drop_first(), last);
        assert(arguments.push(last).drop_first() =~= arguments.drop_first().push(last));
    }
}

/// Appends `bytes` to `out`.
pub(crate) fn append_bytes(out: &mut Vec<u8>, bytes: &[u8])
    ensures
        final(out)@ == old(out)@ + bytes@,
{
    let mut i: usize = 0;
    while i < bytes.len()
        invariant
            i <= bytes@.len(),
            out@ == old(out)@ + bytes@.take(i as int),
        decreases bytes@.len() - i,
    {
        out.push(bytes[i]);
        i = i + 1;
        assert(out@ =~= old(out)@ + bytes@.take(i as int));
    }
    assert(bytes@.take(i as int) =~= bytes@);
}

/// Appends `value` as four little-endian bytes.
pub fn write_u32(out: &mut Vec<u8>, value: u32)
    ensures
        final(out)@ == old(out)@ + spec_u32_to_le_bytes(value),
{
    let bytes = u32_to_le_bytes(value);
    append_bytes(out, bytes.as_slice());
}

/// Appends `value` framed by its byte length, or, when it is larger than
/// `MAX_FRAME_BYTES`, leaves `out` as it was and reports the length.
pub fn write_string(out: &mut Vec<u8>, value: &str) -> (result: Result<(), ProtocolError>)
    ensures
        text_fits(value@) ==> result is Ok && final(out)@ == old(out)@ + string_frame(value@),
        !text_fits(value@) ==> result == Err::<(), ProtocolError>(
            ProtocolError::FrameTooLarge(FrameValue::Length(text_bytes(value@).len() as u64)),
        ) && final(out)@ == old(out)@,
{
    let bytes = value.as_bytes();
    if bytes.len() > MAX_FRAME_BYTES {
        return Err(frame_too_large(FrameValue::Length(bytes.len() as u64)));
    }
    write_u32(out, bytes.len() as u32);
    append_bytes(out, bytes);
    Ok(())
}

/// Appends the request for `current_dir` and `command_line`. Fails, naming the
/// first field that is too large in the order they are written, when any is;
/// the frames appended before that field then stay in `out`, and nothing of
/// that field or of later ones is appended.
pub fn write_request(out: &mut Vec<u8>, current_dir: &str, command_line: &[String]) -> (result:
    Result<(), ProtocolError>)
    ensures
        match request_write_error(current_dir@, texts(command_line@)) {
            None => result is Ok && final(out)@ == old(out)@ + request_frame(
                current_dir@,
                texts(command_line@),
            ),
            Some(error) => result == Err::<(), ProtocolError>(error) && final(out)@ == old(out)@
                + request_written_before_error(current_dir@, texts(command_line@)),
        },
        encode_utf8(current_dir@).len() <= MAX_FRAME_BYTES && (forall|i: int|
            0 <= i < command_line@.len() ==> encode_utf8((#[trigger] command_line@[i])@).len()
                <= MAX_FRAME_BYTES) && command_line@.len() <= u32::MAX ==> result is Ok
            && final(out)@ == old(out)@ + request_frame(current_dir@, texts(command_line@)),
{
    proof {
        if encode_utf8(current_dir@).len() <= MAX_FRAME_BYTES && (forall|i: int|
            0 <= i < command_line@.len() ==> encode_utf8((#[trigger] command_line@[i])@).len()
                <= MAX_FRAME_BYTES) && command_line@.len() <= u32::MAX {
            assert forall|i: int| 0 <= i < texts(command_line@).len() implies encode_utf8(
                #[trigger] texts(command_line@)[i],
            ).len() <= MAX_FRAME_BYTES by {
                assert(texts(command_line@)[i] == command_line@[i]@);
            }
            lemma_request_writable(current_dir@, texts(command_line@));
        }
    }
    let ghost arguments = texts(command_line@);
    let magic = request_magic_bytes();
    append_bytes(out, magic.as_slice());
    match write_string(out, current_dir) {
        Ok(()) => {},
        Err(error) => {
            return Err(error);
        },
    }
    if command_line.len() > 4294967295usize {
        assert(out@ =~= old(out)@ + request_written_before_error(current_dir@, arguments));
        return Err(frame_too_large(FrameValue::OutOfRange));
    }
    write_u32(out, command_line.len() as u32);
    let ghost head = out@;
    assert(head =~= old(out)@ + request_magic() + string_frame(current_dir@)
        + spec_u32_to_le_bytes(arguments.len() as u32));
    let mut i: usize = 0;
    while i < command_line.len()
        invariant
            i <= command_line@.len(),
            arguments == texts(command_line@),
            arguments.len() == command_line@.len(),
            text_fits(current_dir@),
            arguments.len() <= u32::MAX,
            head == old(out)@ + request_magic() + string_frame(current_dir@)
                + spec_u32_to_le_bytes(arguments.len() as u32),
            out@ == head + arguments_frame(arguments.take(i as int)),
            first_oversized(arguments.take(i as int)) is None,
        decreases command_line@.len() - i,
    {
        proof {
            lemma_first_oversized_push(arguments.take(i as int), arguments[i as int]);
            lemma_arguments_frame_push(arguments.take(i as int), arguments[i as int]);
            assert(arguments.take(i as int).push(arguments[i as int]) =~= arguments.take(
                i + 1,
            ));
        }
        match write_string(out, command_line[i].as_str()) {
            Ok(()) => {},
            Err(error) => {
                proof {
                    lemma_first_oversized_prefix(arguments, i as int);
                }
                assert(out@ =~= old(out)@ + request_written_before_error(current_dir@, arguments));
                return Err(error);
            },
        }
        i = i + 1;
    }
    assert(arguments.take(i as int) =~= arguments);
    assert(out@ =~= old(out)@ + request_frame(current_dir@, arguments));
    Ok(())
}

/// A request can be written whenever its working directory and every
/// argument are at most `MAX_FRAME_BYTES` bytes long and there are at most
/// `u32::MAX` arguments.
pub proof fn lemma_request_writable(current_dir: Seq<char>, arguments: Seq<Seq<char>>)
    requires
        encode_utf8(current_dir).len() <= MAX_FRAME_BYTES,
        forall|i: int|
            0 <= i < arguments.len() ==> encode_utf8(#[trigger] arguments[i]).len()
                <= MAX_FRAME_BYTES,
        arguments.len() <= u32::MAX,
    ensures
        request_write_error(current_dir, arguments) is None,
{
    lemma_all_fit_none_oversized(arguments);
}

proof fn lemma_all_fit_none_oversized(arguments: Seq<Seq<char>>)
    requires
        forall|i: int|
            0 <= i < arguments.len() ==> encode_utf8(#[trigger] arguments[i]).len()
                <= MAX_FRAME_BYTES,
    ensures
        first_oversized(arguments) is None,
    decreases arguments.len(),
{
    if arguments.len() > 0 {
        let rest = arguments.drop_first();
        assert forall|i: int| 0 <= i < rest.len() implies encode_utf8(#[trigger] rest[i]).len()
            <= MAX_FRAME_BYTES by {
            assert(rest[i] == arguments[i + 1]);
        }
        lemma_all_fit_none_oversized(rest);
        assert(encode_utf8(arguments[0]).len() <= MAX_FRAME_BYTES);
    }
}

/// When the arguments before `i` all fit and the one at `i` does not, it is
/// the first one too large.
proof fn lemma_first_oversized_prefix(arguments: Seq<Seq<char>>, i: int)
    requires
        0 <= i < arguments.len(),
        first_oversized(arguments.take(i)) is None,
        !text_fits(arguments[i]),
    ensures
        first_oversized(arguments) == Some(text_bytes(arguments[i]).len()),
        fitting_count(arguments) == i,
    decreases i,
{
    if i == 0 {
    } else {
        assert(arguments.take(i).drop_first() =~= arguments.drop_first().take(i - 1));
        lemma_first_oversized_prefix(arguments.drop_first(), i - 1);
    }
}


/// What a request carries, as texts.
pub struct RequestModel {
    pub current_dir: Seq<char>,
    pub command_line: Seq<Seq<char>>,
}

/// A decoded request: the client's working directory and linker arguments.
pub struct Request {
    pub current_dir: String,
    pub command_line: Vec<String>,
}

impl View for Request {
    type V = RequestModel;

    open spec fn view(&self) -> RequestModel {
        RequestModel { current_dir: self.current_dir@, command_line: texts(self.command_line@) }
    }
}

/// Whether an executable decoding result, with its end position, is the
/// specified one.
pub open spec fn same_outcome<T>(
    result: Result<(T, usize), ProtocolError>,
    spec: Result<(T, int), ProtocolError>,
) -> bool {
    match result {
        Ok((value, end)) => spec == Ok::<(T, int), ProtocolError>((value, end as int)),
        Err(error) => spec == Err::<(T, int), ProtocolError>(error),
    }
}

/// The 32-bit little-endian value at `pos`, and the position after it.
pub open spec fn decode_u32(buf: Seq<u8>, pos: int) -> Result<(u32, int), ProtocolError> {
    if pos + 4 <= buf.len() {
        Ok((spec_u32_from_le_bytes(buf.subrange(pos, pos + 4)), pos + 4))
    } else {
        Err(ProtocolError::Truncated)
    }
}

/// The framed string at `pos`, and the position after it.
pub open spec fn decode_string(buf: Seq<u8>, pos: int) -> Result<(Seq<char>, int), ProtocolError> {
    match decode_u32(buf, pos) {
        Err(error) => Err(error),
        Ok((length, start)) => {
            if length > MAX_FRAME_BYTES {
                Err(ProtocolError::FrameTooLarge(FrameValue::Length(length as u64)))
            } else if start + length > buf.len() {
                Err(ProtocolError::Truncated)
            } else if !valid_utf8(buf.subrange(start, start + length)) {
                Err(ProtocolError::NonUtf8)
            } else {
                Ok((decode_utf8(buf.subrange(start, start + length)), start + length))
            }
        },
    }
}

/// Puts `first` in front of the texts of a decoding result.
pub open spec fn prepend(first: Seq<Seq<char>>, rest: Result<(Seq<Seq<char>>, int), ProtocolError>) -> Result<
    (Seq<Seq<char>>, int),
    ProtocolError,
> {
    match rest {
        Ok((texts, end)) => Ok((first + texts, end)),
        Err(error) => Err(error),
    }
}

/// `count` framed strings from `pos` on, and the position after them.
pub open spec fn decode_arguments(buf: Seq<u8>, pos: int, count: nat) -> Result<
    (Seq<Seq<char>>, int),
    ProtocolError,
>
    decreases count,
{
    if count == 0 {
        Ok((Seq::empty(), pos))
    } else {
        match decode_string(buf, pos) {
            Err(error) => Err(error),
            Ok((text, next)) => prepend(seq![text], decode_arguments(buf, next, (count - 1) as nat)),
        }
    }
}

/// The request at the start of `buf`, and the number of bytes it takes.
pub open spec fn decode_request(buf: Seq<u8>) -> Result<(RequestModel, int), ProtocolError> {
    if buf.len() < REQUEST_MAGIC_LEN {
        Err(ProtocolError::Truncated)
    } else if buf.subrange(0, REQUEST_MAGIC_LEN as int) != request_magic() {
        Err(ProtocolError::WrongMagic)
    } else {
        match decode_string(buf, REQUEST_MAGIC_LEN as int) {
            Err(error) => Err(error),
            Ok((current_dir, after_dir)) => match decode_u32(buf, after_dir) {
                Err(error) => Err(error),
                Ok((count, after_count)) => {
                    if count > MAX_ARGUMENTS {
                        Err(ProtocolError::FrameTooLarge(FrameValue::Length(count as u64)))
                    } else {
                        match decode_arguments(buf, after_count, count as nat) {
                            Err(error) => Err(error),
                            Ok((command_line, end)) => Ok(
                                (RequestModel { current_dir, command_line }, end),
                            ),
                        }
                    }
                },
            },
        }
    }
}

/// `String::from_utf8`: the text that `bytes` encode, or `None` when they are
/// not valid UTF-8. The claim is that std's check agrees with vstd's
/// definition of valid UTF-8 and that the string holds exactly those bytes.
#[verifier::external_body]
fn string_from_utf8(bytes: Vec<u8>) -> (text: Option<String>)
    ensures
        text is Some <==> valid_utf8(bytes@),
        text matches Some(t) ==> t@ == decode_utf8(bytes@),
{
    String::from_utf8(bytes).ok()
}

/// Reads the 32-bit little-endian value at `pos`.
pub fn read_u32(buf: &[u8], pos: usize) -> (result: Result<(u32, usize), ProtocolError>)
    requires
        pos <= buf@.len(),
    ensures
        same_outcome(result, decode_u32(buf@, pos as int)),
{
    if buf.len() - pos < 4 {
        return Err(ProtocolError::Truncated);
    }
    let bytes = slice_subrange(buf, pos, pos + 4);
    Ok((u32_from_le_bytes(bytes), pos + 4))
}

/// Reads the framed string at `pos`.
pub fn read_string(buf: &[u8], pos: usize) -> (result: Result<(String, usize), ProtocolError>)
    requires
        pos <= buf@.len(),
    ensures
        match result {
            Ok((text, end)) => decode_string(buf@, pos as int) == Ok::<(Seq<char>, int), ProtocolError>(
                (text@, end as int),
            ) && end <= buf@.len(),
            Err(error) => decode_string(buf@, pos as int) == Err::<(Seq<char>, int), ProtocolError>(
                error,
            ),
        },
{
    let (length, start) = match read_u32(buf, pos) {
        Ok(found) => found,
        Err(error) => return Err(error),
    };
    let length: usize = length as usize;
    if length > MAX_FRAME_BYTES {
        return Err(frame_too_large(FrameValue::Length(length as u64)));
    }
    if buf.len() - start < length {
        return Err(ProtocolError::Truncated);
    }
    let bytes = slice_to_vec(slice_subrange(buf, start, start + length));
    match string_from_utf8(bytes) {
        Some(text) => Ok((text, start + length)),
        None => Err(ProtocolError::NonUtf8),
    }
}

/// Reads the request at the start of `buf`, and returns it with the number
/// of bytes it takes. `Truncated` means that more bytes are needed.
pub fn read_request(buf: &[u8]) -> (result: Result<(Request, usize), ProtocolError>)
    ensures
        match result {
            Ok((request, end)) => decode_request(buf@) == Ok::<(RequestModel, int), ProtocolError>(
                (request@, end as int),
            ),
            Err(error) => decode_request(buf@) == Err::<(RequestModel, int), ProtocolError>(error),
        },
{
    if buf.len() < REQUEST_MAGIC_LEN {
        return Err(ProtocolError::Truncated);
    }
    let magic = request_magic_bytes();
    let mut i: usize = 0;
    while i < REQUEST_MAGIC_LEN
        invariant
            i <= REQUEST_MAGIC_LEN,
            buf@.len() >= REQUEST_MAGIC_LEN,
            magic@ == request_magic(),
            buf@.subrange(0, i as int) =~= magic@.subrange(0, i as int),
        decreases REQUEST_MAGIC_LEN - i,
    {
        if buf[i] != magic[i] {
            assert(buf@.subrange(0, REQUEST_MAGIC_LEN as int)[i as int] != request_magic()[i as int]);
            return Err(ProtocolError::WrongMagic);
        }
        i = i + 1;
    }
    assert(buf@.subrange(0, REQUEST_MAGIC_LEN as int) =~= request_magic());
    let (current_dir, after_dir) = match read_string(buf, REQUEST_MAGIC_LEN) {
        Ok(found) => found,
        Err(error) => return Err(error),
    };
    let (count, after_count) = match read_u32(buf, after_dir) {
        Ok(found) => found,
        Err(error) => return Err(error),
    };
    let count: usize = count as usize;
    if count > MAX_ARGUMENTS {
        return Err(frame_too_large(FrameValue::Length(count as u64)));
    }
    let mut command_line: Vec<String> = Vec::new();
    let mut pos = after_count;
    let mut read: usize = 0;
    while read < count
        invariant
            read <= count,
            pos <= buf@.len(),
            decode_request(buf@) == match decode_arguments(buf@, after_count as int, count as nat) {
                Err(error) => Err::<(RequestModel, int), ProtocolError>(error),
                Ok((texts, end)) => Ok(
                    (RequestModel { current_dir: current_dir@, command_line: texts }, end),
                ),
            },
            decode_arguments(buf@, after_count as int, count as nat) == prepend(
                texts(command_line@),
                decode_arguments(buf@, pos as int, (count - read) as nat),
            ),
        decreases count - read,
    {
        let ghost done = texts(command_line@);
        match read_string(buf, pos) {
            Ok((text, next)) => {
                command_line.push(text);
                proof {
                    assert(texts(command_line@) =~= done + seq![text@]);
                    let rest = decode_arguments(buf@, next as int, (count - read - 1) as nat);
                    match rest {
                        Ok((t, e)) => {
                            assert(done + (seq![text@] + t) =~= (done + seq![text@]) + t);
                        },
                        Err(_) => {},
                    }
                }
                pos = next;
            },
            Err(error) => {
                assert(decode_arguments(buf@, pos as int, (count - read) as nat) == Err::<
                    (Seq<Seq<char>>, int),
                    ProtocolError,
                >(error));
                return Err(error);
            },
        }
        read = read + 1;
    }
    assert(texts(command_line@) + Seq::<Seq<char>>::empty() =~= texts(command_line@));
    Ok((Request { current_dir, command_line }, pos))
}


proof fn lemma_decode_u32_at(buf: Seq<u8>, pos: int, value: u32)
    requires
        0 <= pos,
        pos + 4 <= buf.len(),
        buf.subrange(pos, pos + 4) == spec_u32_to_le_bytes(value),
    ensures
        decode_u32(buf, pos) == Ok::<(u32, int), ProtocolError>((value, pos + 4)),
{
    lemma_auto_spec_u32_to_from_le_bytes();
    assert(spec_u32_to_le_bytes(value).len() == 4);
    assert(spec_u32_from_le_bytes(buf.subrange(pos, pos + 4)) == value);
}

proof fn lemma_decode_string_at(buf: Seq<u8>, pos: int, text: Seq<char>)
    requires
        text_fits(text),
        0 <= pos,
        pos + string_frame(text).len() <= buf.len(),
        buf.subrange(pos, pos + string_frame(text).len()) == string_frame(text),
    ensures
        decode_string(buf, pos) == Ok::<(Seq<char>, int), ProtocolError>(
            (text, pos + string_frame(text).len()),
        ),
{
    lemma_auto_spec_u32_to_from_le_bytes();
    let bytes = text_bytes(text);
    let n = bytes.len();
    let frame = string_frame(text);
    assert(spec_u32_to_le_bytes(n as u32).len() == 4);
    assert(frame.len() == 4 + n);
    assert(buf.subrange(pos, pos + 4) =~= frame.subrange(0, 4));
    assert(frame.subrange(0, 4) =~= spec_u32_to_le_bytes(n as u32));
    lemma_decode_u32_at(buf, pos, n as u32);
    assert(buf.subrange(pos + 4, pos + 4 + n) =~= frame.subrange(4, 4 + n as int));
    assert(frame.subrange(4, 4 + n as int) =~= bytes);
    encode_utf8_valid_utf8(text);
    encode_utf8_decode_utf8(text);
}

proof fn lemma_decode_arguments_at(buf: Seq<u8>, pos: int, arguments: Seq<Seq<char>>)
    requires
        first_oversized(arguments) is None,
        0 <= pos,
        pos + arguments_frame(arguments).len() <= buf.len(),
        buf.subrange(pos, pos + arguments_frame(arguments).len()) == arguments_frame(arguments),
    ensures
        decode_arguments(buf, pos, arguments.len()) == Ok::<(Seq<Seq<char>>, int), ProtocolError>(
            (arguments, pos + arguments_frame(arguments).len()),
        ),
    decreases arguments.len(),
{
    if arguments.len() == 0 {
        assert(arguments =~= Seq::<Seq<char>>::empty());
    } else {
        let first = arguments[0];
        let rest = arguments.drop_first();
        let head = string_frame(first);
        let tail = arguments_frame(rest);
        let frame = arguments_frame(arguments);
        assert(frame == head + tail);
        assert(buf.subrange(pos, pos + head.len()) =~= frame.subrange(0, head.len() as int));
        assert(frame.subrange(0, head.len() as int) =~= head);
        lemma_decode_string_at(buf, pos, first);
        assert(buf.subrange(pos + head.len(), pos + head.len() + tail.len()) =~= frame.subrange(
            head.len() as int,
            frame.len() as int,
        ));
        assert(frame.subrange(head.len() as int, frame.len() as int) =~= tail);
        lemma_decode_arguments_at(buf, pos + head.len(), rest);
        assert(seq![first] + rest =~= arguments);
    }
}

/// Reading back a written request gives the same working directory and
/// arguments, and consumes exactly the written bytes, whatever follows them;
/// for every request that can be written and that carries at most
/// `MAX_ARGUMENTS` arguments.
pub proof fn lemma_request_roundtrip(
    current_dir: Seq<char>,
    command_line: Seq<Seq<char>>,
    rest: Seq<u8>,
)
    requires
        request_write_error(current_dir, command_line) is None,
        command_line.len() <= MAX_ARGUMENTS,
    ensures
        decode_request(request_frame(current_dir, command_line) + rest) == Ok::<
            (RequestModel, int),
            ProtocolError,
        >(
            (
                RequestModel { current_dir, command_line },
                request_frame(current_dir, command_line).len() as int,
            ),
        ),
{
    lemma_auto_spec_u32_to_from_le_bytes();
    let magic = request_magic();
    let dir = string_frame(current_dir);
    let count = spec_u32_to_le_bytes(command_line.len() as u32);
    let args = arguments_frame(command_line);
    let frame = request_frame(current_dir, command_line);
    let buf = frame + rest;
    assert(frame == magic + dir + count + args);
    assert(count.len() == 4);
    let d: int = 27 + dir.len() as int;
    let c: int = d + 4;
    assert(buf.subrange(0, 27) =~= magic);
    assert(buf.subrange(27, d) =~= dir);
    lemma_decode_string_at(buf, 27, current_dir);
    assert(buf.subrange(d, c) =~= count);
    lemma_decode_u32_at(buf, d, command_line.len() as u32);
    assert(buf.subrange(c, c + args.len() as int) =~= args);
    lemma_decode_arguments_at(buf, c, command_line);
}

proof fn lemma_decode_u32_extends(buf: Seq<u8>, more: Seq<u8>, pos: int)
    requires
        0 <= pos,
        decode_u32(buf, pos) is Ok,
    ensures
        decode_u32(buf + more, pos) == decode_u32(buf, pos),
{
    assert((buf + more).subrange(pos, pos + 4) =~= buf.subrange(pos, pos + 4));
}

proof fn lemma_decode_string_extends(buf: Seq<u8>, more: Seq<u8>, pos: int)
    requires
        0 <= pos,
        decode_string(buf, pos) != Err::<(Seq<char>, int), ProtocolError>(ProtocolError::Truncated),
    ensures
        decode_string(buf + more, pos) == decode_string(buf, pos),
{
    lemma_decode_u32_extends(buf, more, pos);
    let (length, start) = decode_u32(buf, pos)->Ok_0;
    if length <= MAX_FRAME_BYTES {
        assert((buf + more).subrange(start, start + length) =~= buf.subrange(
            start,
            start + length,
        ));
    }
}

proof fn lemma_decode_string_advances(buf: Seq<u8>, pos: int)
    requires
        0 <= pos,
    ensures
        decode_string(buf, pos) matches Ok((_, next)) ==> pos <= next,
{
}

proof fn lemma_decode_arguments_extends(buf: Seq<u8>, more: Seq<u8>, pos: int, count: nat)
    requires
        0 <= pos,
        decode_arguments(buf, pos, count) != Err::<(Seq<Seq<char>>, int), ProtocolError>(
            ProtocolError::Truncated,
        ),
    ensures
        decode_arguments(buf + more, pos, count) == decode_arguments(buf, pos, count),
    decreases count,
{
    if count > 0 {
        lemma_decode_string_extends(buf, more, pos);
        lemma_decode_string_advances(buf, pos);
        match decode_string(buf, pos) {
            Ok((_, next)) => {
                lemma_decode_arguments_extends(buf, more, next, (count - 1) as nat);
            },
            Err(_) => {},
        }
    }
}

/// Once the bytes at hand decide a request (decode it, or reject it for any
/// reason other than needing more bytes), further bytes change nothing: a
/// reader may decode as bytes arrive.
pub proof fn lemma_decode_request_extends(buf: Seq<u8>, more: Seq<u8>)
    requires
        decode_request(buf) != Err::<(RequestModel, int), ProtocolError>(ProtocolError::Truncated),
    ensures
        decode_request(buf + more) == decode_request(buf),
{
    let joined = buf + more;
    assert(joined.subrange(0, REQUEST_MAGIC_LEN as int) =~= buf.subrange(
        0,
        REQUEST_MAGIC_LEN as int,
    ));
    if buf.subrange(0, REQUEST_MAGIC_LEN as int) == request_magic() {
        lemma_decode_string_extends(buf, more, REQUEST_MAGIC_LEN as int);
        lemma_decode_string_advances(buf, REQUEST_MAGIC_LEN as int);
        match decode_string(buf, REQUEST_MAGIC_LEN as int) {
            Ok((_, after_dir)) => {
                lemma_decode_u32_extends(buf, more, after_dir);
                match decode_u32(buf, after_dir) {
                    Ok((count, after_count)) => {
                        if count <= MAX_ARGUMENTS {
                            lemma_decode_arguments_extends(buf, more, after_count, count as nat);
                        }
                    },
                    Err(_) => {},
                }
            },
            Err(_) => {},
        }
    }
}


proof fn lemma_decode_string_cut(buf: Seq<u8>, pos: int, text: Seq<char>)
    requires
        text_fits(text),
        0 <= pos <= buf.len(),
        buf.len() < pos + string_frame(text).len(),
        buf.subrange(pos, buf.len() as int) == string_frame(text).take(buf.len() - pos),
    ensures
        decode_string(buf, pos) == Err::<(Seq<char>, int), ProtocolError>(ProtocolError::Truncated),
{
    lemma_auto_spec_u32_to_from_le_bytes();
    let n = text_bytes(text).len();
    let frame = string_frame(text);
    assert(spec_u32_to_le_bytes(n as u32).len() == 4);
    if pos + 4 <= buf.len() {
        assert(buf.subrange(pos, pos + 4) =~= frame.subrange(0, 4));
        assert(frame.subrange(0, 4) =~= spec_u32_to_le_bytes(n as u32));
        lemma_decode_u32_at(buf, pos, n as u32);
    }
}

proof fn lemma_decode_arguments_cut(buf: Seq<u8>, pos: int, arguments: Seq<Seq<char>>)
    requires
        first_oversized(arguments) is None,
        0 <= pos <= buf.len(),
        buf.len() < pos + arguments_frame(arguments).len(),
        buf.subrange(pos, buf.len() as int) == arguments_frame(arguments).take(buf.len() - pos),
    ensures
        decode_arguments(buf, pos, arguments.len()) == Err::<(Seq<Seq<char>>, int), ProtocolError>(
            ProtocolError::Truncated,
        ),
    decreases arguments.len(),
{
    if arguments.len() == 0 {
        assert(arguments_frame(arguments).len() == 0);
    } else {
        let first = arguments[0];
        let rest = arguments.drop_first();
        let head = string_frame(first);
        let tail = arguments_frame(rest);
        let frame = arguments_frame(arguments);
        assert(frame == head + tail);
        let next = pos + head.len();
        if buf.len() < next {
            assert(buf.subrange(pos, buf.len() as int) =~= head.take(buf.len() - pos));
            lemma_decode_string_cut(buf, pos, first);
        } else {
            assert(buf.subrange(pos, next) =~= head);
            lemma_decode_string_at(buf, pos, first);
            let window = buf.subrange(pos, buf.len() as int);
            assert forall|k: int| 0 <= k < buf.len() - next implies buf.subrange(
                next,
                buf.len() as int,
            )[k] == tail.take(buf.len() - next)[k] by {
                assert(buf[next + k] == window[head.len() + k]);
                assert(window[head.len() + k] == frame[head.len() + k]);
            }
            assert(buf.subrange(next, buf.len() as int) =~= tail.take(buf.len() - next));
            lemma_decode_arguments_cut(buf, next, rest);
        }
    }
}

/// Every strict prefix of a request that can be written reads as
/// `Truncated`: a partly received request is never taken for another request
/// or rejected, only waited for.
pub proof fn lemma_request_prefix_truncated(
    current_dir: Seq<char>,
    command_line: Seq<Seq<char>>,
    cut: int,
)
    requires
        request_write_error(current_dir, command_line) is None,
        command_line.len() <= MAX_ARGUMENTS,
        0 <= cut < request_frame(current_dir, command_line).len(),
    ensures
        decode_request(request_frame(current_dir, command_line).take(cut)) == Err::<
            (RequestModel, int),
            ProtocolError,
        >(ProtocolError::Truncated),
{
    lemma_auto_spec_u32_to_from_le_bytes();
    let magic = request_magic();
    let dir = string_frame(current_dir);
    let count = spec_u32_to_le_bytes(command_line.len() as u32);
    let args = arguments_frame(command_line);
    let frame = request_frame(current_dir, command_line);
    let buf = frame.take(cut);
    assert(frame == magic + dir + count + args);
    assert(count.len() == 4);
    let d: int = 27 + dir.len() as int;
    let c: int = d + 4;
    if cut >= 27 {
        assert(buf.subrange(0, 27) =~= magic);
        if cut < d {
            assert(buf.subrange(27, buf.len() as int) =~= dir.take(cut - 27));
            lemma_decode_string_cut(buf, 27, current_dir);
        } else {
            assert(buf.subrange(27, d) =~= dir);
            lemma_decode_string_at(buf, 27, current_dir);
            if cut >= c {
                assert(buf.subrange(d, c) =~= count);
                lemma_decode_u32_at(buf, d, command_line.len() as u32);
                assert(buf.subrange(c, buf.len() as int) =~= args.take(cut - c));
                lemma_decode_arguments_cut(buf, c, command_line);
            }
        }
    }
}

/// Reading back a written string gives the same text and consumes exactly
/// its frame, whatever follows it.
pub proof fn lemma_string_roundtrip(text: Seq<char>, rest: Seq<u8>)
    requires
        text_fits(text),
    ensures
        decode_string(string_frame(text) + rest, 0) == Ok::<(Seq<char>, int), ProtocolError>(
            (text, string_frame(text).len() as int),
        ),
{
    let buf = string_frame(text) + rest;
    assert(buf.subrange(0, string_frame(text).len() as int) =~= string_frame(text));
    lemma_decode_string_at(buf, 0, text);
}

/// Reading back a written 32-bit value gives the same value.
pub proof fn lemma_u32_roundtrip(value: u32, rest: Seq<u8>)
    ensures
        decode_u32(spec_u32_to_le_bytes(value) + rest, 0) == Ok::<(u32, int), ProtocolError>(
            (value, 4),
        ),
{
    lemma_auto_spec_u32_to_from_le_bytes();
    let buf = spec_u32_to_le_bytes(value) + rest;
    assert(spec_u32_to_le_bytes(value).len() == 4);
    assert(buf.subrange(0, 4) =~= spec_u32_to_le_bytes(value));
    lemma_decode_u32_at(buf, 0, value);
}


proof fn lemma_decode_arguments_shape(buf: Seq<u8>, pos: int, count: nat)
    requires
        0 <= pos,
    ensures
        decode_arguments(buf, pos, count) matches Ok((decoded, end)) ==> decoded.len() == count
            && pos <= end && (count > 0 ==> end <= buf.len()),
    decreases count,
{
    if count > 0 {
        match decode_string(buf, pos) {
            Ok((_, next)) => {
                lemma_decode_arguments_shape(buf, next, (count - 1) as nat);
            },
            Err(_) => {},
        }
    }
}

/// A request the service accepts is bounded: at most `MAX_ARGUMENTS`
/// arguments, each of at most `MAX_FRAME_BYTES` bytes, and it ends within
/// the bytes received.
pub proof fn lemma_decoded_request_bounded(buf: Seq<u8>)
    requires
        decode_request(buf) is Ok,
    ensures
        decode_request(buf)->Ok_0.0.command_line.len() <= MAX_ARGUMENTS,
        decode_request(buf)->Ok_0.1 <= buf.len(),
        forall|i: int|
            0 <= i < decode_request(buf)->Ok_0.0.command_line.len() ==> text_fits(
                #[trigger] decode_request(buf)->Ok_0.0.command_line[i],
            ),
        text_fits(decode_request(buf)->Ok_0.0.current_dir),
{
    let (_, after_dir) = decode_string(buf, REQUEST_MAGIC_LEN as int)->Ok_0;
    let (count, after_count) = decode_u32(buf, after_dir)->Ok_0;
    lemma_decode_string_fits(buf, REQUEST_MAGIC_LEN as int);
    lemma_decode_arguments_shape(buf, after_count, count as nat);
    lemma_decode_arguments_fit(buf, after_count, count as nat);
}

proof fn lemma_decode_string_fits(buf: Seq<u8>, pos: int)
    requires
        0 <= pos,
    ensures
        decode_string(buf, pos) matches Ok((text, next)) ==> text_fits(text) && next <= buf.len(),
{
    match decode_string(buf, pos) {
        Ok((text, next)) => {
            let (length, start) = decode_u32(buf, pos)->Ok_0;
            let bytes = buf.subrange(start, start + length);
            decode_utf8_encode_utf8(bytes);
        },
        Err(_) => {},
    }
}

proof fn lemma_decode_arguments_fit(buf: Seq<u8>, pos: int, count: nat)
    requires
        0 <= pos,
    ensures
        decode_arguments(buf, pos, count) matches Ok((decoded, _)) ==> forall|i: int|
            0 <= i < decoded.len() ==> text_fits(#[trigger] decoded[i]),
    decreases count,
{
    if count > 0 {
        lemma_decode_string_fits(buf, pos);
        match decode_string(buf, pos) {
            Ok((text, next)) => {
                lemma_decode_arguments_fit(buf, next, (count - 1) as nat);
                match decode_arguments(buf, next, (count - 1) as nat) {
                    Ok((rest, _)) => {
                        let decoded = seq![text] + rest;
                        assert forall|i: int| 0 <= i < decoded.len() implies text_fits(
                            #[trigger] decoded[i],
                        ) by {
                            if i > 0 {
                                assert(decoded[i] == rest[i - 1]);
                            }
                        }
                    },
                    Err(_) => {},
                }
            },
            Err(_) => {},
        }
    }
}


/// Every request opens with the 27 bytes `WILD-MACHO-CACHE-SERVICE-3\0`, and
/// bytes that do not open so are refused as `WrongMagic` once 27 of them are
/// at hand.
pub proof fn lemma_request_opens_with_magic(
    current_dir: Seq<char>,
    arguments: Seq<Seq<char>>,
    buf: Seq<u8>,
)
    ensures
        request_frame(current_dir, arguments).subrange(0, 27) == seq![
            87u8, 73u8, 76u8, 68u8, 45u8, 77u8, 65u8, 67u8, 72u8, 79u8, 45u8, 67u8, 65u8, 67u8,
            72u8, 69u8, 45u8, 83u8, 69u8, 82u8, 86u8, 73u8, 67u8, 69u8, 45u8, 51u8, 0u8,
        ],
        buf.len() >= 27 && buf.subrange(0, 27) != seq![
            87u8, 73u8, 76u8, 68u8, 45u8, 77u8, 65u8, 67u8, 72u8, 79u8, 45u8, 67u8, 65u8, 67u8,
            72u8, 69u8, 45u8, 83u8, 69u8, 82u8, 86u8, 73u8, 67u8, 69u8, 45u8, 51u8, 0u8,
        ] ==> decode_request(buf) == Err::<(RequestModel, int), ProtocolError>(
            ProtocolError::WrongMagic,
        ),
{
    let frame = request_frame(current_dir, arguments);
    assert(frame.subrange(0, 27) =~= request_magic());
    assert(request_magic() =~= seq![
        87u8, 73u8, 76u8, 68u8, 45u8, 77u8, 65u8, 67u8, 72u8, 79u8, 45u8, 67u8, 65u8, 67u8,
        72u8, 69u8, 45u8, 83u8, 69u8, 82u8, 86u8, 73u8, 67u8, 69u8, 45u8, 51u8, 0u8,
    ]);
}

} // verus!
