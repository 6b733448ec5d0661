//! Where a cache root's service listens: a socket named after a hash of the
//! cache root, inside the service directory. Paths are their raw bytes, as
//! Unix stores them.

use vstd::prelude::*;
use vstd::arithmetic::div_mod::lemma_div_denominator;
use vstd::slice::slice_to_vec;
use crate::wire::append_bytes;

verus! {

/// Socket paths must stay below this many bytes (the macOS limit).
pub const SOCKET_PATH_LIMIT: usize = 100;

/// The SHA-256 digest of some bytes.
pub uninterp spec fn sha256_digest(data: Seq<u8>) -> Seq<u8>;

/// `sha2::Sha256::digest`: the digest of `data`, which sha2 makes 32 bytes
/// long (`OutputSize = U32`).
#[verifier::external_body]
fn sha256(data: &[u8]) -> (digest: Vec<u8>)
    ensures
        digest@ == sha256_digest(data@),
        digest@.len() == 32,
{
    <sha2::Sha256 as sha2::Digest>::digest(data).to_vec()
}

/// The path of a relative `file_name` inside `directory`: a `/` separates
/// them unless the directory is empty or already ends in `/`.
pub open spec fn unix_join(directory: Seq<u8>, file_name: Seq<u8>) -> Seq<u8> {
    if directory.len() == 0 || directory.last() == 47u8 {
        directory + file_name
    } else {
        directory + seq![47u8] + file_name
    }
}

fn join_path(directory: &[u8], file_name: &[u8]) -> (path: Vec<u8>)
    ensures
        path@ == unix_join(directory@, file_name@),
{
    let mut path = slice_to_vec(directory);
    let length = directory.len();
    if length > 0 && directory[length - 1] != 47u8 {
        path.push(47u8);
    }
    append_bytes(&mut path, file_name);
    path
}

/// The lowercase hexadecimal digit for a value below 16, as an ASCII byte.
pub open spec fn hex_byte(d: nat) -> u8 {
    if d < 10 {
        (48 + d) as u8
    } else {
        (87 + d) as u8
    }
}

/// The number that a byte sequence writes in big-endian order.
pub open spec fn big_endian(bytes: Seq<u8>) -> nat
    decreases bytes.len(),
{
    if bytes.len() == 0 {
        0
    } else {
        big_endian(bytes.drop_last()) * 256 + bytes.last() as nat
    }
}

/// `256` to the power `n`.
pub open spec fn byte_power(n: nat) -> nat
    decreases n,
{
    if n == 0 {
        1
    } else {
        byte_power((n - 1) as nat) * 256
    }
}

/// `16` to the power `n`.
pub open spec fn nibble_power(n: nat) -> nat
    decreases n,
{
    if n == 0 {
        1
    } else {
        nibble_power((n - 1) as nat) * 16
    }
}

/// The key that names a cache root's socket: the first eight digest bytes
/// read as a big-endian number.
pub open spec fn cache_key(digest: Seq<u8>) -> nat {
    big_endian(digest.take(8))
}

/// A number as sixteen lowercase hexadecimal digits, zero-padded.
pub open spec fn hex16(value: nat) -> Seq<u8> {
    Seq::new(16, |i: int| hex_byte((value / nibble_power((15 - i) as nat)) % 16))
}

/// `macho-`, as bytes.
pub open spec fn socket_name_prefix() -> Seq<u8> {
    seq![109u8, 97u8, 99u8, 104u8, 111u8, 45u8]
}

/// `.sock`, as bytes.
pub open spec fn socket_name_suffix() -> Seq<u8> {
    seq![46u8, 115u8, 111u8, 99u8, 107u8]
}

/// `macho-<key as 16 hex digits>.sock`.
pub open spec fn socket_file_name(digest: Seq<u8>) -> Seq<u8> {
    socket_name_prefix() + hex16(cache_key(digest)) + socket_name_suffix()
}

/// The socket of the service for `cache_dir`, inside `service_directory`.
pub open spec fn socket_candidate(cache_dir: Seq<u8>, service_directory: Seq<u8>) -> Seq<u8> {
    unix_join(service_directory, socket_file_name(sha256_digest(cache_dir)))
}

proof fn lemma_byte_power_grows(i: nat, j: nat)
    requires
        i <= j,
    ensures
        byte_power(i) <= byte_power(j),
    decreases j - i,
{
    if i < j {
        lemma_byte_power_grows(i, (j - 1) as nat);
    }
}

proof fn lemma_nibble_power_positive(n: nat)
    ensures
        nibble_power(n) > 0,
    decreases n,
{
    if n > 0 {
        lemma_nibble_power_positive((n - 1) as nat);
    }
}

fn cache_key_of(digest: &Vec<u8>) -> (key: u64)
    requires
        digest@.len() >= 8,
    ensures
        key == cache_key(digest@),
{
    assert(byte_power(8) == 18446744073709551616) by {
        reveal_with_fuel(byte_power, 9);
    }
    let mut key: u64 = 0;
    let mut i: usize = 0;
    while i < 8
        invariant
            i <= 8,
            digest@.len() >= 8,
            key == big_endian(digest@.take(i as int)),
            key < byte_power(i as nat),
            byte_power(8) == 18446744073709551616,
        decreases 8 - i,
    {
        proof {
            lemma_byte_power_grows((i + 1) as nat, 8);
            assert(digest@.take(i + 1).drop_last() =~= digest@.take(i as int));
        }
        key = key * 256 + digest[i] as u64;
        i = i + 1;
    }
    key
}

fn file_name_of(key: u64) -> (name: Vec<u8>)
    ensures
        name@ == socket_name_prefix() + hex16(key as nat) + socket_name_suffix(),
{
    let mut name: Vec<u8> = vec![109u8, 97u8, 99u8, 104u8, 111u8, 45u8];
    let ghost head = socket_name_prefix();
    assert(name@ =~= head);
    assert(nibble_power(15) == 1152921504606846976) by {
        reveal_with_fuel(nibble_power, 16);
    }
    let mut divisor: u64 = 1152921504606846976;
    let mut i: usize = 0;
    while i < 16
        invariant
            i <= 16,
            i < 16 ==> divisor == nibble_power((15 - i) as nat),
            name@ == head + hex16(key as nat).take(i as int),
        decreases 16 - i,
    {
        proof {
            lemma_nibble_power_positive((15 - i) as nat);
        }
        let digit: u64 = (key / divisor) % 16;
        let byte: u8 = if digit < 10 {
            (48 + digit) as u8
        } else {
            (87 + digit) as u8
        };
        name.push(byte);
        proof {
            assert(name@ =~= head + hex16(key as nat).take(i + 1));
            if i < 15 {
                let k = (14 - i) as nat;
                assert(nibble_power((15 - i) as nat) == nibble_power(k) * 16);
            }
        }
        divisor = divisor / 16;
        i = i + 1;
    }
    assert(hex16(key as nat).take(16) =~= hex16(key as nat));
    name.push(46u8);
    name.push(115u8);
    name.push(111u8);
    name.push(99u8);
    name.push(107u8);
    assert(name@ =~= head + hex16(key as nat) + socket_name_suffix());
    name
}

/// The directory that holds the service sockets: the configured one when
/// there is one, otherwise the cache root itself.
pub fn service_directory(cache_dir: &[u8], configured: Option<Vec<u8>>) -> (directory: Vec<u8>)
    ensures
        directory@ == match configured {
            Some(d) => d@,
            None => cache_dir@,
        },
{
    match configured {
        Some(directory) => directory,
        None => slice_to_vec(cache_dir),
    }
}

/// The socket of the service for `cache_dir` inside `service_directory`, or
/// `None` when its path would reach `SOCKET_PATH_LIMIT` bytes. Distinct cache
/// roots get distinct sockets unless their digests share their first eight
/// bytes (`lemma_distinct_roots_distinct_sockets`).
pub fn socket_path(cache_dir: &[u8], service_directory: &[u8]) -> (socket: Option<Vec<u8>>)
    ensures
        socket is Some <==> socket_candidate(cache_dir@, service_directory@).len()
            < SOCKET_PATH_LIMIT,
        socket matches Some(path) ==> path@ == socket_candidate(cache_dir@, service_directory@),
        sha256_digest(cache_dir@).len() == 32,
{
    let digest = sha256(cache_dir);
    let key: u64 = cache_key_of(&digest);
    let name = file_name_of(key);
    let path = join_path(service_directory, name.as_slice());
    if path.len() < SOCKET_PATH_LIMIT {
        Some(path)
    } else {
        None
    }
}

/// The path to restrict to its owner once the listener is bound: the
/// socket itself.
pub fn listener_path(path: &[u8]) -> (listener: &[u8])
    ensures
        listener@ == path@,
{
    path
}

proof fn lemma_big_endian_bound(bytes: Seq<u8>)
    ensures
        big_endian(bytes) < byte_power(bytes.len()),
    decreases bytes.len(),
{
    if bytes.len() > 0 {
        lemma_big_endian_bound(bytes.drop_last());
    }
}

proof fn lemma_big_endian_injective(a: Seq<u8>, b: Seq<u8>)
    requires
        a.len() == b.len(),
        big_endian(a) == big_endian(b),
    ensures
        a == b,
    decreases a.len(),
{
    if a.len() > 0 {
        assert(a.last() == b.last());
        lemma_big_endian_injective(a.drop_last(), b.drop_last());
        assert(a =~= a.drop_last().push(a.last()));
        assert(b =~= b.drop_last().push(b.last()));
    } else {
        assert(a =~= b);
    }
}

proof fn lemma_nibble_power_step(n: nat)
    ensures
        nibble_power(n + 1) == 16 * nibble_power(n),
{
    assert(nibble_power(n + 1) == nibble_power(n) * 16);
}

/// Two different numbers below `16^n` differ in one of their `n` lowest
/// hexadecimal digits.
proof fn lemma_nibbles_distinguish(a: nat, b: nat, n: nat) -> (j: nat)
    requires
        a < nibble_power(n),
        b < nibble_power(n),
        a != b,
    ensures
        j < n,
        (a / nibble_power(j)) % 16 != (b / nibble_power(j)) % 16,
    decreases n,
{
    if n == 0 {
        assert(false);
        0
    } else if a % 16 != b % 16 {
        assert(nibble_power(0) == 1);
        0
    } else {
        let m = (n - 1) as nat;
        lemma_nibble_power_step(m);
        assert(a / 16 < nibble_power(m));
        assert(b / 16 < nibble_power(m));
        let k = lemma_nibbles_distinguish(a / 16, b / 16, m);
        lemma_nibble_power_positive(k);
        lemma_div_denominator(a as int, 16, nibble_power(k) as int);
        lemma_div_denominator(b as int, 16, nibble_power(k) as int);
        lemma_nibble_power_step(k);
        k + 1
    }
}

proof fn lemma_hex_byte_injective(d: nat, e: nat)
    requires
        d < 16,
        e < 16,
        hex_byte(d) == hex_byte(e),
    ensures
        d == e,
{
}

proof fn lemma_hex16_injective(a: nat, b: nat)
    requires
        a < nibble_power(16),
        b < nibble_power(16),
        a != b,
    ensures
        hex16(a) != hex16(b),
{
    let j = lemma_nibbles_distinguish(a, b, 16);
    let i: int = 15 - j;
    assert(hex16(a)[i] == hex_byte((a / nibble_power(j)) % 16));
    assert(hex16(b)[i] == hex_byte((b / nibble_power(j)) % 16));
    if hex16(a)[i] == hex16(b)[i] {
        lemma_hex_byte_injective((a / nibble_power(j)) % 16, (b / nibble_power(j)) % 16);
    }
}

proof fn lemma_unix_join_injective(directory: Seq<u8>, first: Seq<u8>, second: Seq<u8>)
    requires
        first.len() == second.len(),
        first != second,
    ensures
        unix_join(directory, first) != unix_join(directory, second),
{
    let gap: int = if directory.len() == 0 || directory.last() == 47u8 {
        0
    } else {
        1
    };
    let start = directory.len() + gap;
    let p = unix_join(directory, first);
    let q = unix_join(directory, second);
    assert(p.subrange(start, start + first.len()) =~= first);
    assert(q.subrange(start, start + second.len()) =~= second);
}

/// Cache roots whose digests differ in their first eight bytes use
/// distinct sockets in the same service directory.
pub proof fn lemma_distinct_roots_distinct_sockets(
    root: Seq<u8>,
    other_root: Seq<u8>,
    service_directory: Seq<u8>,
)
    requires
        sha256_digest(root).len() == 32,
        sha256_digest(other_root).len() == 32,
        sha256_digest(root).take(8) != sha256_digest(other_root).take(8),
    ensures
        socket_candidate(root, service_directory) != socket_candidate(
            other_root,
            service_directory,
        ),
{
    let digest = sha256_digest(root);
    let other = sha256_digest(other_root);
    if cache_key(digest) == cache_key(other) {
        lemma_big_endian_injective(digest.take(8), other.take(8));
    }
    lemma_big_endian_bound(digest.take(8));
    lemma_big_endian_bound(other.take(8));
    assert(byte_power(8) == 18446744073709551616) by {
        reveal_with_fuel(byte_power, 9);
    }
    assert(nibble_power(16) == 18446744073709551616) by {
        reveal_with_fuel(nibble_power, 17);
    }
    lemma_hex16_injective(cache_key(digest), cache_key(other));
    let name = socket_file_name(digest);
    let other_name = socket_file_name(other);
    assert(name.subrange(6, 22) =~= hex16(cache_key(digest)));
    assert(other_name.subrange(6, 22) =~= hex16(cache_key(other)));
    lemma_unix_join_injective(service_directory, name, other_name);
}


/// The value of an ASCII hexadecimal digit: `0`-`9` are 0 to 9, `a`-`f` are
/// 10 to 15.
pub open spec fn hex_digit_value(b: u8) -> int {
    if 48 <= b <= 57 {
        b - 48
    } else {
        b - 87
    }
}

/// The number that ASCII hexadecimal digits write, most significant first.
pub open spec fn hex_number(digits: Seq<u8>) -> int
    decreases digits.len(),
{
    if digits.len() == 0 {
        0
    } else {
        hex_number(digits.drop_last()) * 16 + hex_digit_value(digits.last())
    }
}

proof fn lemma_hex16_reads_back(value: nat, k: int)
    requires
        value < nibble_power(16),
        0 <= k <= 16,
    ensures
        hex_number(hex16(value).take(k)) == value / nibble_power((16 - k) as nat),
    decreases k,
{
    if k == 0 {
        assert(hex16(value).take(0) =~= Seq::<u8>::empty());
        assert(nibble_power(16) == 18446744073709551616) by {
            reveal_with_fuel(nibble_power, 17);
        }
    } else {
        lemma_hex16_reads_back(value, k - 1);
        let m = (16 - k) as nat;
        lemma_nibble_power_positive(m);
        let w = value / nibble_power(m);
        lemma_div_denominator(value as int, nibble_power(m) as int, 16);
        assert(nibble_power(m + 1) == nibble_power(m) * 16);
        assert(hex16(value).take(k).drop_last() =~= hex16(value).take(k - 1));
        assert(hex16(value).take(k).last() == hex_byte(w % 16));
        assert(hex_digit_value(hex_byte(w % 16)) == w % 16);
        assert(w == (w / 16) * 16 + w % 16);
        let prev = hex16(value).take(k - 1);
        assert(hex_number(prev) == value / nibble_power(m + 1));
        assert(value / nibble_power(m + 1) == w / 16);
        assert(hex_number(hex16(value).take(k)) == hex_number(prev) * 16 + w % 16);
    }
}

/// The socket's file name is `macho-`, sixteen lowercase hexadecimal digits
/// (each one of `0`-`9`, `a`-`f`) that read back as the first eight digest
/// bytes taken as a big-endian number, then `.sock`.
pub proof fn lemma_socket_file_name_layout(digest: Seq<u8>)
    requires
        digest.len() >= 8,
    ensures
        socket_file_name(digest).len() == 27,
        socket_file_name(digest).subrange(0, 6) == seq![109u8, 97u8, 99u8, 104u8, 111u8, 45u8],
        socket_file_name(digest).subrange(22, 27) == seq![46u8, 115u8, 111u8, 99u8, 107u8],
        forall|i: int|
            6 <= i < 22 ==> (48 <= #[trigger] socket_file_name(digest)[i] <= 57 || 97
                <= socket_file_name(digest)[i] <= 102),
        hex_number(socket_file_name(digest).subrange(6, 22)) == big_endian(digest.take(8)),
{
    let name = socket_file_name(digest);
    let key = cache_key(digest);
    lemma_big_endian_bound(digest.take(8));
    assert(byte_power(8) == 18446744073709551616) by {
        reveal_with_fuel(byte_power, 9);
    }
    assert(nibble_power(16) == 18446744073709551616) by {
        reveal_with_fuel(nibble_power, 17);
    }
    assert(name.subrange(0, 6) =~= seq![109u8, 97u8, 99u8, 104u8, 111u8, 45u8]);
    assert(name.subrange(22, 27) =~= seq![46u8, 115u8, 111u8, 99u8, 107u8]);
    assert(name.subrange(6, 22) =~= hex16(key));
    assert forall|i: int| 6 <= i < 22 implies (48 <= #[trigger] name[i] <= 57 || 97 <= name[i]
        <= 102) by {
        assert(name[i] == hex16(key)[i - 6]);
    }
    lemma_hex16_reads_back(key, 16);
    assert(hex16(key).take(16) =~= hex16(key));
    assert(nibble_power(0) == 1);
    assert(hex_number(hex16(key)) == key / 1);
}


/// A socket lies directly inside the service directory: the directory's
/// bytes, one `/` unless the directory is empty or already ends in one, then
/// the 27-byte file name.
pub proof fn lemma_socket_inside_directory(cache_dir: Seq<u8>, service_directory: Seq<u8>)
    requires
        sha256_digest(cache_dir).len() == 32,
    ensures
        ({
            let socket = socket_candidate(cache_dir, service_directory);
            let name = socket_file_name(sha256_digest(cache_dir));
            &&& service_directory.len() > 0 && service_directory[service_directory.len() - 1]
                != 47u8 ==> socket == service_directory + seq![47u8] + name
            &&& (service_directory.len() == 0 || service_directory[service_directory.len() - 1]
                == 47u8) ==> socket == service_directory + name
            &&& socket.len() == service_directory.len() + 27 + (if service_directory.len() > 0
                && service_directory[service_directory.len() - 1] != 47u8 {
                1int
            } else {
                0int
            })
        }),
{
    lemma_socket_file_name_layout(sha256_digest(cache_dir));
}

} // verus!
