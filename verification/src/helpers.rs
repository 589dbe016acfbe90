//! Hashing, hexadecimal rendering and block geometry.

use sha2::Digest;
use vstd::prelude::*;
use vstd::string::*;

verus! {

/// The largest block size ever chosen.
pub const MAX_BLOCK_SIZE: usize = 999_999;

/// The number of blocks above which the block size grows.
pub const BLOCK_COUNT_TARGET: usize = 1000;

/// Length of a SHA-256 digest in bytes.
pub const DIGEST_LEN: usize = 32;

/// The SHA-256 digest of a byte string.
pub uninterp spec fn sha256(data: Seq<u8>) -> Seq<u8>;

/// Calls `sha2::Sha256::digest`. Trusted: the result is the SHA-256 digest of
/// `data`, which is always 32 bytes long.
#[verifier::external_body]
pub(crate) fn sha256_digest(data: &[u8]) -> (digest: Vec<u8>)
    ensures
        digest@ == sha256(data@),
        digest@.len() == DIGEST_LEN,
{
    sha2::Sha256::digest(data).to_vec()
}

/// Whether a candidate size `b` ends the search for a block size: it has
/// reached a million, or it cuts `n` bytes into at most a thousand blocks.
pub open spec fn ends_search(n: nat, b: nat) -> bool {
    b >= 1_000_000 || n / b <= 1000
}

/// The block size of a file of `n` bytes: one less than the first candidate,
/// counting up from 2, that ends the search. That is `n / 1001`, but at
/// least 1 and at most 999 999.
pub open spec fn block_size(n: nat) -> nat {
    let q = n / 1001;
    if q < 1 {
        1
    } else if q > 999_999 {
        999_999
    } else {
        q
    }
}

/// Number of full blocks in a file of `n` bytes.
pub open spec fn block_count(n: nat) -> nat {
    n / block_size(n)
}

/// Number of bytes of a file of `n` bytes that lie in its full blocks.
pub open spec fn full_len(n: nat) -> nat {
    block_count(n) * block_size(n)
}

/// Number of bytes of a file of `n` bytes that follow its last full block.
pub open spec fn trailing_len(n: nat) -> nat {
    n % block_size(n)
}

/// `n / c` exceeds a thousand exactly when `c` is at most `n / 1001`.
proof fn lemma_quotient_above_thousand(n: nat, c: nat)
    requires
        c >= 1,
    ensures
        (n / c > 1000) <==> (c <= n / 1001),
{
    assert((n / c >= 1001) <==> (n >= 1001 * c)) by (nonlinear_arith)
        requires
            c >= 1,
    ;
    assert((n / 1001 >= c) <==> (n >= 1001 * c)) by (nonlinear_arith);
}

/// The block size is the candidate just before the first one that ends the
/// search: every candidate from 2 up to it lets the search go on, and the
/// next one ends it.
pub proof fn lemma_block_size_is_last_before_end(n: nat)
    ensures
        1 <= block_size(n) <= 999_999,
        ends_search(n, block_size(n) + 1),
        forall|c: nat| 2 <= c <= block_size(n) ==> !ends_search(n, c),
{
    lemma_quotient_above_thousand(n, block_size(n) + 1);
    assert forall|c: nat| 2 <= c <= block_size(n) implies !ends_search(n, c) by {
        lemma_quotient_above_thousand(n, c);
    }
}

/// Full blocks and trailing bytes make up the whole file.
pub proof fn lemma_block_geometry(n: nat)
    ensures
        block_count(n) * block_size(n) + trailing_len(n) == n,
        full_len(n) + trailing_len(n) == n,
        trailing_len(n) < block_size(n),
{
    let b = block_size(n);
    assert((n / b) * b + n % b == n && n % b < b) by (nonlinear_arith)
        requires
            b >= 1,
    ;
}

/// The block size for a file of `total_size` bytes.
pub fn calculate_block_size(total_size: usize) -> (size: usize)
    ensures
        size == block_size(total_size as nat),
        1 <= size <= MAX_BLOCK_SIZE,
        ends_search(total_size as nat, (size + 1) as nat),
        forall|c: nat| 2 <= c <= size ==> !ends_search(total_size as nat, c),
{
    proof {
        lemma_block_size_is_last_before_end(total_size as nat);
    }
    let quotient: usize = total_size / (BLOCK_COUNT_TARGET + 1);
    if quotient < 1 {
        1
    } else if quotient > MAX_BLOCK_SIZE {
        MAX_BLOCK_SIZE
    } else {
        quotient
    }
}

/// The sixteen hexadecimal digits, upper case.
pub open spec fn hex_digits() -> Seq<char> {
    seq!['0', '1', '2', '3', '4', '5', '6', '7', '8', '9', 'A', 'B', 'C', 'D', 'E', 'F']
}

/// The two digits of one byte.
pub open spec fn hex_of_byte(b: u8) -> Seq<char> {
    seq![hex_digits()[b as int / 16], hex_digits()[b as int % 16]]
}

/// Bytes as upper-case hexadecimal digits, with a dash after every eighth
/// byte that another byte follows.
pub open spec fn hex_string(bytes: Seq<u8>) -> Seq<char>
    decreases bytes.len(),
{
    if bytes.len() == 0 {
        Seq::<char>::empty()
    } else {
        let before = bytes.len() - 1;
        let dash = if before > 0 && before % 8 == 0 {
            seq!['-']
        } else {
            Seq::<char>::empty()
        };
        hex_string(bytes.drop_last()) + dash + hex_of_byte(bytes.last())
    }
}

/// One hexadecimal digit as a string.
fn hex_digit(n: u8) -> (digit: &'static str)
    requires
        n < 16,
    ensures
        digit@ == seq![hex_digits()[n as int]],
{
    proof {
        reveal_strlit("0");
        reveal_strlit("1");
        reveal_strlit("2");
        reveal_strlit("3");
        reveal_strlit("4");
        reveal_strlit("5");
        reveal_strlit("6");
        reveal_strlit("7");
        reveal_strlit("8");
        reveal_strlit("9");
        reveal_strlit("A");
        reveal_strlit("B");
        reveal_strlit("C");
        reveal_strlit("D");
        reveal_strlit("E");
        reveal_strlit("F");
    }
    let digit = match n {
        0 => "0",
        1 => "1",
        2 => "2",
        3 => "3",
        4 => "4",
        5 => "5",
        6 => "6",
        7 => "7",
        8 => "8",
        9 => "9",
        10 => "A",
        11 => "B",
        12 => "C",
        13 => "D",
        14 => "E",
        _ => "F",
    };
    assert(digit@ =~= seq![hex_digits()[n as int]]);
    digit
}

/// Renders bytes for a log line: two upper-case hexadecimal digits per byte,
/// groups of eight bytes joined by dashes.
pub fn to_hex_string(bytes: &Vec<u8>) -> (text: String)
    ensures
        text@ == hex_string(bytes@),
{
    let mut text = String::new();
    let mut i: usize = 0;
    while i < bytes.len()
        invariant
            i <= bytes.len(),
            text@ == hex_string(bytes@.take(i as int)),
        decreases bytes.len() - i,
    {
        let b: u8 = bytes[i];
        if i > 0 && i % 8 == 0 {
            proof {
                reveal_strlit("-");
            }
            text.append("-");
        }
        text.append(hex_digit(b / 16));
        text.append(hex_digit(b % 16));
        proof {
            let next = bytes@.take(i + 1);
            assert(next.drop_last() =~= bytes@.take(i as int));
            assert(next.last() == b);
            assert(text@ =~= hex_string(next));
        }
        i += 1;
    }
    assert(bytes@.take(i as int) =~= bytes@);
    text
}

/// Whether two byte strings are the same.
pub fn bytes_equal(a: &[u8], b: &[u8]) -> (same: bool)
    ensures
        same == (a@ == b@),
{
    if a.len() != b.len() {
        return false;
    }
    let mut i: usize = 0;
    while i < a.len()
        invariant
            i <= a.len(),
            a@.len() == b@.len(),
            forall|j: int| 0 <= j < i ==> a@[j] == b@[j],
        decreases a.len() - i,
    {
        if a[i] != b[i] {
            return false;
        }
        i += 1;
    }
    assert(a@ =~= b@);
    true
}

/// The identifier of a name: the SHA-256 digest of its UTF-8 bytes.
pub fn generate_uuid(input: &String) -> (uuid: Vec<u8>)
    ensures
        uuid@ == sha256(vstd::utf8::encode_utf8(input@)),
        uuid@.len() == DIGEST_LEN,
{
    sha256_digest(input.as_str().as_bytes())
}

} // verus!
