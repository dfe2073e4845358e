//! Little-endian integers and UTF-8 text in byte strings.
use vstd::prelude::*;
use vstd::string::*;
use vstd::utf8::{decode_utf8, encode_utf8, encode_utf8_decode_utf8, valid_utf8};

verus! {

/// `String::from_utf8`: the string that the bytes encode, where they are UTF-8.
#[verifier::external_body]
fn string_from_utf8(bytes: Vec<u8>) -> (r: Option<String>)
    ensures
        r is Some <==> valid_utf8(bytes@),
        r matches Some(s) ==> encode_utf8(s@) == bytes@,
{
    String::from_utf8(bytes).ok()
}

/// The text that `bytes` encode, where they are UTF-8.
pub open spec fn utf8_text(bytes: Seq<u8>) -> Option<Seq<char>> {
    if valid_utf8(bytes) {
        Some(decode_utf8(bytes))
    } else {
        None
    }
}

/// The string that `bytes` encode, where they are UTF-8.
pub fn text_of_bytes(bytes: Vec<u8>) -> (r: Option<String>)
    ensures
        r is Some <==> utf8_text(bytes@) is Some,
        r matches Some(s) ==> utf8_text(bytes@) == Some(s@),
{
    let r: Option<String> = string_from_utf8(bytes);
    proof {
        if r is Some {
            encode_utf8_decode_utf8(r->Some_0@);
        }
    }
    r
}

/// The number whose little-endian bytes these are.
pub open spec fn little_endian(bytes: Seq<u8>) -> nat
    decreases bytes.len(),
{
    if bytes.len() == 0 {
        0
    } else {
        bytes[0] as nat + 256 * little_endian(bytes.drop_first())
    }
}

/// 256 to the power `n`.
pub open spec fn pow256(n: nat) -> nat
    decreases n,
{
    if n == 0 {
        1
    } else {
        256 * pow256((n - 1) as nat)
    }
}

/// `n` bytes hold a number below 256 to the power `n`.
pub proof fn lemma_little_endian_bound(bytes: Seq<u8>)
    ensures
        little_endian(bytes) < pow256(bytes.len()),
    decreases bytes.len(),
{
    if bytes.len() > 0 {
        lemma_little_endian_bound(bytes.drop_first());
    }
}

proof fn lemma_pow256()
    ensures
        pow256(1) == 0x100,
        pow256(2) == 0x1_0000,
        pow256(4) == 0x1_0000_0000,
        pow256(8) == 0x1_0000_0000_0000_0000,
        forall|n: nat| n <= 8 ==> #[trigger] pow256(n) <= pow256(8),
{
    reveal_with_fuel(pow256, 10);
}

/// The number at `at` in `n` little-endian bytes.
pub fn little_endian_at(data: &[u8], at: usize, n: usize) -> (r: u64)
    requires
        n <= 8,
        at + n <= data@.len(),
    ensures
        r == little_endian(data@.subrange(at as int, at + n)),
        r < pow256(n as nat),
        n == 1 ==> r < 0x100,
        n == 2 ==> r < 0x1_0000,
        n == 4 ==> r < 0x1_0000_0000,
{
    let size: usize = data.len();
    let mut i: usize = n;
    let mut value: u64 = 0;
    proof {
        lemma_pow256();
        assert(data@.subrange(at + n, at + n).len() == 0);
    }
    while i > 0
        invariant
            i <= n <= 8,
            at + n <= data@.len() == size,
            value == little_endian(data@.subrange(at + i, at + n)),
        decreases i,
    {
        let ghost rest = data@.subrange(at + i, at + n);
        i -= 1;
        let b: u8 = data[at + i];
        proof {
            let longer = data@.subrange(at + i, at + n);
            assert(longer.drop_first() =~= rest);
            assert(longer[0] == b);
            lemma_little_endian_bound(longer);
            lemma_pow256();
        }
        value = value * 256 + b as u64;
    }
    proof {
        lemma_little_endian_bound(data@.subrange(at as int, at + n));
    }
    value
}

/// A number of `2 * half` values read in two's complement.
pub open spec fn twos_complement(n: int, half: int) -> int {
    if n < half {
        n
    } else {
        n - 2 * half
    }
}

} // verus!
