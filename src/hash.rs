use vstd::prelude::*;

use crate::block::BlockHash;

verus! {

/// Why a string was not taken as a block hash.
#[derive(Clone, Copy, Debug, PartialEq, Eq, Structural)]
pub enum HashParseError {
    /// The string (after its `0x` prefixes) is not an even number of hex
    /// digits.
    NotHex,
    /// The digits decode to this many bytes rather than 32.
    WrongLength(usize),
}

/// `s` with every leading `0x` removed.
pub open spec fn strip_hex_prefix(s: Seq<char>) -> Seq<char>
    decreases s.len(),
{
    if s.len() >= 2 && s[0] == '0' && s[1] == 'x' {
        strip_hex_prefix(s.subrange(2, s.len() as int))
    } else {
        s
    }
}

pub open spec fn is_hex_digit(c: char) -> bool {
    ('0' <= c && c <= '9') || ('a' <= c && c <= 'f') || ('A' <= c && c <= 'F')
}

pub open spec fn hex_digit_value(c: char) -> int {
    if '0' <= c && c <= '9' {
        c as int - '0' as int
    } else if 'a' <= c && c <= 'f' {
        c as int - 'a' as int + 10
    } else {
        c as int - 'A' as int + 10
    }
}

/// `s` is an even number of hex digits, upper or lower case.
pub open spec fn is_hex_string(s: Seq<char>) -> bool {
    s.len() % 2 == 0 && forall|i: int| 0 <= i < s.len() ==> is_hex_digit(#[trigger] s[i])
}

/// The bytes that a string of hex digits spells, two digits to a byte,
/// high digit first.
pub open spec fn hex_bytes(s: Seq<char>) -> Seq<u8> {
    Seq::new(
        (s.len() / 2) as nat,
        |i: int| (hex_digit_value(s[2 * i]) * 16 + hex_digit_value(s[2 * i + 1])) as u8,
    )
}

/// Relies on `hex::decode`: it accepts exactly an even number of hex digits
/// and turns each pair into one byte, high digit first.
#[verifier::external_body]
fn hex_decode(s: &str) -> (r: Option<Vec<u8>>)
    ensures
        r is Some <==> is_hex_string(s@),
        r matches Some(b) ==> b@ == hex_bytes(s@),
{
    hex::decode(s).ok()
}

/// The number that `bytes` denote, most significant first.
pub open spec fn be_value(bytes: Seq<u8>) -> int
    decreases bytes.len(),
{
    if bytes.len() == 0 {
        0
    } else {
        be_value(bytes.drop_last()) * 256 + bytes.last() as int
    }
}

pub open spec fn pow256(n: nat) -> int
    decreases n,
{
    if n == 0 {
        1
    } else {
        256 * pow256((n - 1) as nat)
    }
}

proof fn lemma_be_value_bound(bytes: Seq<u8>)
    ensures
        0 <= be_value(bytes) < pow256(bytes.len()),
    decreases bytes.len(),
{
    if bytes.len() > 0 {
        let p = bytes.drop_last();
        lemma_be_value_bound(p);
        let v = be_value(p);
        let m = pow256(p.len());
        let b = bytes.last() as int;
        assert(v * 256 + b < m * 256) by (nonlinear_arith)
            requires
                0 <= v < m,
                0 <= b < 256,
        ;
        assert(0 <= v * 256 + b) by (nonlinear_arith)
            requires
                0 <= v,
                0 <= b,
        ;
    }
}

/// The block hash whose 32 bytes are `bytes`, most significant first.
pub open spec fn hash_of_bytes(bytes: Seq<u8>) -> BlockHash {
    BlockHash {
        hi: be_value(bytes.subrange(0, 16)) as u128,
        lo: be_value(bytes.subrange(16, 32)) as u128,
    }
}

/// What `parse_block_hash` makes of `s`.
pub open spec fn block_hash_of(s: Seq<char>) -> Result<BlockHash, HashParseError> {
    let t = strip_hex_prefix(s);
    if !is_hex_string(t) {
        Err(HashParseError::NotHex)
    } else if t.len() / 2 != 32 {
        Err(HashParseError::WrongLength((t.len() / 2) as usize))
    } else {
        Ok(hash_of_bytes(hex_bytes(t)))
    }
}

/// The number that `bytes[lo..lo + 16]` denote, most significant first.
fn u128_of(bytes: &Vec<u8>, lo: usize) -> (r: u128)
    requires
        lo + 16 <= bytes@.len(),
    ensures
        r as int == be_value(bytes@.subrange(lo as int, lo + 16)),
{
    let n = bytes.len();
    let mut acc: u128 = 0;
    let mut k: usize = 0;
    while k < 16
        invariant
            n == bytes@.len(),
            lo + 16 <= bytes@.len(),
            k <= 16,
            acc as int == be_value(bytes@.subrange(lo as int, lo + k)),
        decreases 16 - k,
    {
        let ghost prev = bytes@.subrange(lo as int, lo + k);
        let ghost next = bytes@.subrange(lo as int, lo + k + 1);
        assert(next.drop_last() =~= prev);
        proof {
            lemma_be_value_bound(next);
            assert(pow256(k as nat + 1) <= pow256(16)) by {
                lemma_pow256_mono(k as nat + 1, 16);
            }
            assert(pow256(16) == 0x1_0000_0000_0000_0000_0000_0000_0000_0000) by {
                reveal_with_fuel(pow256, 17);
            }
        }
        acc = acc * 256 + bytes[lo + k] as u128;
        k = k + 1;
    }
    acc
}

proof fn lemma_pow256_mono(a: nat, b: nat)
    requires
        a <= b,
    ensures
        0 < pow256(a) <= pow256(b),
    decreases b,
{
    if b > 0 && a < b {
        lemma_pow256_mono(a, (b - 1) as nat);
    } else if b > 0 {
        lemma_pow256_mono((a - 1) as nat, (b - 1) as nat);
    }
}

/// The position in `s` after its leading `0x` prefixes.
fn hex_prefix_end(s: &str) -> (r: usize)
    ensures
        r <= s@.len(),
        s@.subrange(r as int, s@.len() as int) == strip_hex_prefix(s@),
{
    let n = s.unicode_len();
    let mut start: usize = 0;
    assert(s@.subrange(0, n as int) =~= s@);
    while n - start >= 2 && s.get_char(start) == '0' && s.get_char(start + 1) == 'x'
        invariant
            n == s@.len(),
            start <= n,
            strip_hex_prefix(s@.subrange(start as int, n as int)) == strip_hex_prefix(s@),
        decreases n - start,
    {
        let ghost t = s@.subrange(start as int, n as int);
        assert(t.subrange(2, t.len() as int) =~= s@.subrange(start + 2, n as int));
        start = start + 2;
    }
    let ghost t = s@.subrange(start as int, n as int);
    if n - start >= 2 {
        assert(t[0] == s@[start as int] && t[1] == s@[start + 1]);
    }
    start
}

/// Reads a block hash written as 64 hex digits, with or without `0x`
/// prefixes.
pub fn parse_block_hash(s: &str) -> (r: Result<BlockHash, HashParseError>)
    ensures
        r == block_hash_of(s@),
{
    let start = hex_prefix_end(s);
    let n = s.unicode_len();
    let digits = s.substring_char(start, n);
    let bytes = match hex_decode(digits) {
        None => { return Err(HashParseError::NotHex); },
        Some(b) => b,
    };
    assert(bytes@.len() == digits@.len() / 2);
    if bytes.len() != 32 {
        return Err(HashParseError::WrongLength(bytes.len()));
    }
    let hi = u128_of(&bytes, 0);
    let lo = u128_of(&bytes, 16);
    Ok(BlockHash { hi, lo })
}

} // verus!
