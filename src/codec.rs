use vstd::prelude::*;
use vstd::utf8::*;

verus! {

/// `256` raised to `n`.
pub open spec fn pow256(n: nat) -> nat
    decreases n,
{
    if n == 0 {
        1
    } else {
        256 * pow256((n - 1) as nat)
    }
}

/// The unsigned number whose little-endian bytes are `s`.
pub open spec fn le_value(s: Seq<u8>) -> nat
    decreases s.len(),
{
    if s.len() == 0 {
        0
    } else {
        s[0] as nat + 256 * le_value(s.drop_first())
    }
}

/// The `n` little-endian bytes of `v` (its low `n` bytes).
pub open spec fn le_bytes(v: nat, n: nat) -> Seq<u8>
    decreases n,
{
    if n == 0 {
        seq![]
    } else {
        seq![(v % 256) as u8] + le_bytes(v / 256, (n - 1) as nat)
    }
}

/// A length-prefixed string: its byte count as eight little-endian bytes, then
/// its UTF-8 bytes.
pub open spec fn str_bytes(s: Seq<char>) -> Seq<u8> {
    le_bytes(encode_utf8(s).len(), 8) + encode_utf8(s)
}

pub proof fn lemma_le_bytes_len(v: nat, n: nat)
    ensures
        le_bytes(v, n).len() == n,
    decreases n,
{
    if n > 0 {
        lemma_le_bytes_len(v / 256, (n - 1) as nat);
    }
}

pub proof fn lemma_pow256_fixed()
    ensures
        pow256(4) == 0x1_0000_0000,
        pow256(8) == 0x1_0000_0000_0000_0000,
        pow256(16) == 0x1_0000_0000_0000_0000_0000_0000_0000_0000,
{
    reveal_with_fuel(pow256, 17);
}

/// Reading back the bytes of a number that fits gives the number.
pub proof fn lemma_le_round_trip(v: nat, n: nat)
    requires
        v < pow256(n),
    ensures
        le_value(le_bytes(v, n)) == v,
        le_bytes(v, n).len() == n,
    decreases n,
{
    lemma_le_bytes_len(v, n);
    if n > 0 {
        let m = (n - 1) as nat;
        assert(v / 256 < pow256(m)) by (nonlinear_arith)
            requires
                v < 256 * pow256(m),
        ;
        lemma_le_round_trip(v / 256, m);
        let b = le_bytes(v, n);
        assert(b.drop_first() =~= le_bytes(v / 256, m));
        assert(v == v % 256 + 256 * (v / 256)) by (nonlinear_arith);
    }
}

/// The value of `n` bytes is below `256` raised to `n`.
pub proof fn lemma_le_value_bound(s: Seq<u8>)
    ensures
        le_value(s) < pow256(s.len()),
    decreases s.len(),
{
    if s.len() > 0 {
        lemma_le_value_bound(s.drop_first());
        let a = s[0] as nat;
        let r = le_value(s.drop_first());
        let p = pow256((s.len() - 1) as nat);
        assert(a + 256 * r < 256 * p) by (nonlinear_arith)
            requires
                a < 256,
                r < p,
        ;
    }
}

/// Writing back the value of some bytes, at their length, gives the bytes.
pub proof fn lemma_le_bytes_of_value(s: Seq<u8>)
    ensures
        le_bytes(le_value(s), s.len()) == s,
    decreases s.len(),
{
    if s.len() > 0 {
        let t = s.drop_first();
        lemma_le_bytes_of_value(t);
        let v = le_value(s);
        let a = s[0] as nat;
        let r = le_value(t);
        assert(v % 256 == a && v / 256 == r) by (nonlinear_arith)
            requires
                v == a + 256 * r,
                a < 256,
        ;
        assert(le_bytes(v, s.len()) =~= s);
    } else {
        assert(le_bytes(le_value(s), 0) =~= s);
    }
}

pub proof fn lemma_u128_round_trip(v: u128)
    ensures
        le_value(le_bytes(v as nat, 16)) == v,
        le_bytes(v as nat, 16).len() == 16,
{
    lemma_pow256_fixed();
    lemma_le_round_trip(v as nat, 16);
}

pub proof fn lemma_u64_round_trip(v: u64)
    ensures
        le_value(le_bytes(v as nat, 8)) == v,
        le_bytes(v as nat, 8).len() == 8,
{
    lemma_pow256_fixed();
    lemma_le_round_trip(v as nat, 8);
}

pub proof fn lemma_u32_round_trip(v: u32)
    ensures
        le_value(le_bytes(v as nat, 4)) == v,
        le_bytes(v as nat, 4).len() == 4,
{
    lemma_pow256_fixed();
    lemma_le_round_trip(v as nat, 4);
}

/// Relies on bincode::serialize with its default options: a `u128` is written as
/// its sixteen little-endian bytes, and writing into a `Vec` cannot fail.
#[verifier::external_body]
pub(crate) fn encode_u128(v: u128) -> (r: Vec<u8>)
    ensures
        r@ == le_bytes(v as nat, 16),
{
    bincode::serialize(&v).unwrap_or_default()
}

/// Relies on bincode::serialize with its default options: a `u64` is written as
/// its eight little-endian bytes.
#[verifier::external_body]
pub(crate) fn encode_u64(v: u64) -> (r: Vec<u8>)
    ensures
        r@ == le_bytes(v as nat, 8),
{
    bincode::serialize(&v).unwrap_or_default()
}

/// Relies on bincode::serialize with its default options: a `u32` is written as
/// its four little-endian bytes.
#[verifier::external_body]
pub(crate) fn encode_u32(v: u32) -> (r: Vec<u8>)
    ensures
        r@ == le_bytes(v as nat, 4),
{
    bincode::serialize(&v).unwrap_or_default()
}

/// Relies on bincode::serialize with its default options: a string is written as
/// its byte length (a `u64`), then its UTF-8 bytes.
#[verifier::external_body]
pub(crate) fn encode_str(s: &str) -> (r: Vec<u8>)
    ensures
        r@ == str_bytes(s@),
{
    bincode::serialize(s).unwrap_or_default()
}

/// Relies on bincode::deserialize with its default options: a `u128` is read from
/// the first sixteen bytes, little-endian; fewer bytes are an error, later bytes
/// are left alone.
#[verifier::external_body]
pub(crate) fn decode_u128(b: &Vec<u8>, pos: usize) -> (r: Option<u128>)
    requires
        pos <= b.len(),
    ensures
        r is Some <==> b.len() - pos >= 16,
        r matches Some(v) ==> v == le_value(b@.subrange(pos as int, pos + 16)),
{
    bincode::deserialize::<u128>(&b[pos..]).ok()
}

/// Relies on bincode::deserialize with its default options: a `u64` is read from
/// the first eight bytes, little-endian; fewer bytes are an error.
#[verifier::external_body]
pub(crate) fn decode_u64(b: &Vec<u8>, pos: usize) -> (r: Option<u64>)
    requires
        pos <= b.len(),
    ensures
        r is Some <==> b.len() - pos >= 8,
        r matches Some(v) ==> v == le_value(b@.subrange(pos as int, pos + 8)),
{
    bincode::deserialize::<u64>(&b[pos..]).ok()
}

/// Relies on bincode::deserialize with its default options: a `u32` is read from
/// the first four bytes, little-endian; fewer bytes are an error.
#[verifier::external_body]
pub(crate) fn decode_u32(b: &Vec<u8>, pos: usize) -> (r: Option<u32>)
    requires
        pos <= b.len(),
    ensures
        r is Some <==> b.len() - pos >= 4,
        r matches Some(v) ==> v == le_value(b@.subrange(pos as int, pos + 4)),
{
    bincode::deserialize::<u32>(&b[pos..]).ok()
}

/// Relies on bincode::deserialize with its default options: a string is read as a
/// `u64` byte length and that many bytes, which must be UTF-8; too few bytes, or
/// bytes that are not UTF-8, are an error.
#[verifier::external_body]
pub(crate) fn decode_string(b: &Vec<u8>, pos: usize) -> (r: Option<String>)
    requires
        pos <= b.len(),
    ensures
        r is Some <==> (b.len() - pos >= 8 && b.len() - pos - 8 >= le_value(
            b@.subrange(pos as int, pos + 8),
        ) && valid_utf8(
            b@.subrange(pos + 8, pos + 8 + le_value(b@.subrange(pos as int, pos + 8))),
        )),
        r matches Some(s) ==> encode_utf8(s@) == b@.subrange(
            pos + 8,
            pos + 8 + le_value(b@.subrange(pos as int, pos + 8)),
        ),
{
    bincode::deserialize::<String>(&b[pos..]).ok()
}

} // verus!
