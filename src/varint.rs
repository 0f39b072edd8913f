use vstd::prelude::*;
use integer_encoding::VarInt;

verus! {

/// The unsigned LEB128 encoding of `n`: seven bits per byte, least
/// significant group first, the high bit set on every byte but the last.
pub open spec fn leb128(n: nat) -> Seq<u8>
    decreases n,
{
    if n < 128 {
        seq![n as u8]
    } else {
        seq![(n % 128 + 128) as u8] + leb128(n / 128)
    }
}

/// Zig-zag mapping of a signed integer onto the naturals: 0, -1, 1, -2, ...
pub open spec fn zigzag(i: int) -> nat {
    if i >= 0 {
        (2 * i) as nat
    } else {
        (-2 * i - 1) as nat
    }
}

/// The inverse of `zigzag`.
pub open spec fn unzigzag(n: nat) -> int {
    if n % 2 == 0 {
        (n / 2) as int
    } else {
        -((n + 1) / 2)
    }
}

/// Reading a LEB128 varint from the front of `s`, taking at most `k` bytes,
/// where the last byte allowed must be 0 or 1: the value and the number of
/// bytes read, or nothing.
pub open spec fn leb128_read(s: Seq<u8>, k: nat) -> Option<(nat, nat)>
    decreases s.len(),
{
    if s.len() == 0 || k == 0 {
        None
    } else if k == 1 {
        if s[0] < 2 {
            Some((s[0] as nat, 1))
        } else {
            None
        }
    } else if s[0] < 128 {
        Some((s[0] as nat, 1))
    } else {
        match leb128_read(s.drop_first(), (k - 1) as nat) {
            Some((v, n)) => Some((((s[0] - 128) + 128 * v) as nat, n + 1)),
            None => None,
        }
    }
}

/// A 64-bit varint read from the front of `s`: at most ten bytes.
pub open spec fn varint_decoded(s: Seq<u8>) -> Option<(u64, usize)> {
    match leb128_read(s, 10) {
        Some((v, n)) => Some((v as u64, n as usize)),
        None => None,
    }
}

/// Relies on integer_encoding's `u64::encode_var_vec`: the LEB128 bytes of `v`.
#[verifier::external_body]
pub(crate) fn encode_u64(v: u64) -> (r: Vec<u8>)
    ensures
        r@ == leb128(v as nat),
{
    v.encode_var_vec()
}

/// Relies on integer_encoding's `i64::encode_var_vec`: the LEB128 bytes of
/// the zig-zag image of `v`.
#[verifier::external_body]
pub(crate) fn encode_i64(v: i64) -> (r: Vec<u8>)
    ensures
        r@ == leb128(zigzag(v as int)),
{
    v.encode_var_vec()
}

/// Relies on integer_encoding's `u64::decode_var`: seven bits from each byte,
/// until a byte below `0x80`; the tenth byte must be 0 or 1.
#[verifier::external_body]
pub(crate) fn decode_u64(src: &[u8]) -> (r: Option<(u64, usize)>)
    ensures
        r == varint_decoded(src@),
        r matches Some((_, n)) ==> 1 <= n <= src@.len(),
{
    u64::decode_var(src)
}

/// Relies on integer_encoding's `i64::decode_var`: the `u64` reading of the
/// same bytes, mapped back through zig-zag.
#[verifier::external_body]
pub(crate) fn decode_i64(src: &[u8]) -> (r: Option<(i64, usize)>)
    ensures
        r == match varint_decoded(src@) {
            Some((n, k)) => Some((unzigzag(n as nat) as i64, k)),
            None => None,
        },
        r matches Some((_, n)) ==> 1 <= n <= src@.len(),
{
    i64::decode_var(src)
}

/// `128` to the power `k`.
pub open spec fn pow128(k: nat) -> nat
    decreases k,
{
    if k == 0 {
        1
    } else {
        128 * pow128((k - 1) as nat)
    }
}

/// LEB128 takes at least one byte, and at most `k` below `128^k`.
pub proof fn lemma_leb128_len(n: nat, k: nat)
    ensures
        1 <= leb128(n).len(),
        1 <= k && n < pow128(k) ==> leb128(n).len() <= k,
    decreases n,
{
    reveal_with_fuel(leb128, 2);
    reveal_with_fuel(pow128, 2);
    if n >= 128 && k > 1 {
        let p = pow128((k - 1) as nat);
        assert(n < 128 * p ==> n / 128 < p) by (nonlinear_arith);
        lemma_leb128_len(n / 128, (k - 1) as nat);
    } else if n >= 128 {
        lemma_leb128_len(n / 128, k);
    }
}

/// A 64-bit value takes at most ten bytes.
pub proof fn lemma_leb128_len_u64(n: u64)
    ensures
        1 <= leb128(n as nat).len() <= 10,
{
    reveal_with_fuel(pow128, 11);
    assert(pow128(10) == 0x40_0000_0000_0000_0000);
    lemma_leb128_len(n as nat, 10);
}

/// Zig-zag maps `i64` onto `u64`, and back.
pub proof fn lemma_zigzag(i: i64)
    ensures
        zigzag(i as int) <= u64::MAX,
        unzigzag(zigzag(i as int)) == i as int,
{
}

/// Reading back the LEB128 bytes of `n`, followed by anything, gives `n`
/// and the number of those bytes.
pub proof fn lemma_leb128_read(n: nat, k: nat, rest: Seq<u8>)
    requires
        1 <= k,
        n < 2 * pow128((k - 1) as nat),
    ensures
        leb128_read(leb128(n) + rest, k) == Some((n, leb128(n).len())),
    decreases n,
{
    reveal_with_fuel(leb128, 2);
    reveal_with_fuel(pow128, 2);
    let s = leb128(n) + rest;
    if n < 128 {
        assert(s[0] == n as u8);
    } else {
        let m = n / 128;
        assert(k > 1) by {
            assert(pow128(0) == 1);
        }
        let p = pow128((k - 2) as nat);
        assert(pow128((k - 1) as nat) == 128 * p);
        assert(n < 2 * (128 * p) ==> m < 2 * p) by (nonlinear_arith)
            requires m == n / 128;
        lemma_leb128_read(m, (k - 1) as nat, rest);
        assert(s.drop_first() =~= leb128(m) + rest);
        assert(s[0] == (n % 128 + 128) as u8);
    }
}

/// A `u64` varint reads back to the value, and the bytes after it are left.
pub proof fn lemma_varint_round_trip(v: u64, rest: Seq<u8>)
    ensures
        varint_decoded(leb128(v as nat) + rest) == Some((v, leb128(v as nat).len() as usize)),
        leb128(v as nat).len() <= 10,
{
    reveal_with_fuel(pow128, 10);
    assert(2 * pow128(9) == 0x1_0000_0000_0000_0000);
    lemma_leb128_read(v as nat, 10, rest);
    lemma_leb128_len_u64(v);
}

} // verus!
