use vstd::prelude::*;
use vstd::utf8::{encode_utf8, encode_utf8_decode_utf8, encode_utf8_valid_utf8};
use crate::error::CordError;
use crate::de::{trailing_bytes, Parsed};
use crate::types::{decodable_millis, parse_datetime_spec};
use crate::value::{all_fit, decode_fields, decode_repeat, decode_val, each_fits, encode_val, encode_vals, fits, Sh, Val};
use crate::de::{parse_bool_spec, parse_option_tag_spec, parse_unsigned_spec, parse_signed_spec, parse_bytes_spec, parse_string_spec, parse_u8_spec, parse_u16_spec, parse_u32_spec, parse_u64_spec, parse_usize_spec, parse_i8_spec, parse_i16_spec, parse_i32_spec, parse_i64_spec};
use crate::ser::{encode_bool_spec, encode_unsigned_spec, encode_signed_spec, encode_bytes_spec, encode_string_spec};
use crate::varint::{lemma_varint_round_trip, lemma_zigzag, leb128, zigzag, unzigzag};

verus! {

/// A boolean reads back as itself, and the bytes after it are left.
pub proof fn lemma_bool_round_trip(b: bool, rest: Seq<u8>)
    ensures
        parse_bool_spec(encode_bool_spec(b) + rest) == Ok::<(bool, Seq<u8>), CordError>((b, rest)),
{
    assert((encode_bool_spec(b) + rest).drop_first() =~= rest);
}

/// An option's presence byte reads back as written.
pub proof fn lemma_option_tag_round_trip(present: bool, rest: Seq<u8>)
    ensures
        parse_option_tag_spec((if present { seq![1u8] } else { seq![0u8] }) + rest)
            == Ok::<(bool, Seq<u8>), CordError>((present, rest)),
{
    let s = (if present { seq![1u8] } else { seq![0u8] }) + rest;
    assert(s.drop_first() =~= rest);
}

/// An unsigned varint reads back as itself under any bound it meets.
pub proof fn lemma_unsigned_round_trip(v: u64, max: u64, rest: Seq<u8>)
    requires
        v <= max,
    ensures
        parse_unsigned_spec(encode_unsigned_spec(v) + rest, max) == Ok::<(u64, Seq<u8>), CordError>((v, rest)),
{
    let e = leb128(v as nat);
    lemma_varint_round_trip(v, rest);
    assert((e + rest).subrange(e.len() as int, (e + rest).len() as int) =~= rest);
}

/// A signed varint reads back as itself within any range that holds it.
pub proof fn lemma_signed_round_trip(v: i64, min: i64, max: i64, rest: Seq<u8>)
    requires
        min <= v <= max,
    ensures
        parse_signed_spec(encode_signed_spec(v) + rest, min, max) == Ok::<(i64, Seq<u8>), CordError>((v, rest)),
{
    lemma_zigzag(v);
    let z = zigzag(v as int) as u64;
    let e = leb128(z as nat);
    lemma_varint_round_trip(z, rest);
    assert((e + rest).subrange(e.len() as int, (e + rest).len() as int) =~= rest);
}

/// A `u8` reads back as itself.
pub proof fn lemma_u8_round_trip(v: u8, rest: Seq<u8>)
    ensures
        parse_u8_spec(encode_unsigned_spec(v as u64) + rest) == Ok::<(u8, Seq<u8>), CordError>((v, rest)),
{
    lemma_unsigned_round_trip(v as u64, u8::MAX as u64, rest);
}

/// A `u16` reads back as itself.
pub proof fn lemma_u16_round_trip(v: u16, rest: Seq<u8>)
    ensures
        parse_u16_spec(encode_unsigned_spec(v as u64) + rest) == Ok::<(u16, Seq<u8>), CordError>((v, rest)),
{
    lemma_unsigned_round_trip(v as u64, u16::MAX as u64, rest);
}

/// A `u32` reads back as itself.
pub proof fn lemma_u32_round_trip(v: u32, rest: Seq<u8>)
    ensures
        parse_u32_spec(encode_unsigned_spec(v as u64) + rest) == Ok::<(u32, Seq<u8>), CordError>((v, rest)),
{
    lemma_unsigned_round_trip(v as u64, u32::MAX as u64, rest);
}

/// A `u64` reads back as itself.
pub proof fn lemma_u64_round_trip(v: u64, rest: Seq<u8>)
    ensures
        parse_u64_spec(encode_unsigned_spec(v as u64) + rest) == Ok::<(u64, Seq<u8>), CordError>((v, rest)),
{
    lemma_unsigned_round_trip(v as u64, u64::MAX as u64, rest);
}

/// A `usize` reads back as itself.
pub proof fn lemma_usize_round_trip(v: usize, rest: Seq<u8>)
    ensures
        parse_usize_spec(encode_unsigned_spec(v as u64) + rest) == Ok::<(usize, Seq<u8>), CordError>((v, rest)),
{
    lemma_unsigned_round_trip(v as u64, usize::MAX as u64, rest);
}

/// An `i8` reads back as itself.
pub proof fn lemma_i8_round_trip(v: i8, rest: Seq<u8>)
    ensures
        parse_i8_spec(encode_signed_spec(v as i64) + rest) == Ok::<(i8, Seq<u8>), CordError>((v, rest)),
{
    lemma_signed_round_trip(v as i64, i8::MIN as i64, i8::MAX as i64, rest);
}

/// An `i16` reads back as itself.
pub proof fn lemma_i16_round_trip(v: i16, rest: Seq<u8>)
    ensures
        parse_i16_spec(encode_signed_spec(v as i64) + rest) == Ok::<(i16, Seq<u8>), CordError>((v, rest)),
{
    lemma_signed_round_trip(v as i64, i16::MIN as i64, i16::MAX as i64, rest);
}

/// An `i32` reads back as itself.
pub proof fn lemma_i32_round_trip(v: i32, rest: Seq<u8>)
    ensures
        parse_i32_spec(encode_signed_spec(v as i64) + rest) == Ok::<(i32, Seq<u8>), CordError>((v, rest)),
{
    lemma_signed_round_trip(v as i64, i32::MIN as i64, i32::MAX as i64, rest);
}

/// An `i64` reads back as itself.
pub proof fn lemma_i64_round_trip(v: i64, rest: Seq<u8>)
    ensures
        parse_i64_spec(encode_signed_spec(v as i64) + rest) == Ok::<(i64, Seq<u8>), CordError>((v, rest)),
{
    lemma_signed_round_trip(v as i64, i64::MIN as i64, i64::MAX as i64, rest);
}

/// A byte string reads back as itself.
pub proof fn lemma_bytes_round_trip(b: Seq<u8>, rest: Seq<u8>)
    requires
        b.len() <= usize::MAX,
    ensures
        parse_bytes_spec(encode_bytes_spec(b) + rest) == Ok::<(Seq<u8>, Seq<u8>), CordError>((b, rest)),
{
    let tail = b + rest;
    assert(encode_bytes_spec(b) + rest =~= encode_unsigned_spec(b.len() as usize as u64) + tail);
    lemma_usize_round_trip(b.len() as usize, tail);
    assert(tail.subrange(0, b.len() as int) =~= b);
    assert(tail.subrange(b.len() as int, tail.len() as int) =~= rest);
}

/// A string reads back as itself.
pub proof fn lemma_string_round_trip(t: Seq<char>, rest: Seq<u8>)
    requires
        encode_utf8(t).len() <= usize::MAX,
    ensures
        parse_string_spec(encode_string_spec(t) + rest) == Ok::<(Seq<char>, Seq<u8>), CordError>((t, rest)),
{
    lemma_bytes_round_trip(encode_utf8(t), rest);
    encode_utf8_valid_utf8(t);
    encode_utf8_decode_utf8(t);
}

/// A timestamp reads back as itself whenever chrono can take it apart again;
/// a pre-epoch instant that is not a whole second cannot.
pub proof fn lemma_datetime_round_trip(m: i64, rest: Seq<u8>)
    requires
        decodable_millis(m),
    ensures
        parse_datetime_spec(encode_unsigned_spec(#[verifier::truncate] (m as u64)) + rest) == Some(
            (m, rest),
        ),
{
    let u = #[verifier::truncate] (m as u64);
    assert((#[verifier::truncate] (u as i64)) == m) by (bit_vector)
        requires
            u == #[verifier::truncate] (m as u64),
    ;
    lemma_u64_round_trip(u, rest);
}

/// Decoding a whole buffer: the value read, when nothing is left after it.
pub open spec fn whole<T>(p: Parsed<T>) -> Result<T, CordError> {
    match p {
        Ok((v, rest)) => if rest.len() == 0 {
            Ok(v)
        } else {
            Err(trailing_bytes())
        },
        Err(e) => Err(e),
    }
}

/// For any shape whose reader gives back `v` from `e` and leaves what follows,
/// decoding exactly `e` succeeds and decoding `e` with one more byte fails
/// with the trailing-bytes error.
pub proof fn lemma_trailing_data<T>(parse: spec_fn(Seq<u8>) -> Parsed<T>, e: Seq<u8>, v: T, extra: u8)
    requires
        forall|rest: Seq<u8>| #[trigger] parse(e + rest) == Ok::<(T, Seq<u8>), CordError>((v, rest)),
    ensures
        whole(parse(e)) == Ok::<T, CordError>(v),
        whole(parse(e + seq![extra])) == Err::<T, CordError>(trailing_bytes()),
{
    assert(e + Seq::<u8>::empty() =~= e);
    assert(parse(e + Seq::<u8>::empty()) == Ok::<(T, Seq<u8>), CordError>((v, Seq::<u8>::empty())));
    assert(parse(e + seq![extra]) == Ok::<(T, Seq<u8>), CordError>((v, seq![extra])));
}

/// Under `valid`, the reader `p` gives back each value that `e` writes, and
/// leaves whatever follows.
pub open spec fn reads_back<T>(
    p: spec_fn(Seq<u8>) -> Parsed<T>,
    e: spec_fn(T) -> Seq<u8>,
    valid: spec_fn(T) -> bool,
) -> bool {
    forall|v: T, rest: Seq<u8>|
        valid(v) ==> #[trigger] p(e(v) + rest) == Ok::<(T, Seq<u8>), CordError>((v, rest))
}

/// Every value of the type.
pub open spec fn any<T>() -> spec_fn(T) -> bool {
    |v: T| true
}

/// Reads an option: the presence byte, then, if present, the value `p` reads.
pub open spec fn parse_option_with<T>(p: spec_fn(Seq<u8>) -> Parsed<T>, s: Seq<u8>) -> Parsed<
    Option<T>,
> {
    match parse_option_tag_spec(s) {
        Ok((present, rest)) => if !present {
            Ok((None, rest))
        } else {
            match p(rest) {
                Ok((v, after)) => Ok((Some(v), after)),
                Err(err) => Err(err),
            }
        },
        Err(err) => Err(err),
    }
}

/// Writes an option: `0x00`, or `0x01` and the value as `e` writes it.
pub open spec fn encode_option_with<T>(e: spec_fn(T) -> Seq<u8>, v: Option<T>) -> Seq<u8> {
    match v {
        None => seq![0u8],
        Some(x) => seq![1u8] + e(x),
    }
}

/// Reads `n` values one after another, each as `p` reads it.
pub open spec fn parse_n_with<T>(p: spec_fn(Seq<u8>) -> Parsed<T>, n: nat, s: Seq<u8>) -> Parsed<
    Seq<T>,
>
    decreases n,
{
    if n == 0 {
        Ok((Seq::empty(), s))
    } else {
        match parse_n_with(p, (n - 1) as nat, s) {
            Ok((vs, rest)) => match p(rest) {
                Ok((v, after)) => Ok((vs.push(v), after)),
                Err(err) => Err(err),
            },
            Err(err) => Err(err),
        }
    }
}

/// Writes values one after another with no framing: a fixed-size tuple of
/// one element type.
pub open spec fn encode_n_with<T>(e: spec_fn(T) -> Seq<u8>, vs: Seq<T>) -> Seq<u8>
    decreases vs.len(),
{
    if vs.len() == 0 {
        Seq::empty()
    } else {
        encode_n_with(e, vs.drop_last()) + e(vs.last())
    }
}

/// Reads a dynamically sized sequence: its length, then that many values.
pub open spec fn parse_seq_with<T>(p: spec_fn(Seq<u8>) -> Parsed<T>, s: Seq<u8>) -> Parsed<
    Seq<T>,
> {
    match parse_usize_spec(s) {
        Ok((n, rest)) => parse_n_with(p, n as nat, rest),
        Err(err) => Err(err),
    }
}

/// Writes a dynamically sized sequence: its length, then each value.
pub open spec fn encode_seq_with<T>(e: spec_fn(T) -> Seq<u8>, vs: Seq<T>) -> Seq<u8> {
    encode_unsigned_spec(vs.len() as u64) + encode_n_with(e, vs)
}

/// Reads a pair of fields, the first as `pa` reads it, then the second.
pub open spec fn parse_pair_with<A, B>(
    pa: spec_fn(Seq<u8>) -> Parsed<A>,
    pb: spec_fn(Seq<u8>) -> Parsed<B>,
    s: Seq<u8>,
) -> Parsed<(A, B)> {
    match pa(s) {
        Ok((a, rest)) => match pb(rest) {
            Ok((b, after)) => Ok(((a, b), after)),
            Err(err) => Err(err),
        },
        Err(err) => Err(err),
    }
}

/// Reads a tagged union: the variant index, then the payload that the
/// reader for that variant reads.
pub open spec fn parse_variant_with<T>(
    payload: spec_fn(u32) -> spec_fn(Seq<u8>) -> Parsed<T>,
    s: Seq<u8>,
) -> Parsed<(u32, T)> {
    match parse_u32_spec(s) {
        Ok((index, rest)) => match payload(index)(rest) {
            Ok((v, after)) => Ok(((index, v), after)),
            Err(err) => Err(err),
        },
        Err(err) => Err(err),
    }
}

/// An option reads back whenever its value does.
pub proof fn lemma_option_round_trip<T>(
    p: spec_fn(Seq<u8>) -> Parsed<T>,
    e: spec_fn(T) -> Seq<u8>,
    valid: spec_fn(T) -> bool,
    v: Option<T>,
    rest: Seq<u8>,
)
    requires
        reads_back(p, e, valid),
        v matches Some(x) ==> valid(x),
    ensures
        parse_option_with(p, encode_option_with(e, v) + rest) == Ok::<(Option<T>, Seq<u8>), CordError>(
            (v, rest),
        ),
{
    match v {
        None => {
            lemma_option_tag_round_trip(false, rest);
        },
        Some(x) => {
            assert(seq![1u8] + e(x) + rest =~= seq![1u8] + (e(x) + rest));
            lemma_option_tag_round_trip(true, e(x) + rest);
            assert(p(e(x) + rest) == Ok::<(T, Seq<u8>), CordError>((x, rest)));
        },
    }
}

/// Values written one after another read back, in order.
pub proof fn lemma_n_round_trip<T>(
    p: spec_fn(Seq<u8>) -> Parsed<T>,
    e: spec_fn(T) -> Seq<u8>,
    valid: spec_fn(T) -> bool,
    vs: Seq<T>,
    rest: Seq<u8>,
)
    requires
        reads_back(p, e, valid),
        forall|i: int| 0 <= i < vs.len() ==> valid(#[trigger] vs[i]),
    ensures
        parse_n_with(p, vs.len(), encode_n_with(e, vs) + rest) == Ok::<(Seq<T>, Seq<u8>), CordError>(
            (vs, rest),
        ),
    decreases vs.len(),
{
    if vs.len() > 0 {
        let init = vs.drop_last();
        let last = vs.last();
        let tail = e(last) + rest;
        assert(encode_n_with(e, vs) + rest =~= encode_n_with(e, init) + tail);
        assert forall|i: int| 0 <= i < init.len() implies valid(#[trigger] init[i]) by {
            assert(init[i] == vs[i]);
        }
        lemma_n_round_trip(p, e, valid, init, tail);
        assert(valid(vs[vs.len() - 1]));
        assert(p(tail) == Ok::<(T, Seq<u8>), CordError>((last, rest)));
        assert(init.push(last) =~= vs);
    } else {
        assert(encode_n_with(e, vs) + rest =~= rest);
        assert(vs =~= Seq::<T>::empty());
    }
}

/// A dynamically sized sequence reads back whenever its elements do.
pub proof fn lemma_seq_round_trip<T>(
    p: spec_fn(Seq<u8>) -> Parsed<T>,
    e: spec_fn(T) -> Seq<u8>,
    valid: spec_fn(T) -> bool,
    vs: Seq<T>,
    rest: Seq<u8>,
)
    requires
        reads_back(p, e, valid),
        forall|i: int| 0 <= i < vs.len() ==> valid(#[trigger] vs[i]),
        vs.len() <= usize::MAX,
    ensures
        parse_seq_with(p, encode_seq_with(e, vs) + rest) == Ok::<(Seq<T>, Seq<u8>), CordError>(
            (vs, rest),
        ),
{
    let body = encode_n_with(e, vs) + rest;
    assert(encode_seq_with(e, vs) + rest =~= encode_unsigned_spec(vs.len() as usize as u64) + body);
    lemma_usize_round_trip(vs.len() as usize, body);
    lemma_n_round_trip(p, e, valid, vs, rest);
}

/// A pair of fields, written one after the other, reads back whenever each
/// field does.
pub proof fn lemma_pair_round_trip<A, B>(
    pa: spec_fn(Seq<u8>) -> Parsed<A>,
    ea: spec_fn(A) -> Seq<u8>,
    va: spec_fn(A) -> bool,
    pb: spec_fn(Seq<u8>) -> Parsed<B>,
    eb: spec_fn(B) -> Seq<u8>,
    vb: spec_fn(B) -> bool,
    a: A,
    b: B,
    rest: Seq<u8>,
)
    requires
        reads_back(pa, ea, va),
        reads_back(pb, eb, vb),
        va(a),
        vb(b),
    ensures
        parse_pair_with(pa, pb, ea(a) + eb(b) + rest) == Ok::<((A, B), Seq<u8>), CordError>(
            ((a, b), rest),
        ),
{
    assert(ea(a) + eb(b) + rest =~= ea(a) + (eb(b) + rest));
    assert(pa(ea(a) + (eb(b) + rest)) == Ok::<(A, Seq<u8>), CordError>((a, eb(b) + rest)));
    assert(pb(eb(b) + rest) == Ok::<(B, Seq<u8>), CordError>((b, rest)));
}

/// A tagged union reads back whenever the payload of its variant does.
pub proof fn lemma_variant_round_trip<T>(
    payload: spec_fn(u32) -> spec_fn(Seq<u8>) -> Parsed<T>,
    e: spec_fn(T) -> Seq<u8>,
    valid: spec_fn(T) -> bool,
    index: u32,
    v: T,
    rest: Seq<u8>,
)
    requires
        reads_back(payload(index), e, valid),
        valid(v),
    ensures
        parse_variant_with(payload, encode_unsigned_spec(index as u64) + e(v) + rest) == Ok::<
            ((u32, T), Seq<u8>),
            CordError,
        >(((index, v), rest)),
{
    assert(encode_unsigned_spec(index as u64) + e(v) + rest =~= encode_unsigned_spec(index as u64) + (
    e(v) + rest));
    lemma_u32_round_trip(index, e(v) + rest);
    assert(payload(index)(e(v) + rest) == Ok::<(T, Seq<u8>), CordError>((v, rest)));
}

/// Each primitive reader gives back what its writer writes.
pub proof fn lemma_primitives_read_back()
    ensures
        reads_back(|s| parse_bool_spec(s), |b| encode_bool_spec(b), any()),
        reads_back(|s| parse_u8_spec(s), |v: u8| encode_unsigned_spec(v as u64), any()),
        reads_back(|s| parse_u16_spec(s), |v: u16| encode_unsigned_spec(v as u64), any()),
        reads_back(|s| parse_u32_spec(s), |v: u32| encode_unsigned_spec(v as u64), any()),
        reads_back(|s| parse_u64_spec(s), |v: u64| encode_unsigned_spec(v), any()),
        reads_back(|s| parse_i8_spec(s), |v: i8| encode_signed_spec(v as i64), any()),
        reads_back(|s| parse_i16_spec(s), |v: i16| encode_signed_spec(v as i64), any()),
        reads_back(|s| parse_i32_spec(s), |v: i32| encode_signed_spec(v as i64), any()),
        reads_back(|s| parse_i64_spec(s), |v: i64| encode_signed_spec(v), any()),
        reads_back(
            |s| parse_bytes_spec(s),
            |b| encode_bytes_spec(b),
            |b: Seq<u8>| b.len() <= usize::MAX,
        ),
        reads_back(
            |s| parse_string_spec(s),
            |t| encode_string_spec(t),
            |t: Seq<char>| encode_utf8(t).len() <= usize::MAX,
        ),
        reads_back(|s: Seq<u8>| Ok::<((), Seq<u8>), CordError>(((), s)), |u: ()| Seq::<u8>::empty(), any()),
{
    assert forall|b: bool, rest: Seq<u8>| #[trigger] parse_bool_spec(encode_bool_spec(b) + rest) == Ok::<(bool, Seq<u8>), CordError>((b, rest)) by {
        lemma_bool_round_trip(b, rest);
    }
    assert forall|v: u8, rest: Seq<u8>| #[trigger] parse_u8_spec(encode_unsigned_spec(v as u64) + rest) == Ok::<(u8, Seq<u8>), CordError>((v, rest)) by {
        lemma_u8_round_trip(v, rest);
    }
    assert forall|v: u16, rest: Seq<u8>| #[trigger] parse_u16_spec(encode_unsigned_spec(v as u64) + rest) == Ok::<(u16, Seq<u8>), CordError>((v, rest)) by {
        lemma_u16_round_trip(v, rest);
    }
    assert forall|v: u32, rest: Seq<u8>| #[trigger] parse_u32_spec(encode_unsigned_spec(v as u64) + rest) == Ok::<(u32, Seq<u8>), CordError>((v, rest)) by {
        lemma_u32_round_trip(v, rest);
    }
    assert forall|v: u64, rest: Seq<u8>| #[trigger] parse_u64_spec(encode_unsigned_spec(v) + rest) == Ok::<(u64, Seq<u8>), CordError>((v, rest)) by {
        lemma_u64_round_trip(v, rest);
    }
    assert forall|v: i8, rest: Seq<u8>| #[trigger] parse_i8_spec(encode_signed_spec(v as i64) + rest) == Ok::<(i8, Seq<u8>), CordError>((v, rest)) by {
        lemma_i8_round_trip(v, rest);
    }
    assert forall|v: i16, rest: Seq<u8>| #[trigger] parse_i16_spec(encode_signed_spec(v as i64) + rest) == Ok::<(i16, Seq<u8>), CordError>((v, rest)) by {
        lemma_i16_round_trip(v, rest);
    }
    assert forall|v: i32, rest: Seq<u8>| #[trigger] parse_i32_spec(encode_signed_spec(v as i64) + rest) == Ok::<(i32, Seq<u8>), CordError>((v, rest)) by {
        lemma_i32_round_trip(v, rest);
    }
    assert forall|v: i64, rest: Seq<u8>| #[trigger] parse_i64_spec(encode_signed_spec(v) + rest) == Ok::<(i64, Seq<u8>), CordError>((v, rest)) by {
        lemma_i64_round_trip(v, rest);
    }
    assert forall|b: Seq<u8>, rest: Seq<u8>| b.len() <= usize::MAX implies #[trigger] parse_bytes_spec(encode_bytes_spec(b) + rest) == Ok::<(Seq<u8>, Seq<u8>), CordError>((b, rest)) by {
        lemma_bytes_round_trip(b, rest);
    }
    assert forall|t: Seq<char>, rest: Seq<u8>| encode_utf8(t).len() <= usize::MAX implies #[trigger] parse_string_spec(encode_string_spec(t) + rest) == Ok::<(Seq<char>, Seq<u8>), CordError>((t, rest)) by {
        lemma_string_round_trip(t, rest);
    }
    assert forall|rest: Seq<u8>| #[trigger] (Seq::<u8>::empty() + rest) == rest by {
        assert(Seq::<u8>::empty() + rest =~= rest);
    }
}

/// Every value reads back from its encoding under its shape, whatever
/// follows it.
pub proof fn lemma_value_round_trip(v: Val, sh: Sh, rest: Seq<u8>)
    requires
        fits(v, sh),
    ensures
        decode_val(sh, encode_val(v) + rest) == Ok::<(Val, Seq<u8>), CordError>((v, rest)),
    decreases v, 0nat,
{
    let s = encode_val(v) + rest;
    match v {
        Val::Unit => {
            assert(s =~= rest);
        },
        Val::Bool(b) => lemma_bool_round_trip(b, rest),
        Val::U8(x) => lemma_u8_round_trip(x, rest),
        Val::U16(x) => lemma_u16_round_trip(x, rest),
        Val::U32(x) => lemma_u32_round_trip(x, rest),
        Val::U64(x) => lemma_u64_round_trip(x, rest),
        Val::I8(x) => lemma_i8_round_trip(x, rest),
        Val::I16(x) => lemma_i16_round_trip(x, rest),
        Val::I32(x) => lemma_i32_round_trip(x, rest),
        Val::I64(x) => lemma_i64_round_trip(x, rest),
        Val::Str(t) => lemma_string_round_trip(t, rest),
        Val::Bytes(b) => lemma_bytes_round_trip(b, rest),
        Val::Opt(None) => lemma_option_tag_round_trip(false, rest),
        Val::Opt(Some(x)) => {
            let inner = sh->Opt_0;
            assert(s =~= seq![1u8] + (encode_val(*x) + rest));
            lemma_option_tag_round_trip(true, encode_val(*x) + rest);
            lemma_value_round_trip(*x, *inner, rest);
        },
        Val::List(xs) => {
            let inner = sh->List_0;
            let body = encode_vals(xs, xs.len() as int) + rest;
            assert(s =~= encode_unsigned_spec(xs.len() as usize as u64) + body);
            lemma_usize_round_trip(xs.len() as usize, body);
            lemma_repeat_round_trip(xs, xs.len() as int, *inner, rest);
            assert(xs.subrange(0, xs.len() as int) =~= xs);
        },
        Val::Tuple(xs) => {
            let shapes = sh->Tuple_0;
            lemma_fields_round_trip(xs, xs.len() as int, shapes, rest);
            assert(xs.subrange(0, xs.len() as int) =~= xs);
        },
        Val::Variant(i, x) => {
            let variants = sh->Enum_0;
            assert(s =~= encode_unsigned_spec(i as u64) + (encode_val(*x) + rest));
            lemma_u32_round_trip(i, encode_val(*x) + rest);
            lemma_value_round_trip(*x, variants[i as int], rest);
        },
    }
}

/// The first `n` values of a run of one shape read back in order.
pub proof fn lemma_repeat_round_trip(xs: Seq<Val>, n: int, sh: Sh, rest: Seq<u8>)
    requires
        0 <= n <= xs.len(),
        all_fit(xs, n, sh),
    ensures
        decode_repeat(sh, n, encode_vals(xs, n) + rest) == Ok::<(Seq<Val>, Seq<u8>), CordError>(
            (xs.subrange(0, n), rest),
        ),
    decreases xs, n,
{
    if n == 0 {
        assert(encode_vals(xs, n) + rest =~= rest);
        assert(xs.subrange(0, 0) =~= Seq::<Val>::empty());
    } else {
        let tail = encode_val(xs[n - 1]) + rest;
        assert(encode_vals(xs, n) + rest =~= encode_vals(xs, n - 1) + tail);
        lemma_repeat_round_trip(xs, n - 1, sh, tail);
        lemma_value_round_trip(xs[n - 1], sh, rest);
        assert(xs.subrange(0, n - 1).push(xs[n - 1]) =~= xs.subrange(0, n));
    }
}

/// The first `n` fields of a tuple read back in order.
pub proof fn lemma_fields_round_trip(xs: Seq<Val>, n: int, shapes: Seq<Sh>, rest: Seq<u8>)
    requires
        0 <= n <= xs.len(),
        n <= shapes.len(),
        each_fits(xs, n, shapes),
    ensures
        decode_fields(shapes, n, encode_vals(xs, n) + rest) == Ok::<(Seq<Val>, Seq<u8>), CordError>(
            (xs.subrange(0, n), rest),
        ),
    decreases xs, n,
{
    if n == 0 {
        assert(encode_vals(xs, n) + rest =~= rest);
        assert(xs.subrange(0, 0) =~= Seq::<Val>::empty());
    } else {
        let tail = encode_val(xs[n - 1]) + rest;
        assert(encode_vals(xs, n) + rest =~= encode_vals(xs, n - 1) + tail);
        lemma_fields_round_trip(xs, n - 1, shapes, tail);
        lemma_value_round_trip(xs[n - 1], shapes[n - 1], rest);
        assert(xs.subrange(0, n - 1).push(xs[n - 1]) =~= xs.subrange(0, n));
    }
}

/// Decoding a whole encoding gives the value back, and one byte more is
/// refused as trailing data.
pub proof fn lemma_whole_value_round_trip(v: Val, sh: Sh, extra: u8)
    requires
        fits(v, sh),
    ensures
        whole(decode_val(sh, encode_val(v))) == Ok::<Val, CordError>(v),
        whole(decode_val(sh, encode_val(v) + seq![extra])) == Err::<Val, CordError>(trailing_bytes()),
{
    lemma_value_round_trip(v, sh, Seq::empty());
    assert(encode_val(v) + Seq::<u8>::empty() =~= encode_val(v));
    lemma_value_round_trip(v, sh, seq![extra]);
}

} // verus!
