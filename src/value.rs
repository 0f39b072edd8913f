use vstd::prelude::*;
use vstd::slice::slice_to_vec;
use vstd::utf8::encode_utf8;
use crate::de::{
    parse_bool_spec, parse_bytes_spec, parse_i16_spec, parse_i32_spec, parse_i64_spec,
    parse_i8_spec, parse_option_tag_spec, parse_string_spec, parse_u16_spec, parse_u32_spec,
    parse_u64_spec, parse_u8_spec, parse_usize_spec, Parsed,
};
use crate::de::{trailing_bytes, CordDeserializer};
use crate::error::CordError;
use crate::ser::{CordSerializer, 
    encode_bool_spec, encode_bytes_spec, encode_signed_spec, encode_string_spec,
    encode_unsigned_spec, not_supported,
};

verus! {

broadcast use {vstd::seq::axiom_seq_subrange_decreases, vstd::std_specs::vec::axiom_vec_decreases_to_view};

/// A value of the format's data model.
#[derive(Debug, PartialEq)]
pub enum Value {
    Unit,
    Bool(bool),
    U8(u8),
    U16(u16),
    U32(u32),
    U64(u64),
    I8(i8),
    I16(i16),
    I32(i32),
    I64(i64),
    Str(String),
    Bytes(Vec<u8>),
    Opt(Option<Box<Value>>),
    /// A dynamically sized sequence: its length is written first.
    List(Vec<Value>),
    /// A fixed-size tuple or struct: its fields one after another.
    Tuple(Vec<Value>),
    /// A tagged union: the variant index, then the payload.
    Variant(u32, Box<Value>),
}

/// What a decoder expects to find: the schema both sides agree on.
#[derive(Debug, PartialEq)]
pub enum Shape {
    Unit,
    Bool,
    U8,
    U16,
    U32,
    U64,
    I8,
    I16,
    I32,
    I64,
    Str,
    Bytes,
    Opt(Box<Shape>),
    List(Box<Shape>),
    Tuple(Vec<Shape>),
    /// A tagged union, with the payload shape of each variant in order.
    Enum(Vec<Shape>),
    F32,
    F64,
    Char,
    Mapping,
}

/// The mathematical form of a [`Value`].
pub enum Val {
    Unit,
    Bool(bool),
    U8(u8),
    U16(u16),
    U32(u32),
    U64(u64),
    I8(i8),
    I16(i16),
    I32(i32),
    I64(i64),
    Str(Seq<char>),
    Bytes(Seq<u8>),
    Opt(Option<Box<Val>>),
    List(Seq<Val>),
    Tuple(Seq<Val>),
    Variant(u32, Box<Val>),
}

/// The mathematical form of a [`Shape`].
pub enum Sh {
    Unit,
    Bool,
    U8,
    U16,
    U32,
    U64,
    I8,
    I16,
    I32,
    I64,
    Str,
    Bytes,
    Opt(Box<Sh>),
    List(Box<Sh>),
    Tuple(Seq<Sh>),
    Enum(Seq<Sh>),
    F32,
    F64,
    Char,
    Mapping,
}

impl Value {
    pub open spec fn model(&self) -> Val
        decreases self, 0nat,
    {
        match self {
            Value::Unit => Val::Unit,
            Value::Bool(b) => Val::Bool(*b),
            Value::U8(x) => Val::U8(*x),
            Value::U16(x) => Val::U16(*x),
            Value::U32(x) => Val::U32(*x),
            Value::U64(x) => Val::U64(*x),
            Value::I8(x) => Val::I8(*x),
            Value::I16(x) => Val::I16(*x),
            Value::I32(x) => Val::I32(*x),
            Value::I64(x) => Val::I64(*x),
            Value::Str(t) => Val::Str(t@),
            Value::Bytes(b) => Val::Bytes(b@),
            Value::Opt(None) => Val::Opt(None),
            Value::Opt(Some(x)) => Val::Opt(Some(Box::new(x.model()))),
            Value::List(xs) => Val::List(models(xs@, xs@.len() as int)),
            Value::Tuple(xs) => Val::Tuple(models(xs@, xs@.len() as int)),
            Value::Variant(i, x) => Val::Variant(*i, Box::new(x.model())),
        }
    }
}

/// The forms of the first `n` values of `xs`.
pub open spec fn models(xs: Seq<Value>, n: int) -> Seq<Val>
    decreases xs, n,
{
    if n <= 0 || n > xs.len() {
        Seq::empty()
    } else {
        models(xs, n - 1).push(xs[n - 1].model())
    }
}

impl Shape {
    pub open spec fn model(&self) -> Sh
        decreases self, 0nat,
    {
        match self {
            Shape::Unit => Sh::Unit,
            Shape::Bool => Sh::Bool,
            Shape::U8 => Sh::U8,
            Shape::U16 => Sh::U16,
            Shape::U32 => Sh::U32,
            Shape::U64 => Sh::U64,
            Shape::I8 => Sh::I8,
            Shape::I16 => Sh::I16,
            Shape::I32 => Sh::I32,
            Shape::I64 => Sh::I64,
            Shape::Str => Sh::Str,
            Shape::Bytes => Sh::Bytes,
            Shape::Opt(x) => Sh::Opt(Box::new(x.model())),
            Shape::List(x) => Sh::List(Box::new(x.model())),
            Shape::Tuple(xs) => Sh::Tuple(shape_models(xs@, xs@.len() as int)),
            Shape::Enum(xs) => Sh::Enum(shape_models(xs@, xs@.len() as int)),
            Shape::F32 => Sh::F32,
            Shape::F64 => Sh::F64,
            Shape::Char => Sh::Char,
            Shape::Mapping => Sh::Mapping,
        }
    }
}

/// The forms of the first `n` shapes of `xs`.
pub open spec fn shape_models(xs: Seq<Shape>, n: int) -> Seq<Sh>
    decreases xs, n,
{
    if n <= 0 || n > xs.len() {
        Seq::empty()
    } else {
        shape_models(xs, n - 1).push(xs[n - 1].model())
    }
}

/// The encoding of a value.
pub open spec fn encode_val(v: Val) -> Seq<u8>
    decreases v, 0nat,
{
    match v {
        Val::Unit => Seq::empty(),
        Val::Bool(b) => encode_bool_spec(b),
        Val::U8(x) => encode_unsigned_spec(x as u64),
        Val::U16(x) => encode_unsigned_spec(x as u64),
        Val::U32(x) => encode_unsigned_spec(x as u64),
        Val::U64(x) => encode_unsigned_spec(x),
        Val::I8(x) => encode_signed_spec(x as i64),
        Val::I16(x) => encode_signed_spec(x as i64),
        Val::I32(x) => encode_signed_spec(x as i64),
        Val::I64(x) => encode_signed_spec(x),
        Val::Str(t) => encode_string_spec(t),
        Val::Bytes(b) => encode_bytes_spec(b),
        Val::Opt(None) => seq![0u8],
        Val::Opt(Some(x)) => seq![1u8] + encode_val(*x),
        Val::List(xs) => encode_unsigned_spec(xs.len() as u64) + encode_vals(xs, xs.len() as int),
        Val::Tuple(xs) => encode_vals(xs, xs.len() as int),
        Val::Variant(i, x) => encode_unsigned_spec(i as u64) + encode_val(*x),
    }
}

/// The encodings of the first `n` values of `xs`, one after another.
pub open spec fn encode_vals(xs: Seq<Val>, n: int) -> Seq<u8>
    decreases xs, n,
{
    if n <= 0 || n > xs.len() {
        Seq::empty()
    } else {
        encode_vals(xs, n - 1) + encode_val(xs[n - 1])
    }
}

/// The error for a variant index that the shape does not have.
pub open spec fn invalid_variant() -> CordError {
    CordError::ValidationError("Invalid variant index")
}

/// Wraps the value of a successful read.
pub open spec fn map_parsed<T>(p: Parsed<T>, f: spec_fn(T) -> Val) -> Parsed<Val> {
    match p {
        Ok((v, rest)) => Ok((f(v), rest)),
        Err(e) => Err(e),
    }
}

/// Reading a value of shape `sh` from the front of `s`.
pub open spec fn decode_val(sh: Sh, s: Seq<u8>) -> Parsed<Val>
    decreases sh, 0nat,
{
    match sh {
        Sh::Unit => Ok((Val::Unit, s)),
        Sh::Bool => map_parsed(parse_bool_spec(s), |b| Val::Bool(b)),
        Sh::U8 => map_parsed(parse_u8_spec(s), |x| Val::U8(x)),
        Sh::U16 => map_parsed(parse_u16_spec(s), |x| Val::U16(x)),
        Sh::U32 => map_parsed(parse_u32_spec(s), |x| Val::U32(x)),
        Sh::U64 => map_parsed(parse_u64_spec(s), |x| Val::U64(x)),
        Sh::I8 => map_parsed(parse_i8_spec(s), |x| Val::I8(x)),
        Sh::I16 => map_parsed(parse_i16_spec(s), |x| Val::I16(x)),
        Sh::I32 => map_parsed(parse_i32_spec(s), |x| Val::I32(x)),
        Sh::I64 => map_parsed(parse_i64_spec(s), |x| Val::I64(x)),
        Sh::Str => map_parsed(parse_string_spec(s), |t| Val::Str(t)),
        Sh::Bytes => map_parsed(parse_bytes_spec(s), |b| Val::Bytes(b)),
        Sh::Opt(inner) => match parse_option_tag_spec(s) {
            Ok((present, rest)) => if !present {
                Ok((Val::Opt(None), rest))
            } else {
                match decode_val(*inner, rest) {
                    Ok((v, after)) => Ok((Val::Opt(Some(Box::new(v))), after)),
                    Err(e) => Err(e),
                }
            },
            Err(e) => Err(e),
        },
        Sh::List(inner) => match parse_usize_spec(s) {
            Ok((n, rest)) => match decode_repeat(*inner, n as int, rest) {
                Ok((vs, after)) => Ok((Val::List(vs), after)),
                Err(e) => Err(e),
            },
            Err(e) => Err(e),
        },
        Sh::Tuple(shapes) => match decode_fields(shapes, shapes.len() as int, s) {
            Ok((vs, after)) => Ok((Val::Tuple(vs), after)),
            Err(e) => Err(e),
        },
        Sh::Enum(variants) => match parse_u32_spec(s) {
            Ok((i, rest)) => if i < variants.len() {
                match decode_val(variants[i as int], rest) {
                    Ok((v, after)) => Ok((Val::Variant(i, Box::new(v)), after)),
                    Err(e) => Err(e),
                }
            } else {
                Err(invalid_variant())
            },
            Err(e) => Err(e),
        },
        Sh::F32 => Err(not_supported("f32")),
        Sh::F64 => Err(not_supported("f64")),
        Sh::Char => Err(not_supported("char")),
        Sh::Mapping => Err(not_supported("map")),
    }
}

/// Reading `n` values of shape `sh`, one after another.
pub open spec fn decode_repeat(sh: Sh, n: int, s: Seq<u8>) -> Parsed<Seq<Val>>
    decreases sh, n,
{
    if n <= 0 {
        Ok((Seq::empty(), s))
    } else {
        match decode_repeat(sh, n - 1, s) {
            Ok((vs, rest)) => match decode_val(sh, rest) {
                Ok((v, after)) => Ok((vs.push(v), after)),
                Err(e) => Err(e),
            },
            Err(e) => Err(e),
        }
    }
}

/// Reading values of the first `n` shapes of `shapes`, one after another.
pub open spec fn decode_fields(shapes: Seq<Sh>, n: int, s: Seq<u8>) -> Parsed<Seq<Val>>
    decreases shapes, n,
{
    if n <= 0 || n > shapes.len() {
        Ok((Seq::empty(), s))
    } else {
        match decode_fields(shapes, n - 1, s) {
            Ok((vs, rest)) => match decode_val(shapes[n - 1], rest) {
                Ok((v, after)) => Ok((vs.push(v), after)),
                Err(e) => Err(e),
            },
            Err(e) => Err(e),
        }
    }
}

/// `v` is a value of shape `sh`, with every length within `usize`.
pub open spec fn fits(v: Val, sh: Sh) -> bool
    decreases v, 0nat,
{
    match v {
        Val::Unit => sh is Unit,
        Val::Bool(_) => sh is Bool,
        Val::U8(_) => sh is U8,
        Val::U16(_) => sh is U16,
        Val::U32(_) => sh is U32,
        Val::U64(_) => sh is U64,
        Val::I8(_) => sh is I8,
        Val::I16(_) => sh is I16,
        Val::I32(_) => sh is I32,
        Val::I64(_) => sh is I64,
        Val::Str(t) => sh is Str && encode_utf8(t).len() <= usize::MAX,
        Val::Bytes(b) => sh is Bytes && b.len() <= usize::MAX,
        Val::Opt(None) => sh is Opt,
        Val::Opt(Some(x)) => match sh {
            Sh::Opt(inner) => fits(*x, *inner),
            _ => false,
        },
        Val::List(xs) => match sh {
            Sh::List(inner) => xs.len() <= usize::MAX && all_fit(xs, xs.len() as int, *inner),
            _ => false,
        },
        Val::Tuple(xs) => match sh {
            Sh::Tuple(shapes) => xs.len() == shapes.len() && each_fits(xs, xs.len() as int, shapes),
            _ => false,
        },
        Val::Variant(i, x) => match sh {
            Sh::Enum(variants) => i < variants.len() && fits(*x, variants[i as int]),
            _ => false,
        },
    }
}

/// The first `n` values of `xs` are of shape `sh`.
pub open spec fn all_fit(xs: Seq<Val>, n: int, sh: Sh) -> bool
    decreases xs, n,
{
    if n <= 0 {
        true
    } else if n > xs.len() {
        false
    } else {
        all_fit(xs, n - 1, sh) && fits(xs[n - 1], sh)
    }
}

/// Each of the first `n` values of `xs` is of the shape at its place in `shapes`.
pub open spec fn each_fits(xs: Seq<Val>, n: int, shapes: Seq<Sh>) -> bool
    decreases xs, n,
{
    if n <= 0 {
        true
    } else if n > xs.len() || n > shapes.len() {
        false
    } else {
        each_fits(xs, n - 1, shapes) && fits(xs[n - 1], shapes[n - 1])
    }
}

/// The forms of a prefix of values are the values' forms, one by one.
pub proof fn lemma_models(xs: Seq<Value>, n: int)
    requires
        0 <= n <= xs.len(),
    ensures
        models(xs, n).len() == n,
        forall|j: int| 0 <= j < n ==> #[trigger] models(xs, n)[j] == xs[j].model(),
    decreases n,
{
    if n > 0 {
        lemma_models(xs, n - 1);
    }
}

/// Appending a value leaves the forms of a prefix unchanged.
pub proof fn lemma_models_push(xs: Seq<Value>, v: Value, n: int)
    requires
        0 <= n <= xs.len(),
    ensures
        models(xs.push(v), n) == models(xs, n),
    decreases n,
{
    if n > 0 {
        lemma_models_push(xs, v, n - 1);
        assert(xs.push(v)[n - 1] == xs[n - 1]);
    }
}

/// The forms of a prefix of shapes are the shapes' forms, one by one.
pub proof fn lemma_shape_models(xs: Seq<Shape>, n: int)
    requires
        0 <= n <= xs.len(),
    ensures
        shape_models(xs, n).len() == n,
        forall|j: int| 0 <= j < n ==> #[trigger] shape_models(xs, n)[j] == xs[j].model(),
    decreases n,
{
    if n > 0 {
        lemma_shape_models(xs, n - 1);
    }
}

/// Once reading a run of values fails, reading a longer run fails alike.
pub proof fn lemma_repeat_fails(sh: Sh, k: int, n: int, s: Seq<u8>)
    requires
        0 <= k <= n,
        decode_repeat(sh, k, s) is Err,
    ensures
        decode_repeat(sh, n, s) == decode_repeat(sh, k, s),
    decreases n - k,
{
    if k < n {
        lemma_repeat_fails(sh, k, n - 1, s);
    }
}

/// Once reading the first fields fails, reading more fields fails alike.
pub proof fn lemma_fields_fail(shapes: Seq<Sh>, k: int, n: int, s: Seq<u8>)
    requires
        0 < k <= n <= shapes.len(),
        decode_fields(shapes, k, s) is Err,
    ensures
        decode_fields(shapes, n, s) == decode_fields(shapes, k, s),
    decreases n - k,
{
    if k < n {
        lemma_fields_fail(shapes, k, n - 1, s);
    }
}

/// Writes `v` onto `enc`.
pub fn encode_value(v: &Value, enc: &mut CordSerializer)
    ensures
        final(enc)@ == old(enc)@ + encode_val(v.model()),
    decreases v, 0nat,
{
    let ghost start = enc@;
    match v {
        Value::Unit => {
            assert(enc@ =~= start + encode_val(v.model()));
        },
        Value::Bool(b) => enc.write_bool(*b),
        Value::U8(x) => enc.write_u8(*x),
        Value::U16(x) => enc.write_u16(*x),
        Value::U32(x) => enc.write_u32(*x),
        Value::U64(x) => enc.write_u64(*x),
        Value::I8(x) => enc.write_i8(*x),
        Value::I16(x) => enc.write_i16(*x),
        Value::I32(x) => enc.write_i32(*x),
        Value::I64(x) => enc.write_i64(*x),
        Value::Str(t) => enc.write_str(t.as_str()),
        Value::Bytes(b) => enc.write_bytes(b.as_slice()),
        Value::Opt(None) => enc.write_none(),
        Value::Opt(Some(x)) => {
            enc.write_some();
            encode_value(x, enc);
            assert(enc@ =~= start + encode_val(v.model()));
        },
        Value::List(xs) => {
            enc.serialize_usize(xs.len());
            encode_values(xs, enc);
            proof {
                lemma_models(xs@, xs@.len() as int);
            }
            assert(enc@ =~= start + encode_val(v.model()));
        },
        Value::Tuple(xs) => {
            encode_values(xs, enc);
            proof {
                lemma_models(xs@, xs@.len() as int);
            }
        },
        Value::Variant(i, x) => {
            enc.serialize_variant_index(*i);
            encode_value(x, enc);
            assert(enc@ =~= start + encode_val(v.model()));
        },
    }
}

/// Writes each of `xs` onto `enc`, one after another.
fn encode_values(xs: &Vec<Value>, enc: &mut CordSerializer)
    ensures
        final(enc)@ == old(enc)@ + encode_vals(models(xs@, xs@.len() as int), xs@.len() as int),
    decreases xs, 0nat,
{
    let ghost start = enc@;
    let ghost ms = models(xs@, xs@.len() as int);
    proof {
        lemma_models(xs@, xs@.len() as int);
    }
    let mut i: usize = 0;
    while i < xs.len()
        invariant
            i <= xs@.len(),
            ms == models(xs@, xs@.len() as int),
            ms.len() == xs@.len(),
            forall|j: int| 0 <= j < xs@.len() ==> #[trigger] ms[j] == xs@[j].model(),
            enc@ == start + encode_vals(ms, i as int),
        decreases xs@.len() - i,
    {
        encode_value(&xs[i], enc);
        i = i + 1;
        proof {
            assert(ms[i - 1] == xs@[i - 1].model());
            assert(enc@ =~= start + encode_vals(ms, i as int));
        }
    }
}

/// Reads a value of `shape` from `dec`.
pub fn decode_value(shape: &Shape, dec: &mut CordDeserializer) -> (r: Result<Value, CordError>)
    ensures
        match decode_val(shape.model(), old(dec)@) {
            Ok((m, rest)) => r is Ok && r->Ok_0.model() == m && final(dec)@ == rest,
            Err(e) => r == Err::<Value, CordError>(e),
        },
    decreases shape, 0nat,
{
    match shape {
        Shape::Unit => Ok(Value::Unit),
        Shape::Bool => Ok(Value::Bool(dec.parse_bool()?)),
        Shape::U8 => Ok(Value::U8(dec.parse_u8()?)),
        Shape::U16 => Ok(Value::U16(dec.parse_u16()?)),
        Shape::U32 => Ok(Value::U32(dec.parse_u32()?)),
        Shape::U64 => Ok(Value::U64(dec.parse_u64()?)),
        Shape::I8 => Ok(Value::I8(dec.parse_i8()?)),
        Shape::I16 => Ok(Value::I16(dec.parse_i16()?)),
        Shape::I32 => Ok(Value::I32(dec.parse_i32()?)),
        Shape::I64 => Ok(Value::I64(dec.parse_i64()?)),
        Shape::Str => {
            let t = dec.parse_string()?;
            Ok(Value::Str(t.to_owned()))
        },
        Shape::Bytes => {
            let b = dec.parse_bytes()?;
            Ok(Value::Bytes(slice_to_vec(b)))
        },
        Shape::Opt(inner) => {
            if dec.parse_option_tag()? {
                let v = decode_value(inner, dec)?;
                Ok(Value::Opt(Some(Box::new(v))))
            } else {
                Ok(Value::Opt(None))
            }
        },
        Shape::List(inner) => {
            let n = dec.parse_len()?;
            let items = decode_items(inner, n, dec)?;
            Ok(Value::List(items))
        },
        Shape::Tuple(shapes) => {
            proof {
                lemma_shape_models(shapes@, shapes@.len() as int);
            }
            let fields = decode_each(shapes, dec)?;
            Ok(Value::Tuple(fields))
        },
        Shape::Enum(variants) => {
            let i = dec.parse_variant_index()?;
            proof {
                lemma_shape_models(variants@, variants@.len() as int);
            }
            if (i as usize) < variants.len() {
                let v = decode_value(&variants[i as usize], dec)?;
                Ok(Value::Variant(i, Box::new(v)))
            } else {
                Err(CordError::ValidationError("Invalid variant index"))
            }
        },
        Shape::F32 => dec.unsupported("f32"),
        Shape::F64 => dec.unsupported("f64"),
        Shape::Char => dec.unsupported("char"),
        Shape::Mapping => dec.unsupported("map"),
    }
}

/// Reads `n` values of `shape` from `dec`.
fn decode_items(shape: &Shape, n: usize, dec: &mut CordDeserializer) -> (r: Result<Vec<Value>, CordError>)
    ensures
        match decode_repeat(shape.model(), n as int, old(dec)@) {
            Ok((ms, rest)) => r is Ok && r->Ok_0@.len() == n && models(r->Ok_0@, n as int) == ms
                && final(dec)@ == rest,
            Err(e) => r == Err::<Vec<Value>, CordError>(e),
        },
    decreases shape, 1nat,
{
    let ghost s0 = dec@;
    let mut out: Vec<Value> = Vec::new();
    let mut i: usize = 0;
    while i < n
        invariant
            i <= n,
            s0 == old(dec)@,
            out@.len() == i,
            decode_repeat(shape.model(), i as int, s0) == Ok::<(Seq<Val>, Seq<u8>), CordError>(
                (models(out@, i as int), dec@),
            ),
        decreases n - i,
    {
        let ghost before = out@;
        let ghost pre = dec@;
        match decode_value(shape, dec) {
            Ok(v) => {
                out.push(v);
                proof {
                    lemma_models_push(before, v, i as int);
                    assert(out@ == before.push(v));
                }
            },
            Err(e) => {
                proof {
                    assert(decode_val(shape.model(), pre) == Err::<(Val, Seq<u8>), CordError>(e));
                    assert(decode_repeat(shape.model(), i + 1, s0) == Err::<(Seq<Val>, Seq<u8>), CordError>(e));
                    lemma_repeat_fails(shape.model(), i + 1, n as int, s0);
                }
                return Err(e);
            },
        }
        i = i + 1;
    }
    Ok(out)
}

/// Reads one value of each of `shapes` from `dec`, in order.
fn decode_each(shapes: &Vec<Shape>, dec: &mut CordDeserializer) -> (r: Result<Vec<Value>, CordError>)
    ensures
        match decode_fields(
            shape_models(shapes@, shapes@.len() as int),
            shapes@.len() as int,
            old(dec)@,
        ) {
            Ok((ms, rest)) => r is Ok && r->Ok_0@.len() == shapes@.len() && models(
                r->Ok_0@,
                shapes@.len() as int,
            ) == ms && final(dec)@ == rest,
            Err(e) => r == Err::<Vec<Value>, CordError>(e),
        },
    decreases shapes, 1nat,
{
    let ghost s0 = dec@;
    let ghost sms = shape_models(shapes@, shapes@.len() as int);
    proof {
        lemma_shape_models(shapes@, shapes@.len() as int);
    }
    let mut out: Vec<Value> = Vec::new();
    let mut i: usize = 0;
    while i < shapes.len()
        invariant
            i <= shapes@.len(),
            s0 == old(dec)@,
            out@.len() == i,
            sms == shape_models(shapes@, shapes@.len() as int),
            sms.len() == shapes@.len(),
            forall|j: int| 0 <= j < shapes@.len() ==> #[trigger] sms[j] == shapes@[j].model(),
            decode_fields(sms, i as int, s0) == Ok::<(Seq<Val>, Seq<u8>), CordError>(
                (models(out@, i as int), dec@),
            ),
        decreases shapes@.len() - i,
    {
        let ghost before = out@;
        let ghost pre = dec@;
        proof {
            assert(sms[i as int] == shapes@[i as int].model());
        }
        match decode_value(&shapes[i], dec) {
            Ok(v) => {
                out.push(v);
                proof {
                    lemma_models_push(before, v, i as int);
                    assert(out@ == before.push(v));
                }
            },
            Err(e) => {
                proof {
                    assert(decode_val(sms[i as int], pre) == Err::<(Val, Seq<u8>), CordError>(e));
                    assert(decode_fields(sms, i + 1, s0) == Err::<(Seq<Val>, Seq<u8>), CordError>(e));
                    lemma_fields_fail(sms, i + 1, sms.len() as int, s0);
                }
                return Err(e);
            },
        }
        i = i + 1;
    }
    Ok(out)
}

/// Encodes a value.
pub fn serialize(v: &Value) -> (r: Vec<u8>)
    ensures
        r@ == encode_val(v.model()),
{
    let mut enc = CordSerializer::new();
    encode_value(v, &mut enc);
    assert(enc@ =~= encode_val(v.model()));
    enc.into_bytes()
}

/// Decodes a value of `shape` from exactly `bytes`; a byte left over is an error.
pub fn deserialize(bytes: &[u8], shape: &Shape) -> (r: Result<Value, CordError>)
    ensures
        match decode_val(shape.model(), bytes@) {
            Ok((m, rest)) => if rest.len() == 0 {
                r is Ok && r->Ok_0.model() == m
            } else {
                r == Err::<Value, CordError>(trailing_bytes())
            },
            Err(e) => r == Err::<Value, CordError>(e),
        },
{
    let mut dec = CordDeserializer::new(bytes);
    let v = decode_value(shape, &mut dec)?;
    dec.end()?;
    Ok(v)
}

} // verus!
