use vstd::prelude::*;
use vstd::utf8::encode_utf8;
use crate::error::CordError;
use crate::varint::{encode_i64, encode_u64, leb128, zigzag};

verus! {

/// The encoding of a boolean: one byte, `0x01` for true.
pub open spec fn encode_bool_spec(b: bool) -> Seq<u8> {
    if b {
        seq![1u8]
    } else {
        seq![0u8]
    }
}

/// The encoding of an unsigned integer: its LEB128 varint.
pub open spec fn encode_unsigned_spec(n: u64) -> Seq<u8> {
    leb128(n as nat)
}

/// The encoding of a signed integer: the varint of its zig-zag image.
pub open spec fn encode_signed_spec(i: i64) -> Seq<u8> {
    leb128(zigzag(i as int))
}

/// The encoding of a byte string: its length as a varint, then the bytes.
pub open spec fn encode_bytes_spec(b: Seq<u8>) -> Seq<u8> {
    leb128(b.len()) + b
}

/// The encoding of a string: the byte string of its UTF-8 form.
pub open spec fn encode_string_spec(t: Seq<char>) -> Seq<u8> {
    encode_bytes_spec(encode_utf8(t))
}

/// The error for a kind of value that the format does not have.
pub open spec fn not_supported(kind: &'static str) -> CordError {
    CordError::NotSupported(kind)
}

/// Appends `b` to `v`.
fn append_bytes(v: &mut Vec<u8>, b: &[u8])
    ensures
        final(v)@ == old(v)@ + b@,
{
    let mut i: usize = 0;
    while i < b.len()
        invariant
            i <= b@.len(),
            v@ == old(v)@ + b@.subrange(0, i as int),
        decreases b@.len() - i,
    {
        v.push(b[i]);
        i = i + 1;
        proof {
            assert(v@ =~= old(v)@ + b@.subrange(0, i as int));
        }
    }
    proof {
        assert(b@.subrange(0, b@.len() as int) =~= b@);
    }
}

/// A growable output buffer that values are encoded onto, one shape at a time.
pub struct CordSerializer {
    output: Vec<u8>,
}

impl View for CordSerializer {
    type V = Seq<u8>;

    /// The bytes written so far.
    closed spec fn view(&self) -> Seq<u8> {
        self.output@
    }
}

impl CordSerializer {
    /// An encoder with nothing written.
    pub fn new() -> (r: Self)
        ensures
            r@ == Seq::<u8>::empty(),
    {
        CordSerializer { output: Vec::new() }
    }

    /// The bytes written.
    pub fn into_bytes(self) -> (r: Vec<u8>)
        ensures
            r@ == self@,
    {
        self.output
    }

    /// Appends bytes that are already an encoding.
    pub fn write_raw(&mut self, b: &[u8])
        ensures
            final(self)@ == old(self)@ + b@,
    {
        append_bytes(&mut self.output, b);
    }

    /// Writes a boolean.
    pub fn write_bool(&mut self, v: bool)
        ensures
            final(self)@ == old(self)@ + encode_bool_spec(v),
    {
        if v {
            self.output.push(1);
        } else {
            self.output.push(0);
        }
        proof {
            assert(self.output@ =~= old(self)@ + encode_bool_spec(v));
        }
    }

    /// Writes an unsigned integer as a varint.
    pub fn write_unsigned(&mut self, v: u64)
        ensures
            final(self)@ == old(self)@ + encode_unsigned_spec(v),
    {
        let bytes = encode_u64(v);
        append_bytes(&mut self.output, bytes.as_slice());
    }

    /// Writes a signed integer as a zig-zag varint.
    pub fn write_signed(&mut self, v: i64)
        ensures
            final(self)@ == old(self)@ + encode_signed_spec(v),
    {
        let bytes = encode_i64(v);
        append_bytes(&mut self.output, bytes.as_slice());
    }

    /// Writes a `u8` as a varint.
    pub fn write_u8(&mut self, v: u8)
        ensures
            final(self)@ == old(self)@ + encode_unsigned_spec(v as u64),
    {
        self.write_unsigned(v as u64);
    }

    /// Writes a `u16` as a varint.
    pub fn write_u16(&mut self, v: u16)
        ensures
            final(self)@ == old(self)@ + encode_unsigned_spec(v as u64),
    {
        self.write_unsigned(v as u64);
    }

    /// Writes a `u32` as a varint.
    pub fn write_u32(&mut self, v: u32)
        ensures
            final(self)@ == old(self)@ + encode_unsigned_spec(v as u64),
    {
        self.write_unsigned(v as u64);
    }

    /// Writes a `u64` as a varint.
    pub fn write_u64(&mut self, v: u64)
        ensures
            final(self)@ == old(self)@ + encode_unsigned_spec(v as u64),
    {
        self.write_unsigned(v as u64);
    }

    /// Writes an `i8` as a zig-zag varint.
    pub fn write_i8(&mut self, v: i8)
        ensures
            final(self)@ == old(self)@ + encode_signed_spec(v as i64),
    {
        self.write_signed(v as i64);
    }

    /// Writes an `i16` as a zig-zag varint.
    pub fn write_i16(&mut self, v: i16)
        ensures
            final(self)@ == old(self)@ + encode_signed_spec(v as i64),
    {
        self.write_signed(v as i64);
    }

    /// Writes an `i32` as a zig-zag varint.
    pub fn write_i32(&mut self, v: i32)
        ensures
            final(self)@ == old(self)@ + encode_signed_spec(v as i64),
    {
        self.write_signed(v as i64);
    }

    /// Writes an `i64` as a zig-zag varint.
    pub fn write_i64(&mut self, v: i64)
        ensures
            final(self)@ == old(self)@ + encode_signed_spec(v as i64),
    {
        self.write_signed(v as i64);
    }

    /// Writes the length prefix of a sequence.
    pub fn serialize_usize(&mut self, v: usize)
        ensures
            final(self)@ == old(self)@ + encode_unsigned_spec(v as u64),
    {
        self.write_unsigned(v as u64);
    }

    /// Writes the variant index of a tagged union.
    pub fn serialize_variant_index(&mut self, v: u32)
        ensures
            final(self)@ == old(self)@ + encode_unsigned_spec(v as u64),
    {
        self.write_unsigned(v as u64);
    }

    /// Writes a byte string: its length, then its bytes.
    pub fn write_bytes(&mut self, v: &[u8])
        ensures
            final(self)@ == old(self)@ + encode_bytes_spec(v@),
    {
        self.serialize_usize(v.len());
        append_bytes(&mut self.output, v);
        proof {
            assert(self.output@ =~= old(self)@ + encode_bytes_spec(v@));
        }
    }

    /// Writes a string: the byte string of its UTF-8 form.
    pub fn write_str(&mut self, v: &str)
        ensures
            final(self)@ == old(self)@ + encode_string_spec(v@),
    {
        self.write_bytes(v.as_bytes());
    }

    /// Writes an absent option.
    pub fn write_none(&mut self)
        ensures
            final(self)@ == old(self)@ + seq![0u8],
    {
        self.output.push(0);
    }

    /// Writes the presence byte of an option whose value follows.
    pub fn write_some(&mut self)
        ensures
            final(self)@ == old(self)@ + seq![1u8],
    {
        self.output.push(1);
    }

    /// Refuses a kind of value that the format does not have; nothing is written.
    pub fn unsupported<T>(&self, kind: &'static str) -> (r: Result<T, CordError>)
        ensures
            r == Err::<T, CordError>(not_supported(kind)),
    {
        Err(CordError::NotSupported(kind))
    }
}

} // verus!
