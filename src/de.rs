use vstd::prelude::*;
use vstd::slice::slice_subrange;
use vstd::utf8::{decode_utf8, valid_utf8};
use crate::error::CordError;
use crate::varint::{decode_i64, decode_u64, unzigzag, varint_decoded};

verus! {

/// The error for a read past the end of the input.
pub open spec fn end_of_stream() -> CordError {
    CordError::ValidationError("Unexpected end of stream")
}

/// The error for a length prefix that runs past the end of the input.
pub open spec fn end_of_bytestream() -> CordError {
    CordError::ValidationError("Unexpected end of bytestream")
}

/// The error for bytes that hold no varint of the requested width.
pub open spec fn invalid_varint() -> CordError {
    CordError::ValidationError("Invalid varint")
}

/// The error for a boolean tag other than 0 or 1.
pub open spec fn invalid_bool() -> CordError {
    CordError::ValidationError("Invalid boolean variant")
}

/// The error for an option tag other than 0 or 1.
pub open spec fn invalid_option() -> CordError {
    CordError::ValidationError("Invalid option variant")
}

/// The error for a string whose bytes are not UTF-8.
pub open spec fn invalid_utf8() -> CordError {
    CordError::ValidationError("Invalid UTF-8 string")
}

/// The error for input left over after the top-level value.
pub open spec fn trailing_bytes() -> CordError {
    CordError::ValidationError("Unexpected trailing bytes")
}

/// Reading one value of type `T` from `s`: the value and what is left, or the error.
pub type Parsed<T> = Result<(T, Seq<u8>), CordError>;

/// `r` and `after` are what a read that `expect` describes hands back and leaves.
pub open spec fn yields<T>(r: Result<T, CordError>, after: Seq<u8>, expect: Parsed<T>) -> bool {
    match expect {
        Ok((v, rest)) => r == Ok::<T, CordError>(v) && after == rest,
        Err(e) => r == Err::<T, CordError>(e),
    }
}

/// One raw byte.
pub open spec fn parse_byte_spec(s: Seq<u8>) -> Parsed<u8> {
    if s.len() == 0 {
        Err(end_of_stream())
    } else {
        Ok((s[0], s.drop_first()))
    }
}

/// A tag byte that must be 0 or 1, with `err` for any other byte.
pub open spec fn parse_tag_spec(s: Seq<u8>, err: CordError) -> Parsed<bool> {
    match parse_byte_spec(s) {
        Ok((b, rest)) => if b == 0 {
            Ok((false, rest))
        } else if b == 1 {
            Ok((true, rest))
        } else {
            Err(err)
        },
        Err(e) => Err(e),
    }
}

/// A boolean: `0x00` or `0x01`.
pub open spec fn parse_bool_spec(s: Seq<u8>) -> Parsed<bool> {
    parse_tag_spec(s, invalid_bool())
}

/// An option's presence byte: `0x00` absent, `0x01` present.
pub open spec fn parse_option_tag_spec(s: Seq<u8>) -> Parsed<bool> {
    parse_tag_spec(s, invalid_option())
}

/// An unsigned varint no greater than `max`.
pub open spec fn parse_unsigned_spec(s: Seq<u8>, max: u64) -> Parsed<u64> {
    match varint_decoded(s) {
        Some((v, n)) => if v <= max {
            Ok((v, s.subrange(n as int, s.len() as int)))
        } else {
            Err(invalid_varint())
        },
        None => Err(invalid_varint()),
    }
}

/// A zig-zag varint within `min..=max`.
pub open spec fn parse_signed_spec(s: Seq<u8>, min: i64, max: i64) -> Parsed<i64> {
    match varint_decoded(s) {
        Some((n, k)) => {
            let v = unzigzag(n as nat) as i64;
            if min <= v <= max {
                Ok((v, s.subrange(k as int, s.len() as int)))
            } else {
                Err(invalid_varint())
            }
        },
        None => Err(invalid_varint()),
    }
}

/// An unsigned varint that fits `u8`.
pub open spec fn parse_u8_spec(s: Seq<u8>) -> Parsed<u8> {
    match parse_unsigned_spec(s, u8::MAX as u64) {
        Ok((v, rest)) => Ok((v as u8, rest)),
        Err(e) => Err(e),
    }
}

/// An unsigned varint that fits `u16`.
pub open spec fn parse_u16_spec(s: Seq<u8>) -> Parsed<u16> {
    match parse_unsigned_spec(s, u16::MAX as u64) {
        Ok((v, rest)) => Ok((v as u16, rest)),
        Err(e) => Err(e),
    }
}

/// An unsigned varint that fits `u32`.
pub open spec fn parse_u32_spec(s: Seq<u8>) -> Parsed<u32> {
    match parse_unsigned_spec(s, u32::MAX as u64) {
        Ok((v, rest)) => Ok((v as u32, rest)),
        Err(e) => Err(e),
    }
}

/// An unsigned varint that fits `u64`.
pub open spec fn parse_u64_spec(s: Seq<u8>) -> Parsed<u64> {
    match parse_unsigned_spec(s, u64::MAX as u64) {
        Ok((v, rest)) => Ok((v as u64, rest)),
        Err(e) => Err(e),
    }
}

/// An unsigned varint that fits `usize`.
pub open spec fn parse_usize_spec(s: Seq<u8>) -> Parsed<usize> {
    match parse_unsigned_spec(s, usize::MAX as u64) {
        Ok((v, rest)) => Ok((v as usize, rest)),
        Err(e) => Err(e),
    }
}

/// A zig-zag varint that fits `i8`.
pub open spec fn parse_i8_spec(s: Seq<u8>) -> Parsed<i8> {
    match parse_signed_spec(s, i8::MIN as i64, i8::MAX as i64) {
        Ok((v, rest)) => Ok((v as i8, rest)),
        Err(e) => Err(e),
    }
}

/// A zig-zag varint that fits `i16`.
pub open spec fn parse_i16_spec(s: Seq<u8>) -> Parsed<i16> {
    match parse_signed_spec(s, i16::MIN as i64, i16::MAX as i64) {
        Ok((v, rest)) => Ok((v as i16, rest)),
        Err(e) => Err(e),
    }
}

/// A zig-zag varint that fits `i32`.
pub open spec fn parse_i32_spec(s: Seq<u8>) -> Parsed<i32> {
    match parse_signed_spec(s, i32::MIN as i64, i32::MAX as i64) {
        Ok((v, rest)) => Ok((v as i32, rest)),
        Err(e) => Err(e),
    }
}

/// A zig-zag varint that fits `i64`.
pub open spec fn parse_i64_spec(s: Seq<u8>) -> Parsed<i64> {
    match parse_signed_spec(s, i64::MIN as i64, i64::MAX as i64) {
        Ok((v, rest)) => Ok((v as i64, rest)),
        Err(e) => Err(e),
    }
}

/// A byte string: a varint length, then that many bytes.
pub open spec fn parse_bytes_spec(s: Seq<u8>) -> Parsed<Seq<u8>> {
    match parse_usize_spec(s) {
        Ok((len, rest)) => if len <= rest.len() {
            Ok((rest.subrange(0, len as int), rest.subrange(len as int, rest.len() as int)))
        } else {
            Err(end_of_bytestream())
        },
        Err(e) => Err(e),
    }
}

/// A string: a byte string that holds UTF-8.
pub open spec fn parse_string_spec(s: Seq<u8>) -> Parsed<Seq<char>> {
    match parse_bytes_spec(s) {
        Ok((b, rest)) => if valid_utf8(b) {
            Ok((decode_utf8(b), rest))
        } else {
            Err(invalid_utf8())
        },
        Err(e) => Err(e),
    }
}

/// Relies on `std::str::from_utf8`: a view of `b` as text exactly when it is UTF-8.
#[verifier::external_body]
fn utf8_str(b: &[u8]) -> (r: Option<&str>)
    ensures
        r is Some <==> valid_utf8(b@),
        r matches Some(s) ==> s@ == decode_utf8(b@),
{
    std::str::from_utf8(b).ok()
}

/// A forward-only read position over an input buffer. Strings and byte
/// strings it hands out borrow from that buffer.
pub struct CordDeserializer<'a> {
    input: &'a [u8],
}

impl<'a> View for CordDeserializer<'a> {
    type V = Seq<u8>;

    /// The bytes not read yet.
    closed spec fn view(&self) -> Seq<u8> {
        self.input@
    }
}

impl<'a> CordDeserializer<'a> {
    /// A decoder at the start of `input`.
    pub fn new(input: &'a [u8]) -> (r: Self)
        ensures
            r@ == input@,
    {
        CordDeserializer { input }
    }

    /// Succeeds exactly when every byte has been read.
    pub fn end(&self) -> (r: Result<(), CordError>)
        ensures
            r is Ok <==> self@.len() == 0,
            r is Err ==> r == Err::<(), CordError>(trailing_bytes()),
    {
        if self.input.len() == 0 {
            Ok(())
        } else {
            Err(CordError::ValidationError("Unexpected trailing bytes"))
        }
    }

    /// The next byte, without reading it.
    pub fn peek(&self) -> (r: Result<u8, CordError>)
        ensures
            match parse_byte_spec(self@) {
                Ok((b, _)) => r == Ok::<u8, CordError>(b),
                Err(e) => r == Err::<u8, CordError>(e),
            },
    {
        if self.input.len() == 0 {
            Err(CordError::ValidationError("Unexpected end of stream"))
        } else {
            Ok(self.input[0])
        }
    }

    /// Reads the next byte.
    pub fn next(&mut self) -> (r: Result<u8, CordError>)
        ensures
            yields(r, final(self)@, parse_byte_spec(old(self)@)),
    {
        let byte = self.peek()?;
        self.input = slice_subrange(self.input, 1, self.input.len());
        Ok(byte)
    }

    /// Skips `size` bytes.
    pub fn consume(&mut self, size: usize)
        requires
            size <= old(self)@.len(),
        ensures
            final(self)@ == old(self)@.subrange(size as int, old(self)@.len() as int),
    {
        self.input = slice_subrange(self.input, size, self.input.len());
    }

    /// Refuses a kind of value that the format does not have; nothing is read.
    pub fn unsupported<T>(&self, kind: &'static str) -> (r: Result<T, CordError>)
        ensures
            r == Err::<T, CordError>(CordError::NotSupported(kind)),
    {
        Err(CordError::NotSupported(kind))
    }

    /// Reads a boolean.
    pub fn parse_bool(&mut self) -> (r: Result<bool, CordError>)
        ensures
            yields(r, final(self)@, parse_bool_spec(old(self)@)),
    {
        let byte = self.next()?;
        if byte == 0 {
            Ok(false)
        } else if byte == 1 {
            Ok(true)
        } else {
            Err(CordError::ValidationError("Invalid boolean variant"))
        }
    }

    /// Reads an option's presence byte: `true` when a value follows.
    pub fn parse_option_tag(&mut self) -> (r: Result<bool, CordError>)
        ensures
            yields(r, final(self)@, parse_option_tag_spec(old(self)@)),
    {
        let byte = self.next()?;
        if byte == 0 {
            Ok(false)
        } else if byte == 1 {
            Ok(true)
        } else {
            Err(CordError::ValidationError("Invalid option variant"))
        }
    }

    /// Reads an unsigned varint no greater than `max`.
    pub fn parse_unsigned(&mut self, max: u64) -> (r: Result<u64, CordError>)
        ensures
            yields(r, final(self)@, parse_unsigned_spec(old(self)@, max)),
    {
        match decode_u64(self.input) {
            Some((v, n)) => {
                if v <= max {
                    self.consume(n);
                    Ok(v)
                } else {
                    Err(CordError::ValidationError("Invalid varint"))
                }
            },
            None => Err(CordError::ValidationError("Invalid varint")),
        }
    }

    /// Reads a zig-zag varint within `min..=max`.
    pub fn parse_signed(&mut self, min: i64, max: i64) -> (r: Result<i64, CordError>)
        ensures
            yields(r, final(self)@, parse_signed_spec(old(self)@, min, max)),
    {
        match decode_i64(self.input) {
            Some((v, n)) => {
                if min <= v && v <= max {
                    self.consume(n);
                    Ok(v)
                } else {
                    Err(CordError::ValidationError("Invalid varint"))
                }
            },
            None => Err(CordError::ValidationError("Invalid varint")),
        }
    }

    /// Reads an unsigned varint that fits `u8`.
    pub fn parse_u8(&mut self) -> (r: Result<u8, CordError>)
        ensures
            yields(r, final(self)@, parse_u8_spec(old(self)@)),
    {
        let v = self.parse_unsigned(u8::MAX as u64)?;
        Ok(v as u8)
    }

    /// Reads an unsigned varint that fits `u16`.
    pub fn parse_u16(&mut self) -> (r: Result<u16, CordError>)
        ensures
            yields(r, final(self)@, parse_u16_spec(old(self)@)),
    {
        let v = self.parse_unsigned(u16::MAX as u64)?;
        Ok(v as u16)
    }

    /// Reads an unsigned varint that fits `u32`.
    pub fn parse_u32(&mut self) -> (r: Result<u32, CordError>)
        ensures
            yields(r, final(self)@, parse_u32_spec(old(self)@)),
    {
        let v = self.parse_unsigned(u32::MAX as u64)?;
        Ok(v as u32)
    }

    /// Reads an unsigned varint that fits `u64`.
    pub fn parse_u64(&mut self) -> (r: Result<u64, CordError>)
        ensures
            yields(r, final(self)@, parse_u64_spec(old(self)@)),
    {
        let v = self.parse_unsigned(u64::MAX as u64)?;
        Ok(v as u64)
    }

    /// Reads an unsigned varint that fits `usize`.
    pub fn parse_usize(&mut self) -> (r: Result<usize, CordError>)
        ensures
            yields(r, final(self)@, parse_usize_spec(old(self)@)),
    {
        let v = self.parse_unsigned(usize::MAX as u64)?;
        Ok(v as usize)
    }

    /// Reads a zig-zag varint that fits `i8`.
    pub fn parse_i8(&mut self) -> (r: Result<i8, CordError>)
        ensures
            yields(r, final(self)@, parse_i8_spec(old(self)@)),
    {
        let v = self.parse_signed(i8::MIN as i64, i8::MAX as i64)?;
        Ok(v as i8)
    }

    /// Reads a zig-zag varint that fits `i16`.
    pub fn parse_i16(&mut self) -> (r: Result<i16, CordError>)
        ensures
            yields(r, final(self)@, parse_i16_spec(old(self)@)),
    {
        let v = self.parse_signed(i16::MIN as i64, i16::MAX as i64)?;
        Ok(v as i16)
    }

    /// Reads a zig-zag varint that fits `i32`.
    pub fn parse_i32(&mut self) -> (r: Result<i32, CordError>)
        ensures
            yields(r, final(self)@, parse_i32_spec(old(self)@)),
    {
        let v = self.parse_signed(i32::MIN as i64, i32::MAX as i64)?;
        Ok(v as i32)
    }

    /// Reads a zig-zag varint that fits `i64`.
    pub fn parse_i64(&mut self) -> (r: Result<i64, CordError>)
        ensures
            yields(r, final(self)@, parse_i64_spec(old(self)@)),
    {
        let v = self.parse_signed(i64::MIN as i64, i64::MAX as i64)?;
        Ok(v as i64)
    }

    /// Reads the length prefix of a sequence.
    pub fn parse_len(&mut self) -> (r: Result<usize, CordError>)
        ensures
            yields(r, final(self)@, parse_usize_spec(old(self)@)),
    {
        self.parse_usize()
    }

    /// Reads the variant index of a tagged union.
    pub fn parse_variant_index(&mut self) -> (r: Result<u32, CordError>)
        ensures
            yields(r, final(self)@, parse_u32_spec(old(self)@)),
    {
        self.parse_u32()
    }

    /// Reads a byte string; the result borrows from the input.
    pub fn parse_bytes(&mut self) -> (r: Result<&'a [u8], CordError>)
        ensures
            match parse_bytes_spec(old(self)@) {
                Ok((b, rest)) => r is Ok && r->Ok_0@ == b && final(self)@ == rest,
                Err(e) => r == Err::<&'a [u8], CordError>(e),
            },
    {
        let len = self.parse_usize()?;
        if len <= self.input.len() {
            let slice = slice_subrange(self.input, 0, len);
            self.input = slice_subrange(self.input, len, self.input.len());
            Ok(slice)
        } else {
            Err(CordError::ValidationError("Unexpected end of bytestream"))
        }
    }

    /// Reads a UTF-8 string; the result borrows from the input.
    pub fn parse_string(&mut self) -> (r: Result<&'a str, CordError>)
        ensures
            match parse_string_spec(old(self)@) {
                Ok((t, rest)) => r is Ok && r->Ok_0@ == t && final(self)@ == rest,
                Err(e) => r == Err::<&'a str, CordError>(e),
            },
    {
        let slice = self.parse_bytes()?;
        match utf8_str(slice) {
            Some(text) => Ok(text),
            None => Err(CordError::ValidationError("Invalid UTF-8 string")),
        }
    }
}

} // verus!
