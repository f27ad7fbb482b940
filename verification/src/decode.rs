//! The UTF-8 decoder for byte sources: one scalar at a time, against an
//! exact specification of the accepted byte shapes.

use vstd::prelude::*;

use vstd::utf8::is_scalar;

verus! {

/// Relies on char::from_u32: it returns the character for every value that
/// is a Unicode scalar (at most 0x10FFFF and not a surrogate), and None for
/// every other value.
pub assume_specification[ char::from_u32 ](v: u32) -> (r: Option<char>)
    ensures
        r == if is_scalar(v) {
            Some(v as char)
        } else {
            None::<char>
        },
;

/// True of a UTF-8 continuation byte (bit pattern 10xxxxxx).
pub open spec fn is_cont(b: u8) -> bool {
    0x80 <= b <= 0xbf
}

/// The six data bits of a continuation byte.
pub open spec fn cont_bits(b: u8) -> u32 {
    (b - 0x80) as u32
}

/// The outcome of decoding one scalar at index `i` of a byte sequence.
pub ghost enum SpecDecode {
    /// A scalar was decoded; the next undecoded index follows it.
    Char(char, int),
    /// `i` is the end of the sequence, with no bytes pending.
    End,
    /// An invalid lead byte, a missing or malformed continuation byte, or a
    /// code point with no valid scalar mapping.
    Fail,
}

/// Decodes the UTF-8 sequence starting at index `i`: a lead byte announces
/// how many continuation bytes follow, each contributing six bits. A decoded
/// code point that is no Unicode scalar is a failure.
pub open spec fn spec_decode_at(bytes: Seq<u8>, i: int) -> SpecDecode {
    if i >= bytes.len() {
        SpecDecode::End
    } else {
        let b = bytes[i];
        if b <= 0x7f {
            SpecDecode::Char(b as char, i + 1)
        } else if 0xc0 <= b <= 0xdf {
            if i + 1 < bytes.len() && is_cont(bytes[i + 1]) {
                let v = ((b - 0xc0) as u32) * 0x40 + cont_bits(bytes[i + 1]);
                if is_scalar(v as u32) {
                    SpecDecode::Char((v as u32) as char, i + 2)
                } else {
                    SpecDecode::Fail
                }
            } else {
                SpecDecode::Fail
            }
        } else if 0xe0 <= b <= 0xef {
            if i + 2 < bytes.len() && is_cont(bytes[i + 1]) && is_cont(bytes[i + 2]) {
                let v = ((b - 0xe0) as u32) * 0x1000 + cont_bits(bytes[i + 1]) * 0x40 + cont_bits(
                    bytes[i + 2],
                );
                if is_scalar(v as u32) {
                    SpecDecode::Char((v as u32) as char, i + 3)
                } else {
                    SpecDecode::Fail
                }
            } else {
                SpecDecode::Fail
            }
        } else if 0xf0 <= b <= 0xf7 {
            if i + 3 < bytes.len() && is_cont(bytes[i + 1]) && is_cont(bytes[i + 2]) && is_cont(
                bytes[i + 3],
            ) {
                let v = ((b - 0xf0) as u32) * 0x40000 + cont_bits(bytes[i + 1]) * 0x1000
                    + cont_bits(bytes[i + 2]) * 0x40 + cont_bits(bytes[i + 3]);
                if is_scalar(v as u32) {
                    SpecDecode::Char((v as u32) as char, i + 4)
                } else {
                    SpecDecode::Fail
                }
            } else {
                SpecDecode::Fail
            }
        } else {
            SpecDecode::Fail
        }
    }
}

/// The characters decoded from index `i` up to the end of the sequence or
/// the first failure, whichever comes first.
pub open spec fn spec_decode_prefix(bytes: Seq<u8>, i: int) -> Seq<char>
    decreases bytes.len() - i,
{
    match spec_decode_at(bytes, i) {
        SpecDecode::Char(c, j) => if i < j <= bytes.len() {
            seq![c] + spec_decode_prefix(bytes, j)
        } else {
            seq![c]
        },
        SpecDecode::End => Seq::empty(),
        SpecDecode::Fail => Seq::empty(),
    }
}

/// True when decoding from index `i` reaches the end of the sequence with no
/// failure and no bytes pending.
pub open spec fn spec_decode_ok(bytes: Seq<u8>, i: int) -> bool
    decreases bytes.len() - i,
{
    match spec_decode_at(bytes, i) {
        SpecDecode::Char(c, j) => if i < j <= bytes.len() {
            spec_decode_ok(bytes, j)
        } else {
            false
        },
        SpecDecode::End => true,
        SpecDecode::Fail => false,
    }
}

/// Decodes a byte slice as UTF-8, one scalar at a time.
pub struct CharReader<'a> {
    pub bytes: &'a [u8],
    pub pos: usize,
}

impl<'a> CharReader<'a> {
    pub fn new(bytes: &'a [u8]) -> (r: Self)
        ensures
            r.bytes@ == bytes@,
            r.pos == 0,
    {
        CharReader { bytes, pos: 0 }
    }

    /// Reads one continuation byte and yields its six data bits.
    fn read_cont(&mut self) -> (r: Result<u32, ()>)
        ensures
            final(self).bytes == old(self).bytes,
            match r {
                Ok(v) => old(self).pos < old(self).bytes@.len() && is_cont(
                    old(self).bytes@[old(self).pos as int],
                ) && v == cont_bits(old(self).bytes@[old(self).pos as int]) && final(self).pos
                    == old(self).pos + 1,
                Err(_) => (old(self).pos >= old(self).bytes@.len() || !is_cont(
                    old(self).bytes@[old(self).pos as int],
                )) && final(self).pos == old(self).pos,
            },
    {
        if self.pos < self.bytes.len() {
            let b = self.bytes[self.pos];
            if 0x80 <= b && b <= 0xbf {
                self.pos = self.pos + 1;
                return Ok((b - 0x80) as u32);
            }
        }
        Err(())
    }

    /// Decodes the next scalar, `None` at a clean end of input.
    pub fn read_code(&mut self) -> (r: Result<Option<char>, ()>)
        ensures
            final(self).bytes == old(self).bytes,
            match r {
                Ok(Some(c)) => spec_decode_at(old(self).bytes@, old(self).pos as int)
                    == SpecDecode::Char(c, final(self).pos as int) && old(self).pos
                    < final(self).pos && final(self).pos <= old(self).bytes@.len(),
                Ok(None) => spec_decode_at(old(self).bytes@, old(self).pos as int)
                    == SpecDecode::End && final(self).pos == old(self).pos,
                Err(_) => spec_decode_at(old(self).bytes@, old(self).pos as int)
                    == SpecDecode::Fail,
            },
    {
        if self.pos >= self.bytes.len() {
            return Ok(None);
        }
        let b = self.bytes[self.pos];
        self.pos = self.pos + 1;
        let code: u32 = if b <= 0x7f {
            return Ok(Some(b as char));
        } else if 0xc0 <= b && b <= 0xdf {
            let c1 = match self.read_cont() {
                Ok(v) => v,
                Err(_) => {
                    return Err(());
                },
            };
            ((b - 0xc0) as u32) * 0x40 + c1
        } else if 0xe0 <= b && b <= 0xef {
            let c1 = match self.read_cont() {
                Ok(v) => v,
                Err(_) => {
                    return Err(());
                },
            };
            let c2 = match self.read_cont() {
                Ok(v) => v,
                Err(_) => {
                    return Err(());
                },
            };
            ((b - 0xe0) as u32) * 0x1000 + c1 * 0x40 + c2
        } else if 0xf0 <= b && b <= 0xf7 {
            let c1 = match self.read_cont() {
                Ok(v) => v,
                Err(_) => {
                    return Err(());
                },
            };
            let c2 = match self.read_cont() {
                Ok(v) => v,
                Err(_) => {
                    return Err(());
                },
            };
            let c3 = match self.read_cont() {
                Ok(v) => v,
                Err(_) => {
                    return Err(());
                },
            };
            ((b - 0xf0) as u32) * 0x40000 + c1 * 0x1000 + c2 * 0x40 + c3
        } else {
            return Err(());
        };
        match char::from_u32(code) {
            Some(c) => Ok(Some(c)),
            None => Err(()),
        }
    }
}

/// Decodes a whole byte slice; on failure the characters decoded before the
/// failure come back, so that the caller can attribute a position to it.
pub fn decode_chars(bytes: &[u8]) -> (r: Result<Vec<char>, Vec<char>>)
    ensures
        match r {
            Ok(v) => spec_decode_ok(bytes@, 0) && v@ == spec_decode_prefix(bytes@, 0),
            Err(p) => !spec_decode_ok(bytes@, 0) && p@ == spec_decode_prefix(bytes@, 0),
        },
{
    let mut reader = CharReader::new(bytes);
    let mut out: Vec<char> = Vec::new();
    loop
        invariant
            reader.bytes@ == bytes@,
            reader.pos <= bytes@.len(),
            spec_decode_prefix(bytes@, 0) == out@ + spec_decode_prefix(
                bytes@,
                reader.pos as int,
            ),
            spec_decode_ok(bytes@, 0) == spec_decode_ok(bytes@, reader.pos as int),
        decreases bytes@.len() - reader.pos,
    {
        match reader.read_code() {
            Ok(Some(c)) => {
                out.push(c);
                proof {
                    assert(spec_decode_prefix(bytes@, 0) =~= out@ + spec_decode_prefix(
                        bytes@,
                        reader.pos as int,
                    ));
                }
            },
            Ok(None) => {
                proof {
                    assert(spec_decode_prefix(bytes@, 0) =~= out@);
                }
                return Ok(out);
            },
            Err(_) => {
                proof {
                    assert(spec_decode_prefix(bytes@, 0) =~= out@);
                }
                return Err(out);
            },
        }
    }
}

} // verus!
