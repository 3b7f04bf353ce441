//! Values as bytes.

use crate::bytes::{
    holds_at, le32, le64, le_signed, le_text, lemma_holds_parts, lemma_i64_back, lemma_text_back,
    lemma_u64_back, put_i64, put_text, put_u32, put_u64, read_byte, read_i64, read_text, read_u32,
    read_u64, take_byte, take_i64, take_text, take_u32, take_u64, text_fits, FormatError, Taken,
    lemma_u32_back,
};
use crate::model::Datum;
use crate::value::{Value, ValueV};
use vstd::prelude::*;

verus! {

/// Values that can be written as bytes and read back.
pub trait Codec: Datum + View {
    /// The bytes of a value.
    spec fn encoding(v: Self::V) -> Seq<u8>;

    /// The value whose bytes stand at a place.
    spec fn decoding(b: Seq<u8>, at: int) -> Taken<Self::V>;

    /// The value is not too large to be read back.
    spec fn fits(v: Self::V) -> bool;

    fn write_encoded(&self, out: &mut Vec<u8>)
        ensures
            final(out)@ == old(out)@ + Self::encoding(self@),
    ;

    fn read_encoded(b: &Vec<u8>, at: usize) -> (r: Result<(Self, usize), FormatError>)
        requires
            at <= b@.len(),
        ensures
            match Self::decoding(b@, at as int) {
                Ok((v, next)) => r is Ok && r->Ok_0.0@ == v && r->Ok_0.1 == next && next
                    <= b@.len(),
                Err(e) => r is Err && r->Err_0 == e,
            },
    ;

    /// What was written is what is read.
    proof fn reads_back(v: Self::V, b: Seq<u8>, at: int)
        requires
            Self::fits(v),
            holds_at(b, at, Self::encoding(v)),
        ensures
            Self::decoding(b, at) == Ok::<(Self::V, int), FormatError>(
                (v, at + Self::encoding(v).len()),
            ),
    ;
}

impl Codec for i32 {
    open spec fn encoding(v: i32) -> Seq<u8> {
        le32(v as u32)
    }

    open spec fn decoding(b: Seq<u8>, at: int) -> Taken<i32> {
        match take_u32(b, at) {
            Ok((n, next)) => Ok((n as i32, next)),
            Err(e) => Err(e),
        }
    }

    open spec fn fits(v: i32) -> bool {
        true
    }

    fn write_encoded(&self, out: &mut Vec<u8>) {
        put_u32(out, *self as u32);
    }

    fn read_encoded(b: &Vec<u8>, at: usize) -> (r: Result<(Self, usize), FormatError>) {
        match read_u32(b, at) {
            Ok((n, next)) => Ok((n as i32, next)),
            Err(e) => Err(e),
        }
    }

    proof fn reads_back(v: i32, b: Seq<u8>, at: int) {
        lemma_u32_back(b, at, v as u32);
        assert((v as u32) as i32 == v) by (bit_vector);
    }
}

/// The byte that tells which kind of value follows.
pub open spec fn tag_of(v: ValueV) -> u8 {
    match v {
        ValueV::Null => 0,
        ValueV::Int(_) => 1,
        ValueV::Float(_) => 2,
        ValueV::Str(_) => 3,
        ValueV::Bool(_) => 4,
    }
}

pub open spec fn payload_of(v: ValueV) -> Seq<u8> {
    match v {
        ValueV::Null => Seq::empty(),
        ValueV::Int(i) => le_signed(i),
        ValueV::Float(bits) => le64(bits),
        ValueV::Str(s) => le_text(s),
        ValueV::Bool(b) => seq![if b { 1u8 } else { 0u8 }],
    }
}

impl Codec for Value {
    open spec fn encoding(v: ValueV) -> Seq<u8> {
        seq![tag_of(v)] + payload_of(v)
    }

    open spec fn decoding(b: Seq<u8>, at: int) -> Taken<ValueV> {
        match take_byte(b, at) {
            Err(e) => Err(e),
            Ok((tag, from)) => if tag == 0 {
                Ok((ValueV::Null, from))
            } else if tag == 1 {
                match take_i64(b, from) {
                    Ok((i, next)) => Ok((ValueV::Int(i), next)),
                    Err(e) => Err(e),
                }
            } else if tag == 2 {
                match take_u64(b, from) {
                    Ok((bits, next)) => Ok((ValueV::Float(bits), next)),
                    Err(e) => Err(e),
                }
            } else if tag == 3 {
                match take_text(b, from) {
                    Ok((s, next)) => Ok((ValueV::Str(s), next)),
                    Err(e) => Err(e),
                }
            } else if tag == 4 {
                match take_byte(b, from) {
                    Ok((x, next)) => Ok((ValueV::Bool(x != 0), next)),
                    Err(e) => Err(e),
                }
            } else {
                Err(FormatError::InvalidTag(tag))
            },
        }
    }

    open spec fn fits(v: ValueV) -> bool {
        v matches ValueV::Str(s) ==> text_fits(s)
    }

    fn write_encoded(&self, out: &mut Vec<u8>) {
        let ghost before = out@;
        match self {
            Value::Null => {
                out.push(0);
            },
            Value::Int(i) => {
                out.push(1);
                put_i64(out, *i);
            },
            Value::Float(bits) => {
                out.push(2);
                put_u64(out, *bits);
            },
            Value::Str(s) => {
                out.push(3);
                put_text(out, s.as_str());
            },
            Value::Bool(b) => {
                out.push(4);
                out.push(
                    if *b {
                        1
                    } else {
                        0
                    },
                );
            },
        }
        assert(out@ =~= before + Self::encoding(self@));
    }

    fn read_encoded(b: &Vec<u8>, at: usize) -> (r: Result<(Self, usize), FormatError>) {
        let (tag, from) = match read_byte(b, at) {
            Ok(x) => x,
            Err(e) => {
                return Err(e);
            },
        };
        if tag == 0 {
            Ok((Value::Null, from))
        } else if tag == 1 {
            match read_i64(b, from) {
                Ok((i, next)) => Ok((Value::Int(i), next)),
                Err(e) => Err(e),
            }
        } else if tag == 2 {
            match read_u64(b, from) {
                Ok((bits, next)) => Ok((Value::Float(bits), next)),
                Err(e) => Err(e),
            }
        } else if tag == 3 {
            match read_text(b, from) {
                Ok((s, next)) => Ok((Value::Str(s), next)),
                Err(e) => Err(e),
            }
        } else if tag == 4 {
            match read_byte(b, from) {
                Ok((x, next)) => Ok((Value::Bool(x != 0), next)),
                Err(e) => Err(e),
            }
        } else {
            Err(FormatError::InvalidTag(tag))
        }
    }

    proof fn reads_back(v: ValueV, b: Seq<u8>, at: int) {
        let tag = seq![tag_of(v)];
        lemma_holds_parts(b, at, tag, payload_of(v));
        assert(b.subrange(at, at + 1)[0] == tag[0]);
        match v {
            ValueV::Null => {},
            ValueV::Int(i) => {
                lemma_i64_back(b, at + 1, i);
            },
            ValueV::Float(bits) => {
                lemma_u64_back(b, at + 1, bits);
            },
            ValueV::Str(s) => {
                lemma_text_back(b, at + 1, s);
            },
            ValueV::Bool(x) => {
                assert(b.subrange(at + 1, at + 2)[0] == payload_of(v)[0]);
            },
        }
    }
}

} // verus!
