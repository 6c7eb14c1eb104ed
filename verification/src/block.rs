//! The concrete tagged codec: `Writer` appends tokens to a byte buffer,
//! `Reader` consumes them from one. These are the only byte sink and source
//! the library needs; callers that stream to other media hand bytes in and
//! out as whole buffers.
use crate::primitive::{
    le_bytes, lemma_from_le_bound, push_le, take_le, PrimitiveRead, PrimitiveWrite,
};
use crate::tag::{
    expect_at, lemma_pow256_values, payload_width, skip_end, TagRead, TagWrite, Value, TAG_BEGIN,
    TAG_END, TAG_U128, TAG_U16, TAG_U32, TAG_U8,
};
use crate::{Error, Read, ReadPrimitive, Write, WritePrimitive};
use vstd::prelude::*;

verus! {

/// A tagged writer over a growable byte buffer. Writing never fails.
pub struct Writer {
    pub out: Vec<u8>,
}

/// A tagged reader over a byte buffer and a cursor.
pub struct Reader {
    pub data: Vec<u8>,
    pub pos: usize,
}

/// Makes a writer that appends to `out`.
pub fn create_writer(out: Vec<u8>) -> (w: Writer)
    ensures
        w.stream() == out@,
{
    Writer { out }
}

/// Makes a reader over `data`, positioned at its start.
pub fn create_reader(data: Vec<u8>) -> (r: Reader)
    ensures
        r.data() == data@,
        r.at() == 0,
        r.bound() == 0,
{
    Reader { data, pos: 0 }
}

impl Writer {
    /// Hands the written bytes back.
    pub fn into_inner(self) -> (out: Vec<u8>)
        ensures
            out@ == self.stream(),
    {
        self.out
    }
}

impl Reader {
    /// True when the cursor stands at the end of the stream.
    pub fn at_end(&self) -> (r: bool)
        ensures
            r <==> self.at() >= self.data().len(),
    {
        self.pos >= self.data.len()
    }
}

/// Appends one tag byte and a `w`-byte little-endian payload.
pub(crate) fn emit(out: &mut Vec<u8>, t: u8, x: u128, w: usize)
    ensures
        final(out)@ == old(out)@ + seq![t] + le_bytes(x as nat, w as nat),
{
    out.push(t);
    push_le(out, x, w);
    proof {
        assert(out@ =~= old(out)@ + seq![t] + le_bytes(x as nat, w as nat));
    }
}

/// Consumes the token at `*pos` requiring the tag `t` with payload width `w`,
/// returning its payload value.
fn take_tagged(data: &Vec<u8>, pos: &mut usize, t: u8, w: usize) -> (r: Result<u128, Error>)
    requires
        0 <= *old(pos) <= data@.len(),
        w == payload_width(t),
    ensures
        match expect_at(data@, *old(pos) as int, t) {
            Ok(xp) => r matches Ok(y) && y as nat == xp.0 && *final(pos) == xp.1,
            Err(e) => r == Err::<u128, Error>(e) && *final(pos) == *old(pos),
        },
{
    let len = data.len();
    if *pos >= len {
        Err(Error::IoError)
    } else if data[*pos] != t {
        Err(Error::TagMismatch)
    } else if w > len - *pos - 1 {
        Err(Error::IoError)
    } else {
        *pos = *pos + 1;
        let x = take_le(data, pos, w);
        Ok(x)
    }
}

impl PrimitiveWrite for Writer {
    open spec fn raw(&self) -> Seq<u8> {
        self.out@
    }

    fn write8(&mut self, x: u8) -> (r: Result<(), Error>) {
        push_le(&mut self.out, x as u128, 1);
        Ok(())
    }

    fn write16(&mut self, x: u16) -> (r: Result<(), Error>) {
        push_le(&mut self.out, x as u128, 2);
        Ok(())
    }

    fn write32(&mut self, x: u32) -> (r: Result<(), Error>) {
        push_le(&mut self.out, x as u128, 4);
        Ok(())
    }

    fn write128(&mut self, x: u128) -> (r: Result<(), Error>) {
        push_le(&mut self.out, x, 16);
        Ok(())
    }
}

impl PrimitiveRead for Reader {
    open spec fn raw(&self) -> Seq<u8> {
        self.data@
    }

    open spec fn cursor(&self) -> int {
        self.pos as int
    }

    fn read8(&mut self) -> (r: Result<u8, Error>) {
        let len = self.data.len();
        if len - self.pos < 1 {
            return Err(Error::IoError);
        }
        let x = take_le(&self.data, &mut self.pos, 1);
        proof {
            lemma_from_le_bound(self.data@.subrange(old(self).cursor(), old(self).cursor() + 1));
            lemma_pow256_values();
        }
        Ok(x as u8)
    }

    fn read16(&mut self) -> (r: Result<u16, Error>) {
        let len = self.data.len();
        if len - self.pos < 2 {
            return Err(Error::IoError);
        }
        let x = take_le(&self.data, &mut self.pos, 2);
        proof {
            lemma_from_le_bound(self.data@.subrange(old(self).cursor(), old(self).cursor() + 2));
            lemma_pow256_values();
        }
        Ok(x as u16)
    }

    fn read32(&mut self) -> (r: Result<u32, Error>) {
        let len = self.data.len();
        if len - self.pos < 4 {
            return Err(Error::IoError);
        }
        let x = take_le(&self.data, &mut self.pos, 4);
        proof {
            lemma_from_le_bound(self.data@.subrange(old(self).cursor(), old(self).cursor() + 4));
            lemma_pow256_values();
        }
        Ok(x as u32)
    }

    fn read128(&mut self) -> (r: Result<u128, Error>) {
        let len = self.data.len();
        if len - self.pos < 16 {
            return Err(Error::IoError);
        }
        let x = take_le(&self.data, &mut self.pos, 16);
        Ok(x)
    }
}

impl WritePrimitive for Writer {
    open spec fn stream(&self) -> Seq<u8> {
        self.out@
    }

    open spec fn refs(&self) -> Map<int, u32> {
        Map::empty()
    }

    open spec fn idstate(&self) -> (Seq<Option<u32>>, u32, Seq<int>) {
        (Seq::empty(), 0u32, Seq::empty())
    }

    fn u8(&mut self, x: u8) -> (r: Result<(), Error>) {
        emit(&mut self.out, TAG_U8, x as u128, 1);
        Ok(())
    }

    fn u16(&mut self, x: u16) -> (r: Result<(), Error>) {
        emit(&mut self.out, TAG_U16, x as u128, 2);
        Ok(())
    }

    fn u32(&mut self, x: u32) -> (r: Result<(), Error>) {
        emit(&mut self.out, TAG_U32, x as u128, 4);
        Ok(())
    }

    fn u128(&mut self, x: u128) -> (r: Result<(), Error>) {
        emit(&mut self.out, TAG_U128, x, 16);
        Ok(())
    }

    fn str(&mut self, x: &str) -> (r: Result<(), Error>) {
        Err(Error::NotImplemented)
    }
}

impl TagWrite for Writer {
    fn begin(&mut self) -> (r: Result<(), Error>) {
        emit(&mut self.out, TAG_BEGIN, 0, 0);
        Ok(())
    }

    fn end(&mut self) -> (r: Result<(), Error>) {
        emit(&mut self.out, TAG_END, 0, 0);
        Ok(())
    }

    fn primitive(&mut self, x: Value) -> (r: Result<(), Error>) {
        match x {
            Value::Begin => self.begin(),
            Value::End => self.end(),
            Value::U8(y) => self.u8(y),
            Value::U16(y) => self.u16(y),
            Value::U32(y) => self.u32(y),
            Value::U128(y) => self.u128(y),
        }
    }
}

impl Write for Writer {
    fn rc(&mut self, target: usize) -> (r: Result<(), Error>) {
        Err(Error::NotImplemented)
    }
}

impl ReadPrimitive for Reader {
    open spec fn data(&self) -> Seq<u8> {
        self.data@
    }

    open spec fn at(&self) -> int {
        self.pos as int
    }

    open spec fn bound(&self) -> int {
        0
    }

    fn u8(&mut self) -> (r: Result<u8, Error>) {
        let y = take_tagged(&self.data, &mut self.pos, TAG_U8, 1)?;
        proof {
            lemma_from_le_bound(self.data@.subrange(old(self).at() + 1, old(self).at() + 2));
            lemma_pow256_values();
        }
        Ok(y as u8)
    }

    fn u16(&mut self) -> (r: Result<u16, Error>) {
        let y = take_tagged(&self.data, &mut self.pos, TAG_U16, 2)?;
        proof {
            lemma_from_le_bound(self.data@.subrange(old(self).at() + 1, old(self).at() + 3));
            lemma_pow256_values();
        }
        Ok(y as u16)
    }

    fn u32(&mut self) -> (r: Result<u32, Error>) {
        let y = take_tagged(&self.data, &mut self.pos, TAG_U32, 4)?;
        proof {
            lemma_from_le_bound(self.data@.subrange(old(self).at() + 1, old(self).at() + 5));
            lemma_pow256_values();
        }
        Ok(y as u32)
    }

    fn u128(&mut self) -> (r: Result<u128, Error>) {
        let y = take_tagged(&self.data, &mut self.pos, TAG_U128, 16)?;
        Ok(y)
    }

    fn str(&mut self) -> (r: Result<String, Error>) {
        Err(Error::NotImplemented)
    }
}

impl TagRead for Reader {
    fn begin(&mut self) -> (r: Result<(), Error>) {
        let y = take_tagged(&self.data, &mut self.pos, TAG_BEGIN, 0)?;
        Ok(())
    }

    fn primitive(&mut self) -> (r: Result<Value, Error>) {
        let len = self.data.len();
        if self.pos >= len {
            return Err(Error::IoError);
        }
        let t = self.data[self.pos];
        if t > TAG_U128 {
            return Err(Error::TagMismatch);
        }
        let w: usize = if t == TAG_U8 {
            1
        } else if t == TAG_U16 {
            2
        } else if t == TAG_U32 {
            4
        } else if t == TAG_U128 {
            16
        } else {
            0
        };
        if w > len - self.pos - 1 {
            return Err(Error::IoError);
        }
        self.pos = self.pos + 1;
        let x = take_le(&self.data, &mut self.pos, w);
        proof {
            lemma_from_le_bound(
                self.data@.subrange(old(self).at() + 1, old(self).at() + 1 + w as int),
            );
            lemma_pow256_values();
        }
        let v = if t == TAG_BEGIN {
            Value::Begin
        } else if t == TAG_END {
            Value::End
        } else if t == TAG_U8 {
            Value::U8(x as u8)
        } else if t == TAG_U16 {
            Value::U16(x as u16)
        } else if t == TAG_U32 {
            Value::U32(x as u32)
        } else {
            Value::U128(x)
        };
        Ok(v)
    }

    #[verifier::loop_isolation(false)]
    fn end(&mut self) -> (r: Result<(), Error>) {
        let ghost s = self.data@;
        let ghost p0 = self.pos as int;
        let mut depth: usize = 0;
        loop
            invariant
                self.data@ == s,
                0 <= self.pos as int <= s.len(),
                depth as int <= self.pos as int - p0,
                0 <= p0,
                skip_end(s, p0, 0) == skip_end(s, self.pos as int, depth as nat),
            decreases s.len() - self.pos,
        {
            let ghost pos_before = self.pos as int;
            match self.primitive() {
                Err(e) => {
                    return Err(e);
                },
                Ok(v) => {
                    match v {
                        Value::End => {
                            if depth == 0 {
                                return Ok(());
                            } else {
                                depth = depth - 1;
                            }
                        },
                        Value::Begin => {
                            depth = depth + 1;
                        },
                        _ => {},
                    }
                },
            }
        }
    }
}

impl Read for Reader {
    fn rc(&mut self) -> (r: Result<usize, Error>) {
        Err(Error::NotImplemented)
    }
}

} // verus!
