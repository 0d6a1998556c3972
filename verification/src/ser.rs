//! The encoder: appends the bytes of values to a sink, and keeps the frames
//! of the collections that are open.

use vstd::prelude::*;
use vstd::string::StringSliceAdditionalSpecFns;
use crate::types::{Error, ErrorKind, DICT, DICT_COUNT, DICT_START, FALSE, FLOAT32, FLOAT64, INT1, INT2, INT4, INT8, INT_NEG_MIN, INT_NEG_START, INT_POS_MAX, INT_POS_START, LEN_TERM, LIST, LIST_COUNT, LIST_START, NONE, STR_COUNT, STR_START, TERM, TRUE};
use crate::bytes::{be_bytes, be_i16, be_i32, be_i64, be_signed, be_u32, be_u64, lemma_pow256_values, push_decimal};
use crate::value::{Value, SpecValue, dict_footer, dict_header, encoding, encoding_all, encoding_entries, entry_views, int8_encoding, list_footer, list_header, option_encoding, str_header, views, lemma_view_dict, lemma_view_list, lemma_encoding_all_push, lemma_encoding_entries_push};

verus! {

/// How a collection that is being written is delimited.
#[derive(Clone, Copy, Debug, PartialEq, Eq, Structural)]
pub enum Frame {
    /// The count stands in the tag; nothing closes the collection.
    FixedCount(usize),
    /// A general tag opened the collection; a terminator closes it.
    Open,
}

/// The frame of a list of `len` items.
pub open spec fn list_frame(len: usize) -> Frame {
    if len < 64 {
        Frame::FixedCount(len)
    } else {
        Frame::Open
    }
}

/// The frame of a dictionary of `len` entries.
pub open spec fn dict_frame(len: usize) -> Frame {
    if len < 25 {
        Frame::FixedCount(len)
    } else {
        Frame::Open
    }
}

/// What closes a collection with the frame `f`.
pub open spec fn frame_footer(f: Frame) -> Seq<u8> {
    match f {
        Frame::FixedCount(_) => Seq::empty(),
        Frame::Open => seq![127u8],
    }
}

/// The sink and the stack of open frames, innermost last.
pub struct RencodeSerializer {
    pub out: Vec<u8>,
    pub frames: Vec<Frame>,
}

impl RencodeSerializer {
    /// An encoder that appends to `out`, with no collection open.
    pub fn new(out: Vec<u8>) -> (s: RencodeSerializer)
        ensures
            s.out@ == out@,
            s.frames@.len() == 0,
    {
        RencodeSerializer { out, frames: Vec::new() }
    }

    /// The bytes written so far.
    pub fn into_bytes(self) -> (out: Vec<u8>)
        ensures
            out@ == self.out@,
    {
        self.out
    }

    /// Appends `buf`.
    pub fn write_all(&mut self, buf: &[u8])
        ensures
            final(self).out@ == old(self).out@ + buf@,
            final(self).frames == old(self).frames,
    {
        let mut i: usize = 0;
        while i < buf.len()
            invariant
                i <= buf@.len(),
                self.out@ == old(self).out@ + buf@.take(i as int),
                self.frames == old(self).frames,
            decreases buf@.len() - i,
        {
            self.out.push(buf[i]);
            assert(buf@.take(i + 1) =~= buf@.take(i as int).push(buf@[i as int]));
            i += 1;
        }
        assert(buf@.take(i as int) =~= buf@);
    }

    /// Appends one byte.
    pub fn write_u8(&mut self, n: u8)
        ensures
            final(self).out@ == old(self).out@.push(n),
            final(self).frames == old(self).frames,
    {
        self.out.push(n);
    }

    /// Appends the two's complement byte of `n`.
    pub fn write_i8(&mut self, n: i8)
        ensures
            final(self).out@ == old(self).out@ + be_signed(n as int, 1),
            final(self).frames == old(self).frames,
    {
        let b: u8 = if n >= 0 {
            n as u8
        } else {
            (n as i16 + 256) as u8
        };
        proof {
            reveal_with_fuel(be_bytes, 2);
            lemma_pow256_values();
            assert(be_signed(n as int, 1) =~= seq![b]);
        }
        self.out.push(b);
        assert(self.out@ =~= old(self).out@ + seq![b]);
    }

    /// Appends the two bytes of `n`, big-endian.
    pub fn write_i16(&mut self, n: i16)
        ensures
            final(self).out@ == old(self).out@ + be_signed(n as int, 2),
            final(self).frames == old(self).frames,
    {
        let buf = be_i16(n);
        self.write_all(buf.as_slice());
    }

    /// Appends the four bytes of `n`, big-endian.
    pub fn write_i32(&mut self, n: i32)
        ensures
            final(self).out@ == old(self).out@ + be_signed(n as int, 4),
            final(self).frames == old(self).frames,
    {
        let buf = be_i32(n);
        self.write_all(buf.as_slice());
    }

    /// Appends the eight bytes of `n`, big-endian.
    pub fn write_i64(&mut self, n: i64)
        ensures
            final(self).out@ == old(self).out@ + be_signed(n as int, 8),
            final(self).frames == old(self).frames,
    {
        let buf = be_i64(n);
        self.write_all(buf.as_slice());
    }

    /// Appends a 32-bit float, given as its bit pattern.
    pub fn write_f32(&mut self, bits: u32)
        ensures
            final(self).out@ == old(self).out@ + be_bytes(bits as nat, 4),
            final(self).frames == old(self).frames,
    {
        let buf = be_u32(bits);
        self.write_all(buf.as_slice());
    }

    /// Appends a 64-bit float, given as its bit pattern.
    pub fn write_f64(&mut self, bits: u64)
        ensures
            final(self).out@ == old(self).out@ + be_bytes(bits as nat, 8),
            final(self).frames == old(self).frames,
    {
        let buf = be_u64(bits);
        self.write_all(buf.as_slice());
    }

    /// The unit is its tag.
    pub fn serialize_unit(&mut self)
        ensures
            final(self).out@ == old(self).out@ + encoding(SpecValue::Unit),
            final(self).frames == old(self).frames,
    {
        self.write_u8(NONE);
        assert(self.out@ =~= old(self).out@ + encoding(SpecValue::Unit));
    }

    /// An absent optional value is written as the unit.
    pub fn serialize_none(&mut self)
        ensures
            final(self).out@ == old(self).out@ + encoding(SpecValue::Unit),
            final(self).frames == old(self).frames,
    {
        self.serialize_unit()
    }

    /// A boolean is one of two tags.
    pub fn serialize_bool(&mut self, v: bool)
        ensures
            final(self).out@ == old(self).out@ + encoding(SpecValue::Bool(v)),
            final(self).frames == old(self).frames,
    {
        self.write_u8(if v { TRUE } else { FALSE });
        assert(self.out@ =~= old(self).out@ + encoding(SpecValue::Bool(v)));
    }

    /// One inline byte for 0 to 43 and for -32 to -1; else the marker and the byte.
    pub fn serialize_i8(&mut self, v: i8)
        ensures
            final(self).out@ == old(self).out@ + encoding(SpecValue::Int8(v)),
            final(self).frames == old(self).frames,
    {
        if INT_POS_START <= v && v <= INT_POS_MAX {
            self.write_u8(v as u8);
        } else if INT_NEG_MIN <= v && v < 0 {
            self.write_u8((INT_NEG_START - 1 - v) as u8);
        } else {
            self.write_u8(INT1);
            self.write_i8(v);
        }
        assert(self.out@ =~= old(self).out@ + int8_encoding(v));
    }

    /// The two-byte marker and payload, however small the value is.
    pub fn serialize_i16(&mut self, v: i16)
        ensures
            final(self).out@ == old(self).out@ + encoding(SpecValue::Int16(v)),
            final(self).frames == old(self).frames,
    {
        self.write_u8(INT2);
        self.write_i16(v);
        assert(self.out@ =~= old(self).out@ + encoding(SpecValue::Int16(v)));
    }

    /// The four-byte marker and payload, however small the value is.
    pub fn serialize_i32(&mut self, v: i32)
        ensures
            final(self).out@ == old(self).out@ + encoding(SpecValue::Int32(v)),
            final(self).frames == old(self).frames,
    {
        self.write_u8(INT4);
        self.write_i32(v);
        assert(self.out@ =~= old(self).out@ + encoding(SpecValue::Int32(v)));
    }

    /// The eight-byte marker and payload, however small the value is.
    pub fn serialize_i64(&mut self, v: i64)
        ensures
            final(self).out@ == old(self).out@ + encoding(SpecValue::Int64(v)),
            final(self).frames == old(self).frames,
    {
        self.write_u8(INT8);
        self.write_i64(v);
        assert(self.out@ =~= old(self).out@ + encoding(SpecValue::Int64(v)));
    }

    /// An unsigned integer is written as a signed one of 64 bits, and refused
    /// with nothing written where it does not fit.
    pub fn serialize_u64(&mut self, v: u64) -> (r: Result<(), Error>)
        ensures
            final(self).frames == old(self).frames,
            v <= i64::MAX ==> r == Ok::<(), Error>(()) && final(self).out@ == old(self).out@
                + encoding(SpecValue::Int64(v as i64)),
            v > i64::MAX ==> r == Err::<(), Error>(Error::of(ErrorKind::UnsupportedValue))
                && final(self).out@ == old(self).out@,
    {
        if v > 0x7fff_ffff_ffff_ffff {
            return Err(Error::new(ErrorKind::UnsupportedValue));
        }
        self.serialize_i64(v as i64);
        Ok(())
    }

    /// A 32-bit float, given as its bit pattern.
    pub fn serialize_f32(&mut self, bits: u32)
        ensures
            final(self).out@ == old(self).out@ + encoding(SpecValue::Float32(bits)),
            final(self).frames == old(self).frames,
    {
        self.write_u8(FLOAT32);
        self.write_f32(bits);
        assert(self.out@ =~= old(self).out@ + encoding(SpecValue::Float32(bits)));
    }

    /// A 64-bit float, given as its bit pattern.
    pub fn serialize_f64(&mut self, bits: u64)
        ensures
            final(self).out@ == old(self).out@ + encoding(SpecValue::Float64(bits)),
            final(self).frames == old(self).frames,
    {
        self.write_u8(FLOAT64);
        self.write_f64(bits);
        assert(self.out@ =~= old(self).out@ + encoding(SpecValue::Float64(bits)));
    }

    /// Under 64 bytes the length stands in the tag; else its decimal digits
    /// and a `:` come first.
    pub fn serialize_bytes(&mut self, v: &[u8])
        ensures
            final(self).out@ == old(self).out@ + encoding(SpecValue::Bytes(v@)),
            final(self).frames == old(self).frames,
    {
        let len = v.len();
        if len < STR_COUNT {
            self.write_u8(STR_START + len as u8);
        } else {
            push_decimal(&mut self.out, len);
            self.write_u8(LEN_TERM);
        }
        assert(self.out@ =~= old(self).out@ + str_header(len as nat));
        self.write_all(v);
        assert(self.out@ =~= old(self).out@ + encoding(SpecValue::Bytes(v@)));
    }

    /// Text is written as its UTF-8 bytes.
    pub fn serialize_str(&mut self, v: &str)
        ensures
            final(self).out@ == old(self).out@ + encoding(SpecValue::Bytes(v.spec_bytes())),
            final(self).frames == old(self).frames,
    {
        self.serialize_bytes(v.as_bytes())
    }

    /// Opens a list whose length must be known beforehand.
    pub fn serialize_seq(&mut self, len: Option<usize>) -> (r: Result<(), Error>)
        ensures
            match len {
                Some(n) => r == Ok::<(), Error>(()) && final(self).out@ == old(self).out@
                    + list_header(n as nat) && final(self).frames@ == old(self).frames@.push(
                    list_frame(n),
                ),
                None => r == Err::<(), Error>(Error::of(ErrorKind::UnsupportedValue)) && final(self).out@ == old(self).out@ && final(self).frames@ == old(self).frames@,
            },
    {
        match len {
            Some(n) => {
                self.serialize_tuple(n);
                Ok(())
            },
            None => Err(Error::new(ErrorKind::UnsupportedValue)),
        }
    }

    /// Opens a list of `len` items: under 64 the count stands in the tag, else
    /// the open marker is written and `end` will write the terminator.
    pub fn serialize_tuple(&mut self, len: usize)
        ensures
            final(self).out@ == old(self).out@ + list_header(len as nat),
            final(self).frames@ == old(self).frames@.push(list_frame(len)),
    {
        if len < LIST_COUNT {
            self.write_u8(LIST_START + len as u8);
            self.frames.push(Frame::FixedCount(len));
        } else {
            self.write_u8(LIST);
            self.frames.push(Frame::Open);
        }
        assert(self.out@ =~= old(self).out@ + list_header(len as nat));
    }

    /// Opens a dictionary whose length must be known beforehand.
    pub fn serialize_map(&mut self, len: Option<usize>) -> (r: Result<(), Error>)
        ensures
            match len {
                Some(n) => r == Ok::<(), Error>(()) && final(self).out@ == old(self).out@
                    + dict_header(n as nat) && final(self).frames@ == old(self).frames@.push(
                    dict_frame(n),
                ),
                None => r == Err::<(), Error>(Error::of(ErrorKind::UnsupportedValue)) && final(self).out@ == old(self).out@ && final(self).frames@ == old(self).frames@,
            },
    {
        match len {
            Some(n) => {
                self.serialize_struct(n);
                Ok(())
            },
            None => Err(Error::new(ErrorKind::UnsupportedValue)),
        }
    }

    /// Opens a dictionary of `len` entries: under 25 the count stands in the
    /// tag, else the open marker is written and `end` will write the
    /// terminator. A record is written as the dictionary of its fields.
    pub fn serialize_struct(&mut self, len: usize)
        ensures
            final(self).out@ == old(self).out@ + dict_header(len as nat),
            final(self).frames@ == old(self).frames@.push(dict_frame(len)),
    {
        if len < DICT_COUNT {
            self.write_u8(DICT_START + len as u8);
            self.frames.push(Frame::FixedCount(len));
        } else {
            self.write_u8(DICT);
            self.frames.push(Frame::Open);
        }
        assert(self.out@ =~= old(self).out@ + dict_header(len as nat));
    }

    /// Closes the innermost open collection: the terminator is written only
    /// where its frame is open.
    pub fn end(&mut self)
        requires
            old(self).frames@.len() > 0,
        ensures
            final(self).out@ == old(self).out@ + frame_footer(old(self).frames@.last()),
            final(self).frames@ == old(self).frames@.drop_last(),
    {
        let f = self.frames.pop();
        match f {
            Some(Frame::Open) => {
                self.write_u8(TERM);
            },
            _ => {},
        }
        assert(self.out@ =~= old(self).out@ + frame_footer(old(self).frames@.last()));
    }

    /// A value that is present is written as itself.
    pub fn serialize_some(&mut self, v: &Value)
        ensures
            final(self).out@ == old(self).out@ + option_encoding(Some(v@)),
            final(self).frames@ == old(self).frames@,
    {
        self.serialize_value(v)
    }

    /// A field of a record is an entry of its dictionary: the name as a
    /// string, then the value.
    pub fn serialize_field(&mut self, key: &str, value: &Value)
        ensures
            final(self).out@ == old(self).out@ + encoding(SpecValue::Bytes(key.spec_bytes()))
                + encoding(value@),
            final(self).frames@ == old(self).frames@,
    {
        self.serialize_str(key);
        self.serialize_value(value);
    }

    /// Writes a whole value: a scalar by its own rule, a list or a dictionary
    /// as its opening, its parts in order, and its closing.
    #[verifier::loop_isolation(false)]
    pub fn serialize_value(&mut self, v: &Value)
        ensures
            final(self).out@ == old(self).out@ + encoding(v@),
            final(self).frames@ == old(self).frames@,
        decreases v,
    {
        match v {
            Value::Unit => self.serialize_unit(),
            Value::Bool(b) => self.serialize_bool(*b),
            Value::Int8(n) => self.serialize_i8(*n),
            Value::Int16(n) => self.serialize_i16(*n),
            Value::Int32(n) => self.serialize_i32(*n),
            Value::Int64(n) => self.serialize_i64(*n),
            Value::Float32(bits) => self.serialize_f32(*bits),
            Value::Float64(bits) => self.serialize_f64(*bits),
            Value::Bytes(b) => self.serialize_bytes(b.as_slice()),
            Value::List(items) => {
                proof {
                    lemma_view_list(*items);
                }
                let n = items.len();
                self.serialize_tuple(n);
                let ghost all = views(items@);
                let mut i: usize = 0;
                while i < n
                    invariant
                        i <= n,
                        self.out@ == old(self).out@ + list_header(n as nat) + encoding_all(
                            all.take(i as int),
                        ),
                        self.frames@ == old(self).frames@.push(list_frame(n)),
                    decreases n - i,
                {
                    self.serialize_value(&items[i]);
                    proof {
                        lemma_encoding_all_push(all.take(i as int), items[i as int]@);
                        assert(all.take(i + 1) =~= all.take(i as int).push(items[i as int]@));
                    }
                    i += 1;
                }
                assert(all.take(n as int) =~= all);
                self.end();
                assert(frame_footer(list_frame(n)) == list_footer(n as nat));
            },
            Value::Dict(entries) => {
                proof {
                    lemma_view_dict(*entries);
                }
                let n = entries.len();
                self.serialize_struct(n);
                let ghost all = entry_views(entries@);
                let mut i: usize = 0;
                while i < n
                    invariant
                        i <= n,
                        self.out@ == old(self).out@ + dict_header(n as nat) + encoding_entries(
                            all.take(i as int),
                        ),
                        self.frames@ == old(self).frames@.push(dict_frame(n)),
                    decreases n - i,
                {
                    self.serialize_value(&entries[i].0);
                    self.serialize_value(&entries[i].1);
                    proof {
                        lemma_encoding_entries_push(all.take(i as int), all[i as int]);
                        assert(all.take(i + 1) =~= all.take(i as int).push(all[i as int]));
                    }
                    i += 1;
                }
                assert(all.take(n as int) =~= all);
                self.end();
                assert(frame_footer(dict_frame(n)) == dict_footer(n as nat));
            },
        }
    }
}

/// Appends the bytes of `value` to `writer`. Every value can be written.
pub fn to_writer(writer: &mut Vec<u8>, value: &Value) -> (r: Result<(), Error>)
    ensures
        r == Ok::<(), Error>(()),
        final(writer)@ == old(writer)@ + encoding(value@),
{
    let mut serializer = RencodeSerializer::new(Vec::new());
    core::mem::swap(writer, &mut serializer.out);
    serializer.serialize_value(value);
    core::mem::swap(writer, &mut serializer.out);
    Ok(())
}

/// The bytes that `value` is written as. Every value can be written.
pub fn to_bytes(value: &Value) -> (r: Result<Vec<u8>, Error>)
    ensures
        r is Ok,
        r->Ok_0@ == encoding(value@),
{
    let mut buf = Vec::new();
    match to_writer(&mut buf, value) {
        Ok(()) => {
            assert(buf@ =~= encoding(value@));
            Ok(buf)
        },
        Err(e) => Err(e),
    }
}

} // verus!
