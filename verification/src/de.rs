//! The decoder: a cursor over a buffer with a register for one byte that was
//! read and handed back, the readers of each kind of tag, and the dispatch.

use vstd::prelude::*;
use vstd::slice::slice_subrange;
use vstd::utf8::{decode_utf8, valid_utf8};
use crate::types::{Error, ErrorKind, DICT, DICT_END, DICT_START, FALSE, FLOAT32, FLOAT64, INT, INT1, INT2, INT4, INT8, LEN_TERM, LIST, LIST_START, NONE, STR_END, STR_START, TERM, TRUE};
use crate::bytes::{be_signed_value, be_value, decimal_value, i16_of_be, i32_of_be, i64_of_be, lemma_pow256_values, u32_of_be, u64_of_be};
use crate::value::{Value, SpecValue, SpecToken, views, entry_views, split, length_end, long_str_at, token_at, parse_value, parse_items, parse_open_items, parse_entry, parse_entries, parse_open_entries, parse_option, prefixed, decoding, lemma_prefixed_cons, lemma_prefixed_empty, lemma_view_list, lemma_view_dict};

verus! {

/// What one step of reading found where a value begins.
#[derive(Debug, PartialEq, Eq)]
pub enum Token {
    /// A whole value that is neither a list nor a dictionary.
    Scalar(Value),
    /// A list of so many values follows.
    FixedSeq(usize),
    /// A dictionary of so many entries follows.
    FixedMap(usize),
    /// Values follow up to a terminator.
    OpenSeq,
    /// Entries follow up to a terminator.
    OpenMap,
}

impl View for Token {
    type V = SpecToken;

    open spec fn view(&self) -> SpecToken {
        match self {
            Token::Scalar(v) => SpecToken::Scalar(v@),
            Token::FixedSeq(n) => SpecToken::FixedSeq(*n as nat),
            Token::FixedMap(n) => SpecToken::FixedMap(*n as nat),
            Token::OpenSeq => SpecToken::OpenSeq,
            Token::OpenMap => SpecToken::OpenMap,
        }
    }
}

/// How a reader that looks at one tag ends, against what it was to find:
/// a match is returned and consumed, a mismatch leaves the input as it was.
pub open spec fn peeked<T>(
    before: Seq<u8>,
    want: Result<Option<(T, Seq<u8>)>, ErrorKind>,
    r: Result<Option<T>, Error>,
    after: Seq<u8>,
) -> bool {
    match want {
        Err(k) => r == Err::<Option<T>, Error>(Error::of(k)),
        Ok(None) => r == Ok::<Option<T>, Error>(None) && after == before,
        Ok(Some((v, rest))) => r == Ok::<Option<T>, Error>(Some(v)) && after == rest,
    }
}

/// The tag `tag` alone, standing for `v`.
pub open spec fn tag_at<T>(s: Seq<u8>, tag: u8, v: T) -> Result<Option<(T, Seq<u8>)>, ErrorKind> {
    if s.len() == 0 {
        Err(ErrorKind::UnexpectedEndOfInput)
    } else if s[0] == tag {
        Ok(Some((v, s.skip(1))))
    } else {
        Ok(None)
    }
}

/// The tag `tag` and the `width` bytes after it.
pub open spec fn payload_at(s: Seq<u8>, tag: u8, width: nat) -> Result<
    Option<(Seq<u8>, Seq<u8>)>,
    ErrorKind,
> {
    if s.len() == 0 {
        Err(ErrorKind::UnexpectedEndOfInput)
    } else if s[0] == tag {
        match split(s.skip(1), width) {
            Err(k) => Err(k),
            Ok(parts) => Ok(Some(parts)),
        }
    } else {
        Ok(None)
    }
}

/// One of the two boolean tags.
pub open spec fn bool_at(s: Seq<u8>) -> Result<Option<(bool, Seq<u8>)>, ErrorKind> {
    if s.len() == 0 {
        Err(ErrorKind::UnexpectedEndOfInput)
    } else if s[0] == 67 {
        Ok(Some((true, s.skip(1))))
    } else if s[0] == 68 {
        Ok(Some((false, s.skip(1))))
    } else {
        Ok(None)
    }
}

/// An 8-bit integer: inline, or behind the one-byte marker.
pub open spec fn i8_at(s: Seq<u8>) -> Result<Option<(i8, Seq<u8>)>, ErrorKind> {
    if s.len() == 0 {
        Err(ErrorKind::UnexpectedEndOfInput)
    } else if s[0] == 62 {
        match split(s.skip(1), 1) {
            Err(k) => Err(k),
            Ok((payload, rest)) => Ok(Some((be_signed_value(payload) as i8, rest))),
        }
    } else if s[0] <= 43 {
        Ok(Some((s[0] as i8, s.skip(1))))
    } else if 70 <= s[0] <= 101 {
        Ok(Some(((69 - s[0]) as i8, s.skip(1))))
    } else {
        Ok(None)
    }
}

/// A byte string, with its length in the tag or in decimal before it.
pub open spec fn bytes_at(s: Seq<u8>) -> Result<Option<(Seq<u8>, Seq<u8>)>, ErrorKind> {
    if s.len() == 0 {
        Err(ErrorKind::UnexpectedEndOfInput)
    } else if 49 <= s[0] <= 57 {
        match long_str_at(s) {
            Err(k) => Err(k),
            Ok(parts) => Ok(Some(parts)),
        }
    } else if 128 <= s[0] <= 191 {
        match split(s.skip(1), (s[0] - 128) as nat) {
            Err(k) => Err(k),
            Ok(parts) => Ok(Some(parts)),
        }
    } else {
        Ok(None)
    }
}

/// A tag from `low` to `high`, which holds a count.
pub open spec fn count_at(s: Seq<u8>, low: u8, high: u8) -> Result<
    Option<(usize, Seq<u8>)>,
    ErrorKind,
> {
    if s.len() == 0 {
        Err(ErrorKind::UnexpectedEndOfInput)
    } else if low <= s[0] <= high {
        Ok(Some(((s[0] - low) as usize, s.skip(1))))
    } else {
        Ok(None)
    }
}

/// A cursor over the input, and the register that holds at most one byte
/// that was read and handed back.
pub struct RencodeDeserializer<'a> {
    data: &'a [u8],
    pos: usize,
    returned_byte: Option<u8>,
}

impl<'a> RencodeDeserializer<'a> {
    /// The cursor lies within the input.
    pub closed spec fn wf(&self) -> bool {
        self.pos <= self.data@.len()
    }

    /// The byte in the register, if there is one.
    pub closed spec fn pending(&self) -> Option<u8> {
        self.returned_byte
    }

    /// What is still to be read: the byte in the register, then the input
    /// from the cursor on.
    pub closed spec fn remaining(&self) -> Seq<u8> {
        match self.returned_byte {
            Some(b) => seq![b] + self.data@.skip(self.pos as int),
            None => self.data@.skip(self.pos as int),
        }
    }

    /// The byte in the register is the first of what is still to be read.
    pub proof fn lemma_pending_is_first(&self)
        ensures
            self.pending() is Some ==> self.remaining().len() > 0 && self.remaining()[0]
                == self.pending()->Some_0,
    {
    }

    /// A decoder at the start of `data`, with the register empty.
    pub fn new(data: &'a [u8]) -> (d: RencodeDeserializer<'a>)
        ensures
            d.wf(),
            d.pending() is None,
            d.remaining() == data@,
    {
        let d = RencodeDeserializer { data, pos: 0, returned_byte: None };
        assert(data@.skip(0) =~= data@);
        d
    }

    /// The byte in the register, if there is one. `go_back` may be called
    /// only where this is `None`.
    pub fn pending_byte(&self) -> (b: Option<u8>)
        ensures
            b == self.pending(),
    {
        self.returned_byte
    }

    /// Whether nothing is left to read.
    pub fn at_end(&self) -> (b: bool)
        requires
            self.wf(),
        ensures
            b == (self.remaining().len() == 0),
    {
        self.returned_byte.is_none() && self.pos == self.data.len()
    }

    /// The byte in the register if there is one, else the next byte of the input.
    pub fn next_byte(&mut self) -> (r: Result<u8, Error>)
        requires
            old(self).wf(),
        ensures
            final(self).wf(),
            final(self).pending() is None,
            old(self).remaining().len() == 0 ==> r == Err::<u8, Error>(
                Error::of(ErrorKind::UnexpectedEndOfInput),
            ) && final(self).remaining() == old(self).remaining(),
            old(self).remaining().len() > 0 ==> r == Ok::<u8, Error>(old(self).remaining()[0])
                && final(self).remaining() == old(self).remaining().skip(1),
    {
        match self.returned_byte {
            Some(b) => {
                self.returned_byte = None;
                assert(self.remaining() =~= old(self).remaining().skip(1));
                Ok(b)
            },
            None => {
                if self.pos < self.data.len() {
                    let b = self.data[self.pos];
                    self.pos = self.pos + 1;
                    assert(self.remaining() =~= old(self).remaining().skip(1));
                    Ok(b)
                } else {
                    Err(Error::new(ErrorKind::UnexpectedEndOfInput))
                }
            },
        }
    }

    /// Hands one byte back: it is what the next read returns. The register
    /// must be empty.
    pub fn go_back(&mut self, n: u8)
        requires
            old(self).wf(),
            old(self).pending() is None,
        ensures
            final(self).wf(),
            final(self).pending() == Some(n),
            final(self).remaining() == seq![n] + old(self).remaining(),
    {
        self.returned_byte = Some(n);
    }

    /// The next `n` bytes, or an error where fewer are left.
    pub fn read_exact(&mut self, n: usize) -> (r: Result<Vec<u8>, Error>)
        requires
            old(self).wf(),
        ensures
            final(self).wf(),
            (r is Ok && n > 0) ==> final(self).pending() is None,
            (r is Err || n == 0) ==> final(self).pending() == old(self).pending(),
            match split(old(self).remaining(), n as nat) {
                Err(k) => r == Err::<Vec<u8>, Error>(Error::of(k)),
                Ok((payload, rest)) => r is Ok && r->Ok_0@ == payload && final(self).remaining()
                    == rest,
            },
    {
        let ghost s = self.remaining();
        let mut out: Vec<u8> = Vec::new();
        if n == 0 {
            assert(s.take(0) =~= out@);
            assert(s.skip(0) =~= s);
            return Ok(out);
        }
        let avail: usize = self.data.len() - self.pos;
        let mut want: usize = n;
        match self.returned_byte {
            Some(b) => {
                if n - 1 > avail {
                    return Err(Error::new(ErrorKind::UnexpectedEndOfInput));
                }
                out.push(b);
                want = n - 1;
            },
            None => {
                if n > avail {
                    return Err(Error::new(ErrorKind::UnexpectedEndOfInput));
                }
            },
        }
        let ghost head = out@;
        let part = slice_subrange(self.data, self.pos, self.pos + want);
        let mut i: usize = 0;
        while i < want
            invariant
                i <= want,
                part@.len() == want,
                out@ == head + part@.take(i as int),
            decreases want - i,
        {
            out.push(part[i]);
            assert(part@.take(i + 1) =~= part@.take(i as int).push(part@[i as int]));
            i += 1;
        }
        self.returned_byte = None;
        self.pos = self.pos + want;
        assert(out@ =~= s.take(n as int));
        assert(self.remaining() =~= s.skip(n as int));
        Ok(out)
    }

    /// The unit, where its tag is next.
    pub fn next_unit(&mut self) -> (r: Result<Option<()>, Error>)
        requires
            old(self).wf(),
        ensures
            final(self).wf(),
            (r is Ok && r->Ok_0 is None) ==> final(self).pending() == Some(old(self).remaining()[0]),
            !(r is Ok && r->Ok_0 is None) ==> final(self).pending() is None,
            peeked(old(self).remaining(), tag_at(old(self).remaining(), 69, ()), r, final(self).remaining()),
    {
        match self.next_byte() {
            Err(e) => Err(e),
            Ok(n) => {
                if n == NONE {
                    Ok(Some(()))
                } else {
                    self.go_back(n);
                    assert(self.remaining() =~= old(self).remaining());
                    Ok(None)
                }
            },
        }
    }

    /// A boolean, where one of the two boolean tags is next.
    pub fn next_bool(&mut self) -> (r: Result<Option<bool>, Error>)
        requires
            old(self).wf(),
        ensures
            final(self).wf(),
            (r is Ok && r->Ok_0 is None) ==> final(self).pending() == Some(old(self).remaining()[0]),
            !(r is Ok && r->Ok_0 is None) ==> final(self).pending() is None,
            peeked(old(self).remaining(), bool_at(old(self).remaining()), r, final(self).remaining()),
    {
        match self.next_byte() {
            Err(e) => Err(e),
            Ok(n) => {
                if n == TRUE {
                    Ok(Some(true))
                } else if n == FALSE {
                    Ok(Some(false))
                } else {
                    self.go_back(n);
                    assert(self.remaining() =~= old(self).remaining());
                    Ok(None)
                }
            },
        }
    }

    /// An 8-bit integer: inline in the tag, or the byte after the one-byte marker.
    pub fn next_i8(&mut self) -> (r: Result<Option<i8>, Error>)
        requires
            old(self).wf(),
        ensures
            final(self).wf(),
            (r is Ok && r->Ok_0 is None) ==> final(self).pending() == Some(old(self).remaining()[0]),
            !(r is Ok && r->Ok_0 is None) ==> final(self).pending() is None,
            peeked(old(self).remaining(), i8_at(old(self).remaining()), r, final(self).remaining()),
    {
        match self.next_byte() {
            Err(e) => Err(e),
            Ok(n) => {
                if n == INT1 {
                    match self.next_byte() {
                        Err(e) => Err(e),
                        Ok(b) => {
                            let v: i8 = if b < 128 {
                                b as i8
                            } else {
                                (b as i16 - 256) as i8
                            };
                            proof {
                                let payload = old(self).remaining().skip(1).take(1);
                                assert(payload =~= seq![b]);
                                assert(payload.drop_last() =~= Seq::<u8>::empty());
                                reveal_with_fuel(be_value, 2);
                                lemma_pow256_values();
                                assert(be_signed_value(payload) == v as int);
                            }
                            Ok(Some(v))
                        },
                    }
                } else if n <= 43 {
                    Ok(Some(n as i8))
                } else if 70 <= n && n <= 101 {
                    Ok(Some(-((n - 69) as i8)))
                } else {
                    self.go_back(n);
                    assert(self.remaining() =~= old(self).remaining());
                    Ok(None)
                }
            },
        }
    }

    /// A 16-bit integer, where its marker is next: two bytes, big-endian.
    pub fn next_i16(&mut self) -> (r: Result<Option<i16>, Error>)
        requires
            old(self).wf(),
        ensures
            final(self).wf(),
            (r is Ok && r->Ok_0 is None) ==> final(self).pending() == Some(old(self).remaining()[0]),
            !(r is Ok && r->Ok_0 is None) ==> final(self).pending() is None,
            match payload_at(old(self).remaining(), 63, 2) {
                Err(k) => r == Err::<Option<i16>, Error>(Error::of(k)),
                Ok(None) => r == Ok::<Option<i16>, Error>(None) && final(self).remaining() == old(self).remaining(),
                Ok(Some((payload, rest))) => r == Ok::<Option<i16>, Error>(
                    Some(be_signed_value(payload) as i16),
                ) && final(self).remaining() == rest,
            },
    {
        match self.next_byte() {
            Err(e) => Err(e),
            Ok(n) => {
                if n == INT2 {
                    match self.read_exact(2) {
                        Err(e) => Err(e),
                        Ok(payload) => Ok(Some(i16_of_be(payload.as_slice()))),
                    }
                } else {
                    self.go_back(n);
                    assert(self.remaining() =~= old(self).remaining());
                    Ok(None)
                }
            },
        }
    }

    /// A 32-bit integer, where its marker is next: four bytes, big-endian.
    pub fn next_i32(&mut self) -> (r: Result<Option<i32>, Error>)
        requires
            old(self).wf(),
        ensures
            final(self).wf(),
            (r is Ok && r->Ok_0 is None) ==> final(self).pending() == Some(old(self).remaining()[0]),
            !(r is Ok && r->Ok_0 is None) ==> final(self).pending() is None,
            match payload_at(old(self).remaining(), 64, 4) {
                Err(k) => r == Err::<Option<i32>, Error>(Error::of(k)),
                Ok(None) => r == Ok::<Option<i32>, Error>(None) && final(self).remaining() == old(self).remaining(),
                Ok(Some((payload, rest))) => r == Ok::<Option<i32>, Error>(
                    Some(be_signed_value(payload) as i32),
                ) && final(self).remaining() == rest,
            },
    {
        match self.next_byte() {
            Err(e) => Err(e),
            Ok(n) => {
                if n == INT4 {
                    match self.read_exact(4) {
                        Err(e) => Err(e),
                        Ok(payload) => Ok(Some(i32_of_be(payload.as_slice()))),
                    }
                } else {
                    self.go_back(n);
                    assert(self.remaining() =~= old(self).remaining());
                    Ok(None)
                }
            },
        }
    }

    /// A 64-bit integer, where its marker is next: eight bytes, big-endian.
    pub fn next_i64(&mut self) -> (r: Result<Option<i64>, Error>)
        requires
            old(self).wf(),
        ensures
            final(self).wf(),
            (r is Ok && r->Ok_0 is None) ==> final(self).pending() == Some(old(self).remaining()[0]),
            !(r is Ok && r->Ok_0 is None) ==> final(self).pending() is None,
            match payload_at(old(self).remaining(), 65, 8) {
                Err(k) => r == Err::<Option<i64>, Error>(Error::of(k)),
                Ok(None) => r == Ok::<Option<i64>, Error>(None) && final(self).remaining() == old(self).remaining(),
                Ok(Some((payload, rest))) => r == Ok::<Option<i64>, Error>(
                    Some(be_signed_value(payload) as i64),
                ) && final(self).remaining() == rest,
            },
    {
        match self.next_byte() {
            Err(e) => Err(e),
            Ok(n) => {
                if n == INT8 {
                    match self.read_exact(8) {
                        Err(e) => Err(e),
                        Ok(payload) => Ok(Some(i64_of_be(payload.as_slice()))),
                    }
                } else {
                    self.go_back(n);
                    assert(self.remaining() =~= old(self).remaining());
                    Ok(None)
                }
            },
        }
    }

    /// A 32-bit float, as its bit pattern.
    pub fn next_f32(&mut self) -> (r: Result<Option<u32>, Error>)
        requires
            old(self).wf(),
        ensures
            final(self).wf(),
            (r is Ok && r->Ok_0 is None) ==> final(self).pending() == Some(old(self).remaining()[0]),
            !(r is Ok && r->Ok_0 is None) ==> final(self).pending() is None,
            match payload_at(old(self).remaining(), 66, 4) {
                Err(k) => r == Err::<Option<u32>, Error>(Error::of(k)),
                Ok(None) => r == Ok::<Option<u32>, Error>(None) && final(self).remaining() == old(self).remaining(),
                Ok(Some((payload, rest))) => r == Ok::<Option<u32>, Error>(
                    Some(be_value(payload) as u32),
                ) && final(self).remaining() == rest,
            },
    {
        match self.next_byte() {
            Err(e) => Err(e),
            Ok(n) => {
                if n == FLOAT32 {
                    match self.read_exact(4) {
                        Err(e) => Err(e),
                        Ok(payload) => Ok(Some(u32_of_be(payload.as_slice()))),
                    }
                } else {
                    self.go_back(n);
                    assert(self.remaining() =~= old(self).remaining());
                    Ok(None)
                }
            },
        }
    }

    /// A 64-bit float, as its bit pattern.
    pub fn next_f64(&mut self) -> (r: Result<Option<u64>, Error>)
        requires
            old(self).wf(),
        ensures
            final(self).wf(),
            (r is Ok && r->Ok_0 is None) ==> final(self).pending() == Some(old(self).remaining()[0]),
            !(r is Ok && r->Ok_0 is None) ==> final(self).pending() is None,
            match payload_at(old(self).remaining(), 44, 8) {
                Err(k) => r == Err::<Option<u64>, Error>(Error::of(k)),
                Ok(None) => r == Ok::<Option<u64>, Error>(None) && final(self).remaining() == old(self).remaining(),
                Ok(Some((payload, rest))) => r == Ok::<Option<u64>, Error>(
                    Some(be_value(payload) as u64),
                ) && final(self).remaining() == rest,
            },
    {
        match self.next_byte() {
            Err(e) => Err(e),
            Ok(n) => {
                if n == FLOAT64 {
                    match self.read_exact(8) {
                        Err(e) => Err(e),
                        Ok(payload) => Ok(Some(u64_of_be(payload.as_slice()))),
                    }
                } else {
                    self.go_back(n);
                    assert(self.remaining() =~= old(self).remaining());
                    Ok(None)
                }
            },
        }
    }

    /// The count of a list, where a tag that holds one is next.
    pub fn next_fixed_seq(&mut self) -> (r: Result<Option<usize>, Error>)
        requires
            old(self).wf(),
        ensures
            final(self).wf(),
            (r is Ok && r->Ok_0 is None) ==> final(self).pending() == Some(old(self).remaining()[0]),
            !(r is Ok && r->Ok_0 is None) ==> final(self).pending() is None,
            peeked(old(self).remaining(), count_at(old(self).remaining(), 192, 255), r, final(self).remaining()),
    {
        match self.next_byte() {
            Err(e) => Err(e),
            Ok(n) => {
                if n >= LIST_START {
                    Ok(Some((n - LIST_START) as usize))
                } else {
                    self.go_back(n);
                    assert(self.remaining() =~= old(self).remaining());
                    Ok(None)
                }
            },
        }
    }

    /// The count of a dictionary, where a tag that holds one is next.
    pub fn next_fixed_map(&mut self) -> (r: Result<Option<usize>, Error>)
        requires
            old(self).wf(),
        ensures
            final(self).wf(),
            (r is Ok && r->Ok_0 is None) ==> final(self).pending() == Some(old(self).remaining()[0]),
            !(r is Ok && r->Ok_0 is None) ==> final(self).pending() is None,
            peeked(old(self).remaining(), count_at(old(self).remaining(), 102, 126), r, final(self).remaining()),
    {
        match self.next_byte() {
            Err(e) => Err(e),
            Ok(n) => {
                if DICT_START <= n && n <= DICT_END {
                    Ok(Some((n - DICT_START) as usize))
                } else {
                    self.go_back(n);
                    assert(self.remaining() =~= old(self).remaining());
                    Ok(None)
                }
            },
        }
    }

    /// The opening of an open list, where its marker is next.
    pub fn next_terminated_seq(&mut self) -> (r: Result<Option<()>, Error>)
        requires
            old(self).wf(),
        ensures
            final(self).wf(),
            (r is Ok && r->Ok_0 is None) ==> final(self).pending() == Some(old(self).remaining()[0]),
            !(r is Ok && r->Ok_0 is None) ==> final(self).pending() is None,
            peeked(old(self).remaining(), tag_at(old(self).remaining(), 59, ()), r, final(self).remaining()),
    {
        match self.next_byte() {
            Err(e) => Err(e),
            Ok(n) => {
                if n == LIST {
                    Ok(Some(()))
                } else {
                    self.go_back(n);
                    assert(self.remaining() =~= old(self).remaining());
                    Ok(None)
                }
            },
        }
    }

    /// The opening of an open dictionary, where its marker is next.
    pub fn next_terminated_map(&mut self) -> (r: Result<Option<()>, Error>)
        requires
            old(self).wf(),
        ensures
            final(self).wf(),
            (r is Ok && r->Ok_0 is None) ==> final(self).pending() == Some(old(self).remaining()[0]),
            !(r is Ok && r->Ok_0 is None) ==> final(self).pending() is None,
            peeked(old(self).remaining(), tag_at(old(self).remaining(), 60, ()), r, final(self).remaining()),
    {
        match self.next_byte() {
            Err(e) => Err(e),
            Ok(n) => {
                if n == DICT {
                    Ok(Some(()))
                } else {
                    self.go_back(n);
                    assert(self.remaining() =~= old(self).remaining());
                    Ok(None)
                }
            },
        }
    }

    /// A byte string: its length stands in the tag, or in decimal digits
    /// that a `:` ends.
    #[verifier::loop_isolation(false)]
    #[verifier::rlimit(40)]
    pub fn next_bytes(&mut self) -> (r: Result<Option<Vec<u8>>, Error>)
        requires
            old(self).wf(),
        ensures
            final(self).wf(),
            (r is Ok && r->Ok_0 is None) ==> final(self).pending() == Some(old(self).remaining()[0]),
            !(r is Ok && r->Ok_0 is None) ==> final(self).pending() is None,
            match bytes_at(old(self).remaining()) {
                Err(k) => r == Err::<Option<Vec<u8>>, Error>(Error::of(k)),
                Ok(None) => r == Ok::<Option<Vec<u8>>, Error>(None) && final(self).remaining()
                    == old(self).remaining(),
                Ok(Some((payload, rest))) => r is Ok && r->Ok_0 is Some && r->Ok_0->Some_0@
                    == payload && final(self).remaining() == rest && rest.len() < old(self).remaining().len(),
            },
    {
        let ghost s0 = self.remaining();
        match self.next_byte() {
            Err(e) => Err(e),
            Ok(n) => {
                if 49 <= n && n <= 57 {
                    let cap: usize = self.data.len();
                    let mut acc = add_digit(Some(0), n - 48, cap);
                    let ghost mut i: int = 1;
                    let mut done = false;
                    proof {
                        reveal_with_fuel(decimal_value, 2);
                        assert(s0.take(1).drop_last() =~= Seq::<u8>::empty());
                    }
                    while !done
                        invariant
                            self.wf(),
                            self.pending() is None,
                            self.remaining().len() <= cap,
                            1 <= i <= s0.len(),
                            done ==> i < s0.len() && length_end(s0, 1) == Ok::<nat, ErrorKind>(i as nat)
                                && self.remaining() == s0.skip(i + 1),
                            !done ==> length_end(s0, 1) == length_end(s0, i as nat)
                                && self.remaining() == s0.skip(i),
                            match acc {
                                Some(l) => l == decimal_value(s0.take(i)) && l <= cap,
                                None => decimal_value(s0.take(i)) > cap,
                            },
                        decreases s0.len() - i + (if done { 0int } else { 1int }),
                    {
                        match self.next_byte() {
                            Err(e) => {
                                return Err(e);
                            },
                            Ok(b) => {
                                assert(b == s0[i]);
                                if 48 <= b && b <= 57 {
                                    proof {
                                        assert(s0.take(i + 1).drop_last() =~= s0.take(i));
                                        assert(s0.skip(i).skip(1) =~= s0.skip(i + 1));
                                    }
                                    acc = add_digit(acc, b - 48, cap);
                                    proof {
                                        i = i + 1;
                                    }
                                } else if b == LEN_TERM {
                                    proof {
                                        assert(s0.skip(i).skip(1) =~= s0.skip(i + 1));
                                    }
                                    done = true;
                                } else {
                                    return Err(Error::new(ErrorKind::InvalidLengthDigits));
                                }
                            },
                        }
                    }
                    match acc {
                        None => Err(Error::new(ErrorKind::UnexpectedEndOfInput)),
                        Some(len) => {
                            match self.read_exact(len) {
                                Err(e) => Err(e),
                                Ok(payload) => Ok(Some(payload)),
                            }
                        },
                    }
                } else if STR_START <= n && n <= STR_END {
                    match self.read_exact((n - STR_START) as usize) {
                        Err(e) => Err(e),
                        Ok(payload) => Ok(Some(payload)),
                    }
                } else {
                    self.go_back(n);
                    assert(self.remaining() =~= old(self).remaining());
                    Ok(None)
                }
            },
        }
    }

    /// Reads what stands where a value begins: a whole scalar, or the opening
    /// of a list or a dictionary, whose parts the caller then reads one by one.
    #[verifier::rlimit(40)]
    pub fn deserialize_any(&mut self) -> (r: Result<Token, Error>)
        requires
            old(self).wf(),
        ensures
            final(self).wf(),
            final(self).pending() is None,
            match token_at(old(self).remaining()) {
                Err(k) => r == Err::<Token, Error>(Error::of(k)),
                Ok((token, rest)) => r is Ok && r->Ok_0@ == token && final(self).remaining()
                    == rest && rest.len() < old(self).remaining().len(),
            },
    {
        match self.next_unit() {
            Err(e) => {
                return Err(e);
            },
            Ok(Some(_)) => {
                return Ok(Token::Scalar(Value::Unit));
            },
            Ok(None) => {},
        }
        match self.next_bool() {
            Err(e) => {
                return Err(e);
            },
            Ok(Some(x)) => {
                return Ok(Token::Scalar(Value::Bool(x)));
            },
            Ok(None) => {},
        }
        match self.next_i8() {
            Err(e) => {
                return Err(e);
            },
            Ok(Some(x)) => {
                return Ok(Token::Scalar(Value::Int8(x)));
            },
            Ok(None) => {},
        }
        match self.next_i16() {
            Err(e) => {
                return Err(e);
            },
            Ok(Some(x)) => {
                return Ok(Token::Scalar(Value::Int16(x)));
            },
            Ok(None) => {},
        }
        match self.next_i32() {
            Err(e) => {
                return Err(e);
            },
            Ok(Some(x)) => {
                return Ok(Token::Scalar(Value::Int32(x)));
            },
            Ok(None) => {},
        }
        match self.next_i64() {
            Err(e) => {
                return Err(e);
            },
            Ok(Some(x)) => {
                return Ok(Token::Scalar(Value::Int64(x)));
            },
            Ok(None) => {},
        }
        match self.next_f32() {
            Err(e) => {
                return Err(e);
            },
            Ok(Some(x)) => {
                return Ok(Token::Scalar(Value::Float32(x)));
            },
            Ok(None) => {},
        }
        match self.next_f64() {
            Err(e) => {
                return Err(e);
            },
            Ok(Some(x)) => {
                return Ok(Token::Scalar(Value::Float64(x)));
            },
            Ok(None) => {},
        }
        match self.next_bytes() {
            Err(e) => {
                return Err(e);
            },
            Ok(Some(x)) => {
                return Ok(Token::Scalar(Value::Bytes(x)));
            },
            Ok(None) => {},
        }
        match self.next_fixed_seq() {
            Err(e) => {
                return Err(e);
            },
            Ok(Some(x)) => {
                return Ok(Token::FixedSeq(x));
            },
            Ok(None) => {},
        }
        match self.next_fixed_map() {
            Err(e) => {
                return Err(e);
            },
            Ok(Some(x)) => {
                return Ok(Token::FixedMap(x));
            },
            Ok(None) => {},
        }
        match self.next_terminated_seq() {
            Err(e) => {
                return Err(e);
            },
            Ok(Some(_)) => {
                return Ok(Token::OpenSeq);
            },
            Ok(None) => {},
        }
        match self.next_terminated_map() {
            Err(e) => {
                return Err(e);
            },
            Ok(Some(_)) => {
                return Ok(Token::OpenMap);
            },
            Ok(None) => {},
        }
        match self.next_byte() {
            Err(e) => Err(e),
            Ok(n) => {
                if n == INT {
                    Err(Error::new(ErrorKind::UnsupportedBigInt))
                } else if n == LEN_TERM || n == TERM {
                    Err(Error::new(ErrorKind::UnexpectedTerminator))
                } else {
                    Err(Error::new(ErrorKind::UnknownTag))
                }
            },
        }
    }

    /// Reads one whole value, lists and dictionaries with all their parts.
    #[verifier::rlimit(40)]
    pub fn deserialize_value(&mut self) -> (r: Result<Value, Error>)
        requires
            old(self).wf(),
        ensures
            final(self).wf(),
            final(self).pending() is None,
            match parse_value(old(self).remaining()) {
                Err(k) => r == Err::<Value, Error>(Error::of(k)),
                Ok((v, rest)) => r is Ok && r->Ok_0@ == v && final(self).remaining() == rest
                    && rest.len() < old(self).remaining().len(),
            },
        decreases old(self).remaining().len(), 0nat,
    {
        match self.deserialize_any() {
            Err(e) => Err(e),
            Ok(Token::Scalar(v)) => Ok(v),
            Ok(Token::FixedSeq(n)) => {
                match self.read_items(n) {
                    Err(e) => Err(e),
                    Ok(items) => {
                        proof {
                            lemma_view_list(items);
                        }
                        Ok(Value::List(items))
                    },
                }
            },
            Ok(Token::OpenSeq) => {
                match self.read_open_items() {
                    Err(e) => Err(e),
                    Ok(items) => {
                        proof {
                            lemma_view_list(items);
                        }
                        Ok(Value::List(items))
                    },
                }
            },
            Ok(Token::FixedMap(n)) => {
                match self.read_entries(n) {
                    Err(e) => Err(e),
                    Ok(entries) => {
                        proof {
                            lemma_view_dict(entries);
                        }
                        Ok(Value::Dict(entries))
                    },
                }
            },
            Ok(Token::OpenMap) => {
                match self.read_open_entries() {
                    Err(e) => Err(e),
                    Ok(entries) => {
                        proof {
                            lemma_view_dict(entries);
                        }
                        Ok(Value::Dict(entries))
                    },
                }
            },
        }
    }

    /// Reads an optional value: looks at one byte, consumes it where it is
    /// the unit tag, and else hands it back and reads the value that is present.
    pub fn deserialize_option(&mut self) -> (r: Result<Option<Value>, Error>)
        requires
            old(self).wf(),
        ensures
            final(self).wf(),
            final(self).pending() is None,
            match parse_option(old(self).remaining()) {
                Err(k) => r == Err::<Option<Value>, Error>(Error::of(k)),
                Ok((None, rest)) => r == Ok::<Option<Value>, Error>(None) && final(self).remaining() == rest,
                Ok((Some(v), rest)) => r is Ok && r->Ok_0 is Some && r->Ok_0->Some_0@ == v
                    && final(self).remaining() == rest,
            },
    {
        match self.next_unit() {
            Err(e) => Err(e),
            Ok(Some(_)) => Ok(None),
            Ok(None) => {
                match self.deserialize_value() {
                    Err(e) => Err(e),
                    Ok(v) => Ok(Some(v)),
                }
            },
        }
    }

    /// Reads the `n` values of a list whose count stood in its tag.
    #[verifier::loop_isolation(false)]
    #[verifier::rlimit(40)]
    pub fn read_items(&mut self, n: usize) -> (r: Result<Vec<Value>, Error>)
        requires
            old(self).wf(),
        ensures
            final(self).wf(),
            n > 0 ==> final(self).pending() is None,
            n == 0 ==> final(self).pending() == old(self).pending(),
            match parse_items(old(self).remaining(), n as nat) {
                Err(k) => r == Err::<Vec<Value>, Error>(Error::of(k)),
                Ok((items, rest)) => r is Ok && views(r->Ok_0@) == items && final(self).remaining() == rest && rest.len() <= old(self).remaining().len(),
            },
        decreases old(self).remaining().len(), 1nat,
    {
        let ghost s0 = self.remaining();
        let mut items: Vec<Value> = Vec::new();
        let mut access = FixedSeq::new(n);
        let mut more = access.next_element();
        proof {
            lemma_prefixed_empty(parse_items(s0, n as nat));
            assert(views(items@) =~= Seq::<SpecValue>::empty());
        }
        while more
            invariant
                self.wf(),
                self.remaining().len() <= s0.len(),
                more ==> access.remaining + 1 == n - items@.len(),
                !more ==> items@.len() == n,
                items@.len() > 0 ==> self.pending() is None,
                items@.len() == 0 ==> self.pending() == old(self).pending(),
                items@.len() <= n,
                parse_items(s0, n as nat) == prefixed(
                    views(items@),
                    parse_items(self.remaining(), (n - items@.len()) as nat),
                ),
            decreases n - items@.len(),
        {
            let ghost left = (n - items@.len()) as nat;
            match self.deserialize_value() {
                Err(e) => {
                    return Err(e);
                },
                Ok(v) => {
                    proof {
                        lemma_prefixed_cons(
                            views(items@),
                            v@,
                            parse_items(self.remaining(), (left - 1) as nat),
                        );
                        assert(views(items@.push(v)) =~= views(items@).push(v@));
                    }
                    items.push(v);
                },
            }
            more = access.next_element();
        }
        proof {
            assert(views(items@) + Seq::<SpecValue>::empty() =~= views(items@));
        }
        Ok(items)
    }

    /// Reads the values of an open list, up to and with its terminator.
    #[verifier::loop_isolation(false)]
    #[verifier::rlimit(40)]
    pub fn read_open_items(&mut self) -> (r: Result<Vec<Value>, Error>)
        requires
            old(self).wf(),
        ensures
            final(self).wf(),
            final(self).pending() is None,
            match parse_open_items(old(self).remaining()) {
                Err(k) => r == Err::<Vec<Value>, Error>(Error::of(k)),
                Ok((items, rest)) => r is Ok && views(r->Ok_0@) == items && final(self).remaining() == rest && rest.len() <= old(self).remaining().len(),
            },
        decreases old(self).remaining().len(), 1nat,
    {
        let ghost s0 = self.remaining();
        let mut items: Vec<Value> = Vec::new();
        let mut access = TerminatedSeq::new();
        proof {
            lemma_prefixed_empty(parse_open_items(s0));
            assert(views(items@) =~= Seq::<SpecValue>::empty());
        }
        let mut more = match access.next_element(self) {
            Err(e) => {
                return Err(e);
            },
            Ok(m) => m,
        };
        while more
            invariant
                self.wf(),
                self.remaining().len() <= s0.len(),
                !more ==> self.pending() is None,
                more ==> self.remaining().len() > 0 && self.remaining()[0] != 127
                    && parse_open_items(s0) == prefixed(
                    views(items@),
                    parse_open_items(self.remaining()),
                ),
                !more ==> parse_open_items(s0) == Ok::<(Seq<SpecValue>, Seq<u8>), ErrorKind>(
                    (views(items@), self.remaining()),
                ),
            decreases self.remaining().len(),
        {
            match self.deserialize_value() {
                Err(e) => {
                    return Err(e);
                },
                Ok(v) => {
                    proof {
                        lemma_prefixed_cons(
                            views(items@),
                            v@,
                            parse_open_items(self.remaining()),
                        );
                        assert(views(items@.push(v)) =~= views(items@).push(v@));
                    }
                    items.push(v);
                },
            }
            more = match access.next_element(self) {
                Err(e) => {
                    return Err(e);
                },
                Ok(m) => m,
            };
            proof {
                assert(views(items@) + Seq::<SpecValue>::empty() =~= views(items@));
            }
        }
        Ok(items)
    }

    /// Reads the `n` entries of a dictionary whose count stood in its tag.
    #[verifier::loop_isolation(false)]
    #[verifier::rlimit(40)]
    pub fn read_entries(&mut self, n: usize) -> (r: Result<Vec<(Value, Value)>, Error>)
        requires
            old(self).wf(),
        ensures
            final(self).wf(),
            n > 0 ==> final(self).pending() is None,
            n == 0 ==> final(self).pending() == old(self).pending(),
            match parse_entries(old(self).remaining(), n as nat) {
                Err(k) => r == Err::<Vec<(Value, Value)>, Error>(Error::of(k)),
                Ok((entries, rest)) => r is Ok && entry_views(r->Ok_0@) == entries && final(self).remaining() == rest && rest.len() <= old(self).remaining().len(),
            },
        decreases old(self).remaining().len(), 1nat,
    {
        let ghost s0 = self.remaining();
        let mut entries: Vec<(Value, Value)> = Vec::new();
        let mut access = FixedMap::new(n);
        let mut more = access.next_key();
        proof {
            lemma_prefixed_empty(parse_entries(s0, n as nat));
            assert(entry_views(entries@) =~= Seq::<(SpecValue, SpecValue)>::empty());
        }
        while more
            invariant
                self.wf(),
                self.remaining().len() <= s0.len(),
                access.remaining == n - entries@.len(),
                more ==> access.state == MapState::ExpectValue && access.remaining > 0,
                !more ==> access.remaining == 0,
                entries@.len() > 0 ==> self.pending() is None,
                entries@.len() == 0 ==> self.pending() == old(self).pending(),
                entries@.len() <= n,
                parse_entries(s0, n as nat) == prefixed(
                    entry_views(entries@),
                    parse_entries(self.remaining(), (n - entries@.len()) as nat),
                ),
            decreases n - entries@.len(),
        {
            let ghost left = (n - entries@.len()) as nat;
            let ghost cur = self.remaining();
            let key = match self.deserialize_value() {
                Err(e) => {
                    assert(parse_entry(cur) is Err);
                    return Err(e);
                },
                Ok(v) => v,
            };
            access.next_value();
            let value = match self.deserialize_value() {
                Err(e) => {
                    assert(parse_entry(cur) is Err);
                    return Err(e);
                },
                Ok(v) => v,
            };
            proof {
                assert(parse_entry(cur) == Ok::<((SpecValue, SpecValue), Seq<u8>), ErrorKind>(
                    ((key@, value@), self.remaining()),
                ));
                lemma_prefixed_cons(
                    entry_views(entries@),
                    (key@, value@),
                    parse_entries(self.remaining(), (left - 1) as nat),
                );
                assert(entry_views(entries@.push((key, value))) =~= entry_views(entries@).push(
                    (key@, value@),
                ));
            }
            entries.push((key, value));
            more = access.next_key();
        }
        proof {
            assert(entry_views(entries@) + Seq::<(SpecValue, SpecValue)>::empty() =~= entry_views(
                entries@,
            ));
        }
        Ok(entries)
    }

    /// Reads the entries of an open dictionary, up to and with its terminator.
    #[verifier::loop_isolation(false)]
    #[verifier::rlimit(40)]
    pub fn read_open_entries(&mut self) -> (r: Result<Vec<(Value, Value)>, Error>)
        requires
            old(self).wf(),
        ensures
            final(self).wf(),
            final(self).pending() is None,
            match parse_open_entries(old(self).remaining()) {
                Err(k) => r == Err::<Vec<(Value, Value)>, Error>(Error::of(k)),
                Ok((entries, rest)) => r is Ok && entry_views(r->Ok_0@) == entries && final(self).remaining() == rest && rest.len() <= old(self).remaining().len(),
            },
        decreases old(self).remaining().len(), 1nat,
    {
        let ghost s0 = self.remaining();
        let mut entries: Vec<(Value, Value)> = Vec::new();
        let mut access = TerminatedMap::new();
        proof {
            lemma_prefixed_empty(parse_open_entries(s0));
            assert(entry_views(entries@) =~= Seq::<(SpecValue, SpecValue)>::empty());
        }
        let mut more = match access.next_key(self) {
            Err(e) => {
                return Err(e);
            },
            Ok(m) => m,
        };
        while more
            invariant
                self.wf(),
                self.remaining().len() <= s0.len(),
                more ==> access.state == MapState::ExpectValue,
                !more ==> access.state == MapState::ExpectKey,
                !more ==> self.pending() is None,
                more ==> self.remaining().len() > 0 && self.remaining()[0] != 127
                    && parse_open_entries(s0) == prefixed(
                    entry_views(entries@),
                    parse_open_entries(self.remaining()),
                ),
                !more ==> parse_open_entries(s0) == Ok::<
                    (Seq<(SpecValue, SpecValue)>, Seq<u8>),
                    ErrorKind,
                >((entry_views(entries@), self.remaining())),
            decreases self.remaining().len(),
        {
            let ghost cur = self.remaining();
            let key = match self.deserialize_value() {
                Err(e) => {
                    assert(parse_entry(cur) is Err);
                    return Err(e);
                },
                Ok(v) => v,
            };
            access.next_value();
            let value = match self.deserialize_value() {
                Err(e) => {
                    assert(parse_entry(cur) is Err);
                    return Err(e);
                },
                Ok(v) => v,
            };
            proof {
                assert(parse_entry(cur) == Ok::<((SpecValue, SpecValue), Seq<u8>), ErrorKind>(
                    ((key@, value@), self.remaining()),
                ));
                lemma_prefixed_cons(
                    entry_views(entries@),
                    (key@, value@),
                    parse_open_entries(self.remaining()),
                );
                assert(entry_views(entries@.push((key, value))) =~= entry_views(entries@).push(
                    (key@, value@),
                ));
            }
            entries.push((key, value));
            more = match access.next_key(self) {
                Err(e) => {
                    return Err(e);
                },
                Ok(m) => m,
            };
            proof {
                assert(entry_views(entries@) + Seq::<(SpecValue, SpecValue)>::empty()
                    =~= entry_views(entries@));
            }
        }
        Ok(entries)
    }
}

/// The elements still to come of a list whose count stood in its tag.
pub struct FixedSeq {
    pub remaining: usize,
}

impl FixedSeq {
    pub fn new(count: usize) -> (a: FixedSeq)
        ensures
            a.remaining == count,
    {
        FixedSeq { remaining: count }
    }

    /// Whether another element is to be read; it is counted off if so.
    pub fn next_element(&mut self) -> (more: bool)
        ensures
            more == (old(self).remaining > 0),
            more ==> final(self).remaining == old(self).remaining - 1,
            !more ==> final(self).remaining == 0,
    {
        if self.remaining == 0 {
            return false;
        }
        self.remaining -= 1;
        true
    }
}

/// Which half of an entry a dictionary reader is to hand out next.
#[derive(Clone, Copy, Debug, PartialEq, Eq, Structural)]
pub enum MapState {
    ExpectKey,
    ExpectValue,
}

/// The entries still to come of a dictionary whose count stood in its tag.
pub struct FixedMap {
    pub remaining: usize,
    pub state: MapState,
}

impl FixedMap {
    pub fn new(count: usize) -> (a: FixedMap)
        ensures
            a.remaining == count,
            a.state == MapState::ExpectKey,
    {
        FixedMap { remaining: count, state: MapState::ExpectKey }
    }

    /// Whether another key is to be read. A key may be asked for only where
    /// one is expected.
    pub fn next_key(&mut self) -> (more: bool)
        requires
            old(self).state == MapState::ExpectKey,
        ensures
            more == (old(self).remaining > 0),
            final(self).remaining == old(self).remaining,
            final(self).state == if more {
                MapState::ExpectValue
            } else {
                MapState::ExpectKey
            },
    {
        if self.remaining == 0 {
            return false;
        }
        self.state = MapState::ExpectValue;
        true
    }

    /// Counts off the entry whose value is read next. A value may be asked
    /// for only after its key.
    pub fn next_value(&mut self)
        requires
            old(self).state == MapState::ExpectValue,
            old(self).remaining > 0,
        ensures
            final(self).remaining == old(self).remaining - 1,
            final(self).state == MapState::ExpectKey,
    {
        self.remaining -= 1;
        self.state = MapState::ExpectKey;
    }
}

/// The reader of an open list.
pub struct TerminatedSeq {}

impl TerminatedSeq {
    pub fn new() -> (a: TerminatedSeq) {
        TerminatedSeq {  }
    }

    /// Looks at the next byte: the terminator is consumed and ends the list;
    /// any other byte is handed back, and an element is to be read.
    pub fn next_element(&mut self, de: &mut RencodeDeserializer) -> (r: Result<bool, Error>)
        requires
            old(de).wf(),
        ensures
            final(de).wf(),
            r == Ok::<bool, Error>(true) ==> final(de).pending() == Some(old(de).remaining()[0]),
            r != Ok::<bool, Error>(true) ==> final(de).pending() is None,
            match tag_at(old(de).remaining(), 127, ()) {
                Err(k) => r == Err::<bool, Error>(Error::of(k)),
                Ok(Some((_, rest))) => r == Ok::<bool, Error>(false) && final(de).remaining()
                    == rest,
                Ok(None) => r == Ok::<bool, Error>(true) && final(de).remaining() == old(de).remaining(),
            },
    {
        match de.next_byte() {
            Err(e) => Err(e),
            Ok(n) => {
                if n == TERM {
                    Ok(false)
                } else {
                    de.go_back(n);
                    assert(de.remaining() =~= old(de).remaining());
                    Ok(true)
                }
            },
        }
    }
}

/// The reader of an open dictionary.
pub struct TerminatedMap {
    pub state: MapState,
}

impl TerminatedMap {
    pub fn new() -> (a: TerminatedMap)
        ensures
            a.state == MapState::ExpectKey,
    {
        TerminatedMap { state: MapState::ExpectKey }
    }

    /// Looks at the next byte: the terminator is consumed and ends the
    /// dictionary; any other byte is handed back, and a key is to be read.
    /// A key may be asked for only where one is expected.
    pub fn next_key(&mut self, de: &mut RencodeDeserializer) -> (r: Result<bool, Error>)
        requires
            old(de).wf(),
            old(self).state == MapState::ExpectKey,
        ensures
            final(de).wf(),
            r == Ok::<bool, Error>(true) ==> final(de).pending() == Some(old(de).remaining()[0]),
            r != Ok::<bool, Error>(true) ==> final(de).pending() is None,
            match tag_at(old(de).remaining(), 127, ()) {
                Err(k) => r == Err::<bool, Error>(Error::of(k)),
                Ok(Some((_, rest))) => r == Ok::<bool, Error>(false) && final(de).remaining()
                    == rest && final(self).state == MapState::ExpectKey,
                Ok(None) => r == Ok::<bool, Error>(true) && final(de).remaining() == old(de).remaining() && final(self).state == MapState::ExpectValue,
            },
    {
        match de.next_byte() {
            Err(e) => Err(e),
            Ok(n) => {
                if n == TERM {
                    Ok(false)
                } else {
                    de.go_back(n);
                    assert(de.remaining() =~= old(de).remaining());
                    self.state = MapState::ExpectValue;
                    Ok(true)
                }
            },
        }
    }

    /// Marks that the value of the entry is read next. A value may be asked
    /// for only after its key.
    pub fn next_value(&mut self)
        requires
            old(self).state == MapState::ExpectValue,
        ensures
            final(self).state == MapState::ExpectKey,
    {
        self.state = MapState::ExpectKey;
    }
}

/// A byte string as a consumer is shown it. The format itself knows only
/// bytes: text is a way of showing them.
#[derive(Debug, PartialEq, Eq)]
pub enum Payload {
    Text(String),
    Raw(Vec<u8>),
}

/// `String::from_utf8`, with `FromUtf8Error::into_bytes` on its error: the
/// text that the bytes encode where they are valid UTF-8, and the bytes
/// themselves where they are not.
#[verifier::external_body]
fn text_or_bytes(bytes: Vec<u8>) -> (r: Result<String, Vec<u8>>)
    ensures
        match r {
            Ok(s) => valid_utf8(bytes@) && s@ == decode_utf8(bytes@),
            Err(b) => !valid_utf8(bytes@) && b@ == bytes@,
        },
{
    match String::from_utf8(bytes) {
        Ok(s) => Ok(s),
        Err(e) => Err(e.into_bytes()),
    }
}

/// Shows a byte string that was read: as text where it is valid UTF-8, as
/// raw bytes where it is not.
pub fn present(bytes: Vec<u8>) -> (p: Payload)
    ensures
        valid_utf8(bytes@) ==> p is Text && p->Text_0@ == decode_utf8(bytes@),
        !valid_utf8(bytes@) ==> p is Raw && p->Raw_0@ == bytes@,
{
    match text_or_bytes(bytes) {
        Ok(s) => Payload::Text(s),
        Err(b) => Payload::Raw(b),
    }
}

/// Reads the one value that `data` holds. Input that is left after the value
/// is an error.
pub fn from_bytes(data: &[u8]) -> (r: Result<Value, Error>)
    ensures
        match decoding(data@) {
            Err(k) => r == Err::<Value, Error>(Error::of(k)),
            Ok(v) => r is Ok && r->Ok_0@ == v,
        },
{
    let mut deserializer = RencodeDeserializer::new(data);
    match deserializer.deserialize_value() {
        Err(e) => Err(e),
        Ok(v) => {
            if deserializer.at_end() {
                Ok(v)
            } else {
                Err(Error::new(ErrorKind::TrailingBytes))
            }
        },
    }
}

/// One more decimal digit behind `acc`, where the number stays within `cap`.
fn add_digit(acc: Option<usize>, d: u8, cap: usize) -> (r: Option<usize>)
    requires
        d <= 9,
    ensures
        match acc {
            None => r is None,
            Some(l) => if l * 10 + d <= cap {
                r == Some((l * 10 + d) as usize)
            } else {
                r is None
            },
        },
{
    match acc {
        None => None,
        Some(l) => {
            let wide: u128 = (l as u128) * 10 + (d as u128);
            if wide <= cap as u128 {
                Some(wide as usize)
            } else {
                None
            }
        },
    }
}

} // verus!
