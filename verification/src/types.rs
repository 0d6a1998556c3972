//! Tag bytes of the wire format, their classification, and the error model.

use vstd::prelude::*;

verus! {

pub const LIST: u8 = 59;
pub const DICT: u8 = 60;
pub const INT: u8 = 61;
pub const INT1: u8 = 62;
pub const INT2: u8 = 63;
pub const INT4: u8 = 64;
pub const INT8: u8 = 65;
pub const FLOAT32: u8 = 66;
pub const FLOAT64: u8 = 44;
pub const TRUE: u8 = 67;
pub const FALSE: u8 = 68;
pub const NONE: u8 = 69;
pub const TERM: u8 = 127;
pub const LEN_TERM: u8 = 58;

pub const INT_POS_START: i8 = 0;
pub const INT_POS_MAX: i8 = 43;
pub const INT_NEG_START: i8 = 70;
pub const INT_NEG_MIN: i8 = -32;

pub const STR_START: u8 = 128;
pub const STR_COUNT: usize = 64;
pub const STR_END: u8 = 191;

pub const LIST_START: u8 = 192;
pub const LIST_COUNT: usize = 64;
pub const LIST_END: u8 = 255;

pub const DICT_START: u8 = 102;
pub const DICT_COUNT: usize = 25;
pub const DICT_END: u8 = 126;

/// What a byte means when it stands where a value begins.
#[derive(Clone, Copy, Debug, PartialEq, Eq, Structural)]
pub enum TagKind {
    /// 0..=43: the integer is the byte itself.
    PosInt(i8),
    /// 70..=101: the integer is `69 - byte`, from -1 down to -32.
    NegInt(i8),
    /// 62, 63, 64, 65: a big-endian signed integer of 1, 2, 4 or 8 bytes follows.
    FixedInt(u8),
    Float32,
    Float64,
    True,
    False,
    Null,
    /// 45..=48: no meaning is assigned.
    Reserved,
    /// 49..=57: the first digit of a decimal length.
    Digit(u8),
    /// 58: ends a decimal length.
    LenTerminator,
    /// 128..=191: a string of `byte - 128` bytes follows.
    FixedStr(u8),
    /// 192..=255: a list of `byte - 192` values follows.
    FixedList(u8),
    OpenList,
    /// 102..=126: a dictionary of `byte - 102` entries follows.
    FixedDict(u8),
    OpenDict,
    /// 127: ends an open list or dictionary.
    Terminator,
    /// 61: an integer of arbitrary size, which this codec does not read.
    BigInt,
}

/// The meaning of each of the 256 bytes.
pub open spec fn spec_classify(b: u8) -> TagKind {
    if b <= 43 {
        TagKind::PosInt(b as i8)
    } else if b == 44 {
        TagKind::Float64
    } else if b <= 48 {
        TagKind::Reserved
    } else if b <= 57 {
        TagKind::Digit((b - 48) as u8)
    } else if b == 58 {
        TagKind::LenTerminator
    } else if b == 59 {
        TagKind::OpenList
    } else if b == 60 {
        TagKind::OpenDict
    } else if b == 61 {
        TagKind::BigInt
    } else if b == 62 {
        TagKind::FixedInt(1)
    } else if b == 63 {
        TagKind::FixedInt(2)
    } else if b == 64 {
        TagKind::FixedInt(4)
    } else if b == 65 {
        TagKind::FixedInt(8)
    } else if b == 66 {
        TagKind::Float32
    } else if b == 67 {
        TagKind::True
    } else if b == 68 {
        TagKind::False
    } else if b == 69 {
        TagKind::Null
    } else if b <= 101 {
        TagKind::NegInt((69 - b) as i8)
    } else if b <= 126 {
        TagKind::FixedDict((b - 102) as u8)
    } else if b == 127 {
        TagKind::Terminator
    } else if b <= 191 {
        TagKind::FixedStr((b - 128) as u8)
    } else {
        TagKind::FixedList((b - 192) as u8)
    }
}

/// Classifies a byte. Total over all 256 values.
pub fn classify(b: u8) -> (k: TagKind)
    ensures
        k == spec_classify(b),
{
    if b <= 43 {
        TagKind::PosInt(b as i8)
    } else if b == FLOAT64 {
        TagKind::Float64
    } else if b <= 48 {
        TagKind::Reserved
    } else if b <= 57 {
        TagKind::Digit(b - 48)
    } else if b == LEN_TERM {
        TagKind::LenTerminator
    } else if b == LIST {
        TagKind::OpenList
    } else if b == DICT {
        TagKind::OpenDict
    } else if b == INT {
        TagKind::BigInt
    } else if b == INT1 {
        TagKind::FixedInt(1)
    } else if b == INT2 {
        TagKind::FixedInt(2)
    } else if b == INT4 {
        TagKind::FixedInt(4)
    } else if b == INT8 {
        TagKind::FixedInt(8)
    } else if b == FLOAT32 {
        TagKind::Float32
    } else if b == TRUE {
        TagKind::True
    } else if b == FALSE {
        TagKind::False
    } else if b == NONE {
        TagKind::Null
    } else if b <= 101 {
        TagKind::NegInt(-((b - 69) as i8))
    } else if b <= DICT_END {
        TagKind::FixedDict(b - DICT_START)
    } else if b == TERM {
        TagKind::Terminator
    } else if b <= STR_END {
        TagKind::FixedStr(b - STR_START)
    } else {
        TagKind::FixedList(b - LIST_START)
    }
}

/// Why an encode or a decode failed.
#[derive(Clone, Copy, Debug, PartialEq, Eq, Structural)]
pub enum ErrorKind {
    /// Fewer bytes are left than a tag's payload needs.
    UnexpectedEndOfInput,
    /// A byte that is no digit stands inside a decimal length.
    InvalidLengthDigits,
    /// A byte without a meaning (45..=48) stands where a value begins.
    UnknownTag,
    /// A terminator (127) or a length terminator (58) stands where a value begins.
    UnexpectedTerminator,
    /// The tag of an integer of arbitrary size (61) stands where a value begins.
    UnsupportedBigInt,
    /// Input is left after one complete value.
    TrailingBytes,
    /// The encoder was handed something that the format cannot hold.
    UnsupportedValue,
}

/// The error of every fallible operation of the codec.
#[derive(Clone, Copy, Debug, PartialEq, Eq, Structural)]
pub struct Error {
    pub kind: ErrorKind,
}

impl Error {
    /// The error of the given kind.
    pub open spec fn of(kind: ErrorKind) -> Error {
        Error { kind }
    }

    /// The error of the given kind.
    pub fn new(kind: ErrorKind) -> (e: Error)
        ensures
            e == Error::of(kind),
    {
        Error { kind }
    }

    /// Why the operation failed.
    pub fn kind(&self) -> (k: ErrorKind)
        ensures
            k == self.kind,
    {
        self.kind
    }

    /// The text that describes each kind of error.
    pub open spec fn spec_message(kind: ErrorKind) -> Seq<char> {
        match kind {
            ErrorKind::UnexpectedEndOfInput => "unexpected end of input"@,
            ErrorKind::InvalidLengthDigits => "unexpected byte while parsing string length"@,
            ErrorKind::UnknownTag => "unexpected unknown type indicator"@,
            ErrorKind::UnexpectedTerminator => "unexpected terminator"@,
            ErrorKind::UnsupportedBigInt => "deserialization of bigints is unsupported"@,
            ErrorKind::TrailingBytes => "too many bytes"@,
            ErrorKind::UnsupportedValue => "unsupported value"@,
        }
    }

    /// A description of the error for people.
    pub fn message(&self) -> (s: String)
        ensures
            s@ == Error::spec_message(self.kind),
    {
        match self.kind {
            ErrorKind::UnexpectedEndOfInput => "unexpected end of input".to_owned(),
            ErrorKind::InvalidLengthDigits => "unexpected byte while parsing string length".to_owned(),
            ErrorKind::UnknownTag => "unexpected unknown type indicator".to_owned(),
            ErrorKind::UnexpectedTerminator => "unexpected terminator".to_owned(),
            ErrorKind::UnsupportedBigInt => "deserialization of bigints is unsupported".to_owned(),
            ErrorKind::TrailingBytes => "too many bytes".to_owned(),
            ErrorKind::UnsupportedValue => "unsupported value".to_owned(),
        }
    }
}

} // verus!
