//! The value domain of the format, and the format itself as two functions on
//! byte sequences: what a value is written as, and what a byte sequence reads as.

use vstd::prelude::*;
use crate::types::{ErrorKind, TagKind, spec_classify};
use crate::bytes::{be_bytes, be_signed, be_signed_value, be_value, decimal_digits, decimal_value, is_digit};

verus! {

/// A value that the format can hold. An integer keeps the width it was
/// declared with; a float is held as its IEEE 754 bit pattern.
#[derive(Debug, PartialEq, Eq)]
pub enum Value {
    Unit,
    Bool(bool),
    Int8(i8),
    Int16(i16),
    Int32(i32),
    Int64(i64),
    Float32(u32),
    Float64(u64),
    Bytes(Vec<u8>),
    List(Vec<Value>),
    Dict(Vec<(Value, Value)>),
}

/// The mathematical value that a `Value` stands for.
pub ghost enum SpecValue {
    Unit,
    Bool(bool),
    Int8(i8),
    Int16(i16),
    Int32(i32),
    Int64(i64),
    Float32(u32),
    Float64(u64),
    Bytes(Seq<u8>),
    List(Seq<SpecValue>),
    Dict(Seq<(SpecValue, SpecValue)>),
}

/// The mathematical value that `v` stands for.
pub open spec fn value_view(v: Value) -> SpecValue
    decreases v,
{
    match v {
        Value::Unit => SpecValue::Unit,
        Value::Bool(b) => SpecValue::Bool(b),
        Value::Int8(n) => SpecValue::Int8(n),
        Value::Int16(n) => SpecValue::Int16(n),
        Value::Int32(n) => SpecValue::Int32(n),
        Value::Int64(n) => SpecValue::Int64(n),
        Value::Float32(bits) => SpecValue::Float32(bits),
        Value::Float64(bits) => SpecValue::Float64(bits),
        Value::Bytes(b) => SpecValue::Bytes(b@),
        Value::List(items) => SpecValue::List(
            Seq::new(
                items.len() as nat,
                |i: int|
                    if 0 <= i < items.len() {
                        value_view(items[i])
                    } else {
                        SpecValue::Unit
                    },
            ),
        ),
        Value::Dict(entries) => SpecValue::Dict(
            Seq::new(
                entries.len() as nat,
                |i: int|
                    if 0 <= i < entries.len() {
                        (value_view(entries[i].0), value_view(entries[i].1))
                    } else {
                        (SpecValue::Unit, SpecValue::Unit)
                    },
            ),
        ),
    }
}

impl View for Value {
    type V = SpecValue;

    open spec fn view(&self) -> SpecValue {
        value_view(*self)
    }
}

/// The views of a sequence of values.
pub open spec fn views(items: Seq<Value>) -> Seq<SpecValue> {
    Seq::new(items.len(), |i: int| items[i]@)
}

/// The views of a sequence of entries.
pub open spec fn entry_views(entries: Seq<(Value, Value)>) -> Seq<(SpecValue, SpecValue)> {
    Seq::new(entries.len(), |i: int| (entries[i].0@, entries[i].1@))
}

/// A list stands for the list of what its items stand for.
pub proof fn lemma_view_list(items: Vec<Value>)
    ensures
        Value::List(items)@ == SpecValue::List(views(items@)),
{
    reveal_with_fuel(value_view, 2);
    assert(Value::List(items)@->List_0 =~= views(items@));
}

/// A dictionary stands for the entries that its entries stand for.
pub proof fn lemma_view_dict(entries: Vec<(Value, Value)>)
    ensures
        Value::Dict(entries)@ == SpecValue::Dict(entry_views(entries@)),
{
    reveal_with_fuel(value_view, 2);
    assert(Value::Dict(entries)@->Dict_0 =~= entry_views(entries@));
}

// ---------------------------------------------------------------- writing

/// An 8-bit integer: one inline byte from 0 to 43 and from -32 to -1, else
/// the one-byte marker and the byte.
pub open spec fn int8_encoding(n: i8) -> Seq<u8> {
    if 0 <= n <= 43 {
        seq![n as u8]
    } else if -32 <= n < 0 {
        seq![(69 - n) as u8]
    } else {
        seq![62u8] + be_signed(n as int, 1)
    }
}

/// What precedes the bytes of a string of `len` bytes.
pub open spec fn str_header(len: nat) -> Seq<u8> {
    if len < 64 {
        seq![(128 + len) as u8]
    } else {
        decimal_digits(len).push(58u8)
    }
}

/// What precedes the items of a list of `len` items.
pub open spec fn list_header(len: nat) -> Seq<u8> {
    if len < 64 {
        seq![(192 + len) as u8]
    } else {
        seq![59u8]
    }
}

/// What follows the items of a list of `len` items.
pub open spec fn list_footer(len: nat) -> Seq<u8> {
    if len < 64 {
        Seq::empty()
    } else {
        seq![127u8]
    }
}

/// What precedes the entries of a dictionary of `len` entries.
pub open spec fn dict_header(len: nat) -> Seq<u8> {
    if len < 25 {
        seq![(102 + len) as u8]
    } else {
        seq![60u8]
    }
}

/// What follows the entries of a dictionary of `len` entries.
pub open spec fn dict_footer(len: nat) -> Seq<u8> {
    if len < 25 {
        Seq::empty()
    } else {
        seq![127u8]
    }
}

/// The bytes that a value is written as.
pub open spec fn encoding(v: SpecValue) -> Seq<u8>
    decreases v,
{
    match v {
        SpecValue::Unit => seq![69u8],
        SpecValue::Bool(b) => if b {
            seq![67u8]
        } else {
            seq![68u8]
        },
        SpecValue::Int8(n) => int8_encoding(n),
        SpecValue::Int16(n) => seq![63u8] + be_signed(n as int, 2),
        SpecValue::Int32(n) => seq![64u8] + be_signed(n as int, 4),
        SpecValue::Int64(n) => seq![65u8] + be_signed(n as int, 8),
        SpecValue::Float32(bits) => seq![66u8] + be_bytes(bits as nat, 4),
        SpecValue::Float64(bits) => seq![44u8] + be_bytes(bits as nat, 8),
        SpecValue::Bytes(b) => str_header(b.len()) + b,
        SpecValue::List(items) => list_header(items.len()) + encoding_all(items) + list_footer(
            items.len(),
        ),
        SpecValue::Dict(entries) => dict_header(entries.len()) + encoding_entries(entries)
            + dict_footer(entries.len()),
    }
}

/// The items of a list, each written after the one before.
pub open spec fn encoding_all(items: Seq<SpecValue>) -> Seq<u8>
    decreases items,
{
    if items.len() == 0 {
        Seq::empty()
    } else {
        encoding(items[0]) + encoding_all(items.drop_first())
    }
}

/// The entries of a dictionary: key, value, key, value.
pub open spec fn encoding_entries(entries: Seq<(SpecValue, SpecValue)>) -> Seq<u8>
    decreases entries,
{
    if entries.len() == 0 {
        Seq::empty()
    } else {
        encoding(entries[0].0) + encoding(entries[0].1) + encoding_entries(entries.drop_first())
    }
}

/// Writing one more item appends its bytes.
pub proof fn lemma_encoding_all_push(items: Seq<SpecValue>, v: SpecValue)
    ensures
        encoding_all(items.push(v)) == encoding_all(items) + encoding(v),
    decreases items.len(),
{
    let all = items.push(v);
    if items.len() == 0 {
        assert(all.drop_first() =~= Seq::<SpecValue>::empty());
        assert(encoding_all(all.drop_first()) =~= Seq::<u8>::empty());
        assert(encoding_all(all) =~= encoding_all(items) + encoding(v));
    } else {
        assert(all.drop_first() =~= items.drop_first().push(v));
        lemma_encoding_all_push(items.drop_first(), v);
        assert(encoding_all(all) =~= encoding_all(items) + encoding(v));
    }
}

/// Writing one more entry appends the bytes of its key and of its value.
pub proof fn lemma_encoding_entries_push(
    entries: Seq<(SpecValue, SpecValue)>,
    e: (SpecValue, SpecValue),
)
    ensures
        encoding_entries(entries.push(e)) == encoding_entries(entries) + encoding(e.0) + encoding(
            e.1,
        ),
    decreases entries.len(),
{
    let all = entries.push(e);
    if entries.len() == 0 {
        assert(all.drop_first() =~= Seq::<(SpecValue, SpecValue)>::empty());
        assert(encoding_entries(all.drop_first()) =~= Seq::<u8>::empty());
        assert(encoding_entries(all) =~= encoding_entries(entries) + encoding(e.0) + encoding(
            e.1,
        ));
    } else {
        assert(all.drop_first() =~= entries.drop_first().push(e));
        lemma_encoding_entries_push(entries.drop_first(), e);
        assert(encoding_entries(all) =~= encoding_entries(entries) + encoding(e.0) + encoding(
            e.1,
        ));
    }
}

// ---------------------------------------------------------------- reading

/// What one step of reading finds where a value begins: a whole value that is
/// no collection, or the opening of a list or a dictionary.
pub ghost enum SpecToken {
    Scalar(SpecValue),
    FixedSeq(nat),
    FixedMap(nat),
    OpenSeq,
    OpenMap,
}

/// The first `n` bytes of `s` and what follows them.
pub open spec fn split(s: Seq<u8>, n: nat) -> Result<(Seq<u8>, Seq<u8>), ErrorKind> {
    if s.len() < n {
        Err(ErrorKind::UnexpectedEndOfInput)
    } else {
        Ok((s.take(n as int), s.skip(n as int)))
    }
}

/// The index of the `:` that ends the run of digits beginning at `i`.
pub open spec fn length_end(s: Seq<u8>, i: nat) -> Result<nat, ErrorKind>
    decreases s.len() - i,
{
    if i >= s.len() {
        Err(ErrorKind::UnexpectedEndOfInput)
    } else if is_digit(s[i as int]) {
        length_end(s, i + 1)
    } else if s[i as int] == 58 {
        Ok(i)
    } else {
        Err(ErrorKind::InvalidLengthDigits)
    }
}

/// A string with a decimal length before it: digits, `:`, then that many bytes.
pub open spec fn long_str_at(s: Seq<u8>) -> Result<(Seq<u8>, Seq<u8>), ErrorKind> {
    match length_end(s, 1) {
        Err(k) => Err(k),
        Ok(end) => split(s.skip((end + 1) as int), decimal_value(s.take(end as int))),
    }
}

/// The integer of `width` bytes that `payload` holds.
pub open spec fn int_of_width(width: u8, payload: Seq<u8>) -> SpecValue {
    if width == 1 {
        SpecValue::Int8(be_signed_value(payload) as i8)
    } else if width == 2 {
        SpecValue::Int16(be_signed_value(payload) as i16)
    } else if width == 4 {
        SpecValue::Int32(be_signed_value(payload) as i32)
    } else {
        SpecValue::Int64(be_signed_value(payload) as i64)
    }
}

/// What stands at the start of `s`, and the bytes after it.
pub open spec fn token_at(s: Seq<u8>) -> Result<(SpecToken, Seq<u8>), ErrorKind> {
    if s.len() == 0 {
        Err(ErrorKind::UnexpectedEndOfInput)
    } else {
        let body = s.skip(1);
        match spec_classify(s[0]) {
            TagKind::Null => Ok((SpecToken::Scalar(SpecValue::Unit), body)),
            TagKind::True => Ok((SpecToken::Scalar(SpecValue::Bool(true)), body)),
            TagKind::False => Ok((SpecToken::Scalar(SpecValue::Bool(false)), body)),
            TagKind::PosInt(n) => Ok((SpecToken::Scalar(SpecValue::Int8(n)), body)),
            TagKind::NegInt(n) => Ok((SpecToken::Scalar(SpecValue::Int8(n)), body)),
            TagKind::FixedInt(w) => match split(body, w as nat) {
                Err(k) => Err(k),
                Ok((payload, rest)) => Ok((SpecToken::Scalar(int_of_width(w, payload)), rest)),
            },
            TagKind::Float32 => match split(body, 4) {
                Err(k) => Err(k),
                Ok((payload, rest)) => Ok(
                    (SpecToken::Scalar(SpecValue::Float32(be_value(payload) as u32)), rest),
                ),
            },
            TagKind::Float64 => match split(body, 8) {
                Err(k) => Err(k),
                Ok((payload, rest)) => Ok(
                    (SpecToken::Scalar(SpecValue::Float64(be_value(payload) as u64)), rest),
                ),
            },
            TagKind::Digit(_) => match long_str_at(s) {
                Err(k) => Err(k),
                Ok((payload, rest)) => Ok((SpecToken::Scalar(SpecValue::Bytes(payload)), rest)),
            },
            TagKind::FixedStr(len) => match split(body, len as nat) {
                Err(k) => Err(k),
                Ok((payload, rest)) => Ok((SpecToken::Scalar(SpecValue::Bytes(payload)), rest)),
            },
            TagKind::FixedList(n) => Ok((SpecToken::FixedSeq(n as nat), body)),
            TagKind::FixedDict(n) => Ok((SpecToken::FixedMap(n as nat), body)),
            TagKind::OpenList => Ok((SpecToken::OpenSeq, body)),
            TagKind::OpenDict => Ok((SpecToken::OpenMap, body)),
            TagKind::Reserved => Err(ErrorKind::UnknownTag),
            TagKind::LenTerminator => Err(ErrorKind::UnexpectedTerminator),
            TagKind::Terminator => Err(ErrorKind::UnexpectedTerminator),
            TagKind::BigInt => Err(ErrorKind::UnsupportedBigInt),
        }
    }
}

/// The value at the start of `s`, and the bytes after it.
///
/// Each step of reading is taken only where the step before it consumed
/// something; `lemma_token_progress` and `lemma_parse_progress` show that
/// every step does, so the other branch is never taken.
pub open spec fn parse_value(s: Seq<u8>) -> Result<(SpecValue, Seq<u8>), ErrorKind>
    decreases s.len(), 0nat,
{
    match token_at(s) {
        Err(k) => Err(k),
        Ok((token, rest)) => if rest.len() < s.len() {
            match token {
                SpecToken::Scalar(v) => Ok((v, rest)),
                SpecToken::FixedSeq(n) => match parse_items(rest, n) {
                    Err(k) => Err(k),
                    Ok((items, after)) => Ok((SpecValue::List(items), after)),
                },
                SpecToken::OpenSeq => match parse_open_items(rest) {
                    Err(k) => Err(k),
                    Ok((items, after)) => Ok((SpecValue::List(items), after)),
                },
                SpecToken::FixedMap(n) => match parse_entries(rest, n) {
                    Err(k) => Err(k),
                    Ok((entries, after)) => Ok((SpecValue::Dict(entries), after)),
                },
                SpecToken::OpenMap => match parse_open_entries(rest) {
                    Err(k) => Err(k),
                    Ok((entries, after)) => Ok((SpecValue::Dict(entries), after)),
                },
            }
        } else {
            Err(ErrorKind::UnexpectedEndOfInput)
        },
    }
}

/// The outcome `r` with `prefix` before its items.
pub open spec fn prefixed<T>(prefix: Seq<T>, r: Result<(Seq<T>, Seq<u8>), ErrorKind>) -> Result<
    (Seq<T>, Seq<u8>),
    ErrorKind,
> {
    match r {
        Err(k) => Err(k),
        Ok((items, after)) => Ok((prefix + items, after)),
    }
}

/// The outcome `r` with `first` before its items.
pub open spec fn cons<T>(first: T, r: Result<(Seq<T>, Seq<u8>), ErrorKind>) -> Result<
    (Seq<T>, Seq<u8>),
    ErrorKind,
> {
    prefixed(seq![first], r)
}

/// Nothing before an outcome leaves it as it is.
pub proof fn lemma_prefixed_empty<T>(r: Result<(Seq<T>, Seq<u8>), ErrorKind>)
    ensures
        prefixed(Seq::<T>::empty(), r) == r,
{
    match r {
        Err(_) => {},
        Ok((items, after)) => {
            assert(Seq::<T>::empty() + items =~= items);
        },
    }
}

/// One item before an outcome, behind a prefix, is the prefix with the item.
pub proof fn lemma_prefixed_cons<T>(
    prefix: Seq<T>,
    first: T,
    r: Result<(Seq<T>, Seq<u8>), ErrorKind>,
)
    ensures
        prefixed(prefix, cons(first, r)) == prefixed(prefix.push(first), r),
{
    match r {
        Err(_) => {},
        Ok((items, after)) => {
            assert(prefix + (seq![first] + items) =~= prefix.push(first) + items);
        },
    }
}

/// `n` values, one after the other.
pub open spec fn parse_items(s: Seq<u8>, n: nat) -> Result<(Seq<SpecValue>, Seq<u8>), ErrorKind>
    decreases s.len(), n + 1,
{
    if n == 0 {
        Ok((Seq::empty(), s))
    } else {
        match parse_value(s) {
            Err(k) => Err(k),
            Ok((v, rest)) => if rest.len() < s.len() {
                cons(v, parse_items(rest, (n - 1) as nat))
            } else {
                Err(ErrorKind::UnexpectedEndOfInput)
            },
        }
    }
}

/// Values up to a terminator, which is consumed.
pub open spec fn parse_open_items(s: Seq<u8>) -> Result<(Seq<SpecValue>, Seq<u8>), ErrorKind>
    decreases s.len(), 1nat,
{
    if s.len() == 0 {
        Err(ErrorKind::UnexpectedEndOfInput)
    } else if s[0] == 127 {
        Ok((Seq::empty(), s.skip(1)))
    } else {
        match parse_value(s) {
            Err(k) => Err(k),
            Ok((v, rest)) => if rest.len() < s.len() {
                cons(v, parse_open_items(rest))
            } else {
                Err(ErrorKind::UnexpectedEndOfInput)
            },
        }
    }
}

/// The key and the value of one entry.
pub open spec fn parse_entry(s: Seq<u8>) -> Result<((SpecValue, SpecValue), Seq<u8>), ErrorKind>
    decreases s.len(), 1nat,
{
    match parse_value(s) {
        Err(k) => Err(k),
        Ok((key, rest)) => if rest.len() < s.len() {
            match parse_value(rest) {
                Err(k) => Err(k),
                Ok((value, after)) => Ok(((key, value), after)),
            }
        } else {
            Err(ErrorKind::UnexpectedEndOfInput)
        },
    }
}

/// `n` entries, one after the other.
pub open spec fn parse_entries(s: Seq<u8>, n: nat) -> Result<
    (Seq<(SpecValue, SpecValue)>, Seq<u8>),
    ErrorKind,
>
    decreases s.len(), n + 2,
{
    if n == 0 {
        Ok((Seq::empty(), s))
    } else {
        match parse_entry(s) {
            Err(k) => Err(k),
            Ok((entry, rest)) => if rest.len() < s.len() {
                cons(entry, parse_entries(rest, (n - 1) as nat))
            } else {
                Err(ErrorKind::UnexpectedEndOfInput)
            },
        }
    }
}

/// Entries up to a terminator, which is consumed.
pub open spec fn parse_open_entries(s: Seq<u8>) -> Result<
    (Seq<(SpecValue, SpecValue)>, Seq<u8>),
    ErrorKind,
>
    decreases s.len(), 2nat,
{
    if s.len() == 0 {
        Err(ErrorKind::UnexpectedEndOfInput)
    } else if s[0] == 127 {
        Ok((Seq::empty(), s.skip(1)))
    } else {
        match parse_entry(s) {
            Err(k) => Err(k),
            Ok((entry, rest)) => if rest.len() < s.len() {
                cons(entry, parse_open_entries(rest))
            } else {
                Err(ErrorKind::UnexpectedEndOfInput)
            },
        }
    }
}

/// The `:` that ends a decimal length stands within the input.
pub proof fn lemma_length_end_bound(s: Seq<u8>, i: nat)
    ensures
        length_end(s, i) is Ok ==> i <= length_end(s, i)->Ok_0 < s.len(),
    decreases s.len() - i,
{
    if i < s.len() && is_digit(s[i as int]) {
        lemma_length_end_bound(s, i + 1);
    }
}

/// Whatever is read where a value begins, its tag at least is consumed.
pub proof fn lemma_token_progress(s: Seq<u8>)
    ensures
        token_at(s) is Ok ==> token_at(s)->Ok_0.1.len() < s.len(),
{
    lemma_length_end_bound(s, 1);
}

/// Reading a value consumes at least its tag, and reading the parts of a
/// collection never gives input back.
pub proof fn lemma_parse_progress(s: Seq<u8>, n: nat)
    ensures
        parse_value(s) is Ok ==> parse_value(s)->Ok_0.1.len() < s.len(),
        parse_entry(s) is Ok ==> parse_entry(s)->Ok_0.1.len() < s.len(),
        parse_items(s, n) is Ok ==> parse_items(s, n)->Ok_0.1.len() <= s.len(),
        parse_open_items(s) is Ok ==> parse_open_items(s)->Ok_0.1.len() < s.len(),
        parse_entries(s, n) is Ok ==> parse_entries(s, n)->Ok_0.1.len() <= s.len(),
        parse_open_entries(s) is Ok ==> parse_open_entries(s)->Ok_0.1.len() < s.len(),
    decreases s.len(), n,
{
    lemma_token_progress(s);
    if let Ok((token, rest)) = token_at(s) {
        match token {
            SpecToken::FixedSeq(m) => lemma_parse_progress(rest, m),
            SpecToken::FixedMap(m) => lemma_parse_progress(rest, m),
            _ => lemma_parse_progress(rest, 0),
        }
    }
    if let Ok((_, rest)) = parse_value(s) {
        lemma_parse_progress(rest, 0);
        if n > 0 {
            lemma_parse_progress(rest, (n - 1) as nat);
        }
    }
    if let Ok((_, rest)) = parse_entry(s) {
        lemma_parse_progress(rest, 0);
        if n > 0 {
            lemma_parse_progress(rest, (n - 1) as nat);
        }
    }
}

/// An optional value: the unit tag reads as absence, anything else as a
/// value that is present.
pub open spec fn parse_option(s: Seq<u8>) -> Result<(Option<SpecValue>, Seq<u8>), ErrorKind> {
    if s.len() == 0 {
        Err(ErrorKind::UnexpectedEndOfInput)
    } else if s[0] == 69 {
        Ok((None, s.skip(1)))
    } else {
        match parse_value(s) {
            Err(k) => Err(k),
            Ok((v, rest)) => Ok((Some(v), rest)),
        }
    }
}

/// What an optional value is written as: the unit where it is absent.
pub open spec fn option_encoding(o: Option<SpecValue>) -> Seq<u8> {
    match o {
        None => encoding(SpecValue::Unit),
        Some(v) => encoding(v),
    }
}

/// What a whole input reads as: one value, with nothing after it.
pub open spec fn decoding(s: Seq<u8>) -> Result<SpecValue, ErrorKind> {
    match parse_value(s) {
        Err(k) => Err(k),
        Ok((v, rest)) => if rest.len() == 0 {
            Ok(v)
        } else {
            Err(ErrorKind::TrailingBytes)
        },
    }
}

} // verus!
