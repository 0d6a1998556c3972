//! What holds of writing and reading together.

use vstd::prelude::*;
use crate::types::{ErrorKind, TagKind, spec_classify};
use crate::bytes::{decimal_value, all_digits, be_bytes, be_signed, decimal_digits, is_digit, lemma_be_bytes_len, lemma_be_signed_roundtrip, lemma_be_value_of_bytes, lemma_decimal_digits, lemma_pow256_values};
use crate::value::{SpecToken, SpecValue, cons, decoding, encoding, encoding_all, encoding_entries, length_end, long_str_at, option_encoding, parse_entries, parse_entry, parse_items, parse_open_entries, parse_open_items, parse_option, parse_value, split, token_at, lemma_length_end_bound, lemma_parse_progress, lemma_token_progress};

verus! {

/// Splitting a payload off the bytes that begin with it gives it back.
pub proof fn lemma_split_concat(payload: Seq<u8>, rest: Seq<u8>)
    ensures
        split(payload + rest, payload.len()) == Ok::<(Seq<u8>, Seq<u8>), ErrorKind>(
            (payload, rest),
        ),
{
    let s = payload + rest;
    assert(s.take(payload.len() as int) =~= payload);
    assert(s.skip(payload.len() as int) =~= rest);
}

/// A run of digits that a `:` follows ends at that `:`.
pub proof fn lemma_length_end(digits: Seq<u8>, tail: Seq<u8>, i: nat)
    requires
        all_digits(digits),
        i <= digits.len(),
    ensures
        length_end(digits.push(58u8) + tail, i) == Ok::<nat, ErrorKind>(digits.len()),
    decreases digits.len() - i,
{
    let s = digits.push(58u8) + tail;
    if i < digits.len() {
        assert(s[i as int] == digits[i as int]);
        lemma_length_end(digits, tail, i + 1);
    } else {
        assert(s[i as int] == 58u8);
    }
}

/// Every written value begins with a tag, and no value begins with the
/// terminator of an open collection.
pub proof fn lemma_encoding_first(v: SpecValue)
    ensures
        encoding(v).len() > 0,
        encoding(v)[0] != 127,
{
    match v {
        SpecValue::Bytes(b) => {
            if b.len() >= 64 {
                lemma_decimal_digits(b.len());
                let d = decimal_digits(b.len());
                assert(is_digit(d[0]));
                assert(encoding(v)[0] == d[0]);
            }
        },
        _ => {},
    }
}

/// What is read where a written scalar begins is that scalar, with what
/// followed it left over.
#[verifier::rlimit(40)]
pub proof fn lemma_scalar_token(v: SpecValue, rest: Seq<u8>)
    requires
        !(v is List),
        !(v is Dict),
    ensures
        token_at(encoding(v) + rest) == Ok::<(SpecToken, Seq<u8>), ErrorKind>(
            (SpecToken::Scalar(v), rest),
        ),
{
    let s = encoding(v) + rest;
    lemma_pow256_values();
    match v {
        SpecValue::Unit => {
            assert(s.skip(1) =~= rest);
        },
        SpecValue::Bool(b) => {
            assert(s.skip(1) =~= rest);
        },
        SpecValue::Int8(n) => {
            if -32 <= n <= 43 {
                assert(s.skip(1) =~= rest);
            } else {
                let payload = be_signed(n as int, 1);
                lemma_be_signed_roundtrip(n as int, 1);
                assert(s[0] == 62);
                assert(s.skip(1) =~= payload + rest);
                lemma_split_concat(payload, rest);
            }
        },
        SpecValue::Int16(n) => {
            let payload = be_signed(n as int, 2);
            lemma_be_signed_roundtrip(n as int, 2);
            assert(s[0] == 63);
            assert(s.skip(1) =~= payload + rest);
            lemma_split_concat(payload, rest);
        },
        SpecValue::Int32(n) => {
            let payload = be_signed(n as int, 4);
            lemma_be_signed_roundtrip(n as int, 4);
            assert(s[0] == 64);
            assert(s.skip(1) =~= payload + rest);
            lemma_split_concat(payload, rest);
        },
        SpecValue::Int64(n) => {
            let payload = be_signed(n as int, 8);
            lemma_be_signed_roundtrip(n as int, 8);
            assert(s[0] == 65);
            assert(s.skip(1) =~= payload + rest);
            lemma_split_concat(payload, rest);
        },
        SpecValue::Float32(bits) => {
            let payload = be_bytes(bits as nat, 4);
            lemma_be_bytes_len(bits as nat, 4);
            lemma_be_value_of_bytes(bits as nat, 4);
            assert(s[0] == 66);
            assert(s.skip(1) =~= payload + rest);
            lemma_split_concat(payload, rest);
        },
        SpecValue::Float64(bits) => {
            let payload = be_bytes(bits as nat, 8);
            lemma_be_bytes_len(bits as nat, 8);
            lemma_be_value_of_bytes(bits as nat, 8);
            assert(s[0] == 44);
            assert(s.skip(1) =~= payload + rest);
            lemma_split_concat(payload, rest);
        },
        SpecValue::Bytes(b) => {
            if b.len() < 64 {
                assert(s[0] == (128 + b.len()) as u8);
                assert(s.skip(1) =~= b + rest);
                lemma_split_concat(b, rest);
            } else {
                let d = decimal_digits(b.len());
                lemma_decimal_digits(b.len());
                let tail = b + rest;
                assert(s =~= d.push(58u8) + tail);
                assert(is_digit(d[0]));
                assert(s[0] == d[0]);
                lemma_length_end(d, tail, 1);
                assert(s.take(d.len() as int) =~= d);
                assert(s.skip((d.len() + 1) as int) =~= tail);
                lemma_split_concat(b, rest);
                assert(long_str_at(s) == Ok::<(Seq<u8>, Seq<u8>), ErrorKind>((b, rest)));
            }
        },
        SpecValue::List(_) => {},
        SpecValue::Dict(_) => {},
    }
}

/// Reading where a written value begins gives the value back and leaves
/// what followed it.
#[verifier::rlimit(40)]
pub proof fn lemma_parse_encoding(v: SpecValue, rest: Seq<u8>)
    ensures
        parse_value(encoding(v) + rest) == Ok::<(SpecValue, Seq<u8>), ErrorKind>((v, rest)),
    decreases v,
{
    let s = encoding(v) + rest;
    lemma_encoding_first(v);
    match v {
        SpecValue::List(items) => {
            let n = items.len();
            if n < 64 {
                let body = encoding_all(items) + rest;
                assert(s[0] == (192 + n) as u8);
                assert(s.skip(1) =~= body);
                lemma_parse_items_encoding(items, rest);
            } else {
                let body = encoding_all(items) + seq![127u8] + rest;
                assert(s[0] == 59);
                assert(s.skip(1) =~= body);
                lemma_parse_open_items_encoding(items, rest);
            }
        },
        SpecValue::Dict(entries) => {
            let n = entries.len();
            if n < 25 {
                let body = encoding_entries(entries) + rest;
                assert(s[0] == (102 + n) as u8);
                assert(s.skip(1) =~= body);
                lemma_parse_entries_encoding(entries, rest);
            } else {
                let body = encoding_entries(entries) + seq![127u8] + rest;
                assert(s[0] == 60);
                assert(s.skip(1) =~= body);
                lemma_parse_open_entries_encoding(entries, rest);
            }
        },
        _ => {
            lemma_scalar_token(v, rest);
        },
    }
}

/// Reading as many values as were written gives them back.
#[verifier::rlimit(40)]
pub proof fn lemma_parse_items_encoding(items: Seq<SpecValue>, rest: Seq<u8>)
    ensures
        parse_items(encoding_all(items) + rest, items.len()) == Ok::<
            (Seq<SpecValue>, Seq<u8>),
            ErrorKind,
        >((items, rest)),
    decreases items,
{
    let s = encoding_all(items) + rest;
    if items.len() == 0 {
        assert(s =~= rest);
        assert(items =~= Seq::<SpecValue>::empty());
    } else {
        let first = items[0];
        let tail = items.drop_first();
        let mid = encoding_all(tail) + rest;
        assert(s =~= encoding(first) + mid);
        lemma_encoding_first(first);
        lemma_parse_encoding(first, mid);
        lemma_parse_items_encoding(tail, rest);
        assert(seq![first] + tail =~= items);
    }
}

/// Reading up to the terminator gives the written values back.
#[verifier::rlimit(40)]
pub proof fn lemma_parse_open_items_encoding(items: Seq<SpecValue>, rest: Seq<u8>)
    ensures
        parse_open_items(encoding_all(items) + seq![127u8] + rest) == Ok::<
            (Seq<SpecValue>, Seq<u8>),
            ErrorKind,
        >((items, rest)),
    decreases items,
{
    let s = encoding_all(items) + seq![127u8] + rest;
    if items.len() == 0 {
        assert(s =~= seq![127u8] + rest);
        assert(s.skip(1) =~= rest);
        assert(items =~= Seq::<SpecValue>::empty());
    } else {
        let first = items[0];
        let tail = items.drop_first();
        let mid = encoding_all(tail) + seq![127u8] + rest;
        assert(s =~= encoding(first) + mid);
        lemma_encoding_first(first);
        assert(s[0] == encoding(first)[0]);
        lemma_parse_encoding(first, mid);
        lemma_parse_open_items_encoding(tail, rest);
        assert(seq![first] + tail =~= items);
    }
}

/// Reading where a written entry begins gives its key and value back.
#[verifier::rlimit(40)]
pub proof fn lemma_parse_entry_encoding(entry: (SpecValue, SpecValue), rest: Seq<u8>)
    ensures
        parse_entry(encoding(entry.0) + encoding(entry.1) + rest) == Ok::<
            ((SpecValue, SpecValue), Seq<u8>),
            ErrorKind,
        >((entry, rest)),
        (encoding(entry.0) + encoding(entry.1) + rest).len() > rest.len(),
        (encoding(entry.0) + encoding(entry.1) + rest)[0] != 127,
    decreases entry,
{
    let key = entry.0;
    let value = entry.1;
    let s = encoding(key) + encoding(value) + rest;
    let mid = encoding(value) + rest;
    assert(s =~= encoding(key) + mid);
    lemma_encoding_first(key);
    lemma_encoding_first(value);
    lemma_parse_encoding(key, mid);
    lemma_parse_encoding(value, rest);
}

/// Reading as many entries as were written gives them back.
#[verifier::rlimit(40)]
pub proof fn lemma_parse_entries_encoding(entries: Seq<(SpecValue, SpecValue)>, rest: Seq<u8>)
    ensures
        parse_entries(encoding_entries(entries) + rest, entries.len()) == Ok::<
            (Seq<(SpecValue, SpecValue)>, Seq<u8>),
            ErrorKind,
        >((entries, rest)),
    decreases entries,
{
    let s = encoding_entries(entries) + rest;
    if entries.len() == 0 {
        assert(s =~= rest);
        assert(entries =~= Seq::<(SpecValue, SpecValue)>::empty());
    } else {
        let first = entries[0];
        let tail = entries.drop_first();
        let mid = encoding_entries(tail) + rest;
        let head = encoding(first.0) + encoding(first.1);
        assert(encoding_entries(entries) == head + encoding_entries(tail));
        assert(s =~= head + mid);
        lemma_parse_entry_encoding(first, mid);
        lemma_parse_entries_encoding(tail, rest);
        assert(seq![first] + tail =~= entries);
        assert(parse_entries(s, entries.len()) == cons(
            first,
            parse_entries(mid, (entries.len() - 1) as nat),
        ));
    }
}

/// Reading up to the terminator gives the written entries back.
#[verifier::rlimit(40)]
pub proof fn lemma_parse_open_entries_encoding(
    entries: Seq<(SpecValue, SpecValue)>,
    rest: Seq<u8>,
)
    ensures
        parse_open_entries(encoding_entries(entries) + seq![127u8] + rest) == Ok::<
            (Seq<(SpecValue, SpecValue)>, Seq<u8>),
            ErrorKind,
        >((entries, rest)),
    decreases entries,
{
    let s = encoding_entries(entries) + seq![127u8] + rest;
    if entries.len() == 0 {
        assert(s =~= seq![127u8] + rest);
        assert(s.skip(1) =~= rest);
        assert(entries =~= Seq::<(SpecValue, SpecValue)>::empty());
    } else {
        let first = entries[0];
        let tail = entries.drop_first();
        let mid = encoding_entries(tail) + seq![127u8] + rest;
        let head = encoding(first.0) + encoding(first.1);
        assert(encoding_entries(entries) == head + encoding_entries(tail));
        assert(s =~= head + mid);
        lemma_parse_entry_encoding(first, mid);
        lemma_parse_open_entries_encoding(tail, rest);
        assert(seq![first] + tail =~= entries);
        assert(parse_open_entries(s) == cons(first, parse_open_entries(mid)));
    }
}

/// Round trip: what a value is written as reads as that value.
pub proof fn lemma_round_trip(v: SpecValue)
    ensures
        decoding(encoding(v)) == Ok::<SpecValue, ErrorKind>(v),
{
    lemma_parse_encoding(v, Seq::empty());
    assert(encoding(v) + Seq::<u8>::empty() =~= encoding(v));
}

/// An optional value reads back as it was written, but for a present unit,
/// which is written as absence is.
pub proof fn lemma_option_round_trip(o: Option<SpecValue>, rest: Seq<u8>)
    requires
        o != Some(SpecValue::Unit),
    ensures
        parse_option(option_encoding(o) + rest) == Ok::<(Option<SpecValue>, Seq<u8>), ErrorKind>(
            (o, rest),
        ),
{
    let s = option_encoding(o) + rest;
    match o {
        None => {
            assert(s.skip(1) =~= rest);
        },
        Some(v) => {
            lemma_parse_encoding(v, rest);
            lemma_unit_tag(v);
        },
    }
}

/// Only the unit is written with the unit tag first.
pub proof fn lemma_unit_tag(v: SpecValue)
    requires
        v != SpecValue::Unit,
    ensures
        encoding(v).len() > 0,
        encoding(v)[0] != 69,
{
    lemma_encoding_first(v);
    match v {
        SpecValue::Bytes(b) => {
            if b.len() >= 64 {
                lemma_decimal_digits(b.len());
                let d = decimal_digits(b.len());
                assert(is_digit(d[0]));
                assert(encoding(v)[0] == d[0]);
            }
        },
        _ => {},
    }
}

/// Two values that are written alike are the same value.
pub proof fn lemma_encoding_injective(a: SpecValue, b: SpecValue)
    requires
        encoding(a) == encoding(b),
    ensures
        a == b,
{
    lemma_round_trip(a);
    lemma_round_trip(b);
}

/// How reading an input that was cut after `n` bytes relates to reading the
/// whole: where the whole reads well, the cut input reads as an unexpected
/// end if the cut falls within what was consumed, and else reads the same.
pub open spec fn cut_agrees<T>(
    whole: Result<(T, Seq<u8>), ErrorKind>,
    cut: Result<(T, Seq<u8>), ErrorKind>,
    s: Seq<u8>,
    n: int,
) -> bool {
    match whole {
        Err(_) => true,
        Ok((x, rest)) => {
            let k = s.len() - rest.len();
            &&& 0 <= k <= s.len()
            &&& rest == s.skip(k)
            &&& (n < k ==> cut == Err::<(T, Seq<u8>), ErrorKind>(ErrorKind::UnexpectedEndOfInput))
            &&& (n >= k ==> cut == Ok::<(T, Seq<u8>), ErrorKind>((x, s.take(n).skip(k))))
        },
    }
}

/// A payload of `w` bytes that begins `off` bytes into the input, when the
/// input is cut at or after `off`.
proof fn lemma_split_cut(s: Seq<u8>, off: int, w: nat, n: int)
    requires
        0 <= off <= n <= s.len(),
        split(s.skip(off), w) is Ok,
    ensures
        off + w <= s.len(),
        split(s.skip(off), w)->Ok_0.0 == s.skip(off).take(w as int),
        split(s.skip(off), w)->Ok_0.1 == s.skip(off + w),
        n < off + w ==> split(s.take(n).skip(off), w) == Err::<(Seq<u8>, Seq<u8>), ErrorKind>(
            ErrorKind::UnexpectedEndOfInput,
        ),
        n >= off + w ==> split(s.take(n).skip(off), w) == Ok::<(Seq<u8>, Seq<u8>), ErrorKind>(
            (s.skip(off).take(w as int), s.take(n).skip(off + w)),
        ),
{
    assert(s.skip(off).skip(w as int) =~= s.skip(off + w));
    if n >= off + w {
        assert(s.take(n).skip(off).take(w as int) =~= s.skip(off).take(w as int));
        assert(s.take(n).skip(off).skip(w as int) =~= s.take(n).skip(off + w));
    }
}

/// The end of a decimal length, when the input is cut at or after `i`.
pub proof fn lemma_length_end_cut_any(s: Seq<u8>, i: nat, n: int)
    requires
        i <= n <= s.len(),
        length_end(s, i) is Ok,
    ensures
        i <= length_end(s, i)->Ok_0 < s.len(),
        n <= length_end(s, i)->Ok_0 ==> length_end(s.take(n), i) == Err::<nat, ErrorKind>(
            ErrorKind::UnexpectedEndOfInput,
        ),
        n > length_end(s, i)->Ok_0 ==> length_end(s.take(n), i) == length_end(s, i),
    decreases s.len() - i,
{
    let c = s.take(n);
    lemma_length_end_bound(s, i);
    assert(c.len() == n);
    if i < n {
        assert(c[i as int] == s[i as int]);
        if is_digit(s[i as int]) {
            lemma_length_end_cut_any(s, i + 1, n);
        }
    }
}

/// What stands where a value begins, when the input is cut.
#[verifier::rlimit(40)]
pub proof fn lemma_token_cut(s: Seq<u8>, n: int)
    requires
        0 <= n <= s.len(),
    ensures
        cut_agrees(token_at(s), token_at(s.take(n)), s, n),
{
    let c = s.take(n);
    if token_at(s) is Ok {
        lemma_token_progress(s);
        if n == 0 {
            match spec_classify(s[0]) {
                TagKind::Digit(_) => {
                    lemma_length_end_cut_any(s, 1, 1);
                    let e = length_end(s, 1)->Ok_0;
                    lemma_split_cut(s, (e + 1) as int, decimal_value(s.take(e as int)), (e + 1) as int);
                },
                TagKind::FixedInt(w) => lemma_split_cut(s, 1, w as nat, 1),
                TagKind::Float32 => lemma_split_cut(s, 1, 4, 1),
                TagKind::Float64 => lemma_split_cut(s, 1, 8, 1),
                TagKind::FixedStr(w) => lemma_split_cut(s, 1, w as nat, 1),
                _ => {},
            }
        } else {
            assert(c[0] == s[0]);
            assert(c.skip(1) =~= s.take(n).skip(1));
            match spec_classify(s[0]) {
                TagKind::Digit(_) => {
                    lemma_length_end_cut_any(s, 1, n);
                    let e = length_end(s, 1)->Ok_0;
                    let len = decimal_value(s.take(e as int));
                    if n > e as int {
                        assert(c.take(e as int) =~= s.take(e as int));
                        lemma_split_cut(s, (e + 1) as int, len, n);
                    } else {
                        lemma_split_cut(s, (e + 1) as int, len, (e + 1) as int);
                    }
                },
                TagKind::FixedInt(w) => lemma_split_cut(s, 1, w as nat, n),
                TagKind::Float32 => lemma_split_cut(s, 1, 4, n),
                TagKind::Float64 => lemma_split_cut(s, 1, 8, n),
                TagKind::FixedStr(w) => lemma_split_cut(s, 1, w as nat, n),
                _ => {},
            }
        }
    }
}

/// Reading a value, when the input is cut.
#[verifier::rlimit(60)]
pub proof fn lemma_value_cut_any(s: Seq<u8>, n: int)
    requires
        0 <= n <= s.len(),
    ensures
        cut_agrees(parse_value(s), parse_value(s.take(n)), s, n),
    decreases s.len(), 0nat,
{
    let c = s.take(n);
    lemma_token_cut(s, n);
    lemma_token_progress(s);
    if parse_value(s) is Ok {
        let (token, rest) = token_at(s)->Ok_0;
        let k = s.len() - rest.len();
        let n2 = if n >= k {
            n - k
        } else {
            0
        };
        if n >= k {
            assert(c.skip(k) =~= rest.take(n2));
        }
        match token {
            SpecToken::Scalar(_) => {},
            SpecToken::FixedSeq(m) => {
                lemma_items_cut_any(rest, m, n2);
                let after = parse_items(rest, m)->Ok_0.1;
                let j = rest.len() - after.len();
                assert(rest.skip(j) =~= s.skip(k + j));
                if n >= k + j {
                    assert(rest.take(n2).skip(j) =~= c.skip(k + j));
                }
            },
            SpecToken::OpenSeq => {
                lemma_open_items_cut_any(rest, n2);
                let after = parse_open_items(rest)->Ok_0.1;
                let j = rest.len() - after.len();
                assert(rest.skip(j) =~= s.skip(k + j));
                if n >= k + j {
                    assert(rest.take(n2).skip(j) =~= c.skip(k + j));
                }
            },
            SpecToken::FixedMap(m) => {
                lemma_entries_cut_any(rest, m, n2);
                let after = parse_entries(rest, m)->Ok_0.1;
                let j = rest.len() - after.len();
                assert(rest.skip(j) =~= s.skip(k + j));
                if n >= k + j {
                    assert(rest.take(n2).skip(j) =~= c.skip(k + j));
                }
            },
            SpecToken::OpenMap => {
                lemma_open_entries_cut_any(rest, n2);
                let after = parse_open_entries(rest)->Ok_0.1;
                let j = rest.len() - after.len();
                assert(rest.skip(j) =~= s.skip(k + j));
                if n >= k + j {
                    assert(rest.take(n2).skip(j) =~= c.skip(k + j));
                }
            },
        }
    }
}

/// Reading one value and then more, when the input is cut: what the rest of
/// the proof needs of the first step.
#[verifier::rlimit(40)]
proof fn lemma_first_cut(s: Seq<u8>, n: int)
    requires
        0 <= n <= s.len(),
        parse_value(s) is Ok,
    ensures
        ({
            let (v, rest) = parse_value(s)->Ok_0;
            let k = s.len() - rest.len();
            &&& 0 < k <= s.len()
            &&& rest == s.skip(k)
            &&& (n < k ==> parse_value(s.take(n)) == Err::<(SpecValue, Seq<u8>), ErrorKind>(
                ErrorKind::UnexpectedEndOfInput,
            ))
            &&& (n >= k ==> parse_value(s.take(n)) == Ok::<(SpecValue, Seq<u8>), ErrorKind>(
                (v, rest.take(n - k)),
            ) && rest.take(n - k).len() < s.take(n).len())
        }),
    decreases s.len(), 1nat,
{
    lemma_value_cut_any(s, n);
    lemma_parse_progress(s, 0);
    let rest = parse_value(s)->Ok_0.1;
    let k = s.len() - rest.len();
    if n >= k {
        assert(s.take(n).skip(k) =~= rest.take(n - k));
    }
}

/// What is left after a later step is a suffix of the whole input.
proof fn lemma_tail_suffix<T>(s: Seq<u8>, k: int, whole: Result<(Seq<T>, Seq<u8>), ErrorKind>)
    requires
        0 <= k <= s.len(),
        whole is Ok,
        whole->Ok_0.1.len() <= s.skip(k).len(),
        whole->Ok_0.1 == s.skip(k).skip(s.skip(k).len() - whole->Ok_0.1.len()),
    ensures
        whole->Ok_0.1 == s.skip(s.len() - whole->Ok_0.1.len()),
{
    let j = s.skip(k).len() - whole->Ok_0.1.len();
    assert(s.skip(k).skip(j) =~= s.skip(k + j));
}

/// Joining the cut of a first part and the cut of what follows it.
proof fn lemma_cut_join<T>(
    s: Seq<u8>,
    n: int,
    k: int,
    first: T,
    whole: Result<(Seq<T>, Seq<u8>), ErrorKind>,
    cut: Result<(Seq<T>, Seq<u8>), ErrorKind>,
)
    requires
        0 <= k <= n <= s.len(),
        whole is Ok,
        cut_agrees(whole, cut, s.skip(k), n - k),
    ensures
        cut_agrees(cons(first, whole), cons(first, cut), s, n),
{
    let rest = s.skip(k);
    let after = whole->Ok_0.1;
    let j = rest.len() - after.len();
    assert(rest.skip(j) =~= s.skip(k + j));
    assert(rest.take(n - k) =~= s.take(n).skip(k));
    if n - k >= j {
        assert(rest.take(n - k).skip(j) =~= s.take(n).skip(k + j));
    }
}

/// Reading a counted run of values, when the input is cut.
#[verifier::rlimit(60)]
pub proof fn lemma_items_cut_any(s: Seq<u8>, m: nat, n: int)
    requires
        0 <= n <= s.len(),
    ensures
        cut_agrees(parse_items(s, m), parse_items(s.take(n), m), s, n),
    decreases s.len(), m + 2,
{
    let c = s.take(n);
    if parse_items(s, m) is Ok {
        if m == 0 {
            assert(s.skip(0) =~= s);
            assert(c.skip(0) =~= c);
        } else {
            lemma_first_cut(s, n);
            let (v, rest) = parse_value(s)->Ok_0;
            let k = s.len() - rest.len();
            let n2 = if n >= k {
                n - k
            } else {
                0
            };
            lemma_items_cut_any(rest, (m - 1) as nat, n2);
            lemma_tail_suffix(s, k, parse_items(rest, (m - 1) as nat));
            if n >= k {
                lemma_cut_join(
                    s,
                    n,
                    k,
                    v,
                    parse_items(rest, (m - 1) as nat),
                    parse_items(rest.take(n - k), (m - 1) as nat),
                );
            }
        }
    }
}

/// Reading values up to a terminator, when the input is cut.
#[verifier::rlimit(60)]
pub proof fn lemma_open_items_cut_any(s: Seq<u8>, n: int)
    requires
        0 <= n <= s.len(),
    ensures
        cut_agrees(parse_open_items(s), parse_open_items(s.take(n)), s, n),
    decreases s.len(), 2nat,
{
    let c = s.take(n);
    if parse_open_items(s) is Ok {
        lemma_parse_progress(s, 0);
        if n > 0 {
            assert(c[0] == s[0]);
        }
        if s[0] != 127 {
            lemma_first_cut(s, n);
            let (v, rest) = parse_value(s)->Ok_0;
            let k = s.len() - rest.len();
            let n2 = if n >= k {
                n - k
            } else {
                0
            };
            lemma_open_items_cut_any(rest, n2);
            lemma_tail_suffix(s, k, parse_open_items(rest));
            if n >= k {
                lemma_cut_join(
                    s,
                    n,
                    k,
                    v,
                    parse_open_items(rest),
                    parse_open_items(rest.take(n - k)),
                );
            }
        }
    }
}

/// Reading one entry, when the input is cut.
#[verifier::rlimit(60)]
pub proof fn lemma_entry_cut_any(s: Seq<u8>, n: int)
    requires
        0 <= n <= s.len(),
        parse_entry(s) is Ok,
    ensures
        ({
            let (e, rest) = parse_entry(s)->Ok_0;
            let k = s.len() - rest.len();
            &&& 0 < k <= s.len()
            &&& rest == s.skip(k)
            &&& (n < k ==> parse_entry(s.take(n)) == Err::<
                ((SpecValue, SpecValue), Seq<u8>),
                ErrorKind,
            >(ErrorKind::UnexpectedEndOfInput))
            &&& (n >= k ==> parse_entry(s.take(n)) == Ok::<
                ((SpecValue, SpecValue), Seq<u8>),
                ErrorKind,
            >((e, rest.take(n - k))) && rest.take(n - k).len() < s.take(n).len())
        }),
    decreases s.len(), 2nat,
{
    lemma_first_cut(s, n);
    let (key, mid) = parse_value(s)->Ok_0;
    let k1 = s.len() - mid.len();
    if n >= k1 {
        lemma_first_cut(mid, n - k1);
        let (value, rest) = parse_value(mid)->Ok_0;
        let k2 = mid.len() - rest.len();
        assert(mid.skip(k2) =~= s.skip(k1 + k2));
        if n - k1 >= k2 {
            assert(rest.take(n - k1 - k2) =~= rest.take(n - (k1 + k2)));
        }
    } else {
        lemma_first_cut(mid, 0);
        let rest = parse_value(mid)->Ok_0.1;
        let k2 = mid.len() - rest.len();
        assert(mid.skip(k2) =~= s.skip(k1 + k2));
    }
}

/// Reading a counted run of entries, when the input is cut.
#[verifier::rlimit(60)]
pub proof fn lemma_entries_cut_any(s: Seq<u8>, m: nat, n: int)
    requires
        0 <= n <= s.len(),
    ensures
        cut_agrees(parse_entries(s, m), parse_entries(s.take(n), m), s, n),
    decreases s.len(), m + 3,
{
    let c = s.take(n);
    if parse_entries(s, m) is Ok {
        if m == 0 {
            assert(s.skip(0) =~= s);
            assert(c.skip(0) =~= c);
        } else {
            lemma_entry_cut_any(s, n);
            let (e, rest) = parse_entry(s)->Ok_0;
            let k = s.len() - rest.len();
            let n2 = if n >= k {
                n - k
            } else {
                0
            };
            lemma_entries_cut_any(rest, (m - 1) as nat, n2);
            lemma_tail_suffix(s, k, parse_entries(rest, (m - 1) as nat));
            if n >= k {
                lemma_cut_join(
                    s,
                    n,
                    k,
                    e,
                    parse_entries(rest, (m - 1) as nat),
                    parse_entries(rest.take(n - k), (m - 1) as nat),
                );
            }
        }
    }
}

/// Reading entries up to a terminator, when the input is cut.
#[verifier::rlimit(60)]
pub proof fn lemma_open_entries_cut_any(s: Seq<u8>, n: int)
    requires
        0 <= n <= s.len(),
    ensures
        cut_agrees(parse_open_entries(s), parse_open_entries(s.take(n)), s, n),
    decreases s.len(), 3nat,
{
    let c = s.take(n);
    if parse_open_entries(s) is Ok {
        lemma_parse_progress(s, 0);
        if n > 0 {
            assert(c[0] == s[0]);
        }
        if s[0] != 127 {
            lemma_entry_cut_any(s, n);
            let (e, rest) = parse_entry(s)->Ok_0;
            let k = s.len() - rest.len();
            let n2 = if n >= k {
                n - k
            } else {
                0
            };
            lemma_open_entries_cut_any(rest, n2);
            lemma_tail_suffix(s, k, parse_open_entries(rest));
            if n >= k {
                lemma_cut_join(
                    s,
                    n,
                    k,
                    e,
                    parse_open_entries(rest),
                    parse_open_entries(rest.take(n - k)),
                );
            }
        }
    }
}

/// Truncation: an input that reads as one whole value, cut short anywhere,
/// reads as an unexpected end of input.
pub proof fn lemma_truncated_input(s: Seq<u8>, n: int)
    requires
        decoding(s) is Ok,
        0 <= n < s.len(),
    ensures
        decoding(s.take(n)) == Err::<SpecValue, ErrorKind>(ErrorKind::UnexpectedEndOfInput),
{
    lemma_value_cut_any(s, n);
}

/// Truncation of what was written: what a value is written as, cut short
/// anywhere, reads as an unexpected end of input.
pub proof fn lemma_truncated(v: SpecValue, n: int)
    requires
        0 <= n < encoding(v).len(),
    ensures
        decoding(encoding(v).take(n)) == Err::<SpecValue, ErrorKind>(
            ErrorKind::UnexpectedEndOfInput,
        ),
{
    lemma_round_trip(v);
    lemma_truncated_input(encoding(v), n);
}

/// How reading an input with more bytes behind it relates to reading the
/// input alone: where the input alone reads well, the longer one reads the
/// same, and the added bytes are left over as well.
pub open spec fn extends<T>(
    alone: Result<(T, Seq<u8>), ErrorKind>,
    longer: Result<(T, Seq<u8>), ErrorKind>,
    extra: Seq<u8>,
) -> bool {
    match alone {
        Err(_) => true,
        Ok((x, rest)) => longer == Ok::<(T, Seq<u8>), ErrorKind>((x, rest + extra)),
    }
}

/// The end of a decimal length stays where it is when bytes are added.
pub proof fn lemma_length_end_ext(s: Seq<u8>, i: nat, extra: Seq<u8>)
    requires
        length_end(s, i) is Ok,
    ensures
        length_end(s + extra, i) == length_end(s, i),
    decreases s.len() - i,
{
    if i < s.len() {
        assert((s + extra)[i as int] == s[i as int]);
        if is_digit(s[i as int]) {
            lemma_length_end_ext(s, i + 1, extra);
        }
    }
}

/// A payload that is all there stays the same when bytes are added.
proof fn lemma_split_ext(s: Seq<u8>, off: int, w: nat, extra: Seq<u8>)
    requires
        0 <= off <= s.len(),
        split(s.skip(off), w) is Ok,
    ensures
        split((s + extra).skip(off), w) == Ok::<(Seq<u8>, Seq<u8>), ErrorKind>(
            (split(s.skip(off), w)->Ok_0.0, split(s.skip(off), w)->Ok_0.1 + extra),
        ),
{
    assert((s + extra).skip(off) =~= s.skip(off) + extra);
    assert((s.skip(off) + extra).take(w as int) =~= s.skip(off).take(w as int));
    assert((s.skip(off) + extra).skip(w as int) =~= s.skip(off).skip(w as int) + extra);
}

/// What stands where a value begins stays the same when bytes are added.
#[verifier::rlimit(40)]
pub proof fn lemma_token_ext(s: Seq<u8>, extra: Seq<u8>)
    ensures
        extends(token_at(s), token_at(s + extra), extra),
{
    let t = s + extra;
    if token_at(s) is Ok {
        assert(t[0] == s[0]);
        assert(t.skip(1) =~= s.skip(1) + extra);
        match spec_classify(s[0]) {
            TagKind::Digit(_) => {
                lemma_length_end_bound(s, 1);
                lemma_length_end_ext(s, 1, extra);
                let e = length_end(s, 1)->Ok_0;
                assert(t.take(e as int) =~= s.take(e as int));
                lemma_split_ext(s, (e + 1) as int, decimal_value(s.take(e as int)), extra);
            },
            TagKind::FixedInt(w) => lemma_split_ext(s, 1, w as nat, extra),
            TagKind::Float32 => lemma_split_ext(s, 1, 4, extra),
            TagKind::Float64 => lemma_split_ext(s, 1, 8, extra),
            TagKind::FixedStr(w) => lemma_split_ext(s, 1, w as nat, extra),
            _ => {},
        }
    }
}

/// Reading a value gives the same when bytes are added behind the input.
#[verifier::rlimit(60)]
pub proof fn lemma_value_ext(s: Seq<u8>, extra: Seq<u8>)
    ensures
        extends(parse_value(s), parse_value(s + extra), extra),
    decreases s.len(), 0nat,
{
    lemma_token_ext(s, extra);
    lemma_token_progress(s);
    if parse_value(s) is Ok {
        let (token, rest) = token_at(s)->Ok_0;
        match token {
            SpecToken::Scalar(_) => {},
            SpecToken::FixedSeq(m) => lemma_items_ext(rest, m, extra),
            SpecToken::OpenSeq => lemma_open_items_ext(rest, extra),
            SpecToken::FixedMap(m) => lemma_entries_ext(rest, m, extra),
            SpecToken::OpenMap => lemma_open_entries_ext(rest, extra),
        }
    }
}

/// One item before both outcomes keeps the one an extension of the other.
proof fn lemma_extends_cons<T>(
    first: T,
    alone: Result<(Seq<T>, Seq<u8>), ErrorKind>,
    longer: Result<(Seq<T>, Seq<u8>), ErrorKind>,
    extra: Seq<u8>,
)
    requires
        extends(alone, longer, extra),
    ensures
        extends(cons(first, alone), cons(first, longer), extra),
{
}

/// Reading a counted run of values gives the same when bytes are added.
#[verifier::rlimit(60)]
pub proof fn lemma_items_ext(s: Seq<u8>, m: nat, extra: Seq<u8>)
    ensures
        extends(parse_items(s, m), parse_items(s + extra, m), extra),
    decreases s.len(), m + 1,
{
    if parse_items(s, m) is Ok && m > 0 {
        lemma_value_ext(s, extra);
        lemma_parse_progress(s, 0);
        let (v, rest) = parse_value(s)->Ok_0;
        lemma_items_ext(rest, (m - 1) as nat, extra);
        lemma_extends_cons(
            v,
            parse_items(rest, (m - 1) as nat),
            parse_items(rest + extra, (m - 1) as nat),
            extra,
        );
    }
}

/// Reading values up to a terminator gives the same when bytes are added.
#[verifier::rlimit(60)]
pub proof fn lemma_open_items_ext(s: Seq<u8>, extra: Seq<u8>)
    ensures
        extends(parse_open_items(s), parse_open_items(s + extra), extra),
    decreases s.len(), 1nat,
{
    let t = s + extra;
    if parse_open_items(s) is Ok {
        assert(t[0] == s[0]);
        if s[0] == 127 {
            assert(t.skip(1) =~= s.skip(1) + extra);
        } else {
            lemma_value_ext(s, extra);
            lemma_parse_progress(s, 0);
            let (v, rest) = parse_value(s)->Ok_0;
            lemma_open_items_ext(rest, extra);
            lemma_extends_cons(v, parse_open_items(rest), parse_open_items(rest + extra), extra);
        }
    }
}

/// Reading one entry gives the same when bytes are added.
#[verifier::rlimit(60)]
pub proof fn lemma_entry_ext(s: Seq<u8>, extra: Seq<u8>)
    ensures
        extends(parse_entry(s), parse_entry(s + extra), extra),
    decreases s.len(), 1nat,
{
    if parse_entry(s) is Ok {
        lemma_value_ext(s, extra);
        lemma_parse_progress(s, 0);
        let (key, mid) = parse_value(s)->Ok_0;
        lemma_value_ext(mid, extra);
        lemma_parse_progress(mid, 0);
    }
}

/// Reading a counted run of entries gives the same when bytes are added.
#[verifier::rlimit(60)]
pub proof fn lemma_entries_ext(s: Seq<u8>, m: nat, extra: Seq<u8>)
    ensures
        extends(parse_entries(s, m), parse_entries(s + extra, m), extra),
    decreases s.len(), m + 2,
{
    if parse_entries(s, m) is Ok && m > 0 {
        lemma_entry_ext(s, extra);
        lemma_parse_progress(s, 0);
        let (e, rest) = parse_entry(s)->Ok_0;
        lemma_entries_ext(rest, (m - 1) as nat, extra);
        lemma_extends_cons(
            e,
            parse_entries(rest, (m - 1) as nat),
            parse_entries(rest + extra, (m - 1) as nat),
            extra,
        );
    }
}

/// Reading entries up to a terminator gives the same when bytes are added.
#[verifier::rlimit(60)]
pub proof fn lemma_open_entries_ext(s: Seq<u8>, extra: Seq<u8>)
    ensures
        extends(parse_open_entries(s), parse_open_entries(s + extra), extra),
    decreases s.len(), 2nat,
{
    let t = s + extra;
    if parse_open_entries(s) is Ok {
        assert(t[0] == s[0]);
        if s[0] == 127 {
            assert(t.skip(1) =~= s.skip(1) + extra);
        } else {
            lemma_entry_ext(s, extra);
            lemma_parse_progress(s, 0);
            let (e, rest) = parse_entry(s)->Ok_0;
            lemma_open_entries_ext(rest, extra);
            lemma_extends_cons(
                e,
                parse_open_entries(rest),
                parse_open_entries(rest + extra),
                extra,
            );
        }
    }
}

/// Trailing bytes: an input that reads as one whole value, with any bytes
/// added behind it, is refused for what is left over.
pub proof fn lemma_trailing_input(s: Seq<u8>, extra: Seq<u8>)
    requires
        decoding(s) is Ok,
        extra.len() > 0,
    ensures
        decoding(s + extra) == Err::<SpecValue, ErrorKind>(ErrorKind::TrailingBytes),
{
    lemma_value_ext(s, extra);
}

/// Bytes after a complete written value are refused as trailing.
pub proof fn lemma_trailing_bytes(v: SpecValue, extra: Seq<u8>)
    requires
        extra.len() > 0,
    ensures
        decoding(encoding(v) + extra) == Err::<SpecValue, ErrorKind>(ErrorKind::TrailingBytes),
{
    lemma_parse_encoding(v, extra);
}

/// Input that begins with the tag of an integer of arbitrary size is
/// refused as such, whatever follows.
pub proof fn lemma_big_int_refused(s: Seq<u8>)
    requires
        s.len() > 0,
        s[0] == 61,
    ensures
        decoding(s) == Err::<SpecValue, ErrorKind>(ErrorKind::UnsupportedBigInt),
{
}

/// A decimal length cannot begin with a zero: input that begins with the
/// digit `0` is refused.
pub proof fn lemma_leading_zero_refused(s: Seq<u8>)
    requires
        s.len() > 0,
        s[0] == 48,
    ensures
        decoding(s) == Err::<SpecValue, ErrorKind>(ErrorKind::UnknownTag),
{
}

/// An 8-bit integer is one byte from -32 to 43, and two bytes otherwise.
pub proof fn lemma_int8_boundaries(n: i8)
    ensures
        -32 <= n <= 43 ==> encoding(SpecValue::Int8(n)).len() == 1,
        0 <= n <= 43 ==> encoding(SpecValue::Int8(n)) == seq![n as u8],
        -32 <= n < 0 ==> encoding(SpecValue::Int8(n)) == seq![(69 - n) as u8],
        n < -32 || n > 43 ==> encoding(SpecValue::Int8(n)).len() == 2 && encoding(
            SpecValue::Int8(n),
        )[0] == 62,
{
    lemma_be_bytes_len(crate::bytes::to_unsigned(n as int, 1), 1);
}

/// A string under 64 bytes has its length in its tag; a longer one begins
/// with the decimal digits of its length, the first of them from 1 to 9.
pub proof fn lemma_str_boundaries(b: Seq<u8>)
    ensures
        b.len() < 64 ==> encoding(SpecValue::Bytes(b)) == seq![(128 + b.len()) as u8] + b,
        b.len() >= 64 ==> encoding(SpecValue::Bytes(b)) == decimal_digits(b.len()).push(58u8) + b
            && 49 <= encoding(SpecValue::Bytes(b))[0] <= 57,
{
    if b.len() >= 64 {
        lemma_decimal_digits(b.len());
        let d = decimal_digits(b.len());
        assert(is_digit(d[0]));
        assert(encoding(SpecValue::Bytes(b))[0] == d[0]);
    }
}

/// A list under 64 items has its count in its tag and no terminator; a
/// longer one stands between the open marker and the terminator.
pub proof fn lemma_list_boundaries(items: Seq<SpecValue>)
    ensures
        items.len() < 64 ==> encoding(SpecValue::List(items)) == seq![(192 + items.len()) as u8]
            + encoding_all(items),
        items.len() >= 64 ==> encoding(SpecValue::List(items)) == seq![59u8] + encoding_all(items)
            + seq![127u8],
{
    if items.len() < 64 {
        assert(encoding(SpecValue::List(items)) =~= seq![(192 + items.len()) as u8]
            + encoding_all(items));
    }
}

/// A dictionary under 25 entries has its count in its tag and no
/// terminator; a longer one stands between the open marker and the terminator.
pub proof fn lemma_dict_boundaries(entries: Seq<(SpecValue, SpecValue)>)
    ensures
        entries.len() < 25 ==> encoding(SpecValue::Dict(entries)) == seq![
            (102 + entries.len()) as u8,
        ] + encoding_entries(entries),
        entries.len() >= 25 ==> encoding(SpecValue::Dict(entries)) == seq![60u8]
            + encoding_entries(entries) + seq![127u8],
{
    if entries.len() < 25 {
        assert(encoding(SpecValue::Dict(entries)) =~= seq![(102 + entries.len()) as u8]
            + encoding_entries(entries));
    }
}

} // verus!
