use vstd::prelude::*;

use crate::buffer::{advance, append, buffered, contents, first_index_of};
use vstd::slice::slice_to_vec;
use vstd::string::StringSliceAdditionalSpecFns;

verus! {

/// A RESP value as it travels on the wire.
#[derive(Debug, PartialEq, Eq)]
pub enum RespValue {
    SimpleString(Vec<u8>),
    Error(Vec<u8>),
    Integer(i64),
    BulkString(Vec<u8>),
    Array(Vec<RespValue>),
}

/// The mathematical model of a `RespValue`.
pub enum RespTerm {
    SimpleString(Seq<u8>),
    Error(Seq<u8>),
    Integer(i64),
    BulkString(Seq<u8>),
    Array(Seq<RespTerm>),
}

impl View for RespValue {
    type V = RespTerm;

    open spec fn view(&self) -> RespTerm {
        term_of(*self)
    }
}

/// The model of a value.
pub open spec fn term_of(v: RespValue) -> RespTerm
    decreases v, 0nat,
{
    match v {
        RespValue::SimpleString(s) => RespTerm::SimpleString(s@),
        RespValue::Error(s) => RespTerm::Error(s@),
        RespValue::Integer(i) => RespTerm::Integer(i),
        RespValue::BulkString(s) => RespTerm::BulkString(s@),
        RespValue::Array(a) => RespTerm::Array(terms_of(a@, a@.len())),
    }
}

/// The models of the first `n` values of `s`.
pub open spec fn terms_of(s: Seq<RespValue>, n: nat) -> Seq<RespTerm>
    decreases s, n,
{
    if n == 0 || n > s.len() {
        seq![]
    } else {
        terms_of(s, (n - 1) as nat).push(term_of(s[n - 1]))
    }
}

pub proof fn lemma_terms_of(s: Seq<RespValue>, n: nat)
    requires
        n <= s.len(),
    ensures
        (#[trigger] terms_of(s, n)).len() == n,
        forall|i: int| 0 <= i < n ==> terms_of(s, n)[i] == term_of(#[trigger] s[i]),
    decreases n,
{
    if n > 0 {
        lemma_terms_of(s, (n - 1) as nat);
    }
}

pub open spec fn is_digit(b: u8) -> bool {
    48 <= b <= 57
}

/// The value of a run of decimal digits, most significant first.
pub open spec fn digits_value(d: Seq<u8>) -> int
    decreases d.len(),
{
    if d.len() == 0 {
        0
    } else {
        digits_value(d.drop_last()) * 10 + (d.last() - 48)
    }
}

pub open spec fn all_digits(d: Seq<u8>) -> bool {
    d.len() > 0 && forall|i: int| 0 <= i < d.len() ==> is_digit(#[trigger] d[i])
}

/// A signed 64-bit decimal: an optional `-` or `+`, then one or more digits,
/// with a value that fits in `i64`.
pub open spec fn decimal_value(w: Seq<u8>) -> Option<i64> {
    let neg = w.len() > 0 && w[0] == 45;
    let d = if w.len() > 0 && (w[0] == 45 || w[0] == 43) {
        w.drop_first()
    } else {
        w
    };
    let v = if neg {
        -digits_value(d)
    } else {
        digits_value(d)
    };
    if all_digits(d) && i64::MIN <= v <= i64::MAX {
        Some(v as i64)
    } else {
        None
    }
}

/// Distance from `from` to the first carriage return at or after it.
pub open spec fn cr_offset(s: Seq<u8>, from: nat) -> Option<nat>
    decreases s.len() - from,
{
    if from >= s.len() {
        None
    } else if s[from as int] == 13 {
        Some(0)
    } else {
        match cr_offset(s, from + 1) {
            Some(k) => Some(k + 1),
            None => None,
        }
    }
}

/// A word: the bytes from `from` up to the next `\r`, which a `\n` must
/// follow; with the number of bytes that the word and its terminator take.
pub open spec fn word_at(s: Seq<u8>, from: nat) -> Option<(Seq<u8>, nat)> {
    match cr_offset(s, from) {
        Some(k) => if from + k + 1 < s.len() && s[(from + k + 1) as int] == 10 {
            Some((s.subrange(from as int, (from + k) as int), k + 2))
        } else {
            None
        },
        None => None,
    }
}

/// A word that holds a signed 64-bit decimal.
pub open spec fn number_at(s: Seq<u8>, from: nat) -> Option<(i64, nat)> {
    match word_at(s, from) {
        Some((w, n)) => match decimal_value(w) {
            Some(v) => Some((v, n)),
            None => None,
        },
        None => None,
    }
}

/// How many bytes lie at or after `pos`.
pub open spec fn rest_len(s: Seq<u8>, pos: nat) -> nat {
    if pos <= s.len() {
        (s.len() - pos) as nat
    } else {
        0
    }
}

/// The value that starts at `pos`, with the number of bytes it takes; `None`
/// where no complete value starts there.
pub open spec fn parse_at(s: Seq<u8>, pos: nat) -> Option<(RespTerm, nat)>
    decreases rest_len(s, pos), 0nat,
{
    if pos >= s.len() {
        None
    } else {
        let tag = s[pos as int];
        if tag == 43 {
            match word_at(s, pos + 1) {
                Some((w, n)) => Some((RespTerm::SimpleString(w), n + 1)),
                None => None,
            }
        } else if tag == 45 {
            match word_at(s, pos + 1) {
                Some((w, n)) => Some((RespTerm::Error(w), n + 1)),
                None => None,
            }
        } else if tag == 58 {
            match number_at(s, pos + 1) {
                Some((v, n)) => Some((RespTerm::Integer(v), n + 1)),
                None => None,
            }
        } else if tag == 36 {
            match number_at(s, pos + 1) {
                Some((len, n)) => {
                    let start = pos + 1 + n;
                    let end = start + len;
                    if len >= 0 && end + 2 <= s.len() && s[end] == 13 && s[end + 1] == 10 {
                        Some((RespTerm::BulkString(s.subrange(start as int, end)), (n + len + 3) as nat))
                    } else {
                        None
                    }
                },
                None => None,
            }
        } else if tag == 42 {
            match number_at(s, pos + 1) {
                Some((count, n)) => if count <= 0 {
                    Some((RespTerm::Array(seq![]), n + 1))
                } else {
                    match parse_items(s, pos + 1 + n, count as nat) {
                        Some((items, m)) => Some((RespTerm::Array(items), n + 1 + m)),
                        None => None,
                    }
                },
                None => None,
            }
        } else {
            None
        }
    }
}

/// `k` values one after another from `pos`, with the bytes they take.
pub open spec fn parse_items(s: Seq<u8>, pos: nat, k: nat) -> Option<(Seq<RespTerm>, nat)>
    decreases rest_len(s, pos), k,
{
    if k == 0 {
        Some((seq![], 0))
    } else {
        match parse_items(s, pos, (k - 1) as nat) {
            Some((items, m)) => match parse_at(s, pos + m) {
                Some((t, m2)) => Some((items.push(t), m + m2)),
                None => None,
            },
            None => None,
        }
    }
}

pub open spec fn crlf() -> Seq<u8> {
    seq![13u8, 10u8]
}

/// The decimal digits of `n`, most significant first, without leading zeros.
pub open spec fn dec_digits(n: nat) -> Seq<u8>
    decreases n,
{
    if n < 10 {
        seq![(n + 48) as u8]
    } else {
        dec_digits(n / 10).push((n % 10 + 48) as u8)
    }
}

/// The decimal text of `i`, with a `-` where it is negative.
pub open spec fn int_text(i: int) -> Seq<u8> {
    if i < 0 {
        seq![45u8] + dec_digits((-i) as nat)
    } else {
        dec_digits(i as nat)
    }
}

/// The bytes that encode a value.
pub open spec fn encoding(t: RespTerm) -> Seq<u8>
    decreases t,
{
    match t {
        RespTerm::SimpleString(s) => seq![43u8] + s + crlf(),
        RespTerm::Error(s) => seq![45u8] + s + crlf(),
        RespTerm::Integer(i) => seq![58u8] + int_text(i as int) + crlf(),
        RespTerm::BulkString(s) => seq![36u8] + int_text(s.len() as int) + crlf() + s + crlf(),
        RespTerm::Array(a) => seq![42u8] + int_text(a.len() as int) + crlf() + encode_items(a),
    }
}

/// The encodings of `a`'s values, one after another.
pub open spec fn encode_items(a: Seq<RespTerm>) -> Seq<u8>
    decreases a,
{
    if a.len() == 0 {
        seq![]
    } else {
        encode_items(a.drop_last()) + encoding(a.last())
    }
}

/// A value that the encoding carries unchanged: simple strings and errors
/// hold no carriage return, and every length fits in `i64`.
pub open spec fn well_formed(t: RespTerm) -> bool
    decreases t,
{
    match t {
        RespTerm::SimpleString(s) => !s.contains(13u8),
        RespTerm::Error(s) => !s.contains(13u8),
        RespTerm::Integer(_) => true,
        RespTerm::BulkString(s) => s.len() <= i64::MAX,
        RespTerm::Array(a) => a.len() <= i64::MAX && forall|i: int|
            0 <= i < a.len() ==> well_formed(#[trigger] a[i]),
    }
}


/// What a parse result says, over the values' models.
pub open spec fn parsed_view(r: Option<(RespValue, usize)>) -> Option<(RespTerm, nat)> {
    match r {
        Some((v, n)) => Some((v@, n as nat)),
        None => None,
    }
}

pub(crate) proof fn lemma_cr_offset(s: Seq<u8>, from: nat)
    requires
        from <= s.len(),
    ensures
        match cr_offset(s, from) {
            Some(k) => {
                &&& from + k < s.len()
                &&& s[(from + k) as int] == 13
                &&& forall|j: int| from <= j < from + k ==> s[j] != 13
            },
            None => forall|j: int| from <= j < s.len() ==> s[j] != 13,
        },
    decreases s.len() - from,
{
    if from < s.len() && s[from as int] != 13 {
        lemma_cr_offset(s, from + 1);
    }
}

proof fn lemma_digits_value_nonneg(d: Seq<u8>)
    requires
        forall|i: int| 0 <= i < d.len() ==> is_digit(#[trigger] d[i]),
    ensures
        digits_value(d) >= 0,
    decreases d.len(),
{
    if d.len() > 0 {
        lemma_digits_value_nonneg(d.drop_last());
    }
}

proof fn lemma_digits_value_prefix(d: Seq<u8>, j: int)
    requires
        0 <= j <= d.len(),
        forall|i: int| 0 <= i < d.len() ==> is_digit(#[trigger] d[i]),
    ensures
        digits_value(d.subrange(0, j)) <= digits_value(d),
    decreases d.len(),
{
    if j < d.len() {
        lemma_digits_value_nonneg(d.drop_last());
        lemma_digits_value_prefix(d.drop_last(), j);
        assert(d.drop_last().subrange(0, j) =~= d.subrange(0, j));
    } else {
        assert(d.subrange(0, j) =~= d);
    }
}

/// The length of the word that starts at `from`.
fn word(src: &[u8], from: usize) -> (r: Option<usize>)
    requires
        from <= src@.len(),
    ensures
        match r {
            Some(k) => {
                &&& from + k + 2 <= src@.len() <= usize::MAX
                &&& word_at(src@, from as nat) == Some((src@.subrange(from as int, from + k), (k + 2) as nat))
            },
            None => word_at(src@, from as nat) is None,
        },
{
    let rest = &src[from..src.len()];
    proof {
        lemma_cr_offset(src@, from as nat);
    }
    let r = first_index_of(13, rest);
    proof {
        match r {
            Some(k) => {
                assert(src@[from + k] == rest@[k as int]);
                match cr_offset(src@, from as nat) {
                    Some(c) => {
                        if c < k {
                            assert(rest@[c as int] == src@[from + c]);
                        }
                        assert(c == k);
                    },
                    None => {},
                }
            },
            None => {
                match cr_offset(src@, from as nat) {
                    Some(c) => {
                        assert(rest@[c as int] == src@[from + c]);
                    },
                    None => {},
                }
            },
        }
    }
    match r {
        Some(k) => {
            if k + 1 < rest.len() && rest[k + 1] == 10 {
                Some(k)
            } else {
                None
            }
        },
        None => None,
    }
}

/// The value of the digits in `src[start..end]`, where they are all digits
/// and it does not exceed `limit`.
fn magnitude(src: &[u8], start: usize, end: usize, limit: u64) -> (r: Option<u64>)
    requires
        start <= end <= src@.len(),
    ensures
        ({
            let d = src@.subrange(start as int, end as int);
            match r {
                Some(m) => all_digits(d) && m == digits_value(d) && m <= limit,
                None => !all_digits(d) || digits_value(d) > limit,
            }
        }),
{
    let ghost d = src@.subrange(start as int, end as int);
    if start == end {
        return None;
    }
    let mut i: usize = start;
    let mut acc: u128 = 0;
    while i < end
        invariant
            start <= i <= end <= src@.len(),
            d == src@.subrange(start as int, end as int),
            forall|j: int| start <= j < i ==> is_digit(#[trigger] src@[j]),
            acc == digits_value(src@.subrange(start as int, i as int)),
            acc <= limit,
        decreases end - i,
    {
        let b = src[i];
        if b < 48 || b > 57 {
            assert(d[i - start] == b);
            return None;
        }
        let ghost before = src@.subrange(start as int, i as int);
        assert(src@.subrange(start as int, i + 1).drop_last() =~= before);
        assert(digits_value(src@.subrange(start as int, i + 1)) == acc * 10 + (b - 48));
        acc = acc * 10 + (b - 48) as u128;
        i = i + 1;
        if acc > limit as u128 {
            proof {
                let taken = src@.subrange(start as int, i as int);
                if all_digits(d) {
                    assert(d.subrange(0, i - start) =~= taken);
                    lemma_digits_value_prefix(d, i - start);
                }
            }
            return None;
        }
    }
    assert(src@.subrange(start as int, i as int) =~= d);
    Some(acc as u64)
}

/// The signed 64-bit decimal held by `src[start..end]`.
fn decimal(src: &[u8], start: usize, end: usize) -> (r: Option<i64>)
    requires
        start <= end <= src@.len(),
    ensures
        r == decimal_value(src@.subrange(start as int, end as int)),
{
    let ghost w = src@.subrange(start as int, end as int);
    assert(w.len() > 0 ==> w[0] == src@[start as int]);
    let mut i: usize = start;
    let mut neg = false;
    if i < end && (src[i] == 45 || src[i] == 43) {
        neg = src[i] == 45;
        i = i + 1;
    }
    let ghost d = src@.subrange(i as int, end as int);
    assert(d =~= (if w.len() > 0 && (w[0] == 45 || w[0] == 43) {
        w.drop_first()
    } else {
        w
    }));
    let limit: u64 = if neg {
        9223372036854775808
    } else {
        9223372036854775807
    };
    match magnitude(src, i, end, limit) {
        Some(m) => if neg {
            Some((-(m as i128)) as i64)
        } else {
            Some(m as i64)
        },
        None => None,
    }
}

/// The signed 64-bit decimal word that starts at `from`, with the bytes it takes.
fn number(src: &[u8], from: usize) -> (r: Option<(i64, usize)>)
    requires
        from <= src@.len(),
    ensures
        match r {
            Some((v, n)) => from + n <= src@.len() && number_at(src@, from as nat) == Some((v, n as nat)),
            None => number_at(src@, from as nat) is None,
        },
{
    match word(src, from) {
        Some(k) => match decimal(src, from, from + k) {
            Some(v) => Some((v, k + 2)),
            None => None,
        },
        None => None,
    }
}

/// A simple string whose `+` stands at `at`.
fn simple_string(src: &[u8], at: usize) -> (r: Option<(RespValue, usize)>)
    requires
        at < src.len(),
        src@[at as int] == 43,
    ensures
        parsed_view(r) == parse_at(src@, at as nat),
        r matches Some((_, n)) ==> at + n <= src@.len(),
{
    match word(src, at + 1) {
        Some(k) => Some((RespValue::SimpleString(slice_to_vec(&src[at + 1..at + 1 + k])), k + 3)),
        None => None,
    }
}

/// An error whose `-` stands at `at`.
fn error(src: &[u8], at: usize) -> (r: Option<(RespValue, usize)>)
    requires
        at < src.len(),
        src@[at as int] == 45,
    ensures
        parsed_view(r) == parse_at(src@, at as nat),
        r matches Some((_, n)) ==> at + n <= src@.len(),
{
    match word(src, at + 1) {
        Some(k) => Some((RespValue::Error(slice_to_vec(&src[at + 1..at + 1 + k])), k + 3)),
        None => None,
    }
}

/// An integer whose `:` stands at `at`.
fn integer(src: &[u8], at: usize) -> (r: Option<(RespValue, usize)>)
    requires
        at < src.len(),
        src@[at as int] == 58,
    ensures
        parsed_view(r) == parse_at(src@, at as nat),
        r matches Some((_, n)) ==> at + n <= src@.len(),
{
    match number(src, at + 1) {
        Some((v, n)) => Some((RespValue::Integer(v), n + 1)),
        None => None,
    }
}

/// A bulk string whose `$` stands at `at`: a length, then that many bytes
/// and a line end.
fn bulk_string(src: &[u8], at: usize) -> (r: Option<(RespValue, usize)>)
    requires
        at < src.len(),
        src@[at as int] == 36,
    ensures
        parsed_view(r) == parse_at(src@, at as nat),
        r matches Some((_, n)) ==> at + n <= src@.len(),
{
    let (len, n) = match number(src, at + 1) {
        Some(x) => x,
        None => return None,
    };
    if len < 0 {
        return None;
    }
    let start = at + 1 + n;
    let avail = src.len() - start;
    if avail < 2 || (len as u128) > ((avail - 2) as u128) {
        return None;
    }
    let end = start + len as usize;
    if src[end] != 13 || src[end + 1] != 10 {
        return None;
    }
    Some((RespValue::BulkString(slice_to_vec(&src[start..end])), n + len as usize + 3))
}

/// An array whose `*` stands at `at`: a count, then that many values; a
/// count below one gives an empty array.
fn array(src: &[u8], at: usize) -> (r: Option<(RespValue, usize)>)
    requires
        at < src.len(),
        src@[at as int] == 42,
    ensures
        parsed_view(r) == parse_at(src@, at as nat),
        r matches Some((_, n)) ==> at + n <= src@.len(),
    decreases src@.len() - at, 0nat,
{
    let (count, n) = match number(src, at + 1) {
        Some(x) => x,
        None => return None,
    };
    if count <= 0 {
        let empty = RespValue::Array(Vec::new());
        assert(empty@ matches RespTerm::Array(a) && a =~= seq![]);
        return Some((empty, n + 1));
    }
    let start = at + 1 + n;
    let mut items: Vec<RespValue> = Vec::new();
    let mut p: usize = start;
    let mut j: i64 = 0;
    while j < count
        invariant
            at < start <= p <= src.len(),
            src@[at as int] == 42,
            start == at + 1 + n,
            number_at(src@, (at + 1) as nat) == Some((count, n as nat)),
            0 <= j <= count,
            parse_items(src@, start as nat, j as nat) matches Some((ts, m)) && m == p - start
                && ts.len() == items@.len() && forall|i: int| 0 <= i < ts.len() ==> ts[i] == (#[trigger] items@[i])@,
        decreases count - j,
    {
        let ghost prev = items@;
        match parse(src, p) {
            Some((v, m)) => {
                items.push(v);
                p = p + m;
                j = j + 1;
                proof {
                    let ts = parse_items(src@, start as nat, j as nat).unwrap().0;
                    assert forall|i: int| 0 <= i < ts.len() implies ts[i] == (#[trigger] items@[i])@ by {
                        if i < prev.len() {
                            assert(items@[i] == prev[i]);
                        }
                    }
                }
            },
            None => {
                proof {
                    assert(parse_at(src@, p as nat) is None);
                    assert(parse_items(src@, start as nat, (j + 1) as nat) is None);
                    lemma_items_fail(src@, start as nat, (j + 1) as nat, count as nat);
                }
                return None;
            },
        }
    }
    proof {
        let ts = parse_items(src@, start as nat, count as nat).unwrap().0;
        lemma_terms_of(items@, items@.len());
        assert forall|i: int| 0 <= i < ts.len() implies terms_of(items@, items@.len())[i] == ts[i] by {
            assert(ts[i] == items@[i]@);
            assert(terms_of(items@, items@.len())[i] == term_of(items@[i]));
        }
        assert(terms_of(items@, items@.len()) =~= ts);
    }
    Some((RespValue::Array(items), p - at))
}

proof fn lemma_items_fail(s: Seq<u8>, pos: nat, j: nat, k: nat)
    requires
        j <= k,
        parse_items(s, pos, j) is None,
    ensures
        parse_items(s, pos, k) is None,
    decreases k - j,
{
    if j < k {
        lemma_items_fail(s, pos, j + 1, k);
    }
}

/// The value that starts at `pos`, with the number of bytes it takes; `None`
/// where no complete value starts there.
pub(crate) fn parse(src: &[u8], pos: usize) -> (r: Option<(RespValue, usize)>)
    requires
        pos <= src.len(),
    ensures
        parsed_view(r) == parse_at(src@, pos as nat),
        r matches Some((_, n)) ==> pos + n <= src@.len(),
    decreases src@.len() - pos, 1nat,
{
    if pos >= src.len() {
        return None;
    }
    let tag = src[pos];
    if tag == 43 {
        simple_string(src, pos)
    } else if tag == 45 {
        error(src, pos)
    } else if tag == 58 {
        integer(src, pos)
    } else if tag == 36 {
        bulk_string(src, pos)
    } else if tag == 42 {
        array(src, pos)
    } else {
        None
    }
}

/// Appends the decimal digits of `n` to `out`.
fn push_decimal(out: &mut Vec<u8>, n: u64)
    ensures
        final(out)@ == old(out)@ + dec_digits(n as nat),
    decreases n,
{
    if n >= 10 {
        push_decimal(out, n / 10);
    }
    out.push((n % 10) as u8 + 48);
    assert(final(out)@ =~= old(out)@ + dec_digits(n as nat));
}

/// The decimal text of `i`.
fn int_text_of(i: i64) -> (r: Vec<u8>)
    ensures
        r@ == int_text(i as int),
{
    let mut out: Vec<u8> = Vec::new();
    if i < 0 {
        out.push(45);
        let magnitude = (-(i + 1)) as u64 + 1;
        push_decimal(&mut out, magnitude);
    } else {
        push_decimal(&mut out, i as u64);
    }
    assert(out@ =~= int_text(i as int));
    out
}

proof fn lemma_encode_items_prefix(a: Seq<RespTerm>, i: int)
    requires
        0 <= i <= a.len(),
    ensures
        encode_items(a.subrange(0, i)).len() <= encode_items(a).len(),
    decreases a.len() - i,
{
    if i < a.len() {
        lemma_encode_items_prefix(a, i + 1);
        assert(a.subrange(0, i + 1).drop_last() =~= a.subrange(0, i));
    } else {
        assert(a.subrange(0, i) =~= a);
    }
}

/// Appends the encoding of `value` to `dst`.
pub(crate) fn serialize_redis_value(dst: &mut bytes::BytesMut, value: &RespValue)
    requires
        buffered(*old(dst)).len() + encoding(value@).len() <= isize::MAX,
    ensures
        buffered(*final(dst)) == buffered(*old(dst)) + encoding(value@),
    decreases value@,
{
    let ghost start = buffered(*dst);
    match value {
        RespValue::SimpleString(s) => {
            append(dst, &[43u8]);
            append(dst, s.as_slice());
            append(dst, &[13u8, 10u8]);
        },
        RespValue::Error(s) => {
            append(dst, &[45u8]);
            append(dst, s.as_slice());
            append(dst, &[13u8, 10u8]);
        },
        RespValue::Integer(i) => {
            append(dst, &[58u8]);
            let text = int_text_of(*i);
            append(dst, text.as_slice());
            append(dst, &[13u8, 10u8]);
        },
        RespValue::BulkString(s) => {
            append(dst, &[36u8]);
            let mut text: Vec<u8> = Vec::new();
            push_decimal(&mut text, s.len() as u64);
            append(dst, text.as_slice());
            append(dst, &[13u8, 10u8]);
            append(dst, s.as_slice());
            append(dst, &[13u8, 10u8]);
        },
        RespValue::Array(arr) => {
            let ghost ts = value@->Array_0;
            proof {
                lemma_terms_of(arr@, arr@.len());
            }
            assert(encoding(value@) == seq![42u8] + int_text(arr.len() as int) + crlf() + encode_items(ts));
            append(dst, &[42u8]);
            let mut text: Vec<u8> = Vec::new();
            push_decimal(&mut text, arr.len() as u64);
            append(dst, text.as_slice());
            append(dst, &[13u8, 10u8]);
            let ghost header = buffered(*dst);
            assert(header == start + (seq![42u8] + int_text(arr.len() as int) + crlf()));
            let mut i: usize = 0;
            while i < arr.len()
                invariant
                    0 <= i <= arr.len(),
                    ts.len() == arr.len(),
                    value@ == RespTerm::Array(ts),
                    forall|j: int| 0 <= j < arr.len() ==> ts[j] == (#[trigger] arr[j])@,
                    start.len() + encoding(value@).len() <= isize::MAX,
                    encoding(value@) == seq![42u8] + int_text(arr.len() as int) + crlf() + encode_items(ts),
                    buffered(*dst) == header + encode_items(ts.subrange(0, i as int)),
                    header.len() + encode_items(ts).len() == start.len() + encoding(value@).len(),
                decreases arr.len() - i,
            {
                proof {
                    broadcast use vstd::seq::axiom_seq_index_decreases;
                    assert(decreases_to!(value@ => ts));
                    assert(decreases_to!(ts => ts[i as int]));
                    lemma_encode_items_prefix(ts, i + 1);
                    assert(ts.subrange(0, i + 1).drop_last() =~= ts.subrange(0, i as int));
                }
                serialize_redis_value(dst, &arr[i]);
                i = i + 1;
            }
            assert(ts.subrange(0, i as int) =~= ts);
        },
    }
    assert(buffered(*dst) =~= start + encoding(value@));
}

/// The verb of a read: `GET`.
pub open spec fn get_verb() -> Seq<u8> {
    seq![71u8, 69u8, 84u8]
}

/// The verb of a write that stores: `SET`.
pub open spec fn set_verb() -> Seq<u8> {
    seq![83u8, 69u8, 84u8]
}

/// The verb of a write that removes: `DEL`.
pub open spec fn del_verb() -> Seq<u8> {
    seq![68u8, 69u8, 76u8]
}

/// A value asks for a write where it is an array whose first value is the
/// bulk string `SET` or `DEL`.
pub open spec fn is_write_term(t: RespTerm) -> bool {
    &&& t is Array
    &&& t->Array_0.len() > 0
    &&& (t->Array_0[0] == RespTerm::BulkString(set_verb()) || t->Array_0[0] == RespTerm::BulkString(del_verb()))
}

/// The bulk strings that hold `items`, in order.
pub open spec fn bulk_strings(items: Seq<&str>) -> Seq<RespTerm> {
    Seq::new(items.len(), |i: int| RespTerm::BulkString(items[i].spec_bytes()))
}

/// Whether two byte strings are equal.
pub(crate) fn bytes_eq(a: &[u8], b: &[u8]) -> (r: bool)
    ensures
        r == (a@ == b@),
{
    if a.len() != b.len() {
        return false;
    }
    let mut i: usize = 0;
    while i < a.len()
        invariant
            a@.len() == b@.len(),
            0 <= i <= a@.len(),
            forall|j: int| 0 <= j < i ==> a@[j] == b@[j],
        decreases a@.len() - i,
    {
        if a[i] != b[i] {
            return false;
        }
        i = i + 1;
    }
    assert(a@ =~= b@);
    true
}

proof fn lemma_item_decreases(v: RespValue, a: Vec<RespValue>, i: int)
    requires
        v == RespValue::Array(a),
        0 <= i < a@.len(),
    ensures
        decreases_to!(v@ => a@[i]@),
{
    broadcast use vstd::seq::axiom_seq_index_decreases;
    let ts = terms_of(a@, a@.len());
    lemma_terms_of(a@, a@.len());
    assert(v@->Array_0 == ts);
    assert(decreases_to!(v@ => v@->Array_0));
    assert(decreases_to!(ts => ts[i]));
}

/// Whether `s` holds no carriage return.
fn free_of_cr(s: &[u8]) -> (r: bool)
    ensures
        r == !s@.contains(13u8),
{
    let mut i: usize = 0;
    while i < s.len()
        invariant
            0 <= i <= s@.len(),
            forall|j: int| 0 <= j < i ==> s@[j] != 13u8,
        decreases s@.len() - i,
    {
        if s[i] == 13 {
            assert(s@[i as int] == 13u8);
            return false;
        }
        i = i + 1;
    }
    true
}

/// Whether `value` is well formed.
fn check_well_formed(value: &RespValue) -> (r: bool)
    ensures
        r == well_formed(value@),
    decreases value@,
{
    match value {
        RespValue::SimpleString(s) => free_of_cr(s.as_slice()),
        RespValue::Error(s) => free_of_cr(s.as_slice()),
        RespValue::Integer(_) => true,
        RespValue::BulkString(s) => s.len() as u64 <= 9223372036854775807,
        RespValue::Array(items) => {
            let ghost ts = terms_of(items@, items@.len());
            proof {
                lemma_terms_of(items@, items@.len());
            }
            if items.len() as u64 > 9223372036854775807 {
                return false;
            }
            let mut i: usize = 0;
            while i < items.len()
                invariant
                    0 <= i <= items@.len(),
                    *value == RespValue::Array(*items),
                    value@ == RespTerm::Array(ts),
                    ts.len() == items@.len(),
                    forall|j: int| 0 <= j < items@.len() ==> ts[j] == (#[trigger] items@[j])@,
                    forall|j: int| 0 <= j < i ==> well_formed(#[trigger] ts[j]),
                decreases items@.len() - i,
            {
                proof {
                    lemma_item_decreases(*value, *items, i as int);
                }
                if !check_well_formed(&items[i]) {
                    return false;
                }
                i = i + 1;
            }
            true
        },
    }
}

/// A copy of `value`.
fn copy_value(value: &RespValue) -> (r: RespValue)
    ensures
        r@ == value@,
    decreases value@,
{
    match value {
        RespValue::SimpleString(s) => RespValue::SimpleString(slice_to_vec(s.as_slice())),
        RespValue::Error(s) => RespValue::Error(slice_to_vec(s.as_slice())),
        RespValue::Integer(i) => RespValue::Integer(*i),
        RespValue::BulkString(s) => RespValue::BulkString(slice_to_vec(s.as_slice())),
        RespValue::Array(items) => {
            let ghost ts = terms_of(items@, items@.len());
            proof {
                lemma_terms_of(items@, items@.len());
            }
            let mut out: Vec<RespValue> = Vec::new();
            let mut i: usize = 0;
            while i < items.len()
                invariant
                    0 <= i <= items@.len(),
                    *value == RespValue::Array(*items),
                    value@ == RespTerm::Array(ts),
                    ts.len() == items@.len(),
                    forall|j: int| 0 <= j < items@.len() ==> ts[j] == (#[trigger] items@[j])@,
                    out@.len() == i,
                    forall|j: int| 0 <= j < i ==> (#[trigger] out@[j])@ == ts[j],
                decreases items@.len() - i,
            {
                proof {
                    lemma_item_decreases(*value, *items, i as int);
                }
                out.push(copy_value(&items[i]));
                i = i + 1;
            }
            proof {
                lemma_terms_of(out@, out@.len());
                assert forall|j: int| 0 <= j < ts.len() implies terms_of(out@, out@.len())[j] == ts[j] by {
                    assert(terms_of(out@, out@.len())[j] == term_of(out@[j]));
                }
                assert(terms_of(out@, out@.len()) =~= ts);
            }
            RespValue::Array(out)
        },
    }
}

impl RespValue {
    /// Whether this value asks for a write.
    pub fn is_write(&self) -> (r: bool)
        ensures
            r == is_write_term(self@),
    {
        match self {
            RespValue::Array(items) => {
                proof {
                    lemma_terms_of(items@, items@.len());
                }
                if items.len() == 0 {
                    return false;
                }
                match &items[0] {
                    RespValue::BulkString(verb) => {
                        let set: [u8; 3] = [83u8, 69u8, 84u8];
                        let del: [u8; 3] = [68u8, 69u8, 76u8];
                        let r = bytes_eq(verb.as_slice(), &set) || bytes_eq(verb.as_slice(), &del);
                        assert(set@ == set_verb());
                        assert(del@ == del_verb());
                        r
                    },
                    _ => false,
                }
            },
            _ => false,
        }
    }

    /// Whether this value is well formed, that is, its encoding decodes
    /// back to it.
    pub fn is_well_formed(&self) -> (r: bool)
        ensures
            r == well_formed(self@),
    {
        check_well_formed(self)
    }

    /// A copy of this value.
    pub fn duplicate(&self) -> (r: RespValue)
        ensures
            r@ == self@,
    {
        copy_value(self)
    }

    /// An array of bulk strings, one for each of `items`.
    pub fn array(items: &[&str]) -> (r: RespValue)
        ensures
            r@ == RespTerm::Array(bulk_strings(items@)),
    {
        let mut out: Vec<RespValue> = Vec::new();
        let mut i: usize = 0;
        while i < items.len()
            invariant
                0 <= i <= items@.len(),
                out@.len() == i,
                forall|j: int| 0 <= j < i ==> (#[trigger] out@[j])@ == RespTerm::BulkString(items@[j].spec_bytes()),
            decreases items@.len() - i,
        {
            out.push(RespValue::BulkString(slice_to_vec(items[i].as_bytes())));
            i = i + 1;
        }
        proof {
            lemma_terms_of(out@, out@.len());
            assert forall|j: int| 0 <= j < out@.len() implies terms_of(out@, out@.len())[j] == bulk_strings(items@)[j] by {
                assert(terms_of(out@, out@.len())[j] == term_of(out@[j]));
            }
            assert(terms_of(out@, out@.len()) =~= bulk_strings(items@));
        }
        RespValue::Array(out)
    }

    /// An array of bulk strings, one for each of `command`'s words.
    pub fn from_strs(command: Vec<&str>) -> (r: RespValue)
        ensures
            r@ == RespTerm::Array(bulk_strings(command@)),
    {
        RespValue::array(command.as_slice())
    }

    /// A simple string holding `msg`.
    pub fn ok(msg: &str) -> (r: RespValue)
        ensures
            r@ == RespTerm::SimpleString(msg.spec_bytes()),
    {
        RespValue::SimpleString(slice_to_vec(msg.as_bytes()))
    }

    /// An error holding `msg`.
    pub fn err(msg: &str) -> (r: RespValue)
        ensures
            r@ == RespTerm::Error(msg.spec_bytes()),
    {
        RespValue::Error(slice_to_vec(msg.as_bytes()))
    }
}

/// The text of the error that a client receives when no answer can be had.
pub open spec fn error_text() -> Seq<u8> {
    seq![69u8, 82u8, 82u8, 79u8, 82u8]
}

pub open spec fn error_reply() -> RespTerm {
    RespTerm::Error(error_text())
}

/// The error that a client receives when no answer can be had.
pub(crate) fn error_value() -> (r: RespValue)
    ensures
        r@ == error_reply(),
{
    let r = RespValue::Error(vec![69u8, 82u8, 82u8, 79u8, 82u8]);
    assert(r@ matches RespTerm::Error(s) && s =~= error_text());
    r
}

/// The text of the error that answers a value that is no command.
pub open spec fn invalid_command_text() -> Seq<u8> {
    seq![73u8, 110u8, 118u8, 97u8, 108u8, 105u8, 100u8, 32u8, 67u8, 111u8, 109u8, 109u8, 97u8, 110u8, 100u8]
}

pub open spec fn invalid_command_reply() -> RespTerm {
    RespTerm::Error(invalid_command_text())
}

/// The error that answers a value that is no command.
pub(crate) fn invalid_command_value() -> (r: RespValue)
    ensures
        r@ == invalid_command_reply(),
{
    let r = RespValue::Error(
        vec![73u8, 110u8, 118u8, 97u8, 108u8, 105u8, 100u8, 32u8, 67u8, 111u8, 109u8, 109u8, 97u8, 110u8, 100u8],
    );
    assert(r@ matches RespTerm::Error(s) && s =~= invalid_command_text());
    r
}

/// The RESP codec: values in, bytes out, and back.
pub struct RespCodec;

impl RespCodec {
    /// Takes the first complete value off the front of `src`; where none is
    /// complete yet, leaves `src` as it is.
    pub fn decode(&mut self, src: &mut bytes::BytesMut) -> (r: Option<RespValue>)
        ensures
            match parse_at(buffered(*old(src)), 0) {
                Some((t, n)) => {
                    &&& r matches Some(v) && v@ == t
                    &&& buffered(*final(src)) == buffered(*old(src)).subrange(n as int, buffered(*old(src)).len() as int)
                },
                None => r is None && buffered(*final(src)) == buffered(*old(src)),
            },
            r matches Some(v) ==> well_formed(v@),
    {
        proof {
            crate::resp_laws::lemma_parse_well_formed(buffered(*src), 0);
        }
        let parsed = parse(contents(src), 0);
        match parsed {
            Some((value, n)) => {
                advance(src, n);
                Some(value)
            },
            None => None,
        }
    }

    /// Appends the encoding of `item` to `dst`.
    pub fn encode(&mut self, item: RespValue, dst: &mut bytes::BytesMut)
        requires
            buffered(*old(dst)).len() + encoding(item@).len() <= isize::MAX,
        ensures
            buffered(*final(dst)) == buffered(*old(dst)) + encoding(item@),
    {
        serialize_redis_value(dst, &item);
    }
}

} // verus!
