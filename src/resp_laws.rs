use vstd::prelude::*;

use crate::resp::{
    lemma_cr_offset, rest_len,
    all_digits, cr_offset, crlf, dec_digits, decimal_value, digits_value, encode_items, encoding,
    int_text, is_digit, number_at, parse_at, parse_items, well_formed, word_at, RespTerm,
};

verus! {

proof fn lemma_dec_digits(n: nat)
    ensures
        all_digits(dec_digits(n)),
        digits_value(dec_digits(n)) == n,
    decreases n,
{
    if n >= 10 {
        lemma_dec_digits(n / 10);
        let d = dec_digits(n);
        assert(d.drop_last() == dec_digits(n / 10));
        assert(d.last() - 48 == n % 10);
        vstd::arithmetic::div_mod::lemma_fundamental_div_mod(n as int, 10);
        assert((n / 10) * 10 == 10 * (n / 10)) by (nonlinear_arith);
        assert forall|i: int| 0 <= i < d.len() implies is_digit(#[trigger] d[i]) by {
            if i < d.len() - 1 {
                assert(d[i] == dec_digits(n / 10)[i]);
            }
        }
    } else {
        let d = dec_digits(n);
        assert(d.drop_last() =~= seq![]);
        assert(digits_value(d.drop_last()) == 0);
    }
}

/// The decimal text of an `i64` reads back as that `i64`, and holds no
/// carriage return.
proof fn lemma_int_text(i: i64)
    ensures
        decimal_value(int_text(i as int)) == Some(i),
        !int_text(i as int).contains(13u8),
        int_text(i as int).len() >= 1,
{
    let w = int_text(i as int);
    if i < 0 {
        let m = (-(i as int)) as nat;
        lemma_dec_digits(m);
        assert(w.drop_first() =~= dec_digits(m));
        assert(w[0] == 45);
    } else {
        lemma_dec_digits(i as nat);
        assert(is_digit(w[0]));
    }
    assert forall|j: int| 0 <= j < w.len() implies w[j] != 13u8 by {
        if i < 0 {
            if j > 0 {
                assert(w[j] == w.drop_first()[j - 1]);
            }
        }
    }
}

proof fn lemma_cr_at(s: Seq<u8>, from: nat, k: nat)
    requires
        from + k < s.len(),
        s[(from + k) as int] == 13,
        forall|j: int| from <= j < from + k ==> s[j] != 13,
    ensures
        cr_offset(s, from) == Some(k),
    decreases k,
{
    if k > 0 {
        lemma_cr_at(s, from + 1, (k - 1) as nat);
    }
}

proof fn lemma_no_cr(s: Seq<u8>, from: nat)
    requires
        forall|j: int| from <= j < s.len() ==> s[j] != 13,
    ensures
        cr_offset(s, from) is None,
    decreases s.len() - from,
{
    if from < s.len() {
        lemma_no_cr(s, from + 1);
    }
}

/// A word followed by its line end reads back as that word.
proof fn lemma_word(s: Seq<u8>, from: nat, w: Seq<u8>)
    requires
        !w.contains(13u8),
        from + w.len() + 2 <= s.len(),
        s.subrange(from as int, (from + w.len() + 2) as int) == w + crlf(),
    ensures
        word_at(s, from) == Some((w, (w.len() + 2) as nat)),
{
    let e = w + crlf();
    assert forall|j: int| from <= j < from + w.len() implies s[j] != 13 by {
        assert(s[j] == s.subrange(from as int, (from + w.len() + 2) as int)[j - from]);
        assert(e[(j - from) as int] == w[(j - from) as int]);
    }
    assert(s[(from + w.len()) as int] == s.subrange(from as int, (from + w.len() + 2) as int)[w.len() as int]);
    assert(s[(from + w.len() + 1) as int] == s.subrange(from as int, (from + w.len() + 2) as int)[(w.len() + 1) as int]);
    lemma_cr_at(s, from, w.len());
    assert(s.subrange(from as int, (from + w.len()) as int) =~= w);
}

/// A proper prefix of a word and its line end holds no complete word.
proof fn lemma_word_partial(s: Seq<u8>, from: nat, w: Seq<u8>)
    requires
        !w.contains(13u8),
        from <= s.len() < from + w.len() + 2,
        s.subrange(from as int, (s.len() as int) as int) == (w + crlf()).subrange(0, (s.len() - from) as int),
    ensures
        word_at(s, from) is None,
{
    let e = w + crlf();
    assert forall|j: int| from <= j < s.len() && j < from + w.len() implies s[j] != 13 by {
        assert(s[j] == s.subrange(from as int, (s.len() as int) as int)[j - from]);
        assert(e[(j - from) as int] == w[(j - from) as int]);
    }
    if s.len() <= from + w.len() {
        lemma_no_cr(s, from);
    } else {
        assert(s[(from + w.len()) as int] == s.subrange(from as int, (s.len() as int) as int)[w.len() as int]);
        lemma_cr_at(s, from, w.len());
    }
}

proof fn lemma_number(s: Seq<u8>, from: nat, i: i64)
    requires
        from + int_text(i as int).len() + 2 <= s.len(),
        s.subrange(from as int, (from + int_text(i as int).len() + 2) as int) == int_text(i as int) + crlf(),
    ensures
        number_at(s, from) == Some((i, (int_text(i as int).len() + 2) as nat)),
{
    lemma_int_text(i);
    lemma_word(s, from, int_text(i as int));
}

proof fn lemma_number_partial(s: Seq<u8>, from: nat, i: i64)
    requires
        from <= s.len() < from + int_text(i as int).len() + 2,
        s.subrange(from as int, (s.len() as int) as int) == (int_text(i as int) + crlf()).subrange(0, (s.len() - from) as int),
    ensures
        number_at(s, from) is None,
{
    lemma_int_text(i);
    lemma_word_partial(s, from, int_text(i as int));
}

proof fn lemma_window(s: Seq<u8>, a: int, b: int, x: Seq<u8>, c: int, d: int)
    requires
        0 <= a <= c <= d <= b <= s.len(),
        s.subrange(a, b) == x,
    ensures
        s.subrange(c, d) == x.subrange(c - a, d - a),
{
    assert(s.subrange(c, d) =~= x.subrange(c - a, d - a));
}

/// Every value that `s` holds at `pos` in full reads back with its length.
pub(crate) proof fn lemma_parse_encoding(s: Seq<u8>, pos: nat, t: RespTerm)
    requires
        well_formed(t),
        pos + encoding(t).len() <= s.len(),
        s.subrange(pos as int, (pos + encoding(t).len()) as int) == encoding(t),
    ensures
        parse_at(s, pos) == Some((t, encoding(t).len())),
    decreases t,
{
    let e = encoding(t);
    let body = e.subrange(1, (e.len() as int) as int);
    assert(s[pos as int] == s.subrange(pos as int, (pos + e.len()) as int)[0]);
    lemma_window(s, pos as int, (pos + e.len()) as int, e, (pos + 1) as int, (pos + e.len()) as int);
    match t {
        RespTerm::SimpleString(w) => {
            assert(body =~= w + crlf());
            lemma_word(s, pos + 1, w);
        },
        RespTerm::Error(w) => {
            assert(body =~= w + crlf());
            lemma_word(s, pos + 1, w);
        },
        RespTerm::Integer(i) => {
            let h = int_text(i as int);
            assert(body =~= h + crlf());
            lemma_number(s, pos + 1, i);
        },
        RespTerm::BulkString(w) => {
            let len = w.len() as i64;
            let h = int_text(len as int);
            assert(body =~= h + crlf() + w + crlf());
            lemma_window(s, (pos + 1) as int, (pos + e.len()) as int, body, (pos + 1) as int, (pos + 1 + h.len() + 2) as int);
            assert(body.subrange(0, (h.len() + 2) as int) =~= h + crlf());
            lemma_number(s, pos + 1, len);
            let start = pos + 1 + h.len() + 2;
            lemma_window(s, (pos + 1) as int, (pos + e.len()) as int, body, start as int, (start + w.len()) as int);
            assert(body.subrange((h.len() + 2) as int, (h.len() + 2 + w.len()) as int) =~= w);
            assert(s[(start + w.len()) as int] == body[(h.len() + 2 + w.len()) as int]);
            assert(s[(start + w.len() + 1) as int] == body[(h.len() + 2 + w.len() + 1) as int]);
            assert(s.subrange(start as int, (start + w.len()) as int) =~= w);
        },
        RespTerm::Array(a) => {
            let count = a.len() as i64;
            let h = int_text(count as int);
            let items = encode_items(a);
            assert(body =~= h + crlf() + items);
            lemma_window(s, (pos + 1) as int, (pos + e.len()) as int, body, (pos + 1) as int, (pos + 1 + h.len() + 2) as int);
            assert(body.subrange(0, (h.len() + 2) as int) =~= h + crlf());
            lemma_number(s, pos + 1, count);
            let start = (pos + 1 + h.len() + 2) as nat;
            if a.len() == 0 {
                assert(a =~= seq![]);
            } else {
                lemma_window(s, (pos + 1) as int, (pos + e.len()) as int, body, start as int, (start + items.len()) as int);
                assert(body.subrange((h.len() + 2) as int, (h.len() + 2 + items.len()) as int) =~= items);
                lemma_parse_items(s, start, a);
            }
        },
    }
}

/// Values that `s` holds in full one after another from `pos` read back as
/// a whole.
proof fn lemma_parse_items(s: Seq<u8>, pos: nat, us: Seq<RespTerm>)
    requires
        forall|i: int| 0 <= i < us.len() ==> well_formed(#[trigger] us[i]),
        pos + encode_items(us).len() <= s.len(),
        s.subrange(pos as int, (pos + encode_items(us).len()) as int) == encode_items(us),
    ensures
        parse_items(s, pos, us.len()) == Some((us, encode_items(us).len())),
    decreases us,
{
    if us.len() == 0 {
        assert(us =~= seq![]);
    } else {
        let prev = us.drop_last();
        let last = us.last();
        let pe = encode_items(prev);
        let le = encoding(last);
        assert(encode_items(us) == pe + le);
        lemma_window(s, pos as int, (pos + pe.len() + le.len()) as int, pe + le, pos as int, (pos + pe.len()) as int);
        assert((pe + le).subrange(0, (pe.len() as int) as int) =~= pe);
        lemma_window(s, pos as int, (pos + pe.len() + le.len()) as int, pe + le, (pos + pe.len()) as int, (pos + pe.len() + le.len()) as int);
        assert((pe + le).subrange((pe.len() as int) as int, (pe.len() + le.len()) as int) =~= le);
        assert(decreases_to!(us => prev));
        lemma_parse_items(s, pos, prev);
        assert(well_formed(us[us.len() - 1]));
        lemma_parse_encoding(s, pos + pe.len(), last);
        assert(prev.push(last) =~= us);
    }
}

/// A proper prefix of a value's encoding holds no complete value.
pub(crate) proof fn lemma_parse_partial(s: Seq<u8>, pos: nat, t: RespTerm)
    requires
        well_formed(t),
        pos <= s.len() < pos + encoding(t).len(),
        s.subrange(pos as int, (s.len() as int) as int) == encoding(t).subrange(0, (s.len() - pos) as int),
    ensures
        parse_at(s, pos) is None,
    decreases t,
{
    let e = encoding(t);
    let avail = s.len() - pos;
    if avail == 0 {
        return;
    }
    let body = e.subrange(1, (e.len() as int) as int);
    assert(s[pos as int] == s.subrange(pos as int, (s.len() as int) as int)[0]);
    lemma_window(s, pos as int, (s.len() as int) as int, e.subrange(0, avail as int), (pos + 1) as int, (s.len() as int) as int);
    assert(e.subrange(0, avail as int).subrange(1, avail as int) =~= body.subrange(0, (avail - 1) as int));
    let rest = body.subrange(0, (avail - 1) as int);
    match t {
        RespTerm::SimpleString(w) => {
            assert(body =~= w + crlf());
            lemma_word_partial(s, pos + 1, w);
        },
        RespTerm::Error(w) => {
            assert(body =~= w + crlf());
            lemma_word_partial(s, pos + 1, w);
        },
        RespTerm::Integer(i) => {
            let h = int_text(i as int);
            assert(body =~= h + crlf());
            lemma_number_partial(s, pos + 1, i);
        },
        RespTerm::BulkString(w) => {
            let len = w.len() as i64;
            let h = int_text(len as int);
            assert(body =~= h + crlf() + w + crlf());
            if s.len() < pos + 1 + h.len() + 2 {
                assert(rest =~= (h + crlf()).subrange(0, (avail - 1) as int));
                lemma_number_partial(s, pos + 1, len);
            } else {
                lemma_window(s, (pos + 1) as int, (s.len() as int) as int, rest, (pos + 1) as int, (pos + 1 + h.len() + 2) as int);
                assert(rest.subrange(0, (h.len() + 2) as int) =~= h + crlf());
                lemma_number(s, pos + 1, len);
            }
        },
        RespTerm::Array(a) => {
            let count = a.len() as i64;
            let h = int_text(count as int);
            let items = encode_items(a);
            assert(body =~= h + crlf() + items);
            if s.len() < pos + 1 + h.len() + 2 {
                assert(rest =~= (h + crlf()).subrange(0, (avail - 1) as int));
                lemma_number_partial(s, pos + 1, count);
            } else {
                lemma_window(s, (pos + 1) as int, (s.len() as int) as int, rest, (pos + 1) as int, (pos + 1 + h.len() + 2) as int);
                assert(rest.subrange(0, (h.len() + 2) as int) =~= h + crlf());
                lemma_number(s, pos + 1, count);
                let start = (pos + 1 + h.len() + 2) as nat;
                lemma_window(s, (pos + 1) as int, (s.len() as int) as int, rest, start as int, (s.len() as int) as int);
                assert(rest.subrange((h.len() + 2) as int, (avail - 1) as int) =~= items.subrange(0, (s.len() - start) as int));
                lemma_parse_items_partial(s, start, a);
            }
        },
    }
}

/// A proper prefix of the encodings of values one after another holds not
/// all of them.
proof fn lemma_parse_items_partial(s: Seq<u8>, pos: nat, us: Seq<RespTerm>)
    requires
        forall|i: int| 0 <= i < us.len() ==> well_formed(#[trigger] us[i]),
        pos <= s.len() < pos + encode_items(us).len(),
        s.subrange(pos as int, (s.len() as int) as int) == encode_items(us).subrange(0, (s.len() - pos) as int),
    ensures
        parse_items(s, pos, us.len()) is None,
    decreases us,
{
    let prev = us.drop_last();
    let last = us.last();
    let pe = encode_items(prev);
    let le = encoding(last);
    assert(us.len() > 0);
    assert(encode_items(us) == pe + le);
    assert(decreases_to!(us => prev));
    assert(well_formed(us[us.len() - 1]));
    if s.len() < pos + pe.len() {
        assert((pe + le).subrange(0, (s.len() - pos) as int) =~= pe.subrange(0, (s.len() - pos) as int));
        lemma_parse_items_partial(s, pos, prev);
    } else {
        lemma_window(s, pos as int, (s.len() as int) as int, (pe + le).subrange(0, (s.len() - pos) as int), pos as int, (pos + pe.len()) as int);
        assert((pe + le).subrange(0, (s.len() - pos) as int).subrange(0, (pe.len() as int) as int) =~= pe);
        lemma_parse_items(s, pos, prev);
        lemma_window(s, pos as int, (s.len() as int) as int, (pe + le).subrange(0, (s.len() - pos) as int), (pos + pe.len()) as int, (s.len() as int) as int);
        assert((pe + le).subrange(0, (s.len() - pos) as int).subrange((pe.len() as int) as int, (s.len() - pos) as int) =~= le.subrange(0, (s.len() - pos - pe.len()) as int));
        lemma_parse_partial(s, pos + pe.len(), last);
    }
}

/// Decoding the encoding of a well-formed value, whatever follows it, gives
/// back the value and consumes exactly its encoding.
pub proof fn lemma_round_trip(t: RespTerm, rest: Seq<u8>)
    requires
        well_formed(t),
    ensures
        parse_at(encoding(t) + rest, 0) == Some((t, encoding(t).len())),
{
    let s = encoding(t) + rest;
    assert(s.subrange(0, (encoding(t).len() as int) as int) =~= encoding(t));
    lemma_parse_encoding(s, 0, t);
}

/// A strict prefix of a well-formed value's encoding decodes to nothing,
/// and once the remainder arrives the value decodes in full.
pub proof fn lemma_partial_read(t: RespTerm, i: int)
    requires
        well_formed(t),
        0 <= i < encoding(t).len(),
    ensures
        parse_at(encoding(t).subrange(0, i as int), 0) is None,
        parse_at(encoding(t).subrange(0, i as int) + encoding(t).subrange(i as int, (encoding(t).len() as int) as int), 0)
            == Some((t, encoding(t).len())),
{
    let e = encoding(t);
    let s = e.subrange(0, i as int);
    assert(s.subrange(0, (s.len() as int) as int) =~= e.subrange(0, (s.len() as int) as int));
    lemma_parse_partial(s, 0, t);
    assert(s + e.subrange(i as int, (e.len() as int) as int) =~= e + Seq::<u8>::empty());
    lemma_round_trip(t, Seq::<u8>::empty());
}

/// Every value that the decoder finds is well formed.
pub proof fn lemma_parse_well_formed(s: Seq<u8>, pos: nat)
    ensures
        parse_at(s, pos) matches Some((t, _)) ==> well_formed(t),
    decreases rest_len(s, pos), 0nat,
{
    if pos < s.len() {
        let tag = s[pos as int];
        if tag == 43 || tag == 45 {
            if pos + 1 <= s.len() {
                lemma_cr_offset(s, pos + 1);
            }
            if let Some((w, n)) = word_at(s, pos + 1) {
                assert forall|j: int| 0 <= j < w.len() implies w[j] != 13u8 by {
                    assert(w[j] == s[pos + 1 + j]);
                }
            }
        } else if tag == 42 {
            if let Some((count, n)) = number_at(s, pos + 1) {
                if count > 0 {
                    lemma_items_well_formed(s, pos + 1 + n, count as nat);
                }
            }
        }
    }
}

proof fn lemma_items_well_formed(s: Seq<u8>, pos: nat, k: nat)
    ensures
        parse_items(s, pos, k) matches Some((ts, _)) ==> ts.len() == k && forall|i: int|
            0 <= i < ts.len() ==> well_formed(#[trigger] ts[i]),
    decreases rest_len(s, pos), k,
{
    if k > 0 {
        lemma_items_well_formed(s, pos, (k - 1) as nat);
        if let Some((ts, m)) = parse_items(s, pos, (k - 1) as nat) {
            lemma_parse_well_formed(s, pos + m);
        }
    }
}

} // verus!
