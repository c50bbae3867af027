use vstd::prelude::*;

use crate::buffer::{advance, append, buffered, contents};
use crate::resp::{
    encoding, lemma_terms_of, parse, parse_at, serialize_redis_value, well_formed, RespTerm, RespValue,
};
use crate::resp_laws::{lemma_parse_encoding, lemma_parse_partial};
use vstd::slice::slice_to_vec;

verus! {

/// A message between the master and a replica.
#[derive(Debug, PartialEq, Eq)]
pub enum ProtoValue {
    Handshake(u32),
    Resp(RespValue),
    Vote(bool),
    Decision(bool),
    Replicate(Vec<(Vec<u8>, Vec<u8>)>),
}

/// The mathematical model of a `ProtoValue`. A snapshot is a list of
/// entries, later ones winning.
pub enum ProtoTerm {
    Handshake(u32),
    Resp(RespTerm),
    Vote(bool),
    Decision(bool),
    Replicate(Seq<(Seq<u8>, Seq<u8>)>),
}

impl View for ProtoValue {
    type V = ProtoTerm;

    open spec fn view(&self) -> ProtoTerm {
        match self {
            ProtoValue::Handshake(id) => ProtoTerm::Handshake(*id),
            ProtoValue::Resp(v) => ProtoTerm::Resp(v@),
            ProtoValue::Vote(b) => ProtoTerm::Vote(*b),
            ProtoValue::Decision(b) => ProtoTerm::Decision(*b),
            ProtoValue::Replicate(es) => ProtoTerm::Replicate(es@.map_values(|e: (Vec<u8>, Vec<u8>)| (e.0@, e.1@))),
        }
    }
}

impl From<RespValue> for ProtoValue {
    fn from(v: RespValue) -> ProtoValue {
        ProtoValue::Resp(v)
    }
}

impl vstd::std_specs::convert::FromSpecImpl<RespValue> for ProtoValue {
    open spec fn obeys_from_spec() -> bool {
        true
    }

    open spec fn from_spec(v: RespValue) -> ProtoValue {
        ProtoValue::Resp(v)
    }
}

/// The byte that opens each kind of message.
pub open spec fn tag_of(p: ProtoTerm) -> u8 {
    match p {
        ProtoTerm::Handshake(_) => 72,
        ProtoTerm::Resp(_) => 82,
        ProtoTerm::Vote(_) => 86,
        ProtoTerm::Decision(_) => 68,
        ProtoTerm::Replicate(_) => 77,
    }
}

/// The flat list `k0, v0, k1, v1, ...` of a snapshot's entries, as bulk strings.
pub open spec fn flatten(es: Seq<(Seq<u8>, Seq<u8>)>) -> Seq<RespTerm> {
    Seq::new(
        2 * es.len(),
        |i: int| if i % 2 == 0 {
            RespTerm::BulkString(es[i / 2].0)
        } else {
            RespTerm::BulkString(es[i / 2].1)
        },
    )
}

/// The RESP value that carries a message after its tag.
pub open spec fn payload_of(p: ProtoTerm) -> RespTerm {
    match p {
        ProtoTerm::Handshake(id) => RespTerm::Integer(id as i64),
        ProtoTerm::Resp(v) => v,
        ProtoTerm::Vote(b) => RespTerm::Integer(if b { 1 } else { 0 }),
        ProtoTerm::Decision(b) => RespTerm::Integer(if b { 1 } else { 0 }),
        ProtoTerm::Replicate(es) => RespTerm::Array(flatten(es)),
    }
}

/// A message that the encoding carries unchanged: its payload is a
/// well-formed RESP value (no carriage return in a simple string or an
/// error, every length within `i64`).
pub open spec fn proto_well_formed(p: ProtoTerm) -> bool {
    well_formed(payload_of(p))
}

/// The bytes that encode a message: its tag, then its payload.
pub open spec fn proto_encoding(p: ProtoTerm) -> Seq<u8> {
    seq![tag_of(p)] + encoding(payload_of(p))
}

/// The message that a tag and a payload stand for, where they fit together.
pub open spec fn message_of(tag: u8, t: RespTerm) -> Option<ProtoTerm> {
    if tag == 72 {
        match t {
            RespTerm::Integer(i) => if 0 <= i <= u32::MAX {
                Some(ProtoTerm::Handshake(i as u32))
            } else {
                None
            },
            _ => None,
        }
    } else if tag == 82 {
        Some(ProtoTerm::Resp(t))
    } else if tag == 86 || tag == 68 {
        match t {
            RespTerm::Integer(i) => if i == 0 || i == 1 {
                if tag == 86 {
                    Some(ProtoTerm::Vote(i == 1))
                } else {
                    Some(ProtoTerm::Decision(i == 1))
                }
            } else {
                None
            },
            _ => None,
        }
    } else if tag == 77 {
        match t {
            RespTerm::Array(a) => if a.len() % 2 == 0 && forall|i: int| 0 <= i < a.len() ==> (#[trigger] a[i]) is BulkString {
                Some(ProtoTerm::Replicate(Seq::new(a.len() / 2, |j: int| (a[2 * j]->BulkString_0, a[2 * j + 1]->BulkString_0))))
            } else {
                None
            },
            _ => None,
        }
    } else {
        None
    }
}

/// The first message in `s`, with the number of bytes it takes; `None` where
/// no complete message opens `s`.
pub open spec fn proto_parse(s: Seq<u8>) -> Option<(ProtoTerm, nat)> {
    if s.len() == 0 {
        None
    } else {
        match parse_at(s, 1) {
            Some((t, n)) => match message_of(s[0], t) {
                Some(p) => Some((p, n + 1)),
                None => None,
            },
            None => None,
        }
    }
}

/// The message that `tag` and `payload` stand for.
fn message(tag: u8, payload: RespValue) -> (r: Option<ProtoValue>)
    ensures
        match r {
            Some(p) => message_of(tag, payload@) == Some(p@),
            None => message_of(tag, payload@) is None,
        },
{
    if tag == 82 {
        return Some(ProtoValue::Resp(payload));
    }
    match payload {
        RespValue::Integer(i) => {
            if tag == 72 && 0 <= i && i <= 4294967295 {
                Some(ProtoValue::Handshake(i as u32))
            } else if (tag == 86 || tag == 68) && (i == 0 || i == 1) {
                if tag == 86 {
                    Some(ProtoValue::Vote(i == 1))
                } else {
                    Some(ProtoValue::Decision(i == 1))
                }
            } else {
                None
            }
        },
        RespValue::Array(items) => {
            let ghost a = payload@->Array_0;
            proof {
                lemma_terms_of(items@, items@.len());
            }
            assert(a.len() == items@.len());
            if tag != 77 || items.len() % 2 != 0 {
                return None;
            }
            let mut entries: Vec<(Vec<u8>, Vec<u8>)> = Vec::new();
            let mut i: usize = 0;
            while i < items.len()
                invariant
                    tag == 77,
                    payload@ == RespTerm::Array(a),
                    a.len() == items@.len(),
                    items@.len() % 2 == 0,
                    forall|j: int| 0 <= j < items@.len() ==> a[j] == (#[trigger] items@[j])@,
                    0 <= i <= items@.len(),
                    i % 2 == 0,
                    entries@.len() == i / 2,
                    forall|j: int| 0 <= j < i ==> (#[trigger] a[j]) is BulkString,
                    forall|j: int| 0 <= j < i / 2 ==> (#[trigger] entries@[j]).0@ == a[2 * j]->BulkString_0
                        && entries@[j].1@ == a[2 * j + 1]->BulkString_0,
                decreases items@.len() - i,
            {
                match (&items[i], &items[i + 1]) {
                    (RespValue::BulkString(k), RespValue::BulkString(v)) => {
                        entries.push((slice_to_vec(k.as_slice()), slice_to_vec(v.as_slice())));
                    },
                    _ => {
                        assert(!(a[i as int] is BulkString) || !(a[i + 1] is BulkString));
                        assert(!(forall|j: int| 0 <= j < a.len() ==> (#[trigger] a[j]) is BulkString));
                        return None;
                    },
                }
                i = i + 2;
            }
            let r = ProtoValue::Replicate(entries);
            assert(r@->Replicate_0 =~= Seq::new(a.len() / 2, |j: int| (a[2 * j]->BulkString_0, a[2 * j + 1]->BulkString_0)));
            Some(r)
        },
        _ => None,
    }
}

/// The RESP value that carries `p` after its tag.
fn payload(p: ProtoValue) -> (r: RespValue)
    ensures
        r@ == payload_of(p@),
{
    match p {
        ProtoValue::Handshake(id) => RespValue::Integer(id as i64),
        ProtoValue::Resp(v) => v,
        ProtoValue::Vote(b) => RespValue::Integer(if b { 1 } else { 0 }),
        ProtoValue::Decision(b) => RespValue::Integer(if b { 1 } else { 0 }),
        ProtoValue::Replicate(es) => {
            let ghost model = p@->Replicate_0;
            let mut items: Vec<RespValue> = Vec::new();
            let mut i: usize = 0;
            while i < es.len()
                invariant
                    model == es@.map_values(|e: (Vec<u8>, Vec<u8>)| (e.0@, e.1@)),
                    0 <= i <= es@.len(),
                    items@.len() == 2 * i,
                    forall|j: int| 0 <= j < 2 * i ==> (#[trigger] items@[j])@ == flatten(model)[j],
                decreases es@.len() - i,
            {
                items.push(RespValue::BulkString(slice_to_vec(es[i].0.as_slice())));
                items.push(RespValue::BulkString(slice_to_vec(es[i].1.as_slice())));
                i = i + 1;
            }
            proof {
                lemma_terms_of(items@, items@.len());
                assert forall|j: int| 0 <= j < items@.len() implies
                    crate::resp::terms_of(items@, items@.len())[j] == flatten(model)[j] by {
                    assert(crate::resp::terms_of(items@, items@.len())[j] == crate::resp::term_of(items@[j]));
                }
                assert(crate::resp::terms_of(items@, items@.len()) =~= flatten(model));
            }
            RespValue::Array(items)
        },
    }
}

impl ProtoValue {
    /// Whether this message is well formed, so that its encoding decodes back
    /// to it.
    pub fn is_well_formed(&self) -> (r: bool)
        ensures
            r == proto_well_formed(self@),
    {
        match self {
            ProtoValue::Resp(v) => v.is_well_formed(),
            ProtoValue::Replicate(es) => {
                let ghost model = self@->Replicate_0;
                let ghost a = flatten(model);
                assert(payload_of(self@) == RespTerm::Array(a));
                if es.len() as u64 > 4611686018427387903 {
                    assert(model.len() == es@.len());
                    assert(a.len() > i64::MAX);
                    assert(payload_of(self@) == RespTerm::Array(a));
                    assert(!well_formed(RespTerm::Array(a)));
                    return false;
                }
                let mut i: usize = 0;
                while i < es.len()
                    invariant
                        model == es@.map_values(|e: (Vec<u8>, Vec<u8>)| (e.0@, e.1@)),
                        a == flatten(model),
                        payload_of(self@) == RespTerm::Array(a),
                        es@.len() <= 4611686018427387903,
                        0 <= i <= es@.len(),
                        forall|j: int| 0 <= j < 2 * i ==> well_formed(#[trigger] a[j]),
                    decreases es@.len() - i,
                {
                    if es[i].0.len() as u64 > 9223372036854775807 || es[i].1.len() as u64 > 9223372036854775807 {
                        assert(!well_formed(a[2 * i]) || !well_formed(a[2 * i + 1]));
                        assert(!well_formed(RespTerm::Array(a)));
                        return false;
                    }
                    i = i + 1;
                }
                true
            },
            _ => true,
        }
    }
}

/// The codec of the messages between the master and its replicas.
#[derive(Debug)]
pub struct ProtoCodec;

impl ProtoCodec {
    /// Takes the first complete message off the front of `src`; where none is
    /// complete yet, leaves `src` as it is.
    pub fn decode(&mut self, src: &mut bytes::BytesMut) -> (r: Option<ProtoValue>)
        ensures
            match proto_parse(buffered(*old(src))) {
                Some((p, n)) => {
                    &&& r matches Some(v) && v@ == p
                    &&& buffered(*final(src)) == buffered(*old(src)).subrange(n as int, buffered(*old(src)).len() as int)
                },
                None => r is None && buffered(*final(src)) == buffered(*old(src)),
            },
    {
        let bytes = contents(src);
        if bytes.len() == 0 {
            return None;
        }
        let tag = bytes[0];
        match parse(bytes, 1) {
            Some((value, n)) => match message(tag, value) {
                Some(p) => {
                    advance(src, n + 1);
                    Some(p)
                },
                None => None,
            },
            None => None,
        }
    }

    /// Appends the encoding of `item` to `dst`; only a well-formed message
    /// can be sent, since only its encoding decodes back to it.
    pub fn encode(&mut self, item: ProtoValue, dst: &mut bytes::BytesMut)
        requires
            proto_well_formed(item@),
            buffered(*old(dst)).len() + proto_encoding(item@).len() <= isize::MAX,
        ensures
            buffered(*final(dst)) == buffered(*old(dst)) + proto_encoding(item@),
    {
        let ghost model = item@;
        let tag: u8 = match &item {
            ProtoValue::Handshake(_) => 72,
            ProtoValue::Resp(_) => 82,
            ProtoValue::Vote(_) => 86,
            ProtoValue::Decision(_) => 68,
            ProtoValue::Replicate(_) => 77,
        };
        append(dst, &[tag]);
        let value = payload(item);
        serialize_redis_value(dst, &value);
        assert(buffered(*dst) =~= buffered(*old(dst)) + proto_encoding(model));
    }
}

/// A strict prefix of a well-formed message's encoding decodes to nothing.
pub proof fn lemma_proto_partial_read(p: ProtoTerm, i: int)
    requires
        proto_well_formed(p),
        0 <= i < proto_encoding(p).len(),
    ensures
        proto_parse(proto_encoding(p).subrange(0, i)) is None,
{
    let t = payload_of(p);
    let s = proto_encoding(p).subrange(0, i);
    if i > 0 {
        assert(s.subrange(1, s.len() as int) =~= encoding(t).subrange(0, s.len() - 1));
        lemma_parse_partial(s, 1, t);
    }
}

/// Decoding the encoding of a well-formed message, whatever follows it,
/// gives back the message and consumes exactly its encoding; so frames sent
/// one after another decode one per call, in order.
pub proof fn lemma_proto_round_trip(p: ProtoTerm, rest: Seq<u8>)
    requires
        proto_well_formed(p),
    ensures
        proto_parse(proto_encoding(p) + rest) == Some((p, proto_encoding(p).len())),
{
    let t = payload_of(p);
    let s = proto_encoding(p) + rest;
    assert(s.subrange(1, 1 + encoding(t).len() as int) =~= encoding(t));
    lemma_parse_encoding(s, 1, t);
    assert(s[0] == tag_of(p));
    if let ProtoTerm::Replicate(es) = p {
        let a = flatten(es);
        assert forall|j: int| 0 <= j < es.len() implies (a[2 * j]->BulkString_0, a[2 * j + 1]->BulkString_0)
            == #[trigger] es[j] by {
            vstd::arithmetic::div_mod::lemma_fundamental_div_mod_converse(2 * j, 2, j, 0);
            vstd::arithmetic::div_mod::lemma_fundamental_div_mod_converse(2 * j + 1, 2, j, 1);
        }
        assert forall|i: int| 0 <= i < a.len() implies (#[trigger] a[i]) is BulkString by {}
        assert(a.len() % 2 == 0) by {
            vstd::arithmetic::div_mod::lemma_fundamental_div_mod_converse(a.len() as int, 2, es.len() as int, 0);
        }
        assert(a.len() / 2 == es.len()) by {
            vstd::arithmetic::div_mod::lemma_fundamental_div_mod_converse(a.len() as int, 2, es.len() as int, 0);
        }
        assert(Seq::new(a.len() / 2, |j: int| (a[2 * j]->BulkString_0, a[2 * j + 1]->BulkString_0)) =~= es);
    }
}

} // verus!
