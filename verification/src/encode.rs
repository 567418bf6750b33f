//! The encode helpers: the minimal event producers needed to exercise the
//! decode side.
//!
//! One flag selects the physical representation. A hinted encoding announces
//! each region's size up front and writes no end markers, as length-prefixed
//! binary formats do; an unhinted encoding leaves sizes open and closes each
//! region with an end marker, as self-describing text formats do.

use vstd::prelude::*;
use crate::event::{Event, EventV, Ident, IdentV};
use crate::value::{value_v, values_v, Value, ValueV};
use crate::value::{lemma_values_v_index};

verus! {

/// The size hint a region start event carries under the chosen style.
pub open spec fn hint_of(hinted: bool, n: nat) -> Option<usize> {
    if hinted {
        Some(n as usize)
    } else {
        None
    }
}

/// The events that close a sequence region under the chosen style.
pub open spec fn seq_close(hinted: bool) -> Seq<EventV> {
    if hinted {
        Seq::empty()
    } else {
        seq![EventV::SeqEnd]
    }
}

/// The encoding of one value.
///
/// Scalars are one event each; lists and records are sequence regions in
/// element respectively declaration order; a case is its ordinal discriminant
/// followed by its payload.
pub open spec fn enc(v: ValueV, hinted: bool) -> Seq<EventV>
    decreases v, 1int,
{
    match v {
        ValueV::Unsigned(u) => seq![EventV::Unsigned(u)],
        ValueV::Signed(i) => seq![EventV::Signed(i)],
        ValueV::Text(s) => seq![EventV::Text(s)],
        ValueV::List(vs) => seq![EventV::SeqStart(hint_of(hinted, vs.len()))] + enc_all(vs, hinted)
            + seq_close(hinted),
        ValueV::Record(vs) => seq![EventV::SeqStart(hint_of(hinted, vs.len()))] + enc_all(
            vs,
            hinted,
        ) + seq_close(hinted),
        ValueV::Case(i, p) => seq![EventV::Key(IdentV::Ordinal(i as u64))] + enc(*p, hinted),
    }
}

/// The concatenated encodings of a row of values.
pub open spec fn enc_all(vs: Seq<ValueV>, hinted: bool) -> Seq<EventV>
    decreases vs, 0int,
{
    if vs.len() == 0 {
        Seq::empty()
    } else {
        enc(vs[0], hinted) + enc_all(vs.drop_first(), hinted)
    }
}

/// An encoding is never empty and never opens with a region end marker.
pub proof fn lemma_enc_shape(v: ValueV, hinted: bool)
    ensures
        enc(v, hinted).len() >= 1,
        !(enc(v, hinted)[0] is SeqEnd),
        !(enc(v, hinted)[0] is MapEnd),
{
}

/// Encode one value.
pub fn encode(v: &Value, hinted: bool) -> (r: Vec<Event>)
    ensures
        r.deep_view() == enc(value_v(*v), hinted),
    decreases *v,
{
    match v {
        Value::Unsigned(u) => {
            let r: Vec<Event> = vec![Event::Unsigned(*u)];
            proof {
                assert(r.deep_view() =~= enc(value_v(*v), hinted));
            }
            r
        },
        Value::Signed(i) => {
            let r: Vec<Event> = vec![Event::Signed(*i)];
            proof {
                assert(r.deep_view() =~= enc(value_v(*v), hinted));
            }
            r
        },
        Value::Text(s) => {
            let r: Vec<Event> = vec![Event::Text(s.clone())];
            proof {
                assert(r.deep_view() =~= enc(value_v(*v), hinted));
            }
            r
        },
        Value::List(vs) => {
            let r = encode_row(vs, hinted);
            proof {
                lemma_values_v_index(vs@);
                assert(r.deep_view() =~= enc(value_v(*v), hinted));
            }
            r
        },
        Value::Record(vs) => {
            let r = encode_row(vs, hinted);
            proof {
                lemma_values_v_index(vs@);
                assert(r.deep_view() =~= enc(value_v(*v), hinted));
            }
            r
        },
        Value::Case(i, p) => {
            let mut r: Vec<Event> = vec![Event::Key(Ident::Ordinal(*i as u64))];
            let mut sub = encode(p, hinted);
            let ghost r0 = r.deep_view();
            let ghost r0v = r@;
            let ghost s0 = sub.deep_view();
            let ghost s0v = sub@;
            r.append(&mut sub);
            proof {
                assert forall|k: int| 0 <= k < r.deep_view().len() implies r.deep_view()[k] == (r0
                    + s0)[k] by {
                    if k < r0.len() {
                        assert(r@[k] == r0v[k]);
                    } else {
                        assert(r@[k] == s0v[k - r0v.len()]);
                    }
                }
                assert(r.deep_view() =~= r0 + s0);
                assert(r.deep_view() =~= enc(value_v(*v), hinted));
            }
            r
        },
    }
}

/// Encode a row of values as a sequence region.
fn encode_row(vs: &Vec<Value>, hinted: bool) -> (r: Vec<Event>)
    ensures
        r.deep_view() == seq![EventV::SeqStart(hint_of(hinted, vs@.len()))] + enc_all(
            values_v(vs@),
            hinted,
        ) + seq_close(hinted),
    decreases *vs,
{
    proof {
        lemma_values_v_index(vs@);
    }
    let hint: Option<usize> = if hinted {
        Some(vs.len())
    } else {
        None
    };
    let mut r: Vec<Event> = vec![Event::SeqStart(hint)];
    let mut j: usize = 0;
    while j < vs.len()
        invariant
            j <= vs.len(),
            values_v(vs@).len() == vs@.len(),
            forall|i: int| 0 <= i < vs@.len() ==> values_v(vs@)[i] == value_v(#[trigger] vs@[i]),
            r.deep_view() =~= seq![
                EventV::SeqStart(hint_of(hinted, vs@.len())),
            ] + enc_all_to(values_v(vs@), j as nat, hinted),
        decreases vs.len() - j,
    {
        proof {
            lemma_enc_all_to_step(values_v(vs@), j as nat, hinted);
        }
        let mut sub = encode(&vs[j], hinted);
        let ghost r0 = r.deep_view();
        let ghost r0v = r@;
        let ghost s0 = sub.deep_view();
        let ghost s0v = sub@;
        r.append(&mut sub);
        proof {
            assert forall|k: int| 0 <= k < r.deep_view().len() implies r.deep_view()[k] == (r0
                + s0)[k] by {
                if k < r0.len() {
                    assert(r@[k] == r0v[k]);
                } else {
                    assert(r@[k] == s0v[k - r0v.len()]);
                }
            }
            assert(r.deep_view() =~= r0 + s0);
            assert(r.deep_view() =~= seq![
                EventV::SeqStart(hint_of(hinted, vs@.len())),
            ] + enc_all_to(values_v(vs@), (j + 1) as nat, hinted));
        }
        j = j + 1;
    }
    proof {
        lemma_enc_all_to_full(values_v(vs@), hinted);
    }
    let ghost r1 = r.deep_view();
    let ghost r1v = r@;
    if !hinted {
        r.push(Event::SeqEnd);
        proof {
            assert forall|k: int| 0 <= k < r.deep_view().len() implies r.deep_view()[k] == r1.push(
                EventV::SeqEnd,
            )[k] by {
                if k < r1.len() {
                    assert(r@[k] == r1v[k]);
                }
            }
            assert(r.deep_view() =~= r1.push(EventV::SeqEnd));
        }
    }
    proof {
        assert(r.deep_view() =~= seq![
            EventV::SeqStart(hint_of(hinted, vs@.len())),
        ] + enc_all(values_v(vs@), hinted) + seq_close(hinted));
    }
    r
}

/// The concatenated encodings of the first `k` values of a row.
pub open spec fn enc_all_to(vs: Seq<ValueV>, k: nat, hinted: bool) -> Seq<EventV>
    decreases k,
{
    if k == 0 {
        Seq::empty()
    } else {
        enc_all_to(vs, (k - 1) as nat, hinted) + enc(vs[k - 1], hinted)
    }
}

/// One more element extends the prefix encoding by that element's encoding.
pub proof fn lemma_enc_all_to_step(vs: Seq<ValueV>, k: nat, hinted: bool)
    ensures
        enc_all_to(vs, k + 1, hinted) == enc_all_to(vs, k, hinted) + enc(vs[k as int], hinted),
{
}

/// The whole-row prefix encoding is the row encoding.
pub proof fn lemma_enc_all_to_full(vs: Seq<ValueV>, hinted: bool)
    ensures
        enc_all_to(vs, vs.len(), hinted) == enc_all(vs, hinted),
    decreases vs.len(),
{
    lemma_enc_all_prefix(vs, vs.len(), hinted);
}

/// Front and back decompositions of a row encoding agree.
pub proof fn lemma_enc_all_prefix(vs: Seq<ValueV>, k: nat, hinted: bool)
    requires
        k <= vs.len(),
    ensures
        enc_all(vs, hinted) == enc_all_to(vs, k, hinted) + enc_all(vs.skip(k as int), hinted),
    decreases k,
{
    if k == 0 {
        assert(vs.skip(0) =~= vs);
        assert(enc_all(vs, hinted) =~= enc_all_to(vs, 0, hinted) + enc_all(vs.skip(0), hinted));
    } else {
        lemma_enc_all_prefix(vs, (k - 1) as nat, hinted);
        let tail = vs.skip(k - 1);
        assert(tail.len() > 0);
        assert(tail[0] == vs[k - 1]);
        assert(tail.drop_first() =~= vs.skip(k as int));
        assert(enc_all(tail, hinted) == enc(vs[k - 1], hinted) + enc_all(
            vs.skip(k as int),
            hinted,
        ));
        assert(enc_all(vs, hinted) =~= enc_all_to(vs, k, hinted) + enc_all(
            vs.skip(k as int),
            hinted,
        ));
    }
}

/// Wraps a row of values and encodes it as a sequence region, with the
/// region's length announced up front or left to an end marker.
pub struct SerializableSeq {
    data: Vec<Value>,
    len: Option<usize>,
}

impl SerializableSeq {
    /// The wrapped values.
    pub closed spec fn values(&self) -> Seq<ValueV> {
        values_v(self.data@)
    }

    /// Whether the encoding announces its length up front.
    pub closed spec fn hinted(&self) -> bool {
        self.len is Some
    }

    /// Wrap a row whose encoding leaves the length open: the region is
    /// closed by an end marker instead.
    pub fn new(data: Vec<Value>) -> (r: SerializableSeq)
        ensures
            r.values() == values_v(data@),
            !r.hinted(),
    {
        SerializableSeq { data, len: None }
    }

    /// Wrap a row whose encoding announces `len` elements up front. The
    /// claimed length must be the row's true length.
    pub fn new_with_len(data: Vec<Value>, len: usize) -> (r: SerializableSeq)
        requires
            len == data@.len(),
        ensures
            r.values() == values_v(data@),
            r.hinted(),
    {
        SerializableSeq { data, len: Some(len) }
    }

    /// Produce the sequence region's events.
    pub fn serialize(&self) -> (r: Vec<Event>)
        ensures
            r.deep_view() == enc(ValueV::List(self.values()), self.hinted()),
    {
        proof {
            lemma_values_v_index(self.data@);
        }
        let hinted = self.len.is_some();
        let r = encode_row(&self.data, hinted);
        proof {
            assert(r.deep_view() == enc(ValueV::List(self.values()), self.hinted()));
        }
        r
    }
}

} // verus!
