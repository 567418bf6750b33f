//! The laws of the library: what decoding guarantees on encoded input.
//!
//! The central statement is the round trip: a strategy that fits a value
//! decodes that value, exactly, from its encoding under either physical
//! representation, wherever that encoding stands in a larger stream.

use vstd::prelude::*;
use crate::encode::{enc, enc_all, hint_of, lemma_enc_shape, seq_close};
use crate::error::ErrorV;
use crate::event::{EventV, IdentV};
use crate::seed::{DerivationV, FieldSpecV, SeedV, StreamV, VariantSpecV};
use crate::semantics::{
    dec, dec_assoc, dec_counted, dec_elems, dec_fields, dec_tuple_first, field_names, find_name,
    first_unset, resolve, stream_nth, variant_names, Outcome,
};
use crate::value::ValueV;

verus! {

/// A stream can supply seeds for at least the first `n` draws.
pub open spec fn stream_provides(st: StreamV, n: nat) -> bool {
    forall|k: nat| k < n ==> #[trigger] stream_nth(st, k) is Some
}

/// Whether a strategy fits a value: decoding an encoding of the value with
/// the strategy is meant to give the value back. A dependent tuple fits no
/// value by itself, since its result deliberately drops the first element;
/// its round trip is stated separately.
pub open spec fn seed_matches(seed: SeedV, v: ValueV) -> bool
    decreases v,
{
    match seed {
        SeedV::Unsigned => v is Unsigned,
        SeedV::Signed => v is Signed,
        SeedV::Text => v is Text,
        SeedV::DependentTuple(first, d) => false,
        SeedV::Sequence(st) => match v {
            ValueV::List(vs) => stream_provides(st, vs.len() + 1) && forall|k: int|
                0 <= k < vs.len() ==> seed_matches(stream_nth(st, k as nat)->Some_0,
                #[trigger] vs[k]),
            _ => false,
        },
        SeedV::Counted(want, elem) => match v {
            ValueV::List(vs) => vs.len() == want && forall|k: int|
                0 <= k < vs.len() ==> seed_matches(*elem, #[trigger] vs[k]),
            _ => false,
        },
        SeedV::Record(fields) => match v {
            ValueV::Record(vs) => vs.len() == fields.len() && forall|k: int|
                0 <= k < vs.len() ==> seed_matches(fields[k].seed, #[trigger] vs[k]),
            _ => false,
        },
        SeedV::Union(variants) => match v {
            ValueV::Case(i, p) => (i as int) < variants.len() && seed_matches(
                variants[i as int].seed,
                *p,
            ),
            _ => false,
        },
    }
}

/// `sub` stands in `evs` at position `pos`.
pub open spec fn has_at(evs: Seq<EventV>, pos: nat, sub: Seq<EventV>) -> bool {
    pos + sub.len() <= evs.len() && evs.subrange(pos as int, (pos + sub.len()) as int) == sub
}

/// A stream that holds a concatenation holds both parts.
pub proof fn lemma_has_at_split(evs: Seq<EventV>, pos: nat, a: Seq<EventV>, b: Seq<EventV>)
    requires
        has_at(evs, pos, a + b),
    ensures
        has_at(evs, pos, a),
        has_at(evs, pos + a.len(), b),
{
    let ab = a + b;
    assert forall|j: int| 0 <= j < a.len() implies evs[pos + j] == a[j] by {
        assert(ab[j] == evs.subrange(pos as int, (pos + ab.len()) as int)[j]);
    }
    assert forall|j: int| 0 <= j < b.len() implies evs[pos + a.len() + j] == b[j] by {
        assert(ab[a.len() + j] == evs.subrange(pos as int, (pos + ab.len()) as int)[a.len() + j]);
    }
    assert(evs.subrange(pos as int, (pos + a.len()) as int) =~= a);
    assert(evs.subrange((pos + a.len()) as int, (pos + a.len() + b.len()) as int) =~= b);
}

/// The events of `sub` are the events of `evs` from `pos` on.
pub proof fn lemma_has_at_index(evs: Seq<EventV>, pos: nat, sub: Seq<EventV>, j: int)
    requires
        has_at(evs, pos, sub),
        0 <= j < sub.len(),
    ensures
        evs[pos + j] == sub[j],
{
    assert(sub[j] == evs.subrange(pos as int, (pos + sub.len()) as int)[j]);
}

/// A row encoding has at least one event per element.
pub proof fn lemma_enc_all_len(vs: Seq<ValueV>, hinted: bool)
    ensures
        enc_all(vs, hinted).len() >= vs.len(),
    decreases vs.len(),
{
    if vs.len() > 0 {
        lemma_enc_shape(vs[0], hinted);
        lemma_enc_all_len(vs.drop_first(), hinted);
    }
}

/// The size hint for the part of a region still to come.
pub open spec fn rem_of(hinted: bool, m: nat) -> Option<usize> {
    if hinted {
        Some(m as usize)
    } else {
        None
    }
}

/// Round trip, in place: a strategy that fits a value decodes exactly that
/// value from that value's encoding, wherever the encoding stands in the
/// stream, and leaves the cursor just past it.
pub proof fn lemma_decodes_encoding(
    seed: SeedV,
    v: ValueV,
    hinted: bool,
    evs: Seq<EventV>,
    pos: nat,
)
    requires
        seed_matches(seed, v),
        has_at(evs, pos, enc(v, hinted)),
        evs.len() <= usize::MAX,
    ensures
        dec(seed, evs, pos) == Outcome::Done(v, pos + enc(v, hinted).len()),
    decreases v, 1int, 0int,
{
    lemma_enc_shape(v, hinted);
    lemma_has_at_index(evs, pos, enc(v, hinted), 0);
    match v {
        ValueV::Unsigned(u) => {},
        ValueV::Signed(i) => {},
        ValueV::Text(s) => {},
        ValueV::List(vs) => {
            lemma_enc_all_len(vs, hinted);
            let head = seq![EventV::SeqStart(hint_of(hinted, vs.len()))];
            let tail = enc_all(vs, hinted) + seq_close(hinted);
            assert(enc(v, hinted) =~= head + tail);
            lemma_has_at_split(evs, pos, head, tail);
            assert(vs.skip(0) =~= vs);
            match seed {
                SeedV::Sequence(st) => {
                    lemma_elems_decode(st, vs, 0, hinted, evs, (pos + 1) as nat, Seq::empty());
                    assert(Seq::<ValueV>::empty() + vs =~= vs);
                },
                SeedV::Counted(want, elem) => {
                    lemma_counted_decode(*elem, want, vs, 0, hinted, evs, (pos + 1) as nat,
                        Seq::empty());
                    assert(Seq::<ValueV>::empty() + vs =~= vs);
                },
                _ => {},
            }
        },
        ValueV::Record(vs) => {
            lemma_enc_all_len(vs, hinted);
            let head = seq![EventV::SeqStart(hint_of(hinted, vs.len()))];
            let tail = enc_all(vs, hinted) + seq_close(hinted);
            assert(enc(v, hinted) =~= head + tail);
            lemma_has_at_split(evs, pos, head, tail);
            assert(vs.skip(0) =~= vs);
            match seed {
                SeedV::Record(fields) => {
                    lemma_fields_decode(fields, vs, 0, hinted, evs, (pos + 1) as nat,
                        Seq::empty());
                    assert(Seq::<ValueV>::empty() + vs =~= vs);
                },
                _ => {},
            }
        },
        ValueV::Case(i, p) => {
            match seed {
                SeedV::Union(variants) => {
                    let head = seq![EventV::Key(IdentV::Ordinal(i as u64))];
                    assert(enc(v, hinted) =~= head + enc(*p, hinted));
                    lemma_has_at_split(evs, pos, head, enc(*p, hinted));
                    assert(resolve(variant_names(variants), IdentV::Ordinal(i as u64)) == Some(
                        i as int,
                    ));
                    lemma_decodes_encoding(variants[i as int].seed, *p, hinted, evs,
                        (pos + 1) as nat);
                    assert(ValueV::Case(i, Box::new(*p)) == v);
                },
                _ => {},
            }
        },
    }
}

/// The element loop decodes the remaining encoded elements and stops exactly
/// at the region's boundary.
proof fn lemma_elems_decode(
    st: StreamV,
    vs: Seq<ValueV>,
    k: nat,
    hinted: bool,
    evs: Seq<EventV>,
    pos: nat,
    acc: Seq<ValueV>,
)
    requires
        stream_provides(st, vs.len() + 1),
        forall|j: int| k <= j < vs.len() ==> seed_matches(stream_nth(st, j as nat)->Some_0,
            #[trigger] vs[j]),
        k <= vs.len(),
        has_at(evs, pos, enc_all(vs.skip(k as int), hinted) + seq_close(hinted)),
        evs.len() <= usize::MAX,
    ensures
        dec_elems(st, evs, pos, k, rem_of(hinted, (vs.len() - k) as nat), acc) == Outcome::Done(
            ValueV::List(acc + vs.skip(k as int)),
            pos + enc_all(vs.skip(k as int), hinted).len() + seq_close(hinted).len(),
        ),
    decreases vs, 0int, vs.len() - k,
{
    let tail = vs.skip(k as int);
    let rest = enc_all(tail, hinted) + seq_close(hinted);
    proof_enc_bounds(tail, hinted, evs, pos);
    assert(vs.len() - k <= usize::MAX);
    if k == vs.len() {
        assert(tail =~= Seq::<ValueV>::empty());
        assert(acc + tail =~= acc);
        if !hinted {
            lemma_has_at_index(evs, pos, rest, 0);
            assert(rest[0] == seq_close(hinted)[0]);
            assert(rest[0] is SeqEnd);
        }
    } else {
        assert(tail.len() > 0);
        assert(tail[0] == vs[k as int]);
        assert(tail.drop_first() =~= vs.skip(k as int + 1));
        let ek = enc(vs[k as int], hinted);
        let rest2 = enc_all(vs.skip(k as int + 1), hinted) + seq_close(hinted);
        assert(rest =~= ek + rest2);
        lemma_has_at_split(evs, pos, ek, rest2);
        lemma_enc_shape(vs[k as int], hinted);
        lemma_has_at_index(evs, pos, ek, 0);
        let elem = stream_nth(st, k)->Some_0;
        lemma_decodes_encoding(elem, vs[k as int], hinted, evs, pos);
        let p2 = pos + ek.len();
        lemma_elems_decode(st, vs, k + 1, hinted, evs, p2, acc.push(vs[k as int]));
        assert(acc.push(vs[k as int]) + vs.skip(k as int + 1) =~= acc + tail);
    }
}

/// The element loop of a counted region decodes exactly `want` encoded
/// elements.
proof fn lemma_counted_decode(
    elem: SeedV,
    want: u64,
    vs: Seq<ValueV>,
    k: nat,
    hinted: bool,
    evs: Seq<EventV>,
    pos: nat,
    acc: Seq<ValueV>,
)
    requires
        vs.len() == want,
        forall|j: int| k <= j < vs.len() ==> seed_matches(elem, #[trigger] vs[j]),
        k <= vs.len(),
        has_at(evs, pos, enc_all(vs.skip(k as int), hinted) + seq_close(hinted)),
        evs.len() <= usize::MAX,
    ensures
        dec_counted(elem, want, evs, pos, k, rem_of(hinted, (vs.len() - k) as nat), acc)
            == Outcome::Done(
            ValueV::List(acc + vs.skip(k as int)),
            pos + enc_all(vs.skip(k as int), hinted).len() + seq_close(hinted).len(),
        ),
    decreases vs, 0int, vs.len() - k,
{
    let tail = vs.skip(k as int);
    let rest = enc_all(tail, hinted) + seq_close(hinted);
    proof_enc_bounds(tail, hinted, evs, pos);
    assert(vs.len() - k <= usize::MAX);
    if k == vs.len() {
        assert(tail =~= Seq::<ValueV>::empty());
        assert(acc + tail =~= acc);
        if !hinted {
            lemma_has_at_index(evs, pos, rest, 0);
            assert(rest[0] == seq_close(hinted)[0]);
            assert(rest[0] is SeqEnd);
        }
    } else {
        assert(tail.len() > 0);
        assert(tail[0] == vs[k as int]);
        assert(tail.drop_first() =~= vs.skip(k as int + 1));
        let ek = enc(vs[k as int], hinted);
        let rest2 = enc_all(vs.skip(k as int + 1), hinted) + seq_close(hinted);
        assert(rest =~= ek + rest2);
        lemma_has_at_split(evs, pos, ek, rest2);
        lemma_enc_shape(vs[k as int], hinted);
        lemma_has_at_index(evs, pos, ek, 0);
        lemma_decodes_encoding(elem, vs[k as int], hinted, evs, pos);
        let p2 = pos + ek.len();
        lemma_counted_decode(elem, want, vs, k + 1, hinted, evs, p2, acc.push(vs[k as int]));
        assert(acc.push(vs[k as int]) + vs.skip(k as int + 1) =~= acc + tail);
    }
}

/// The field loop of a positional record region decodes the remaining
/// encoded fields in declaration order.
proof fn lemma_fields_decode(
    fields: Seq<FieldSpecV>,
    vs: Seq<ValueV>,
    i: nat,
    hinted: bool,
    evs: Seq<EventV>,
    pos: nat,
    acc: Seq<ValueV>,
)
    requires
        vs.len() == fields.len(),
        forall|j: int| i <= j < vs.len() ==> seed_matches(fields[j].seed, #[trigger] vs[j]),
        i <= vs.len(),
        has_at(evs, pos, enc_all(vs.skip(i as int), hinted) + seq_close(hinted)),
        evs.len() <= usize::MAX,
    ensures
        dec_fields(fields, evs, pos, i, rem_of(hinted, (vs.len() - i) as nat), acc)
            == Outcome::Done(
            ValueV::Record(acc + vs.skip(i as int)),
            pos + enc_all(vs.skip(i as int), hinted).len() + seq_close(hinted).len(),
        ),
    decreases vs, 0int, vs.len() - i,
{
    let tail = vs.skip(i as int);
    let rest = enc_all(tail, hinted) + seq_close(hinted);
    proof_enc_bounds(tail, hinted, evs, pos);
    assert(vs.len() - i <= usize::MAX);
    if i == vs.len() {
        assert(tail =~= Seq::<ValueV>::empty());
        assert(acc + tail =~= acc);
        if !hinted {
            lemma_has_at_index(evs, pos, rest, 0);
            assert(rest[0] == seq_close(hinted)[0]);
            assert(rest[0] is SeqEnd);
        }
    } else {
        assert(tail.len() > 0);
        assert(tail[0] == vs[i as int]);
        assert(tail.drop_first() =~= vs.skip(i as int + 1));
        let ek = enc(vs[i as int], hinted);
        let rest2 = enc_all(vs.skip(i as int + 1), hinted) + seq_close(hinted);
        assert(rest =~= ek + rest2);
        lemma_has_at_split(evs, pos, ek, rest2);
        lemma_enc_shape(vs[i as int], hinted);
        lemma_has_at_index(evs, pos, ek, 0);
        lemma_decodes_encoding(fields[i as int].seed, vs[i as int], hinted, evs, pos);
        let p2 = pos + ek.len();
        lemma_fields_decode(fields, vs, i + 1, hinted, evs, p2, acc.push(vs[i as int]));
        assert(acc.push(vs[i as int]) + vs.skip(i as int + 1) =~= acc + tail);
    }
}

/// Round trip: decoding an encoding of `v` with a strategy that fits `v`
/// gives back exactly `v` and consumes exactly the encoding, under either
/// physical representation.
pub proof fn lemma_round_trip(seed: SeedV, v: ValueV, hinted: bool)
    requires
        seed_matches(seed, v),
        enc(v, hinted).len() <= usize::MAX,
    ensures
        dec(seed, enc(v, hinted), 0) == Outcome::Done(v, enc(v, hinted).len()),
{
    assert(enc(v, hinted).subrange(0, enc(v, hinted).len() as int) =~= enc(v, hinted));
    lemma_decodes_encoding(seed, v, hinted, enc(v, hinted), 0);
}

/// The encoding of a two-element tuple region holding a count and then a
/// row of values: the shape a length-directed dependent tuple reads.
pub open spec fn pair_enc(n: u64, vs: Seq<ValueV>, hinted: bool) -> Seq<EventV> {
    seq![EventV::SeqStart(hint_of(hinted, 2)), EventV::Unsigned(n)] + enc(
        ValueV::List(vs),
        hinted,
    ) + seq_close(hinted)
}

/// Dependent tuple correctness: decoding an encoded pair `(n, row)` with the
/// strategy "read an unsigned count, then exactly that many elements" yields
/// exactly the row, provided the count is the row's true length.
pub proof fn lemma_dependent_tuple_length_directed(
    elem: SeedV,
    n: u64,
    vs: Seq<ValueV>,
    hinted: bool,
    evs: Seq<EventV>,
    pos: nat,
)
    requires
        vs.len() == n,
        forall|j: int| 0 <= j < vs.len() ==> seed_matches(elem, #[trigger] vs[j]),
        has_at(evs, pos, pair_enc(n, vs, hinted)),
        evs.len() <= usize::MAX,
    ensures
        dec(
            SeedV::DependentTuple(
                Box::new(SeedV::Unsigned),
                DerivationV::ElementCount(Box::new(elem)),
            ),
            evs,
            pos,
        ) == Outcome::Done(ValueV::List(vs), pos + pair_enc(n, vs, hinted).len()),
{
    let head = seq![EventV::SeqStart(hint_of(hinted, 2)), EventV::Unsigned(n)];
    let body = enc(ValueV::List(vs), hinted);
    assert(pair_enc(n, vs, hinted) =~= head + (body + seq_close(hinted)));
    lemma_has_at_split(evs, pos, head, body + seq_close(hinted));
    lemma_has_at_split(evs, (pos + head.len()) as nat, body, seq_close(hinted));
    lemma_has_at_index(evs, pos, head, 0);
    lemma_has_at_index(evs, pos, head, 1);
    lemma_enc_shape(ValueV::List(vs), hinted);
    lemma_has_at_index(evs, (pos + 2) as nat, body, 0);
    let counted = SeedV::Counted(n, Box::new(elem));
    assert(seed_matches(counted, ValueV::List(vs)));
    lemma_decodes_encoding(counted, ValueV::List(vs), hinted, evs, (pos + 2) as nat);
    if !hinted {
        lemma_has_at_index(evs, (pos + 2 + body.len()) as nat, seq_close(hinted), 0);
    }
    assert(dec(SeedV::Unsigned, evs, (pos + 1) as nat) == Outcome::Done(
        ValueV::Unsigned(n),
        (pos + 2) as nat,
    ));
    assert(dec_tuple_first(
        SeedV::Unsigned,
        DerivationV::ElementCount(Box::new(elem)),
        hint_of(hinted, 2),
        evs,
        (pos + 1) as nat,
    ) == Outcome::Done(ValueV::List(vs), pos + pair_enc(n, vs, hinted).len()));
}

/// Sequence boundary probing, the failing direction: a seed supply of
/// exactly as many seeds as the input has elements (or fewer) cannot finish
/// the decode, whatever the representation. The decoder draws a seed before
/// it can see the boundary, so the supply runs out first and the decode
/// fails with the supply's length, never with a silently truncated result.
pub proof fn lemma_seed_supply_exhaustion(
    seeds: Seq<SeedV>,
    vs: Seq<ValueV>,
    hinted: bool,
    evs: Seq<EventV>,
    pos: nat,
)
    requires
        seeds.len() <= vs.len(),
        forall|j: int| 0 <= j < seeds.len() ==> seed_matches(#[trigger] seeds[j], vs[j]),
        has_at(evs, pos, enc(ValueV::List(vs), hinted)),
        evs.len() <= usize::MAX,
    ensures
        dec(SeedV::Sequence(StreamV::Exactly(seeds)), evs, pos) == Outcome::Fail(
            ErrorV::InvalidLength(
                seeds.len() as u64,
                if seeds.len() == 0 {
                    0
                } else {
                    (seeds.len() - 1) as u64
                },
            ),
        ),
{
    let head = seq![EventV::SeqStart(hint_of(hinted, vs.len()))];
    let tail = enc_all(vs, hinted) + seq_close(hinted);
    assert(enc(ValueV::List(vs), hinted) =~= head + tail);
    lemma_has_at_split(evs, pos, head, tail);
    lemma_has_at_index(evs, pos, enc(ValueV::List(vs), hinted), 0);
    assert(vs.skip(0) =~= vs);
    lemma_exhaust_elems(seeds, vs, 0, hinted, evs, (pos + 1) as nat, Seq::empty());
}

/// The element loop under an under-provisioned supply runs out of seeds.
proof fn lemma_exhaust_elems(
    seeds: Seq<SeedV>,
    vs: Seq<ValueV>,
    k: nat,
    hinted: bool,
    evs: Seq<EventV>,
    pos: nat,
    acc: Seq<ValueV>,
)
    requires
        k <= seeds.len(),
        seeds.len() <= vs.len(),
        forall|j: int| k <= j < seeds.len() ==> seed_matches(#[trigger] seeds[j], vs[j]),
        has_at(evs, pos, enc_all(vs.skip(k as int), hinted) + seq_close(hinted)),
        evs.len() <= usize::MAX,
    ensures
        dec_elems(StreamV::Exactly(seeds), evs, pos, k, rem_of(hinted, (vs.len() - k) as nat),
            acc) == Outcome::Fail(
            ErrorV::InvalidLength(
                seeds.len() as u64,
                if seeds.len() == 0 {
                    0
                } else {
                    (seeds.len() - 1) as u64
                },
            ),
        ),
    decreases seeds.len() - k,
{
    let tail = vs.skip(k as int);
    proof_enc_bounds(tail, hinted, evs, pos);
    if k == seeds.len() {
    } else {
        assert(tail.len() > 0);
        assert(tail[0] == vs[k as int]);
        assert(tail.drop_first() =~= vs.skip(k as int + 1));
        let ek = enc(vs[k as int], hinted);
        let rest2 = enc_all(vs.skip(k as int + 1), hinted) + seq_close(hinted);
        assert(enc_all(tail, hinted) + seq_close(hinted) =~= ek + rest2);
        lemma_has_at_split(evs, pos, ek, rest2);
        lemma_enc_shape(vs[k as int], hinted);
        lemma_has_at_index(evs, pos, ek, 0);
        lemma_decodes_encoding(seeds[k as int], vs[k as int], hinted, evs, pos);
        lemma_exhaust_elems(seeds, vs, k + 1, hinted, evs, (pos + ek.len()) as nat,
            acc.push(vs[k as int]));
    }
}

/// Enum dispatch, the failing direction: a discriminant that resolves to no
/// declared variant is a hard error naming the token and the declared
/// variant names.
pub proof fn lemma_unknown_variant(
    variants: Seq<VariantSpecV>,
    id: IdentV,
    evs: Seq<EventV>,
    pos: nat,
)
    requires
        pos < evs.len(),
        evs[pos as int] == EventV::Key(id),
        resolve(variant_names(variants), id) is None,
    ensures
        dec(SeedV::Union(variants), evs, pos) == Outcome::Fail(
            ErrorV::UnknownVariant(id, variant_names(variants)),
        ),
{
}

/// The events that close a map region under the chosen style.
pub open spec fn map_close(hinted: bool) -> Seq<EventV> {
    if hinted {
        Seq::empty()
    } else {
        seq![EventV::MapEnd]
    }
}

/// The entries of an associative record region, visited in the order the
/// index sequence `order` prescribes: each entry is the field's name as key,
/// then the field's encoded value.
pub open spec fn enc_entries(
    names: Seq<Seq<char>>,
    vs: Seq<ValueV>,
    order: Seq<int>,
    hinted: bool,
) -> Seq<EventV>
    decreases order.len(),
{
    if order.len() == 0 {
        Seq::empty()
    } else {
        seq![EventV::Key(IdentV::Name(names[order[0]]))] + enc(vs[order[0]], hinted)
            + enc_entries(names, vs, order.drop_first(), hinted)
    }
}

/// An associative encoding of a record: a map region whose entries carry the
/// fields in the order `order` prescribes.
pub open spec fn enc_assoc(
    names: Seq<Seq<char>>,
    vs: Seq<ValueV>,
    order: Seq<int>,
    hinted: bool,
) -> Seq<EventV> {
    seq![EventV::MapStart(hint_of(hinted, order.len()))] + enc_entries(names, vs, order, hinted)
        + map_close(hinted)
}

/// No two declared names are the same.
pub open spec fn distinct_names(names: Seq<Seq<char>>) -> bool {
    forall|i: int, j: int| 0 <= i < j < names.len() ==> names[i] != names[j]
}

/// Some index before `k` maps to `f`.
pub open spec fn visited(order: Seq<int>, k: nat, f: int) -> bool {
    exists|k2: int| 0 <= k2 < k && #[trigger] order[k2] == f
}

/// `order` visits each of the indices `0 .. n` exactly once.
pub open spec fn is_permutation(order: Seq<int>, n: nat) -> bool {
    order.len() == n && (forall|k: int| 0 <= k < order.len() ==> 0 <= #[trigger] order[k] < n) && (
    forall|k1: int, k2: int|
        #![trigger order[k1], order[k2]]
        0 <= k1 < k2 < order.len() ==> order[k1] != order[k2]) && (forall|f: int|
        0 <= f < n ==> #[trigger] visited(order, n, f))
}

/// With distinct names, a field's own name resolves to that field.
proof fn lemma_find_name_first(names: Seq<Seq<char>>, f: int, j: nat)
    requires
        distinct_names(names),
        j <= f < names.len(),
    ensures
        find_name(names, names[f], j) == Some(f),
    decreases f - j,
{
    if j < f {
        lemma_find_name_first(names, f, (j + 1) as nat);
    }
}

/// When every field was decoded, none is reported missing.
proof fn lemma_first_unset_all_set(seen: Seq<Option<ValueV>>, j: nat)
    requires
        forall|i: int| j <= i < seen.len() ==> #[trigger] seen[i] is Some,
    ensures
        first_unset(seen, j) is None,
    decreases seen.len() - j,
{
    if j < seen.len() {
        lemma_first_unset_all_set(seen, (j + 1) as nat);
    }
}

/// Each entry takes at least two events.
proof fn lemma_enc_entries_len(names: Seq<Seq<char>>, vs: Seq<ValueV>, order: Seq<int>,
    hinted: bool)
    ensures
        enc_entries(names, vs, order, hinted).len() >= order.len(),
    decreases order.len(),
{
    if order.len() > 0 {
        lemma_enc_shape(vs[order[0]], hinted);
        lemma_enc_entries_len(names, vs, order.drop_first(), hinted);
    }
}

/// Struct field-order independence: an associative encoding decodes to the
/// record, whatever order its keys come in, as long as each declared field
/// appears exactly once.
pub proof fn lemma_assoc_order_independence(
    fields: Seq<FieldSpecV>,
    vs: Seq<ValueV>,
    order: Seq<int>,
    hinted: bool,
    evs: Seq<EventV>,
    pos: nat,
)
    requires
        distinct_names(field_names(fields)),
        vs.len() == fields.len(),
        forall|j: int| 0 <= j < vs.len() ==> seed_matches(fields[j].seed, #[trigger] vs[j]),
        is_permutation(order, fields.len()),
        has_at(evs, pos, enc_assoc(field_names(fields), vs, order, hinted)),
        evs.len() <= usize::MAX,
    ensures
        dec(SeedV::Record(fields), evs, pos) == Outcome::Done(
            ValueV::Record(vs),
            pos + enc_assoc(field_names(fields), vs, order, hinted).len(),
        ),
{
    let names = field_names(fields);
    let head = seq![EventV::MapStart(hint_of(hinted, order.len()))];
    let tail = enc_entries(names, vs, order, hinted) + map_close(hinted);
    assert(enc_assoc(names, vs, order, hinted) =~= head + tail);
    lemma_has_at_split(evs, pos, head, tail);
    lemma_has_at_index(evs, pos, enc_assoc(names, vs, order, hinted), 0);
    assert(order.skip(0) =~= order);
    let seen0 = Seq::new(fields.len(), |i: int| None::<ValueV>);
    assert forall|f: int| 0 <= f < fields.len() implies seen0[f] == (if visited(order, 0, f) {
        Some(vs[f])
    } else {
        None::<ValueV>
    }) by {
        assert(!visited(order, 0, f));
    }
    lemma_assoc_entries(fields, vs, order, 0, hinted, evs, (pos + 1) as nat, seen0);
}

/// The entry loop decodes the remaining prescribed entries, whatever their
/// order, and finishes with every field decoded.
proof fn lemma_assoc_entries(
    fields: Seq<FieldSpecV>,
    vs: Seq<ValueV>,
    order: Seq<int>,
    k: nat,
    hinted: bool,
    evs: Seq<EventV>,
    pos: nat,
    seen: Seq<Option<ValueV>>,
)
    requires
        distinct_names(field_names(fields)),
        vs.len() == fields.len(),
        forall|j: int| 0 <= j < vs.len() ==> seed_matches(fields[j].seed, #[trigger] vs[j]),
        is_permutation(order, fields.len()),
        k <= order.len(),
        seen.len() == fields.len(),
        forall|f: int| 0 <= f < fields.len() ==> seen[f] == (if visited(order, k, f) {
            Some(vs[f])
        } else {
            None::<ValueV>
        }),
        has_at(evs, pos, enc_entries(field_names(fields), vs, order.skip(k as int), hinted)
            + map_close(hinted)),
        evs.len() <= usize::MAX,
    ensures
        dec_assoc(fields, evs, pos, rem_of(hinted, (order.len() - k) as nat), seen)
            == Outcome::Done(
            ValueV::Record(vs),
            pos + enc_entries(field_names(fields), vs, order.skip(k as int), hinted).len()
                + map_close(hinted).len(),
        ),
    decreases order.len() - k,
{
    let names = field_names(fields);
    let tail_order = order.skip(k as int);
    let rest = enc_entries(names, vs, tail_order, hinted) + map_close(hinted);
    lemma_enc_entries_len(names, vs, tail_order, hinted);
    assert(order.len() - k <= usize::MAX);
    if k == order.len() {
        assert forall|f: int| 0 <= f < fields.len() implies seen[f] is Some by {
            assert(visited(order, order.len(), f));
        }
        lemma_first_unset_all_set(seen, 0);
        assert(Seq::new(seen.len(), |i: int| seen[i]->Some_0) =~= vs);
        if !hinted {
            lemma_has_at_index(evs, pos, rest, 0);
            assert(rest[0] == map_close(hinted)[0]);
        }
    } else {
        let f = order[k as int];
        assert(tail_order.len() > 0);
        assert(tail_order[0] == f);
        assert(tail_order.drop_first() =~= order.skip(k as int + 1));
        let key = seq![EventV::Key(IdentV::Name(names[f]))];
        let ef = enc(vs[f], hinted);
        let rest2 = enc_entries(names, vs, order.skip(k as int + 1), hinted) + map_close(hinted);
        assert(rest =~= key + (ef + rest2));
        lemma_has_at_split(evs, pos, key, ef + rest2);
        lemma_has_at_split(evs, (pos + 1) as nat, ef, rest2);
        lemma_has_at_index(evs, pos, key, 0);
        lemma_find_name_first(names, f, 0);
        assert(resolve(names, IdentV::Name(names[f])) == Some(f));
        assert(!visited(order, k, f)) by {
            if visited(order, k, f) {
                let k2 = choose|k2: int| 0 <= k2 < k && #[trigger] order[k2] == f;
                assert(order[k2] == order[k as int]);
            }
        }
        assert(seen[f] is None);
        lemma_decodes_encoding(fields[f].seed, vs[f], hinted, evs, (pos + 1) as nat);
        lemma_enc_shape(vs[f], hinted);
        let p2 = ((pos + 1) + ef.len()) as nat;
        let seen2 = seen.update(f, Some(vs[f]));
        assert forall|f2: int| 0 <= f2 < fields.len() implies seen2[f2] == (if visited(
            order,
            k + 1,
            f2,
        ) {
            Some(vs[f2])
        } else {
            None::<ValueV>
        }) by {
            if f2 == f {
                assert(order[k as int] == f2);
                assert(visited(order, k + 1, f2));
            } else {
                if visited(order, k + 1, f2) {
                    let k2 = choose|k2: int| 0 <= k2 < k + 1 && #[trigger] order[k2] == f2;
                    assert(k2 != k);
                    assert(visited(order, k, f2));
                }
                if visited(order, k, f2) {
                    let k2 = choose|k2: int| 0 <= k2 < k && #[trigger] order[k2] == f2;
                    assert(0 <= k2 < k + 1 && order[k2] == f2);
                    assert(visited(order, k + 1, f2));
                }
            }
        }
        lemma_assoc_entries(fields, vs, order, k + 1, hinted, evs, p2, seen2);
    }
}


/// Duplicate detection: if the entries of an associative region repeat a
/// declared field's key — the entries before the repetition being distinct —
/// the decode fails with exactly that field's name.
pub proof fn lemma_assoc_duplicate_field(
    fields: Seq<FieldSpecV>,
    vs: Seq<ValueV>,
    order: Seq<int>,
    r: nat,
    hinted: bool,
    evs: Seq<EventV>,
    pos: nat,
)
    requires
        distinct_names(field_names(fields)),
        vs.len() == fields.len(),
        forall|j: int| 0 <= j < vs.len() ==> seed_matches(fields[j].seed, #[trigger] vs[j]),
        forall|k: int| 0 <= k < order.len() ==> 0 <= #[trigger] order[k] < fields.len(),
        r < order.len(),
        forall|k1: int, k2: int|
            #![trigger order[k1], order[k2]]
            0 <= k1 < k2 < r ==> order[k1] != order[k2],
        visited(order, r, order[r as int]),
        has_at(evs, pos, enc_assoc(field_names(fields), vs, order, hinted)),
        evs.len() <= usize::MAX,
    ensures
        dec(SeedV::Record(fields), evs, pos) == Outcome::Fail(
            ErrorV::DuplicateField(fields[order[r as int]].name),
        ),
{
    let names = field_names(fields);
    let head = seq![EventV::MapStart(hint_of(hinted, order.len()))];
    let tail = enc_entries(names, vs, order, hinted) + map_close(hinted);
    assert(enc_assoc(names, vs, order, hinted) =~= head + tail);
    lemma_has_at_split(evs, pos, head, tail);
    lemma_has_at_index(evs, pos, enc_assoc(names, vs, order, hinted), 0);
    assert(order.skip(0) =~= order);
    let seen0 = Seq::new(fields.len(), |i: int| None::<ValueV>);
    assert forall|f: int| 0 <= f < fields.len() implies seen0[f] == (if visited(order, 0, f) {
        Some(vs[f])
    } else {
        None::<ValueV>
    }) by {
        assert(!visited(order, 0, f));
    }
    lemma_assoc_walk_dup(fields, vs, order, 0, r, hinted, evs, (pos + 1) as nat, seen0);
}

/// The entry loop runs up to the repeated key and stops there.
proof fn lemma_assoc_walk_dup(
    fields: Seq<FieldSpecV>,
    vs: Seq<ValueV>,
    order: Seq<int>,
    k: nat,
    r: nat,
    hinted: bool,
    evs: Seq<EventV>,
    pos: nat,
    seen: Seq<Option<ValueV>>,
)
    requires
        distinct_names(field_names(fields)),
        vs.len() == fields.len(),
        forall|j: int| 0 <= j < vs.len() ==> seed_matches(fields[j].seed, #[trigger] vs[j]),
        forall|k2: int| 0 <= k2 < order.len() ==> 0 <= #[trigger] order[k2] < fields.len(),
        k <= r < order.len(),
        forall|k1: int, k2: int|
            #![trigger order[k1], order[k2]]
            0 <= k1 < k2 < r ==> order[k1] != order[k2],
        visited(order, r, order[r as int]),
        seen.len() == fields.len(),
        forall|f: int| 0 <= f < fields.len() ==> seen[f] == (if visited(order, k, f) {
            Some(vs[f])
        } else {
            None::<ValueV>
        }),
        has_at(evs, pos, enc_entries(field_names(fields), vs, order.skip(k as int), hinted)
            + map_close(hinted)),
        evs.len() <= usize::MAX,
    ensures
        dec_assoc(fields, evs, pos, rem_of(hinted, (order.len() - k) as nat), seen)
            == Outcome::Fail(ErrorV::DuplicateField(fields[order[r as int]].name)),
    decreases r - k,
{
    let names = field_names(fields);
    let tail_order = order.skip(k as int);
    lemma_enc_entries_len(names, vs, tail_order, hinted);
    assert(order.len() - k <= usize::MAX);
    let f = order[k as int];
    assert(tail_order.len() > 0);
    assert(tail_order[0] == f);
    assert(tail_order.drop_first() =~= order.skip(k as int + 1));
    let key = seq![EventV::Key(IdentV::Name(names[f]))];
    let ef = enc(vs[f], hinted);
    let rest2 = enc_entries(names, vs, order.skip(k as int + 1), hinted) + map_close(hinted);
    assert(enc_entries(names, vs, tail_order, hinted) + map_close(hinted) =~= key + (ef + rest2));
    lemma_has_at_split(evs, pos, key, ef + rest2);
    lemma_has_at_split(evs, (pos + 1) as nat, ef, rest2);
    lemma_has_at_index(evs, pos, key, 0);
    lemma_find_name_first(names, f, 0);
    assert(resolve(names, IdentV::Name(names[f])) == Some(f));
    if k == r {
        assert(seen[f] is Some);
    } else {
        assert(!visited(order, k, f)) by {
            if visited(order, k, f) {
                let k2 = choose|k2: int| 0 <= k2 < k && #[trigger] order[k2] == f;
                assert(order[k2] == order[k as int]);
            }
        }
        assert(seen[f] is None);
        lemma_decodes_encoding(fields[f].seed, vs[f], hinted, evs, (pos + 1) as nat);
        lemma_enc_shape(vs[f], hinted);
        let p2 = ((pos + 1) + ef.len()) as nat;
        let seen2 = seen.update(f, Some(vs[f]));
        assert forall|f2: int| 0 <= f2 < fields.len() implies seen2[f2] == (if visited(
            order,
            k + 1,
            f2,
        ) {
            Some(vs[f2])
        } else {
            None::<ValueV>
        }) by {
            if f2 == f {
                assert(order[k as int] == f2);
                assert(visited(order, k + 1, f2));
            } else {
                if visited(order, k + 1, f2) {
                    let k2 = choose|k2: int| 0 <= k2 < k + 1 && #[trigger] order[k2] == f2;
                    assert(k2 != k);
                    assert(visited(order, k, f2));
                }
                if visited(order, k, f2) {
                    let k2 = choose|k2: int| 0 <= k2 < k && #[trigger] order[k2] == f2;
                    assert(0 <= k2 < k + 1 && order[k2] == f2);
                    assert(visited(order, k + 1, f2));
                }
            }
        }
        lemma_assoc_walk_dup(fields, vs, order, k + 1, r, hinted, evs, p2, seen2);
    }
}

/// A field never decoded stands at the first unset slot.
proof fn lemma_first_unset_at(seen: Seq<Option<ValueV>>, j: nat, m: int)
    requires
        j <= m < seen.len(),
        seen[m] is None,
        forall|f: int| j <= f < m ==> #[trigger] seen[f] is Some,
    ensures
        first_unset(seen, j) == Some(m),
    decreases m - j,
{
    if (j as int) < m {
        lemma_first_unset_at(seen, (j + 1) as nat, m);
    }
}

/// Missing-field detection: if an associative region's entries cover the
/// declared fields at most once each but leave some out, the decode fails
/// naming the first field that never appeared.
pub proof fn lemma_assoc_missing_field(
    fields: Seq<FieldSpecV>,
    vs: Seq<ValueV>,
    order: Seq<int>,
    m: int,
    hinted: bool,
    evs: Seq<EventV>,
    pos: nat,
)
    requires
        distinct_names(field_names(fields)),
        vs.len() == fields.len(),
        forall|j: int| 0 <= j < vs.len() ==> seed_matches(fields[j].seed, #[trigger] vs[j]),
        forall|k: int| 0 <= k < order.len() ==> 0 <= #[trigger] order[k] < fields.len(),
        forall|k1: int, k2: int|
            #![trigger order[k1], order[k2]]
            0 <= k1 < k2 < order.len() ==> order[k1] != order[k2],
        0 <= m < fields.len(),
        !visited(order, order.len(), m),
        forall|f: int| 0 <= f < m ==> #[trigger] visited(order, order.len(), f),
        has_at(evs, pos, enc_assoc(field_names(fields), vs, order, hinted)),
        evs.len() <= usize::MAX,
    ensures
        dec(SeedV::Record(fields), evs, pos) == Outcome::Fail(
            ErrorV::MissingField(fields[m].name),
        ),
{
    let names = field_names(fields);
    let head = seq![EventV::MapStart(hint_of(hinted, order.len()))];
    let tail = enc_entries(names, vs, order, hinted) + map_close(hinted);
    assert(enc_assoc(names, vs, order, hinted) =~= head + tail);
    lemma_has_at_split(evs, pos, head, tail);
    lemma_has_at_index(evs, pos, enc_assoc(names, vs, order, hinted), 0);
    assert(order.skip(0) =~= order);
    let seen0 = Seq::new(fields.len(), |i: int| None::<ValueV>);
    assert forall|f: int| 0 <= f < fields.len() implies seen0[f] == (if visited(order, 0, f) {
        Some(vs[f])
    } else {
        None::<ValueV>
    }) by {
        assert(!visited(order, 0, f));
    }
    lemma_assoc_walk_missing(fields, vs, order, 0, m, hinted, evs, (pos + 1) as nat, seen0);
}

/// The entry loop consumes every entry and then reports the first field
/// that never appeared.
proof fn lemma_assoc_walk_missing(
    fields: Seq<FieldSpecV>,
    vs: Seq<ValueV>,
    order: Seq<int>,
    k: nat,
    m: int,
    hinted: bool,
    evs: Seq<EventV>,
    pos: nat,
    seen: Seq<Option<ValueV>>,
)
    requires
        distinct_names(field_names(fields)),
        vs.len() == fields.len(),
        forall|j: int| 0 <= j < vs.len() ==> seed_matches(fields[j].seed, #[trigger] vs[j]),
        forall|k2: int| 0 <= k2 < order.len() ==> 0 <= #[trigger] order[k2] < fields.len(),
        forall|k1: int, k2: int|
            #![trigger order[k1], order[k2]]
            0 <= k1 < k2 < order.len() ==> order[k1] != order[k2],
        k <= order.len(),
        0 <= m < fields.len(),
        !visited(order, order.len(), m),
        forall|f: int| 0 <= f < m ==> #[trigger] visited(order, order.len(), f),
        seen.len() == fields.len(),
        forall|f: int| 0 <= f < fields.len() ==> seen[f] == (if visited(order, k, f) {
            Some(vs[f])
        } else {
            None::<ValueV>
        }),
        has_at(evs, pos, enc_entries(field_names(fields), vs, order.skip(k as int), hinted)
            + map_close(hinted)),
        evs.len() <= usize::MAX,
    ensures
        dec_assoc(fields, evs, pos, rem_of(hinted, (order.len() - k) as nat), seen)
            == Outcome::Fail(ErrorV::MissingField(fields[m].name)),
    decreases order.len() - k,
{
    let names = field_names(fields);
    let tail_order = order.skip(k as int);
    let rest = enc_entries(names, vs, tail_order, hinted) + map_close(hinted);
    lemma_enc_entries_len(names, vs, tail_order, hinted);
    assert(order.len() - k <= usize::MAX);
    if k == order.len() {
        assert(seen[m] is None) by {
            assert(!visited(order, k, m));
        }
        assert forall|f: int| 0 <= f < m implies seen[f] is Some by {
            assert(visited(order, order.len(), f));
        }
        lemma_first_unset_at(seen, 0, m);
        if !hinted {
            lemma_has_at_index(evs, pos, rest, 0);
            assert(rest[0] == map_close(hinted)[0]);
        }
    } else {
        let f = order[k as int];
        assert(tail_order.len() > 0);
        assert(tail_order[0] == f);
        assert(tail_order.drop_first() =~= order.skip(k as int + 1));
        let key = seq![EventV::Key(IdentV::Name(names[f]))];
        let ef = enc(vs[f], hinted);
        let rest2 = enc_entries(names, vs, order.skip(k as int + 1), hinted) + map_close(hinted);
        assert(rest =~= key + (ef + rest2));
        lemma_has_at_split(evs, pos, key, ef + rest2);
        lemma_has_at_split(evs, (pos + 1) as nat, ef, rest2);
        lemma_has_at_index(evs, pos, key, 0);
        lemma_find_name_first(names, f, 0);
        assert(resolve(names, IdentV::Name(names[f])) == Some(f));
        assert(!visited(order, k, f)) by {
            if visited(order, k, f) {
                let k2 = choose|k2: int| 0 <= k2 < k && #[trigger] order[k2] == f;
                assert(order[k2] == order[k as int]);
            }
        }
        assert(seen[f] is None);
        lemma_decodes_encoding(fields[f].seed, vs[f], hinted, evs, (pos + 1) as nat);
        lemma_enc_shape(vs[f], hinted);
        let p2 = ((pos + 1) + ef.len()) as nat;
        let seen2 = seen.update(f, Some(vs[f]));
        assert forall|f2: int| 0 <= f2 < fields.len() implies seen2[f2] == (if visited(
            order,
            k + 1,
            f2,
        ) {
            Some(vs[f2])
        } else {
            None::<ValueV>
        }) by {
            if f2 == f {
                assert(order[k as int] == f2);
                assert(visited(order, k + 1, f2));
            } else {
                if visited(order, k + 1, f2) {
                    let k2 = choose|k2: int| 0 <= k2 < k + 1 && #[trigger] order[k2] == f2;
                    assert(k2 != k);
                    assert(visited(order, k, f2));
                }
                if visited(order, k, f2) {
                    let k2 = choose|k2: int| 0 <= k2 < k && #[trigger] order[k2] == f2;
                    assert(0 <= k2 < k + 1 && order[k2] == f2);
                    assert(visited(order, k + 1, f2));
                }
            }
        }
        lemma_assoc_walk_missing(fields, vs, order, k + 1, m, hinted, evs, p2, seen2);
    }
}

/// The remaining elements fit in the stream's positions.
proof fn proof_enc_bounds(tail: Seq<ValueV>, hinted: bool, evs: Seq<EventV>, pos: nat)
    requires
        has_at(evs, pos, enc_all(tail, hinted) + seq_close(hinted)),
        evs.len() <= usize::MAX,
    ensures
        tail.len() <= usize::MAX,
        pos + enc_all(tail, hinted).len() + seq_close(hinted).len() <= evs.len(),
{
    lemma_enc_all_len(tail, hinted);
}

} // verus!
