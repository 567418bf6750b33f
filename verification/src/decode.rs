//! The executable decoders, each proved to return exactly what the
//! semantics in [`crate::semantics`] says.

use vstd::prelude::*;
use vstd::utf8::encode_utf8;
use crate::error::{Error, FormatError};
use crate::event::{Context, Event, EventV, Ident, IdentV};
use crate::seed::{Derivation, FieldSpec, Seed, SeedStream, VariantSpec};
use crate::seed::{fields_v, seed_v, stream_v, variants_v, derivation_v};
use crate::seed::{lemma_fields_v_index, lemma_seeds_v_index, lemma_variants_v_index};
use crate::semantics::{
    dec, dec_assoc, dec_counted, dec_elems, dec_fields, dec_tuple_first, field_names, find_name,
    lemma_first_unset_none,
    find_raw, first_unset, resolve, skip, skip_n, skip_pairs, skip_until, stream_nth,
    variant_names, Outcome, SkipOut,
};
use crate::value::{opts_v, value_v, values_v, Value};
use crate::value::{lemma_values_v_index, lemma_values_v_push};

verus! {

/// An owned copy of an identifier.
fn dup_ident(id: &Ident) -> (r: Ident)
    ensures
        r.deep_view() == id.deep_view(),
{
    match id {
        Ident::Ordinal(o) => Ident::Ordinal(*o),
        Ident::Name(s) => Ident::Name(s.clone()),
        Ident::Raw(b) => {
            let mut copy: Vec<u8> = Vec::new();
            let mut j: usize = 0;
            while j < b.len()
                invariant
                    j <= b.len(),
                    copy@ =~= b@.subrange(0, j as int),
                decreases b.len() - j,
            {
                copy.push(b[j]);
                j = j + 1;
            }
            assert(copy@ =~= b@);
            Ident::Raw(copy)
        },
    }
}

/// Whether a byte vector equals a byte slice, as sequences.
fn bytes_eq(a: &Vec<u8>, b: &[u8]) -> (r: bool)
    ensures
        r == (a@ == b@),
{
    if a.len() != b.len() {
        assert(a@.len() != b@.len());
        return false;
    }
    let mut j: usize = 0;
    while j < a.len()
        invariant
            j <= a.len(),
            a@.len() == b@.len(),
            forall|i: int| 0 <= i < j ==> a@[i] == b@[i],
        decreases a.len() - j,
    {
        if a[j] != b[j] {
            return false;
        }
        j = j + 1;
    }
    assert(a@ =~= b@);
    true
}

/// Skip one complete value.
fn skip_at(events: &Vec<Event>, pos: usize) -> (r: Result<usize, FormatError>)
    requires
        pos <= events.len(),
    ensures
        match skip(events.deep_view(), pos as nat) {
            SkipOut::At(p) => r is Ok && r->Ok_0 == p && p <= events.len(),
            SkipOut::Bad(f) => r is Err && r->Err_0 == f,
        },
    decreases events.deep_view().len() - pos, 0int,
{
    if pos >= events.len() {
        return Err(FormatError::EndOfInput);
    }
    match &events[pos] {
        Event::SeqStart(hint) => match hint {
            Some(n) => skip_n_at(events, pos + 1, *n),
            None => skip_until_at(events, pos + 1, false),
        },
        Event::MapStart(hint) => match hint {
            Some(n) => skip_pairs_at(events, pos + 1, *n),
            None => skip_until_at(events, pos + 1, true),
        },
        Event::SeqEnd => Err(FormatError::UnexpectedEvent),
        Event::MapEnd => Err(FormatError::UnexpectedEvent),
        _ => Ok(pos + 1),
    }
}

/// Skip `count` values in a row.
fn skip_n_at(events: &Vec<Event>, pos: usize, count: usize) -> (r: Result<usize, FormatError>)
    requires
        pos <= events.len(),
    ensures
        match skip_n(events.deep_view(), pos as nat, count as nat) {
            SkipOut::At(p) => r is Ok && r->Ok_0 == p && p <= events.len(),
            SkipOut::Bad(f) => r is Err && r->Err_0 == f,
        },
    decreases events.deep_view().len() - pos, 1int,
{
    if count == 0 {
        return Ok(pos);
    }
    match skip_at(events, pos) {
        Err(f) => Err(f),
        Ok(p2) => if p2 <= pos {
            Err(FormatError::UnexpectedEvent)
        } else {
            skip_n_at(events, p2, count - 1)
        },
    }
}

/// Skip `count` key/value entries in a row.
fn skip_pairs_at(events: &Vec<Event>, pos: usize, count: usize) -> (r: Result<
    usize,
    FormatError,
>)
    requires
        pos <= events.len(),
    ensures
        match skip_pairs(events.deep_view(), pos as nat, count as nat) {
            SkipOut::At(p) => r is Ok && r->Ok_0 == p && p <= events.len(),
            SkipOut::Bad(f) => r is Err && r->Err_0 == f,
        },
    decreases events.deep_view().len() - pos, 1int,
{
    if count == 0 {
        return Ok(pos);
    }
    match skip_at(events, pos) {
        Err(f) => Err(f),
        Ok(p2) => if p2 <= pos {
            Err(FormatError::UnexpectedEvent)
        } else {
            match skip_at(events, p2) {
                Err(f) => Err(f),
                Ok(p3) => if p3 <= p2 {
                    Err(FormatError::UnexpectedEvent)
                } else {
                    skip_pairs_at(events, p3, count - 1)
                },
            }
        },
    }
}

/// Skip values until the end marker of a delimited region closes it.
fn skip_until_at(events: &Vec<Event>, pos: usize, map_region: bool) -> (r: Result<
    usize,
    FormatError,
>)
    requires
        pos <= events.len(),
    ensures
        match skip_until(events.deep_view(), pos as nat, map_region) {
            SkipOut::At(p) => r is Ok && r->Ok_0 == p && p <= events.len(),
            SkipOut::Bad(f) => r is Err && r->Err_0 == f,
        },
    decreases events.deep_view().len() - pos, 1int,
{
    if pos >= events.len() {
        return Err(FormatError::EndOfInput);
    }
    let at_marker = match &events[pos] {
        Event::MapEnd => map_region,
        Event::SeqEnd => !map_region,
        _ => false,
    };
    if at_marker {
        return Ok(pos + 1);
    }
    match skip_at(events, pos) {
        Err(f) => Err(f),
        Ok(p2) => if p2 <= pos {
            Err(FormatError::UnexpectedEvent)
        } else {
            skip_until_at(events, p2, map_region)
        },
    }
}

/// Resolve a key identifier against the declared field names.
fn resolve_field(fields: &Vec<FieldSpec>, id: &Ident) -> (r: Option<usize>)
    ensures
        ({
            let names = field_names(fields_v(fields@));
            match resolve(names, id.deep_view()) {
                Some(i) => r == Some(i as usize) && 0 <= i < fields@.len(),
                None => r is None,
            }
        }),
{
    proof {
        lemma_fields_v_index(fields@);
        assert(field_names(fields_v(fields@)).len() == fields@.len());
    }
    let ghost names = field_names(fields_v(fields@));
    match id {
        Ident::Ordinal(o) => {
            if *o < fields.len() as u64 {
                Some(*o as usize)
            } else {
                None
            }
        },
        Ident::Name(s) => {
            let mut j: usize = 0;
            while j < fields.len()
                invariant
                    j <= fields.len(),
                    names == field_names(fields_v(fields@)),
                    names.len() == fields@.len(),
                    forall|i: int| 0 <= i < fields@.len() ==> names[i] == #[trigger] fields@[i].name@,
                    find_name(names, s@, 0) == find_name(names, s@, j as nat),
                    id.deep_view() == IdentV::Name(s@),
                decreases fields.len() - j,
            {
                if fields[j].name == *s {
                    proof {
                        assert(id.deep_view() == IdentV::Name(s@));
                        assert(names[j as int] == s@);
                        assert(find_name(names, s@, j as nat) == Some(j as int));
                    }
                    return Some(j);
                }
                j = j + 1;
            }
            None
        },
        Ident::Raw(b) => {
            let mut j: usize = 0;
            while j < fields.len()
                invariant
                    j <= fields.len(),
                    names == field_names(fields_v(fields@)),
                    names.len() == fields@.len(),
                    forall|i: int| 0 <= i < fields@.len() ==> names[i] == #[trigger] fields@[i].name@,
                    find_raw(names, b@, 0) == find_raw(names, b@, j as nat),
                    id.deep_view() == IdentV::Raw(b@),
                decreases fields.len() - j,
            {
                if bytes_eq(b, fields[j].name.as_str().as_bytes()) {
                    proof {
                        assert(id.deep_view() == IdentV::Raw(b@));
                        assert(encode_utf8(names[j as int]) == b@);
                        assert(find_raw(names, b@, j as nat) == Some(j as int));
                    }
                    return Some(j);
                }
                j = j + 1;
            }
            None
        },
    }
}

/// Resolve a discriminant identifier against the declared variant names.
fn resolve_variant(variants: &Vec<VariantSpec>, id: &Ident) -> (r: Option<usize>)
    ensures
        ({
            let names = variant_names(variants_v(variants@));
            match resolve(names, id.deep_view()) {
                Some(i) => r == Some(i as usize) && 0 <= i < variants@.len(),
                None => r is None,
            }
        }),
{
    proof {
        lemma_variants_v_index(variants@);
        assert(variant_names(variants_v(variants@)).len() == variants@.len());
    }
    let ghost names = variant_names(variants_v(variants@));
    match id {
        Ident::Ordinal(o) => {
            if *o < variants.len() as u64 {
                Some(*o as usize)
            } else {
                None
            }
        },
        Ident::Name(s) => {
            let mut j: usize = 0;
            while j < variants.len()
                invariant
                    j <= variants.len(),
                    names == variant_names(variants_v(variants@)),
                    names.len() == variants@.len(),
                    forall|i: int|
                        0 <= i < variants@.len() ==> names[i] == #[trigger] variants@[i].name@,
                    find_name(names, s@, 0) == find_name(names, s@, j as nat),
                    id.deep_view() == IdentV::Name(s@),
                decreases variants.len() - j,
            {
                if variants[j].name == *s {
                    proof {
                        assert(id.deep_view() == IdentV::Name(s@));
                        assert(names[j as int] == s@);
                        assert(find_name(names, s@, j as nat) == Some(j as int));
                    }
                    return Some(j);
                }
                j = j + 1;
            }
            None
        },
        Ident::Raw(b) => {
            let mut j: usize = 0;
            while j < variants.len()
                invariant
                    j <= variants.len(),
                    names == variant_names(variants_v(variants@)),
                    names.len() == variants@.len(),
                    forall|i: int|
                        0 <= i < variants@.len() ==> names[i] == #[trigger] variants@[i].name@,
                    find_raw(names, b@, 0) == find_raw(names, b@, j as nat),
                    id.deep_view() == IdentV::Raw(b@),
                decreases variants.len() - j,
            {
                if bytes_eq(b, variants[j].name.as_str().as_bytes()) {
                    proof {
                        assert(id.deep_view() == IdentV::Raw(b@));
                        assert(encode_utf8(names[j as int]) == b@);
                        assert(find_raw(names, b@, j as nat) == Some(j as int));
                    }
                    return Some(j);
                }
                j = j + 1;
            }
            None
        },
    }
}

/// An owned list of the declared variant names, for the unknown-variant error.
fn variant_name_list(variants: &Vec<VariantSpec>) -> (r: Vec<String>)
    ensures
        r.deep_view() == variant_names(variants_v(variants@)),
{
    proof {
        lemma_variants_v_index(variants@);
    }
    let mut r: Vec<String> = Vec::new();
    let mut j: usize = 0;
    while j < variants.len()
        invariant
            j <= variants.len(),
            r@.len() == j,
            forall|i: int| 0 <= i < j ==> #[trigger] r@[i]@ == variants@[i].name@,
        decreases variants.len() - j,
    {
        r.push(variants[j].name.clone());
        j = j + 1;
    }
    proof {
        assert(r.deep_view() =~= variant_names(variants_v(variants@)));
    }
    r
}

/// A vector of `n` empty field slots.
fn make_unset(n: usize) -> (r: Vec<Option<Value>>)
    ensures
        r@.len() == n,
        opts_v(r@) == Seq::new(n as nat, |i: int| None::<crate::value::ValueV>),
{
    let mut r: Vec<Option<Value>> = Vec::new();
    let mut j: usize = 0;
    while j < n
        invariant
            j <= n,
            r@.len() == j,
            forall|i: int| 0 <= i < j ==> #[trigger] r@[i] is None,
        decreases n - j,
    {
        r.push(None);
        j = j + 1;
    }
    proof {
        assert(opts_v(r@) =~= Seq::new(n as nat, |i: int| None::<crate::value::ValueV>));
    }
    r
}

/// Decode one value with `seed` at `pos`.
fn decode_at(seed: &Seed, events: &Vec<Event>, pos: usize) -> (r: Result<(Value, usize), Error>)
    requires
        pos <= events.len(),
    ensures
        match dec(seed_v(*seed), events.deep_view(), pos as nat) {
            Outcome::Done(v, p) => r is Ok && value_v(r->Ok_0.0) == v && r->Ok_0.1 == p
                && r->Ok_0.1 <= events.len(),
            Outcome::Fail(e) => r is Err && r->Err_0.deep_view() == e,
        },
    decreases events.deep_view().len() - pos, *seed, 0int,
{
    if pos >= events.len() {
        return Err(Error::Collaborator(FormatError::EndOfInput));
    }
    match seed {
        Seed::Unsigned => match &events[pos] {
            Event::Unsigned(u) => Ok((Value::Unsigned(*u), pos + 1)),
            _ => Err(Error::Collaborator(FormatError::UnexpectedEvent)),
        },
        Seed::Signed => match &events[pos] {
            Event::Signed(i) => Ok((Value::Signed(*i), pos + 1)),
            _ => Err(Error::Collaborator(FormatError::UnexpectedEvent)),
        },
        Seed::Text => match &events[pos] {
            Event::Text(s) => Ok((Value::Text(s.clone()), pos + 1)),
            _ => Err(Error::Collaborator(FormatError::UnexpectedEvent)),
        },
        Seed::DependentTuple(first, d) => decode_tuple_at(first, d, events, pos),
        Seed::Sequence(st) => match decode_sequence_at(st, events, pos) {
            Ok((vs, p2)) => Ok((Value::List(vs), p2)),
            Err(e) => Err(e),
        },
        Seed::Counted(want, elem) => decode_counted_at(elem, *want, events, pos),
        Seed::Record(fields) => match decode_record_at(fields, events, pos) {
            Ok((vs, p2)) => Ok((Value::Record(vs), p2)),
            Err(e) => Err(e),
        },
        Seed::Union(variants) => decode_union_at(variants, events, pos),
    }
}

/// Decode a dependent tuple region: the first element's value picks the
/// second element's strategy; only the second value is the result.
fn decode_tuple_at(first: &Seed, d: &Derivation, events: &Vec<Event>, pos: usize) -> (r: Result<
    (Value, usize),
    Error,
>)
    requires
        pos <= events.len(),
    ensures
        match dec(
            crate::seed::SeedV::DependentTuple(Box::new(seed_v(*first)), derivation_v(*d)),
            events.deep_view(),
            pos as nat,
        ) {
            Outcome::Done(v, p) => r is Ok && value_v(r->Ok_0.0) == v && r->Ok_0.1 == p
                && r->Ok_0.1 <= events.len(),
            Outcome::Fail(e) => r is Err && r->Err_0.deep_view() == e,
        },
    decreases events.deep_view().len() - pos, *first, 2int,
{
    if pos >= events.len() {
        return Err(Error::Collaborator(FormatError::EndOfInput));
    }
    match &events[pos] {
        Event::SeqStart(h) => decode_tuple_first(first, d, *h, events, pos + 1),
        _ => Err(Error::Collaborator(FormatError::UnexpectedEvent)),
    }
}

/// The body of a dependent tuple region, after its opening event.
fn decode_tuple_first(
    first: &Seed,
    d: &Derivation,
    hint: Option<usize>,
    events: &Vec<Event>,
    pos: usize,
) -> (r: Result<(Value, usize), Error>)
    requires
        pos <= events.len(),
    ensures
        match dec_tuple_first(seed_v(*first), derivation_v(*d), hint, events.deep_view(),
            pos as nat) {
            Outcome::Done(v, p) => r is Ok && value_v(r->Ok_0.0) == v && r->Ok_0.1 == p
                && r->Ok_0.1 <= events.len(),
            Outcome::Fail(e) => r is Err && r->Err_0.deep_view() == e,
        },
    decreases events.deep_view().len() - pos, *first, 1int,
{
    let missing0 = match hint {
        Some(n) => n == 0,
        None => if pos < events.len() {
            matches!(&events[pos], Event::SeqEnd)
        } else {
            false
        },
    };
    if missing0 {
        return Err(Error::InvalidLength(0, 2));
    }
    if pos >= events.len() {
        return Err(Error::Collaborator(FormatError::EndOfInput));
    }
    match decode_at(first, events, pos) {
        Err(e) => Err(e),
        Ok((a, p1)) => {
            if p1 <= pos {
                return Err(Error::Collaborator(FormatError::UnexpectedEvent));
            }
            let missing1 = match hint {
                Some(n) => n == 1,
                None => if p1 < events.len() {
                    matches!(&events[p1], Event::SeqEnd)
                } else {
                    false
                },
            };
            if missing1 {
                return Err(Error::InvalidLength(1, 2));
            }
            let second_result = match d {
                Derivation::Constant(second) => decode_at(second, events, p1),
                Derivation::ElementCount(elem) => match &a {
                    Value::Unsigned(n) => decode_counted_at(elem, *n, events, p1),
                    _ => {
                        return Err(Error::Collaborator(FormatError::UnexpectedEvent));
                    },
                },
            };
            match second_result {
                Err(e) => Err(e),
                Ok((b, p2)) => match hint {
                    Some(_) => Ok((b, p2)),
                    None => {
                        if p2 >= events.len() {
                            return Err(Error::Collaborator(FormatError::EndOfInput));
                        }
                        match &events[p2] {
                            Event::SeqEnd => Ok((b, p2 + 1)),
                            _ => Err(Error::Collaborator(FormatError::UnexpectedEvent)),
                        }
                    },
                },
            }
        },
    }
}

/// Decode a sequence region with a stream of per-element seeds.
fn decode_sequence_at(st: &SeedStream, events: &Vec<Event>, pos: usize) -> (r: Result<
    (Vec<Value>, usize),
    Error,
>)
    requires
        pos <= events.len(),
    ensures
        match dec(crate::seed::SeedV::Sequence(stream_v(*st)), events.deep_view(), pos as nat) {
            Outcome::Done(v, p) => r is Ok && crate::value::ValueV::List(values_v(r->Ok_0.0@))
                == v && r->Ok_0.1 == p && r->Ok_0.1 <= events.len(),
            Outcome::Fail(e) => r is Err && r->Err_0.deep_view() == e,
        },
    decreases events.deep_view().len() - pos, *st, 2int,
{
    if pos >= events.len() {
        return Err(Error::Collaborator(FormatError::EndOfInput));
    }
    match &events[pos] {
        Event::SeqStart(h) => decode_elems(st, events, pos + 1, 0, *h, Vec::new()),
        _ => Err(Error::Collaborator(FormatError::UnexpectedEvent)),
    }
}

/// The element loop of a sequence region: draw the next seed, probe for the
/// next element, fold it in.
fn decode_elems(
    st: &SeedStream,
    events: &Vec<Event>,
    pos: usize,
    k: usize,
    remaining: Option<usize>,
    acc: Vec<Value>,
) -> (r: Result<(Vec<Value>, usize), Error>)
    requires
        pos <= events.len(),
        k <= pos,
    ensures
        match dec_elems(stream_v(*st), events.deep_view(), pos as nat, k as nat, remaining,
            values_v(acc@)) {
            Outcome::Done(v, p) => r is Ok && crate::value::ValueV::List(values_v(r->Ok_0.0@))
                == v && r->Ok_0.1 == p && r->Ok_0.1 <= events.len(),
            Outcome::Fail(e) => r is Err && r->Err_0.deep_view() == e,
        },
    decreases events.deep_view().len() - pos, *st, 1int,
{
    let elem: &Seed = match st {
        SeedStream::Repeat(e) => e,
        SeedStream::Exactly(seeds) => {
            proof {
                lemma_seeds_v_index(seeds@);
            }
            if k >= seeds.len() {
                return Err(
                    Error::InvalidLength(k as u64, if k == 0 { 0 } else { (k - 1) as u64 }),
                );
            }
            &seeds[k]
        },
        SeedStream::Bounded(n, e) => {
            if k as u64 >= *n {
                return Err(
                    Error::InvalidLength(k as u64, if k == 0 { 0 } else { (k - 1) as u64 }),
                );
            }
            e
        },
    };
    proof {
        assert(stream_nth(stream_v(*st), k as nat) == Some(seed_v(*elem)));
    }
    let ended = match remaining {
        Some(r) => r == 0,
        None => if pos < events.len() {
            matches!(&events[pos], Event::SeqEnd)
        } else {
            false
        },
    };
    if ended {
        let p2 = match remaining {
            Some(_) => pos,
            None => pos + 1,
        };
        return Ok((acc, p2));
    }
    if pos >= events.len() {
        return Err(Error::Collaborator(FormatError::EndOfInput));
    }
    match decode_at(elem, events, pos) {
        Err(e) => Err(e),
        Ok((v, p2)) => {
            if p2 <= pos {
                return Err(Error::Collaborator(FormatError::UnexpectedEvent));
            }
            proof {
                lemma_values_v_push(acc@, v);
            }
            let mut acc2 = acc;
            acc2.push(v);
            decode_elems(
                st,
                events,
                p2,
                k + 1,
                match remaining {
                    Some(r) => Some(r - 1),
                    None => None,
                },
                acc2,
            )
        },
    }
}

/// Decode a counted sequence region: exactly `want` elements.
fn decode_counted_at(elem: &Seed, want: u64, events: &Vec<Event>, pos: usize) -> (r: Result<
    (Value, usize),
    Error,
>)
    requires
        pos <= events.len(),
    ensures
        match dec(crate::seed::SeedV::Counted(want, Box::new(seed_v(*elem))), events.deep_view(),
            pos as nat) {
            Outcome::Done(v, p) => r is Ok && value_v(r->Ok_0.0) == v && r->Ok_0.1 == p
                && r->Ok_0.1 <= events.len(),
            Outcome::Fail(e) => r is Err && r->Err_0.deep_view() == e,
        },
    decreases events.deep_view().len() - pos, *elem, 2int,
{
    if pos >= events.len() {
        return Err(Error::Collaborator(FormatError::EndOfInput));
    }
    match &events[pos] {
        Event::SeqStart(h) => decode_counted(elem, want, events, pos + 1, 0, *h, Vec::new()),
        _ => Err(Error::Collaborator(FormatError::UnexpectedEvent)),
    }
}

/// The element loop of a counted sequence region.
fn decode_counted(
    elem: &Seed,
    want: u64,
    events: &Vec<Event>,
    pos: usize,
    k: usize,
    remaining: Option<usize>,
    acc: Vec<Value>,
) -> (r: Result<(Value, usize), Error>)
    requires
        pos <= events.len(),
        k <= pos,
    ensures
        match dec_counted(seed_v(*elem), want, events.deep_view(), pos as nat, k as nat,
            remaining, values_v(acc@)) {
            Outcome::Done(v, p) => r is Ok && value_v(r->Ok_0.0) == v && r->Ok_0.1 == p
                && r->Ok_0.1 <= events.len(),
            Outcome::Fail(e) => r is Err && r->Err_0.deep_view() == e,
        },
    decreases events.deep_view().len() - pos, *elem, 3int,
{
    if k as u64 > want {
        return Err(Error::InvalidLength(k as u64, want));
    }
    let ended = match remaining {
        Some(r) => r == 0,
        None => if pos < events.len() {
            matches!(&events[pos], Event::SeqEnd)
        } else {
            false
        },
    };
    if ended {
        let p2 = match remaining {
            Some(_) => pos,
            None => pos + 1,
        };
        if k as u64 == want {
            return Ok((Value::List(acc), p2));
        }
        return Err(Error::InvalidLength(k as u64, want));
    }
    if pos >= events.len() {
        return Err(Error::Collaborator(FormatError::EndOfInput));
    }
    match decode_at(elem, events, pos) {
        Err(e) => Err(e),
        Ok((v, p2)) => {
            if p2 <= pos {
                return Err(Error::Collaborator(FormatError::UnexpectedEvent));
            }
            proof {
                lemma_values_v_push(acc@, v);
            }
            let mut acc2 = acc;
            acc2.push(v);
            decode_counted(
                elem,
                want,
                events,
                p2,
                k + 1,
                match remaining {
                    Some(r) => Some(r - 1),
                    None => None,
                },
                acc2,
            )
        },
    }
}

/// Decode a record region, positionally or by key as the input presents it.
fn decode_record_at(fields: &Vec<FieldSpec>, events: &Vec<Event>, pos: usize) -> (r: Result<
    (Vec<Value>, usize),
    Error,
>)
    requires
        pos <= events.len(),
    ensures
        match dec(crate::seed::SeedV::Record(fields_v(fields@)), events.deep_view(), pos as nat) {
            Outcome::Done(v, p) => r is Ok && crate::value::ValueV::Record(values_v(r->Ok_0.0@))
                == v && r->Ok_0.1 == p && r->Ok_0.1 <= events.len(),
            Outcome::Fail(e) => r is Err && r->Err_0.deep_view() == e,
        },
    decreases events.deep_view().len() - pos, *fields, 2int,
{
    proof {
        lemma_fields_v_index(fields@);
    }
    if pos >= events.len() {
        return Err(Error::Collaborator(FormatError::EndOfInput));
    }
    match &events[pos] {
        Event::SeqStart(h) => decode_fields(fields, events, pos + 1, 0, *h, Vec::new()),
        Event::MapStart(h) => {
            let seen = make_unset(fields.len());
            decode_assoc(fields, events, pos + 1, *h, seen)
        },
        _ => Err(Error::Collaborator(FormatError::UnexpectedEvent)),
    }
}

/// The field loop of a positional record region: field `i` next.
fn decode_fields(
    fields: &Vec<FieldSpec>,
    events: &Vec<Event>,
    pos: usize,
    i: usize,
    remaining: Option<usize>,
    acc: Vec<Value>,
) -> (r: Result<(Vec<Value>, usize), Error>)
    requires
        pos <= events.len(),
    ensures
        match dec_fields(fields_v(fields@), events.deep_view(), pos as nat, i as nat, remaining,
            values_v(acc@)) {
            Outcome::Done(v, p) => r is Ok && crate::value::ValueV::Record(values_v(r->Ok_0.0@))
                == v && r->Ok_0.1 == p && r->Ok_0.1 <= events.len(),
            Outcome::Fail(e) => r is Err && r->Err_0.deep_view() == e,
        },
    decreases events.deep_view().len() - pos, *fields, 1int,
{
    proof {
        lemma_fields_v_index(fields@);
    }
    if i >= fields.len() {
        match remaining {
            Some(_) => {
                return Ok((acc, pos));
            },
            None => {
                if pos >= events.len() {
                    return Err(Error::Collaborator(FormatError::EndOfInput));
                }
                match &events[pos] {
                    Event::SeqEnd => {
                        return Ok((acc, pos + 1));
                    },
                    _ => {
                        return Err(Error::Collaborator(FormatError::UnexpectedEvent));
                    },
                }
            },
        }
    }
    let missing = match remaining {
        Some(r) => r == 0,
        None => if pos < events.len() {
            matches!(&events[pos], Event::SeqEnd)
        } else {
            false
        },
    };
    if missing {
        return Err(Error::InvalidLength(i as u64, fields.len() as u64));
    }
    if pos >= events.len() {
        return Err(Error::Collaborator(FormatError::EndOfInput));
    }
    match decode_at(&fields[i].seed, events, pos) {
        Err(e) => Err(e),
        Ok((v, p2)) => {
            if p2 <= pos {
                return Err(Error::Collaborator(FormatError::UnexpectedEvent));
            }
            proof {
                lemma_values_v_push(acc@, v);
            }
            let mut acc2 = acc;
            acc2.push(v);
            decode_fields(
                fields,
                events,
                p2,
                i + 1,
                match remaining {
                    Some(r) => Some(r - 1),
                    None => None,
                },
                acc2,
            )
        },
    }
}

/// Close an associative record region: report the first missing field, or
/// hand out the decoded field values in declaration order.
fn assoc_finish(fields: &Vec<FieldSpec>, seen: Vec<Option<Value>>, p2: usize) -> (r: Result<
    (Vec<Value>, usize),
    Error,
>)
    requires
        seen@.len() == fields@.len(),
    ensures
        match first_unset(opts_v(seen@), 0) {
            Some(i) => r is Err && r->Err_0.deep_view() == crate::error::ErrorV::MissingField(
                fields_v(fields@)[i].name,
            ),
            None => r is Ok && values_v(r->Ok_0.0@) == Seq::new(
                opts_v(seen@).len(),
                |i: int| opts_v(seen@)[i]->Some_0,
            ) && r->Ok_0.1 == p2,
        },
{
    proof {
        lemma_fields_v_index(fields@);
    }
    let ghost opts = opts_v(seen@);
    let mut j: usize = 0;
    while j < seen.len()
        invariant
            j <= seen.len(),
            opts == opts_v(seen@),
            opts.len() == seen@.len(),
            seen@.len() == fields@.len(),
            first_unset(opts, 0) == first_unset(opts, j as nat),
            forall|i: int| 0 <= i < fields@.len() ==> fields_v(fields@)[i] == crate::seed::field_v(
                #[trigger] fields@[i],
            ),
        decreases seen.len() - j,
    {
        if seen[j].is_none() {
            proof {
                assert(opts[j as int] is None);
                assert(first_unset(opts, j as nat) == Some(j as int));
            }
            return Err(Error::MissingField(fields[j].name.clone()));
        }
        j = j + 1;
    }
    proof {
        assert(first_unset(opts, j as nat) is None);
        lemma_first_unset_none(opts, 0);
        assert forall|i: int| 0 <= i < seen@.len() implies seen@[i] is Some by {
            assert(opts[i] == (match seen@[i] {
                Some(v) => Some(value_v(v)),
                None => None::<crate::value::ValueV>,
            }));
        }
    }
    let ghost seen0 = seen@;
    let mut seen = seen;
    let mut vals: Vec<Value> = Vec::new();
    while seen.len() > 0
        invariant
            opts == opts_v(seen0),
            vals@.len() + seen@.len() == seen0.len(),
            seen@ =~= seen0.subrange(vals@.len() as int, seen0.len() as int),
            forall|i: int| 0 <= i < seen0.len() ==> #[trigger] seen0[i] is Some,
            forall|i: int| 0 <= i < vals@.len() ==> value_v(#[trigger] vals@[i]) == opts[i]->Some_0,
        decreases seen.len(),
    {
        proof {
            lemma_values_v_push(vals@, seen@[0]->Some_0);
            assert(seen@[0] == seen0[vals@.len() as int]);
            assert(opts[vals@.len() as int] == (match seen0[vals@.len() as int] {
                Some(v) => Some(value_v(v)),
                None => None::<crate::value::ValueV>,
            }));
        }
        match seen.remove(0) {
            Some(v) => {
                vals.push(v);
            },
            None => {
                // Unreachable: the loop above returned on the first empty slot.
                proof {
                    assert(false);
                }
                return Err(Error::Collaborator(FormatError::UnexpectedEvent));
            },
        }
    }
    proof {
        lemma_values_v_index(vals@);
        assert(values_v(vals@).len() == opts.len());
        assert forall|i: int| 0 <= i < opts.len() implies values_v(vals@)[i] == opts[i]->Some_0 by {
            assert(values_v(vals@)[i] == value_v(vals@[i]));
        }
        assert(values_v(vals@) =~= Seq::new(opts.len(), |i: int| opts[i]->Some_0));
    }
    Ok((vals, p2))
}

/// The entry loop of an associative record region: resolve each key, decode
/// known fields, skip unknown ones, reject duplicates.
fn decode_assoc(
    fields: &Vec<FieldSpec>,
    events: &Vec<Event>,
    pos: usize,
    remaining: Option<usize>,
    seen: Vec<Option<Value>>,
) -> (r: Result<(Vec<Value>, usize), Error>)
    requires
        pos <= events.len(),
        seen@.len() == fields@.len(),
    ensures
        match dec_assoc(fields_v(fields@), events.deep_view(), pos as nat, remaining,
            opts_v(seen@)) {
            Outcome::Done(v, p) => r is Ok && crate::value::ValueV::Record(values_v(r->Ok_0.0@))
                == v && r->Ok_0.1 == p && r->Ok_0.1 <= events.len(),
            Outcome::Fail(e) => r is Err && r->Err_0.deep_view() == e,
        },
    decreases events.deep_view().len() - pos, *fields, 1int,
{
    proof {
        lemma_fields_v_index(fields@);
    }
    let ended = match remaining {
        Some(r) => r == 0,
        None => if pos < events.len() {
            matches!(&events[pos], Event::MapEnd)
        } else {
            false
        },
    };
    if ended {
        let p2 = match remaining {
            Some(_) => pos,
            None => pos + 1,
        };
        return assoc_finish(fields, seen, p2);
    }
    if pos >= events.len() {
        return Err(Error::Collaborator(FormatError::EndOfInput));
    }
    match &events[pos] {
        Event::Key(id) => {
            proof {
                assert(events.deep_view()[pos as int] == EventV::Key(id.deep_view()));
            }
            let next_remaining = match remaining {
                Some(r) => Some(r - 1),
                None => None,
            };
            match resolve_field(fields, id) {
                Some(i) => {
                    proof {
                        assert(fields@.len() == fields.len());
                        assert(fields_v(fields@)[i as int].seed == seed_v(fields@[i as int].seed));
                        assert(resolve(field_names(fields_v(fields@)), id.deep_view())
                            == Some(i as int));
                        assert(opts_v(seen@)[i as int] == (match seen@[i as int] {
                            Some(v) => Some(value_v(v)),
                            None => None::<crate::value::ValueV>,
                        }));
                    }
                    if seen[i].is_some() {
                        return Err(Error::DuplicateField(fields[i].name.clone()));
                    }
                    match decode_at(&fields[i].seed, events, pos + 1) {
                        Err(e) => Err(e),
                        Ok((v, p2)) => {
                            if p2 <= pos {
                                return Err(Error::Collaborator(FormatError::UnexpectedEvent));
                            }
                            let ghost old_opts = opts_v(seen@);
                            let mut seen2 = seen;
                            seen2.set(i, Some(v));
                            proof {
                                assert(opts_v(seen2@) =~= old_opts.update(
                                    i as int,
                                    Some(value_v(v)),
                                ));
                            }
                            decode_assoc(fields, events, p2, next_remaining, seen2)
                        },
                    }
                },
                None => match skip_at(events, pos + 1) {
                    Err(f) => Err(Error::Collaborator(f)),
                    Ok(p2) => {
                        if p2 <= pos {
                            return Err(Error::Collaborator(FormatError::UnexpectedEvent));
                        }
                        decode_assoc(fields, events, p2, next_remaining, seen)
                    },
                },
            }
        },
        _ => Err(Error::Collaborator(FormatError::UnexpectedEvent)),
    }
}

/// Decode a tagged union: resolve the discriminant, decode the selected
/// variant's payload, and wrap it as that case.
fn decode_union_at(variants: &Vec<VariantSpec>, events: &Vec<Event>, pos: usize) -> (r: Result<
    (Value, usize),
    Error,
>)
    requires
        pos <= events.len(),
    ensures
        match dec(crate::seed::SeedV::Union(variants_v(variants@)), events.deep_view(),
            pos as nat) {
            Outcome::Done(v, p) => r is Ok && value_v(r->Ok_0.0) == v && r->Ok_0.1 == p
                && r->Ok_0.1 <= events.len(),
            Outcome::Fail(e) => r is Err && r->Err_0.deep_view() == e,
        },
    decreases events.deep_view().len() - pos, *variants, 2int,
{
    proof {
        lemma_variants_v_index(variants@);
    }
    if pos >= events.len() {
        return Err(Error::Collaborator(FormatError::EndOfInput));
    }
    match &events[pos] {
        Event::Key(id) => {
            proof {
                assert(events.deep_view()[pos as int] == EventV::Key(id.deep_view()));
            }
            match resolve_variant(variants, id) {
            Some(i) => {
                proof {
                    assert(variants@.len() == variants.len());
                    assert(variants_v(variants@)[i as int].seed == seed_v(variants@[i as int].seed));
                    assert(resolve(variant_names(variants_v(variants@)), id.deep_view())
                        == Some(i as int));
                }
                match decode_at(&variants[i].seed, events, pos + 1) {
                    Err(e) => Err(e),
                    Ok((p, p2)) => {
                        proof {
                            assert(dec(variants_v(variants@)[i as int].seed, events.deep_view(),
                                (pos + 1) as nat) == Outcome::Done(value_v(p), p2 as nat));
                            assert(value_v(Value::Case(i, Box::new(p))) == crate::value::ValueV::Case(
                                i,
                                Box::new(value_v(p)),
                            ));
                        }
                        Ok((Value::Case(i, Box::new(p)), p2))
                    },
                }
            },
            None => Err(Error::UnknownVariant(dup_ident(id), variant_name_list(variants))),
            }
        },
        _ => Err(Error::Collaborator(FormatError::UnexpectedEvent)),
    }
}

/// Decode one value with `seed` from the context. On success the cursor
/// stands just past the value; on failure it is unchanged and no value is
/// produced.
pub fn decode(seed: &Seed, ctx: &mut Context) -> (r: Result<Value, Error>)
    requires
        old(ctx).wf(),
    ensures
        final(ctx).wf(),
        final(ctx).stream() == old(ctx).stream(),
        match dec(seed_v(*seed), old(ctx).stream(), old(ctx).cursor()) {
            Outcome::Done(v, p) => r is Ok && value_v(r->Ok_0) == v && final(ctx).cursor() == p,
            Outcome::Fail(e) => r is Err && r->Err_0.deep_view() == e && final(ctx).cursor()
                == old(ctx).cursor(),
        },
{
    match decode_at(seed, &ctx.events, ctx.pos) {
        Ok((v, p2)) => {
            ctx.pos = p2;
            Ok(v)
        },
        Err(e) => Err(e),
    }
}

/// Decode a dependent tuple from the context: element 0 with `first`, then
/// element 1 with the strategy the derivation computes from element 0's
/// value. Only element 1's value is returned; a caller who needs the first
/// value folds it into the derivation or the result.
pub fn decode_dependent_tuple(first: &Seed, derive: &Derivation, ctx: &mut Context) -> (r: Result<
    Value,
    Error,
>)
    requires
        old(ctx).wf(),
    ensures
        final(ctx).wf(),
        final(ctx).stream() == old(ctx).stream(),
        match dec(
            crate::seed::SeedV::DependentTuple(Box::new(seed_v(*first)), derivation_v(*derive)),
            old(ctx).stream(),
            old(ctx).cursor(),
        ) {
            Outcome::Done(v, p) => r is Ok && value_v(r->Ok_0) == v && final(ctx).cursor() == p,
            Outcome::Fail(e) => r is Err && r->Err_0.deep_view() == e && final(ctx).cursor()
                == old(ctx).cursor(),
        },
{
    match decode_tuple_at(first, derive, &ctx.events, ctx.pos) {
        Ok((v, p2)) => {
            ctx.pos = p2;
            Ok(v)
        },
        Err(e) => Err(e),
    }
}

/// Decode a sequence from the context, pairing each element with the next
/// seed drawn from the stream. The stream must be able to supply one seed
/// more than the input has elements: the boundary is only discovered by a
/// probe, and a stream of `k` seeds fails on any input of `k` or more
/// elements.
pub fn decode_sequence(stream: &SeedStream, ctx: &mut Context) -> (r: Result<Vec<Value>, Error>)
    requires
        old(ctx).wf(),
    ensures
        final(ctx).wf(),
        final(ctx).stream() == old(ctx).stream(),
        match dec(crate::seed::SeedV::Sequence(stream_v(*stream)), old(ctx).stream(),
            old(ctx).cursor()) {
            Outcome::Done(v, p) => r is Ok && crate::value::ValueV::List(values_v(r->Ok_0@)) == v
                && final(ctx).cursor() == p,
            Outcome::Fail(e) => r is Err && r->Err_0.deep_view() == e && final(ctx).cursor()
                == old(ctx).cursor(),
        },
{
    match decode_sequence_at(stream, &ctx.events, ctx.pos) {
        Ok((vs, p2)) => {
            ctx.pos = p2;
            Ok(vs)
        },
        Err(e) => Err(e),
    }
}

/// Decode a record from the context, from either physical representation:
/// positionally from a sequence region, or by out-of-order key from a map
/// region. The field values come back in declaration order either way.
pub fn decode_record(fields: &Vec<FieldSpec>, ctx: &mut Context) -> (r: Result<Vec<Value>, Error>)
    requires
        old(ctx).wf(),
    ensures
        final(ctx).wf(),
        final(ctx).stream() == old(ctx).stream(),
        match dec(crate::seed::SeedV::Record(fields_v(fields@)), old(ctx).stream(),
            old(ctx).cursor()) {
            Outcome::Done(v, p) => r is Ok && crate::value::ValueV::Record(values_v(r->Ok_0@))
                == v && final(ctx).cursor() == p,
            Outcome::Fail(e) => r is Err && r->Err_0.deep_view() == e && final(ctx).cursor()
                == old(ctx).cursor(),
        },
{
    match decode_record_at(fields, &ctx.events, ctx.pos) {
        Ok((vs, p2)) => {
            ctx.pos = p2;
            Ok(vs)
        },
        Err(e) => Err(e),
    }
}

/// Decode a tagged union from the context: one discriminant, then exactly
/// the selected variant's payload. An unresolved discriminant is always
/// fatal.
pub fn decode_union(variants: &Vec<VariantSpec>, ctx: &mut Context) -> (r: Result<Value, Error>)
    requires
        old(ctx).wf(),
    ensures
        final(ctx).wf(),
        final(ctx).stream() == old(ctx).stream(),
        match dec(crate::seed::SeedV::Union(variants_v(variants@)), old(ctx).stream(),
            old(ctx).cursor()) {
            Outcome::Done(v, p) => r is Ok && value_v(r->Ok_0) == v && final(ctx).cursor() == p,
            Outcome::Fail(e) => r is Err && r->Err_0.deep_view() == e && final(ctx).cursor()
                == old(ctx).cursor(),
        },
{
    match decode_union_at(variants, &ctx.events, ctx.pos) {
        Ok((v, p2)) => {
            ctx.pos = p2;
            Ok(v)
        },
        Err(e) => Err(e),
    }
}

} // verus!
