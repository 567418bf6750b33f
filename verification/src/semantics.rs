//! The mathematical semantics of decoding: a total function from a strategy,
//! an event stream and a cursor position to an outcome.
//!
//! Every executable decoder is proved to return exactly what these functions
//! say. The semantics follows the probing discipline throughout: a seed is
//! drawn from its supply before the context is asked whether another element
//! exists, so a supply of `k` seeds can finish a sequence of at most `k - 1`
//! elements.

use vstd::prelude::*;
use vstd::utf8::encode_utf8;
use crate::error::{ErrorV, FormatError};
use crate::event::{EventV, IdentV};
use crate::seed::{DerivationV, FieldSpecV, SeedV, StreamV, VariantSpecV};
use crate::value::ValueV;

verus! {

/// The outcome of one decode: the value together with the cursor position
/// after it, or the error that aborted it.
pub enum Outcome {
    Done(ValueV, nat),
    Fail(ErrorV),
}

/// The outcome of skipping one unknown value: the cursor position after it,
/// or the context error that made skipping impossible.
pub enum SkipOut {
    At(nat),
    Bad(FormatError),
}

/// The seed that a stream supplies for the element with index `k`, if any.
pub open spec fn stream_nth(st: StreamV, k: nat) -> Option<SeedV> {
    match st {
        StreamV::Repeat(elem) => Some(*elem),
        StreamV::Exactly(seeds) => if k < seeds.len() {
            Some(seeds[k as int])
        } else {
            None
        },
        StreamV::Bounded(n, elem) => if k < n {
            Some(*elem)
        } else {
            None
        },
    }
}

/// The first index at or after `j` whose name equals `s`, if any.
pub open spec fn find_name(names: Seq<Seq<char>>, s: Seq<char>, j: nat) -> Option<int>
    decreases names.len() - j,
{
    if j >= names.len() {
        None
    } else if names[j as int] == s {
        Some(j as int)
    } else {
        find_name(names, s, (j + 1) as nat)
    }
}

/// The first index at or after `j` whose name has UTF-8 bytes `b`, if any.
pub open spec fn find_raw(names: Seq<Seq<char>>, b: Seq<u8>, j: nat) -> Option<int>
    decreases names.len() - j,
{
    if j >= names.len() {
        None
    } else if encode_utf8(names[j as int]) == b {
        Some(j as int)
    } else {
        find_raw(names, b, (j + 1) as nat)
    }
}

/// The declaration index an identifier resolves to, if any: an ordinal names
/// the index directly, a name or raw identifier the first declaration it
/// matches. All three forms go through the same mapping.
pub open spec fn resolve(names: Seq<Seq<char>>, id: IdentV) -> Option<int> {
    match id {
        IdentV::Ordinal(o) => if (o as int) < names.len() {
            Some(o as int)
        } else {
            None
        },
        IdentV::Name(s) => find_name(names, s, 0),
        IdentV::Raw(b) => find_raw(names, b, 0),
    }
}

/// The names of a record's fields, in declaration order.
pub open spec fn field_names(fields: Seq<FieldSpecV>) -> Seq<Seq<char>> {
    fields.map(|i: int, f: FieldSpecV| f.name)
}

/// The names of a union's variants, in declaration order.
pub open spec fn variant_names(variants: Seq<VariantSpecV>) -> Seq<Seq<char>> {
    variants.map(|i: int, v: VariantSpecV| v.name)
}

/// The first field index not yet decoded, if any.
pub open spec fn first_unset(seen: Seq<Option<ValueV>>, j: nat) -> Option<int>
    decreases seen.len() - j,
{
    if j >= seen.len() {
        None
    } else if seen[j as int] is None {
        Some(j as int)
    } else {
        first_unset(seen, (j + 1) as nat)
    }
}

/// When no field is reported missing, every field was decoded.
pub proof fn lemma_first_unset_none(seen: Seq<Option<ValueV>>, j: nat)
    ensures
        first_unset(seen, j) is None ==> forall|i: int| j <= i < seen.len() ==> seen[i] is Some,
    decreases seen.len() - j,
{
    if j < seen.len() {
        lemma_first_unset_none(seen, (j + 1) as nat);
    }
}

/// Skip one complete value starting at `pos`: the recovery path for an
/// unknown record key, which is discarded rather than decoded.
pub open spec fn skip(evs: Seq<EventV>, pos: nat) -> SkipOut
    decreases evs.len() - pos, 0int,
{
    if pos >= evs.len() {
        SkipOut::Bad(FormatError::EndOfInput)
    } else {
        match evs[pos as int] {
            EventV::SeqStart(hint) => match hint {
                Some(n) => skip_n(evs, (pos + 1) as nat, n as nat),
                None => skip_until(evs, (pos + 1) as nat, false),
            },
            EventV::MapStart(hint) => match hint {
                Some(n) => skip_pairs(evs, (pos + 1) as nat, n as nat),
                None => skip_until(evs, (pos + 1) as nat, true),
            },
            EventV::SeqEnd => SkipOut::Bad(FormatError::UnexpectedEvent),
            EventV::MapEnd => SkipOut::Bad(FormatError::UnexpectedEvent),
            _ => SkipOut::At((pos + 1) as nat),
        }
    }
}

/// Skip `count` values in a row.
pub open spec fn skip_n(evs: Seq<EventV>, pos: nat, count: nat) -> SkipOut
    decreases evs.len() - pos, 1int,
{
    if count == 0 {
        SkipOut::At(pos)
    } else {
        match skip(evs, pos) {
            SkipOut::Bad(f) => SkipOut::Bad(f),
            SkipOut::At(p2) => if p2 <= pos || p2 > evs.len() {
                SkipOut::Bad(FormatError::UnexpectedEvent)
            } else {
                skip_n(evs, p2, (count - 1) as nat)
            },
        }
    }
}

/// Skip `count` key/value entries in a row.
pub open spec fn skip_pairs(evs: Seq<EventV>, pos: nat, count: nat) -> SkipOut
    decreases evs.len() - pos, 1int,
{
    if count == 0 {
        SkipOut::At(pos)
    } else {
        match skip(evs, pos) {
            SkipOut::Bad(f) => SkipOut::Bad(f),
            SkipOut::At(p2) => if p2 <= pos || p2 > evs.len() {
                SkipOut::Bad(FormatError::UnexpectedEvent)
            } else {
                match skip(evs, p2) {
                    SkipOut::Bad(f) => SkipOut::Bad(f),
                    SkipOut::At(p3) => if p3 <= p2 || p3 > evs.len() {
                        SkipOut::Bad(FormatError::UnexpectedEvent)
                    } else {
                        skip_pairs(evs, p3, (count - 1) as nat)
                    },
                }
            },
        }
    }
}

/// Skip values until the matching end marker of a delimited region closes it.
pub open spec fn skip_until(evs: Seq<EventV>, pos: nat, map_region: bool) -> SkipOut
    decreases evs.len() - pos, 1int,
{
    if pos >= evs.len() {
        SkipOut::Bad(FormatError::EndOfInput)
    } else if (map_region && evs[pos as int] is MapEnd) || (!map_region && evs[pos as int]
        is SeqEnd) {
        SkipOut::At((pos + 1) as nat)
    } else {
        match skip(evs, pos) {
            SkipOut::Bad(f) => SkipOut::Bad(f),
            SkipOut::At(p2) => if p2 <= pos || p2 > evs.len() {
                SkipOut::Bad(FormatError::UnexpectedEvent)
            } else {
                skip_until(evs, p2, map_region)
            },
        }
    }
}

/// Decode one value with `seed` at `pos`.
pub open spec fn dec(seed: SeedV, evs: Seq<EventV>, pos: nat) -> Outcome
    decreases evs.len() - pos, seed, 0int,
{
    if pos >= evs.len() {
        Outcome::Fail(ErrorV::Collaborator(FormatError::EndOfInput))
    } else {
        match seed {
            SeedV::Unsigned => match evs[pos as int] {
                EventV::Unsigned(u) => Outcome::Done(ValueV::Unsigned(u), (pos + 1) as nat),
                _ => Outcome::Fail(ErrorV::Collaborator(FormatError::UnexpectedEvent)),
            },
            SeedV::Signed => match evs[pos as int] {
                EventV::Signed(i) => Outcome::Done(ValueV::Signed(i), (pos + 1) as nat),
                _ => Outcome::Fail(ErrorV::Collaborator(FormatError::UnexpectedEvent)),
            },
            SeedV::Text => match evs[pos as int] {
                EventV::Text(s) => Outcome::Done(ValueV::Text(s), (pos + 1) as nat),
                _ => Outcome::Fail(ErrorV::Collaborator(FormatError::UnexpectedEvent)),
            },
            SeedV::DependentTuple(first, d) => match evs[pos as int] {
                EventV::SeqStart(hint) => dec_tuple_first(*first, d, hint, evs, (pos + 1) as nat),
                _ => Outcome::Fail(ErrorV::Collaborator(FormatError::UnexpectedEvent)),
            },
            SeedV::Sequence(st) => match evs[pos as int] {
                EventV::SeqStart(hint) => dec_elems(
                    st,
                    evs,
                    (pos + 1) as nat,
                    0,
                    hint,
                    Seq::empty(),
                ),
                _ => Outcome::Fail(ErrorV::Collaborator(FormatError::UnexpectedEvent)),
            },
            SeedV::Counted(want, elem) => match evs[pos as int] {
                EventV::SeqStart(hint) => dec_counted(
                    *elem,
                    want,
                    evs,
                    (pos + 1) as nat,
                    0,
                    hint,
                    Seq::empty(),
                ),
                _ => Outcome::Fail(ErrorV::Collaborator(FormatError::UnexpectedEvent)),
            },
            SeedV::Record(fields) => match evs[pos as int] {
                EventV::SeqStart(hint) => dec_fields(
                    fields,
                    evs,
                    (pos + 1) as nat,
                    0,
                    hint,
                    Seq::empty(),
                ),
                EventV::MapStart(hint) => dec_assoc(
                    fields,
                    evs,
                    (pos + 1) as nat,
                    hint,
                    Seq::new(fields.len(), |i: int| None),
                ),
                _ => Outcome::Fail(ErrorV::Collaborator(FormatError::UnexpectedEvent)),
            },
            SeedV::Union(variants) => match evs[pos as int] {
                EventV::Key(id) => match resolve(variant_names(variants), id) {
                    Some(i) => match dec(variants[i].seed, evs, (pos + 1) as nat) {
                        Outcome::Done(p, p2) => Outcome::Done(
                            ValueV::Case(i as usize, Box::new(p)),
                            p2,
                        ),
                        Outcome::Fail(e) => Outcome::Fail(e),
                    },
                    None => Outcome::Fail(
                        ErrorV::UnknownVariant(id, variant_names(variants)),
                    ),
                },
                _ => Outcome::Fail(ErrorV::Collaborator(FormatError::UnexpectedEvent)),
            },
        }
    }
}

/// Decode the first element of a dependent tuple region, derive the second
/// strategy from its value, decode the second element, and close the region.
/// Only the second value is the result.
pub open spec fn dec_tuple_first(
    first: SeedV,
    d: DerivationV,
    hint: Option<usize>,
    evs: Seq<EventV>,
    pos: nat,
) -> Outcome
    decreases evs.len() - pos, first, 1int,
{
    let missing0 = match hint {
        Some(n) => n == 0,
        None => pos < evs.len() && evs[pos as int] is SeqEnd,
    };
    if missing0 {
        Outcome::Fail(ErrorV::InvalidLength(0, 2))
    } else if pos >= evs.len() {
        Outcome::Fail(ErrorV::Collaborator(FormatError::EndOfInput))
    } else {
        match dec(first, evs, pos) {
            Outcome::Fail(e) => Outcome::Fail(e),
            Outcome::Done(a, p1) => if p1 <= pos || p1 > evs.len() {
                Outcome::Fail(ErrorV::Collaborator(FormatError::UnexpectedEvent))
            } else {
                let missing1 = match hint {
                    Some(n) => n == 1,
                    None => p1 < evs.len() && evs[p1 as int] is SeqEnd,
                };
                if missing1 {
                    Outcome::Fail(ErrorV::InvalidLength(1, 2))
                } else {
                    let derived = match d {
                        DerivationV::Constant(second) => Some(*second),
                        DerivationV::ElementCount(elem) => match a {
                            ValueV::Unsigned(n) => Some(SeedV::Counted(n, elem)),
                            _ => None,
                        },
                    };
                    match derived {
                        None => Outcome::Fail(
                            ErrorV::Collaborator(FormatError::UnexpectedEvent),
                        ),
                        Some(second) => match dec(second, evs, p1) {
                            Outcome::Fail(e) => Outcome::Fail(e),
                            Outcome::Done(b, p2) => match hint {
                                Some(n) => Outcome::Done(b, p2),
                                None => if p2 >= evs.len() {
                                    Outcome::Fail(
                                        ErrorV::Collaborator(FormatError::EndOfInput),
                                    )
                                } else if evs[p2 as int] is SeqEnd {
                                    Outcome::Done(b, (p2 + 1) as nat)
                                } else {
                                    Outcome::Fail(
                                        ErrorV::Collaborator(FormatError::UnexpectedEvent),
                                    )
                                },
                            },
                        },
                    }
                }
            },
        }
    }
}

/// Decode the elements of a sequence region, drawing the seed for each
/// element from the stream before asking whether the element exists.
/// `k` elements are already in `acc`; `remaining` is the region's element
/// count still to come where the format announced one.
pub open spec fn dec_elems(
    st: StreamV,
    evs: Seq<EventV>,
    pos: nat,
    k: nat,
    remaining: Option<usize>,
    acc: Seq<ValueV>,
) -> Outcome
    decreases evs.len() - pos, st, 1int,
{
    match stream_nth(st, k) {
        None => Outcome::Fail(
            ErrorV::InvalidLength(k as u64, if k == 0 { 0 } else { (k - 1) as u64 }),
        ),
        Some(elem) => {
            let ended = match remaining {
                Some(r) => r == 0,
                None => pos < evs.len() && evs[pos as int] is SeqEnd,
            };
            if ended {
                match remaining {
                    Some(r) => Outcome::Done(ValueV::List(acc), pos),
                    None => Outcome::Done(ValueV::List(acc), (pos + 1) as nat),
                }
            } else if pos >= evs.len() {
                Outcome::Fail(ErrorV::Collaborator(FormatError::EndOfInput))
            } else {
                match dec(elem, evs, pos) {
                    Outcome::Fail(e) => Outcome::Fail(e),
                    Outcome::Done(v, p2) => if p2 <= pos || p2 > evs.len() {
                        Outcome::Fail(ErrorV::Collaborator(FormatError::UnexpectedEvent))
                    } else {
                        dec_elems(
                            st,
                            evs,
                            p2,
                            k + 1,
                            match remaining {
                                Some(r) => Some((r - 1) as usize),
                                None => None,
                            },
                            acc.push(v),
                        )
                    },
                }
            }
        }
    }
}

/// Decode the elements of a counted sequence region: exactly `want` elements,
/// each with the same strategy, with a seed budget of `want + 1` so that the
/// boundary probe is always possible. Any other element count is an error.
pub open spec fn dec_counted(
    elem: SeedV,
    want: u64,
    evs: Seq<EventV>,
    pos: nat,
    k: nat,
    remaining: Option<usize>,
    acc: Seq<ValueV>,
) -> Outcome
    decreases evs.len() - pos, elem, 1int,
{
    if k > want {
        Outcome::Fail(ErrorV::InvalidLength(k as u64, want))
    } else {
        let ended = match remaining {
            Some(r) => r == 0,
            None => pos < evs.len() && evs[pos as int] is SeqEnd,
        };
        if ended {
            let p2 = match remaining {
                Some(r) => pos,
                None => (pos + 1) as nat,
            };
            if k == want {
                Outcome::Done(ValueV::List(acc), p2)
            } else {
                Outcome::Fail(ErrorV::InvalidLength(k as u64, want))
            }
        } else if pos >= evs.len() {
            Outcome::Fail(ErrorV::Collaborator(FormatError::EndOfInput))
        } else {
            match dec(elem, evs, pos) {
                Outcome::Fail(e) => Outcome::Fail(e),
                Outcome::Done(v, p2) => if p2 <= pos || p2 > evs.len() {
                    Outcome::Fail(ErrorV::Collaborator(FormatError::UnexpectedEvent))
                } else {
                    dec_counted(
                        elem,
                        want,
                        evs,
                        p2,
                        k + 1,
                        match remaining {
                            Some(r) => Some((r - 1) as usize),
                            None => None,
                        },
                        acc.push(v),
                    )
                },
            }
        }
    }
}

/// Decode a record from a sequence region: field `i` next, in declaration
/// order. A region with fewer elements than fields is an error; elements
/// beyond the declared fields are never read.
pub open spec fn dec_fields(
    fields: Seq<FieldSpecV>,
    evs: Seq<EventV>,
    pos: nat,
    i: nat,
    remaining: Option<usize>,
    acc: Seq<ValueV>,
) -> Outcome
    decreases evs.len() - pos, fields, 1int,
{
    if i >= fields.len() {
        match remaining {
            Some(r) => Outcome::Done(ValueV::Record(acc), pos),
            None => if pos >= evs.len() {
                Outcome::Fail(ErrorV::Collaborator(FormatError::EndOfInput))
            } else if evs[pos as int] is SeqEnd {
                Outcome::Done(ValueV::Record(acc), (pos + 1) as nat)
            } else {
                Outcome::Fail(ErrorV::Collaborator(FormatError::UnexpectedEvent))
            },
        }
    } else {
        let missing = match remaining {
            Some(r) => r == 0,
            None => pos < evs.len() && evs[pos as int] is SeqEnd,
        };
        if missing {
            Outcome::Fail(ErrorV::InvalidLength(i as u64, fields.len() as u64))
        } else if pos >= evs.len() {
            Outcome::Fail(ErrorV::Collaborator(FormatError::EndOfInput))
        } else {
            match dec(fields[i as int].seed, evs, pos) {
                Outcome::Fail(e) => Outcome::Fail(e),
                Outcome::Done(v, p2) => if p2 <= pos || p2 > evs.len() {
                    Outcome::Fail(ErrorV::Collaborator(FormatError::UnexpectedEvent))
                } else {
                    dec_fields(
                        fields,
                        evs,
                        p2,
                        i + 1,
                        match remaining {
                            Some(r) => Some((r - 1) as usize),
                            None => None,
                        },
                        acc.push(v),
                    )
                },
            }
        }
    }
}

/// Decode a record from a map region: keys in any order, each resolved
/// through the field-name mapping. An unknown key is skipped with its value;
/// a key seen twice or a field never seen is an error. The result does not
/// depend on the physical key order.
pub open spec fn dec_assoc(
    fields: Seq<FieldSpecV>,
    evs: Seq<EventV>,
    pos: nat,
    remaining: Option<usize>,
    seen: Seq<Option<ValueV>>,
) -> Outcome
    decreases evs.len() - pos, fields, 1int,
{
    let ended = match remaining {
        Some(r) => r == 0,
        None => pos < evs.len() && evs[pos as int] is MapEnd,
    };
    if ended {
        let p2 = match remaining {
            Some(r) => pos,
            None => (pos + 1) as nat,
        };
        match first_unset(seen, 0) {
            Some(i) => Outcome::Fail(ErrorV::MissingField(fields[i].name)),
            None => Outcome::Done(
                ValueV::Record(Seq::new(seen.len(), |i: int| seen[i]->Some_0)),
                p2,
            ),
        }
    } else if pos >= evs.len() {
        Outcome::Fail(ErrorV::Collaborator(FormatError::EndOfInput))
    } else {
        match evs[pos as int] {
            EventV::Key(id) => {
                let next_remaining = match remaining {
                    Some(r) => Some((r - 1) as usize),
                    None => None,
                };
                match resolve(field_names(fields), id) {
                    Some(i) => if seen[i] is Some {
                        Outcome::Fail(ErrorV::DuplicateField(fields[i].name))
                    } else {
                        match dec(fields[i].seed, evs, (pos + 1) as nat) {
                            Outcome::Fail(e) => Outcome::Fail(e),
                            Outcome::Done(v, p2) => if p2 <= pos || p2 > evs.len() {
                                Outcome::Fail(
                                    ErrorV::Collaborator(FormatError::UnexpectedEvent),
                                )
                            } else {
                                dec_assoc(
                                    fields,
                                    evs,
                                    p2,
                                    next_remaining,
                                    seen.update(i, Some(v)),
                                )
                            },
                        }
                    },
                    None => match skip(evs, (pos + 1) as nat) {
                        SkipOut::Bad(f) => Outcome::Fail(ErrorV::Collaborator(f)),
                        SkipOut::At(p2) => if p2 <= pos || p2 > evs.len() {
                            Outcome::Fail(ErrorV::Collaborator(FormatError::UnexpectedEvent))
                        } else {
                            dec_assoc(fields, evs, p2, next_remaining, seen)
                        },
                    },
                }
            },
            _ => Outcome::Fail(ErrorV::Collaborator(FormatError::UnexpectedEvent)),
        }
    }
}

} // verus!
