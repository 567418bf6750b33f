//! Seeds: one-shot decoding strategies, assembled at run time.
//!
//! A seed directs how the next value is read from the context. Composite
//! seeds nest: a dependent tuple carries the strategy for its first element
//! and a derivation that turns the decoded first value into the strategy for
//! the second; a sequence carries a stream of per-element strategies; records
//! and unions carry per-field and per-variant strategies.

use vstd::prelude::*;

verus! {

/// A supply of per-element seeds for a sequence decode, finite or infinite.
///
/// A sequence of `k` elements consumes `k + 1` seeds: the decoder must always
/// be willing to attempt one more element to discover the boundary, so the
/// last seed drawn is spent on the probe that detects the end.
#[derive(Debug)]
pub enum SeedStream {
    /// The same element strategy, endlessly.
    Repeat(Box<Seed>),
    /// Exactly these strategies, in order; drawing past the end is the
    /// under-provisioning error.
    Exactly(Vec<Seed>),
    /// The same element strategy, at most this many times.
    Bounded(u64, Box<Seed>),
}

/// A derivation: how the strategy for the second element of a dependent
/// tuple is computed from the decoded first value.
#[derive(Debug)]
pub enum Derivation {
    /// Ignore the first value and use this strategy.
    Constant(Box<Seed>),
    /// Read the first value as an element count `n` and decode a sequence of
    /// exactly `n` elements, each with this strategy. The first value must
    /// decode as an unsigned scalar.
    ElementCount(Box<Seed>),
}

/// One declared field of a record shape: its name and the strategy for its
/// value. Field order is declaration order and fixes the positional layout.
#[derive(Debug)]
pub struct FieldSpec {
    pub name: String,
    pub seed: Seed,
}

/// One declared variant of a union shape: its name and the strategy for its
/// payload. Variant order fixes the ordinal of each discriminant.
#[derive(Debug)]
pub struct VariantSpec {
    pub name: String,
    pub seed: Seed,
}

/// A decoding strategy.
#[derive(Debug)]
pub enum Seed {
    /// One unsigned scalar.
    Unsigned,
    /// One signed scalar.
    Signed,
    /// One text scalar.
    Text,
    /// A two-element tuple whose second strategy is derived from the first
    /// decoded value; only the second value is returned.
    DependentTuple(Box<Seed>, Derivation),
    /// A homogeneous sequence of a priori unknown length, one seed drawn from
    /// the stream per element plus one for the end probe.
    Sequence(SeedStream),
    /// A sequence of exactly this many elements, each decoded with the same
    /// strategy; any other length is an error.
    Counted(u64, Box<Seed>),
    /// A record, decoded positionally from a sequence region or by key from a
    /// map region.
    Record(Vec<FieldSpec>),
    /// A tagged union: a discriminant selects one variant, whose payload is
    /// then decoded.
    Union(Vec<VariantSpec>),
}

/// The mathematical model of a [`SeedStream`].
pub enum StreamV {
    Repeat(Box<SeedV>),
    Exactly(Seq<SeedV>),
    Bounded(u64, Box<SeedV>),
}

/// The mathematical model of a [`Derivation`].
pub enum DerivationV {
    Constant(Box<SeedV>),
    ElementCount(Box<SeedV>),
}

/// The mathematical model of a [`FieldSpec`].
pub struct FieldSpecV {
    pub name: Seq<char>,
    pub seed: SeedV,
}

/// The mathematical model of a [`VariantSpec`].
pub struct VariantSpecV {
    pub name: Seq<char>,
    pub seed: SeedV,
}

/// The mathematical model of a [`Seed`].
pub enum SeedV {
    Unsigned,
    Signed,
    Text,
    DependentTuple(Box<SeedV>, DerivationV),
    Sequence(StreamV),
    Counted(u64, Box<SeedV>),
    Record(Seq<FieldSpecV>),
    Union(Seq<VariantSpecV>),
}

/// The model of an executable seed.
pub open spec fn seed_v(s: Seed) -> SeedV
    decreases s,
{
    match s {
        Seed::Unsigned => SeedV::Unsigned,
        Seed::Signed => SeedV::Signed,
        Seed::Text => SeedV::Text,
        Seed::DependentTuple(first, d) => SeedV::DependentTuple(
            Box::new(seed_v(*first)),
            derivation_v(d),
        ),
        Seed::Sequence(st) => SeedV::Sequence(stream_v(st)),
        Seed::Counted(n, elem) => SeedV::Counted(n, Box::new(seed_v(*elem))),
        Seed::Record(fields) => SeedV::Record(fields_v(fields@)),
        Seed::Union(variants) => SeedV::Union(variants_v(variants@)),
    }
}

/// The model of an executable seed stream.
pub open spec fn stream_v(st: SeedStream) -> StreamV
    decreases st,
{
    match st {
        SeedStream::Repeat(s) => StreamV::Repeat(Box::new(seed_v(*s))),
        SeedStream::Exactly(seeds) => StreamV::Exactly(seeds_v(seeds@)),
        SeedStream::Bounded(n, s) => StreamV::Bounded(n, Box::new(seed_v(*s))),
    }
}

/// The model of an executable derivation.
pub open spec fn derivation_v(d: Derivation) -> DerivationV
    decreases d,
{
    match d {
        Derivation::Constant(s) => DerivationV::Constant(Box::new(seed_v(*s))),
        Derivation::ElementCount(s) => DerivationV::ElementCount(Box::new(seed_v(*s))),
    }
}

/// The models of a sequence of executable seeds, elementwise.
pub open spec fn seeds_v(s: Seq<Seed>) -> Seq<SeedV>
    decreases s,
{
    if s.len() == 0 {
        Seq::empty()
    } else {
        seeds_v(s.drop_last()).push(seed_v(s.last()))
    }
}

/// The model of an executable field declaration.
pub open spec fn field_v(f: FieldSpec) -> FieldSpecV
    decreases f,
{
    FieldSpecV { name: f.name@, seed: seed_v(f.seed) }
}

/// The models of a sequence of field declarations, elementwise.
pub open spec fn fields_v(s: Seq<FieldSpec>) -> Seq<FieldSpecV>
    decreases s,
{
    if s.len() == 0 {
        Seq::empty()
    } else {
        fields_v(s.drop_last()).push(field_v(s.last()))
    }
}

/// The model of an executable variant declaration.
pub open spec fn variant_v(f: VariantSpec) -> VariantSpecV
    decreases f,
{
    VariantSpecV { name: f.name@, seed: seed_v(f.seed) }
}

/// The models of a sequence of variant declarations, elementwise.
pub open spec fn variants_v(s: Seq<VariantSpec>) -> Seq<VariantSpecV>
    decreases s,
{
    if s.len() == 0 {
        Seq::empty()
    } else {
        variants_v(s.drop_last()).push(variant_v(s.last()))
    }
}

/// `seeds_v` indexes elementwise.
pub proof fn lemma_seeds_v_index(s: Seq<Seed>)
    ensures
        seeds_v(s).len() == s.len(),
        forall|i: int| 0 <= i < s.len() ==> seeds_v(s)[i] == seed_v(#[trigger] s[i]),
    decreases s.len(),
{
    if s.len() > 0 {
        lemma_seeds_v_index(s.drop_last());
        assert forall|i: int| 0 <= i < s.len() implies seeds_v(s)[i] == seed_v(#[trigger] s[i]) by {
            if i < s.len() - 1 {
                assert(s.drop_last()[i] == s[i]);
                assert(seeds_v(s)[i] == seeds_v(s.drop_last())[i]);
            } else {
                assert(s[i] == s.last());
            }
        }
    }
}

/// `fields_v` indexes elementwise.
pub proof fn lemma_fields_v_index(s: Seq<FieldSpec>)
    ensures
        fields_v(s).len() == s.len(),
        forall|i: int| 0 <= i < s.len() ==> fields_v(s)[i] == field_v(#[trigger] s[i]),
    decreases s.len(),
{
    if s.len() > 0 {
        lemma_fields_v_index(s.drop_last());
        assert forall|i: int| 0 <= i < s.len() implies fields_v(s)[i] == field_v(#[trigger] s[i]) by {
            if i < s.len() - 1 {
                assert(s.drop_last()[i] == s[i]);
                assert(fields_v(s)[i] == fields_v(s.drop_last())[i]);
            } else {
                assert(s[i] == s.last());
            }
        }
    }
}

/// `variants_v` indexes elementwise.
pub proof fn lemma_variants_v_index(s: Seq<VariantSpec>)
    ensures
        variants_v(s).len() == s.len(),
        forall|i: int| 0 <= i < s.len() ==> variants_v(s)[i] == variant_v(#[trigger] s[i]),
    decreases s.len(),
{
    if s.len() > 0 {
        lemma_variants_v_index(s.drop_last());
        assert forall|i: int| 0 <= i < s.len() implies variants_v(s)[i] == variant_v(
            #[trigger] s[i],
        ) by {
            if i < s.len() - 1 {
                assert(s.drop_last()[i] == s[i]);
                assert(variants_v(s)[i] == variants_v(s.drop_last())[i]);
            } else {
                assert(s[i] == s.last());
            }
        }
    }
}

} // verus!
