use feanor_serde::decode::{
    decode, decode_dependent_tuple, decode_record, decode_sequence, decode_union,
};
use feanor_serde::encode::{encode, SerializableSeq};
use feanor_serde::error::{Error, FormatError};
use feanor_serde::event::{Context, Event, Ident};
use feanor_serde::seed::{Derivation, FieldSpec, Seed, SeedStream, VariantSpec};
use feanor_serde::value::Value;

fn signed_list(xs: &[i64]) -> Vec<Value> {
    xs.iter().map(|x| Value::Signed(*x)).collect()
}

fn signed_seeds(n: usize) -> SeedStream {
    SeedStream::Exactly((0..n).map(|_| Seed::Signed).collect())
}

#[test]
fn seed_supply_of_input_length_fails() {
    // A supply of exactly k seeds cannot finish a k-element input: the
    // boundary probe needs one more seed.
    for hinted in [false, true] {
        let mut ctx = Context::new(encode(&Value::List(signed_list(&[1, 3])), hinted));
        let result = decode_sequence(&signed_seeds(2), &mut ctx);
        assert_eq!(Err(Error::InvalidLength(2, 1)), result);
    }
}

#[test]
fn seed_supply_one_longer_succeeds() {
    for hinted in [false, true] {
        let mut ctx = Context::new(encode(&Value::List(signed_list(&[1, 3])), hinted));
        let result = decode_sequence(&signed_seeds(3), &mut ctx);
        assert_eq!(Ok(signed_list(&[1, 3])), result);
    }
}

#[test]
fn empty_seed_supply_fails_even_on_empty_input() {
    for hinted in [false, true] {
        let mut ctx = Context::new(encode(&Value::List(Vec::new()), hinted));
        let result = decode_sequence(&signed_seeds(0), &mut ctx);
        assert_eq!(Err(Error::InvalidLength(0, 0)), result);
    }
}

#[test]
fn bounded_stream_behaves_like_exact_supply() {
    let mut ctx = Context::new(encode(&Value::List(signed_list(&[1, 3])), true));
    let result = decode_sequence(&SeedStream::Bounded(2, Box::new(Seed::Signed)), &mut ctx);
    assert_eq!(Err(Error::InvalidLength(2, 1)), result);
}

#[test]
fn end_to_end_count_mismatch_fails() {
    // The length field says three, the input holds two.
    for hinted in [false, true] {
        let mut events = vec![
            Event::SeqStart(if hinted { Some(2) } else { None }),
            Event::Unsigned(3),
        ];
        events.extend(encode(&Value::List(signed_list(&[10, 20])), hinted));
        if !hinted {
            events.push(Event::SeqEnd);
        }
        let mut ctx = Context::new(events);
        let result = decode_dependent_tuple(
            &Seed::Unsigned,
            &Derivation::ElementCount(Box::new(Seed::Signed)),
            &mut ctx,
        );
        assert_eq!(Err(Error::InvalidLength(2, 3)), result);
    }
}

#[test]
fn counted_too_many_elements_fails() {
    let mut ctx = Context::new(encode(&Value::List(signed_list(&[1, 2, 3])), true));
    let result = decode(&Seed::Counted(2, Box::new(Seed::Signed)), &mut ctx);
    assert_eq!(Err(Error::InvalidLength(3, 2)), result);
}

#[test]
fn empty_tuple_region_fails() {
    let mut ctx = Context::new(vec![Event::SeqStart(Some(0))]);
    let result = decode_dependent_tuple(
        &Seed::Unsigned,
        &Derivation::Constant(Box::new(Seed::Signed)),
        &mut ctx,
    );
    assert_eq!(Err(Error::InvalidLength(0, 2)), result);
}

#[test]
fn one_element_tuple_region_fails() {
    let mut ctx = Context::new(vec![Event::SeqStart(Some(1)), Event::Unsigned(5)]);
    let result = decode_dependent_tuple(
        &Seed::Unsigned,
        &Derivation::Constant(Box::new(Seed::Signed)),
        &mut ctx,
    );
    assert_eq!(Err(Error::InvalidLength(1, 2)), result);
}

fn ab_fields() -> Vec<FieldSpec> {
    vec![
        FieldSpec { name: String::from("a"), seed: Seed::Signed },
        FieldSpec { name: String::from("b"), seed: Seed::Text },
    ]
}

#[test]
fn associative_order_does_not_matter() {
    let forward = vec![
        Event::MapStart(None),
        Event::Key(Ident::Name(String::from("a"))),
        Event::Signed(42),
        Event::Key(Ident::Name(String::from("b"))),
        Event::Text(String::from("x")),
        Event::MapEnd,
    ];
    let backward = vec![
        Event::MapStart(None),
        Event::Key(Ident::Name(String::from("b"))),
        Event::Text(String::from("x")),
        Event::Key(Ident::Name(String::from("a"))),
        Event::Signed(42),
        Event::MapEnd,
    ];
    let mut ctx1 = Context::new(forward);
    let mut ctx2 = Context::new(backward);
    let r1 = decode_record(&ab_fields(), &mut ctx1).unwrap();
    let r2 = decode_record(&ab_fields(), &mut ctx2).unwrap();
    assert_eq!(r1, r2);
    assert_eq!(vec![Value::Signed(42), Value::Text(String::from("x"))], r1);
}

#[test]
fn positional_rejects_permuted_fields() {
    // Positional representation requires declared order: a text value where
    // the first field's scalar belongs is the collaborator's type mismatch.
    let events = vec![
        Event::SeqStart(Some(2)),
        Event::Text(String::from("x")),
        Event::Signed(42),
    ];
    let mut ctx = Context::new(events);
    let result = decode_record(&ab_fields(), &mut ctx);
    assert_eq!(Err(Error::Collaborator(FormatError::UnexpectedEvent)), result);
}

#[test]
fn duplicate_field_is_rejected() {
    let events = vec![
        Event::MapStart(None),
        Event::Key(Ident::Name(String::from("a"))),
        Event::Signed(1),
        Event::Key(Ident::Name(String::from("a"))),
        Event::Signed(2),
        Event::MapEnd,
    ];
    let mut ctx = Context::new(events);
    let result = decode_record(&ab_fields(), &mut ctx);
    assert_eq!(Err(Error::DuplicateField(String::from("a"))), result);
}

#[test]
fn missing_field_is_rejected() {
    let events = vec![
        Event::MapStart(None),
        Event::Key(Ident::Name(String::from("a"))),
        Event::Signed(1),
        Event::MapEnd,
    ];
    let mut ctx = Context::new(events);
    let result = decode_record(&ab_fields(), &mut ctx);
    assert_eq!(Err(Error::MissingField(String::from("b"))), result);
}

#[test]
fn unknown_field_is_skipped() {
    // An unrecognized key alongside all required fields is ignored, even
    // when its value is a whole nested region.
    let events = vec![
        Event::MapStart(None),
        Event::Key(Ident::Name(String::from("c"))),
        Event::SeqStart(None),
        Event::Signed(7),
        Event::Signed(8),
        Event::SeqEnd,
        Event::Key(Ident::Name(String::from("a"))),
        Event::Signed(42),
        Event::Key(Ident::Name(String::from("b"))),
        Event::Text(String::from("x")),
        Event::MapEnd,
    ];
    let mut ctx = Context::new(events);
    let result = decode_record(&ab_fields(), &mut ctx).unwrap();
    assert_eq!(vec![Value::Signed(42), Value::Text(String::from("x"))], result);
}

fn ab_variants() -> Vec<VariantSpec> {
    vec![
        VariantSpec { name: String::from("A"), seed: Seed::Signed },
        VariantSpec { name: String::from("B"), seed: Seed::Text },
    ]
}

#[test]
fn enum_roundtrip_by_name() {
    let events = vec![
        Event::Key(Ident::Name(String::from("B"))),
        Event::Text(String::from("hello")),
    ];
    let mut ctx = Context::new(events);
    let result = decode_union(&ab_variants(), &mut ctx).unwrap();
    assert_eq!(Value::Case(1, Box::new(Value::Text(String::from("hello")))), result);
}

#[test]
fn out_of_range_ordinal_is_unknown_variant() {
    let events = vec![Event::Key(Ident::Ordinal(2)), Event::Signed(1)];
    let mut ctx = Context::new(events);
    let result = decode_union(&ab_variants(), &mut ctx);
    assert_eq!(
        Err(Error::UnknownVariant(
            Ident::Ordinal(2),
            vec![String::from("A"), String::from("B")],
        )),
        result
    );
}

#[test]
fn unknown_name_is_unknown_variant() {
    let events = vec![
        Event::Key(Ident::Name(String::from("C"))),
        Event::Signed(1),
    ];
    let mut ctx = Context::new(events);
    let result = decode_union(&ab_variants(), &mut ctx);
    assert_eq!(
        Err(Error::UnknownVariant(
            Ident::Name(String::from("C")),
            vec![String::from("A"), String::from("B")],
        )),
        result
    );
}

#[test]
fn truncated_input_is_collaborator_error() {
    let mut ctx = Context::new(Vec::new());
    assert_eq!(
        Err(Error::Collaborator(FormatError::EndOfInput)),
        decode(&Seed::Unsigned, &mut ctx)
    );
    assert_eq!(0, ctx.pos);
}

#[test]
fn wrong_event_kind_is_collaborator_error() {
    let mut ctx = Context::new(vec![Event::Text(String::from("nope"))]);
    assert_eq!(
        Err(Error::Collaborator(FormatError::UnexpectedEvent)),
        decode(&Seed::Unsigned, &mut ctx)
    );
}

#[test]
fn cursor_stays_on_failure_and_moves_on_success() {
    let mut ctx = Context::new(vec![Event::Unsigned(5), Event::Unsigned(6)]);
    assert!(decode(&Seed::Text, &mut ctx).is_err());
    assert_eq!(0, ctx.pos);
    assert_eq!(Ok(Value::Unsigned(5)), decode(&Seed::Unsigned, &mut ctx));
    assert_eq!(1, ctx.pos);
    assert_eq!(Ok(Value::Unsigned(6)), decode(&Seed::Unsigned, &mut ctx));
    assert!(ctx.at_end());
}

#[test]
fn hinted_serializable_seq_decodes_after_other_data() {
    // The cursor picks up wherever the previous decode ended.
    let mut events = vec![Event::Unsigned(1)];
    events.extend(SerializableSeq::new_with_len(signed_list(&[8]), 1).serialize());
    let mut ctx = Context::new(events);
    assert_eq!(Ok(Value::Unsigned(1)), decode(&Seed::Unsigned, &mut ctx));
    assert_eq!(
        Ok(signed_list(&[8])),
        decode_sequence(&SeedStream::Repeat(Box::new(Seed::Signed)), &mut ctx)
    );
    assert!(ctx.at_end());
}

#[test]
fn unknown_field_with_hinted_regions_is_skipped() {
    // A hinted map region: the entry count stands in the hint and there is
    // no end marker. The unknown key's value is itself a hinted region.
    let events = vec![
        Event::MapStart(Some(3)),
        Event::Key(Ident::Name(String::from("c"))),
        Event::SeqStart(Some(2)),
        Event::Signed(7),
        Event::Signed(8),
        Event::Key(Ident::Name(String::from("b"))),
        Event::Text(String::from("x")),
        Event::Key(Ident::Name(String::from("a"))),
        Event::Signed(42),
    ];
    let mut ctx = Context::new(events);
    let result = decode_record(&ab_fields(), &mut ctx).unwrap();
    assert_eq!(vec![Value::Signed(42), Value::Text(String::from("x"))], result);
    assert!(ctx.at_end());
}
