use feanor_serde::decode::{
    decode, decode_dependent_tuple, decode_record, decode_sequence, decode_union,
};
use feanor_serde::encode::{encode, SerializableSeq};
use feanor_serde::event::{Context, Event, Ident};
use feanor_serde::seed::{Derivation, FieldSpec, Seed, SeedStream, VariantSpec};
use feanor_serde::value::Value;

fn signed_list(xs: &[i64]) -> Vec<Value> {
    xs.iter().map(|x| Value::Signed(*x)).collect()
}

fn testdata() -> Vec<Vec<i64>> {
    vec![Vec::new(), vec![1, 3], vec![1, 3, 4]]
}

#[test]
fn seq_test_serde_seq_postcard() {
    for data in testdata() {
        let wrapped = SerializableSeq::new_with_len(signed_list(&data), data.len());
        let mut ctx = Context::new(wrapped.serialize());
        let result = decode_sequence(&SeedStream::Repeat(Box::new(Seed::Signed)), &mut ctx)
            .unwrap();
        assert_eq!(signed_list(&data), result);
        assert!(ctx.at_end());
    }
}

#[test]
fn seq_test_serde_seq_json() {
    for data in testdata() {
        let wrapped = SerializableSeq::new(signed_list(&data));
        let mut ctx = Context::new(wrapped.serialize());
        let result = decode_sequence(&SeedStream::Repeat(Box::new(Seed::Signed)), &mut ctx)
            .unwrap();
        assert_eq!(signed_list(&data), result);
        assert!(ctx.at_end());
    }
}

/// The events of a two-element tuple region holding a count and a row.
fn pair_events(n: u64, row: &[i64], hinted: bool) -> Vec<Event> {
    let mut events = vec![
        Event::SeqStart(if hinted { Some(2) } else { None }),
        Event::Unsigned(n),
    ];
    events.extend(encode(&Value::List(signed_list(row)), hinted));
    if !hinted {
        events.push(Event::SeqEnd);
    }
    events
}

#[test]
fn test_serde_postcard() {
    let mut ctx = Context::new(pair_events(3, &[0, 0, 0], true));
    let result = decode_dependent_tuple(
        &Seed::Unsigned,
        &Derivation::ElementCount(Box::new(Seed::Signed)),
        &mut ctx,
    )
    .unwrap();
    assert_eq!(Value::List(signed_list(&[0, 0, 0])), result);
}

#[test]
fn test_serde_json() {
    let mut ctx = Context::new(pair_events(3, &[0, 0, 0], false));
    let result = decode_dependent_tuple(
        &Seed::Unsigned,
        &Derivation::ElementCount(Box::new(Seed::Signed)),
        &mut ctx,
    )
    .unwrap();
    assert_eq!(Value::List(signed_list(&[0, 0, 0])), result);
}

fn nested_testdata() -> Vec<Vec<i64>> {
    vec![vec![1, 2, 3, 4], vec![1, 2, 3]]
}

fn five_signed_seeds() -> Seed {
    Seed::Sequence(SeedStream::Exactly(vec![
        Seed::Signed,
        Seed::Signed,
        Seed::Signed,
        Seed::Signed,
        Seed::Signed,
    ]))
}

#[test]
fn test_deserialize_sequence_partially_json() {
    let data = nested_testdata();
    let value = Value::List(data.iter().map(|row| Value::List(signed_list(row))).collect());
    let mut ctx = Context::new(encode(&value, false));
    let result = decode_sequence(&SeedStream::Repeat(Box::new(five_signed_seeds())), &mut ctx)
        .unwrap();
    assert_eq!(
        data.iter().map(|row| Value::List(signed_list(row))).collect::<Vec<_>>(),
        result
    );
}

#[test]
fn test_deserialize_sequence_partially_postcard() {
    let data = nested_testdata();
    let value = Value::List(data.iter().map(|row| Value::List(signed_list(row))).collect());
    let mut ctx = Context::new(encode(&value, true));
    let result = decode_sequence(&SeedStream::Repeat(Box::new(five_signed_seeds())), &mut ctx)
        .unwrap();
    assert_eq!(
        data.iter().map(|row| Value::List(signed_list(row))).collect::<Vec<_>>(),
        result
    );
}

fn foo_fields() -> Vec<FieldSpec> {
    vec![
        FieldSpec { name: String::from("a"), seed: Seed::Signed },
        FieldSpec { name: String::from("b"), seed: Seed::Text },
    ]
}

#[test]
fn rust_struct_test_serde_seq_postcard() {
    // Positional representation, length announced up front.
    let events = vec![
        Event::SeqStart(Some(2)),
        Event::Signed(42),
        Event::Text(String::from("the answer")),
    ];
    let mut ctx = Context::new(events);
    let result = decode_record(&foo_fields(), &mut ctx).unwrap();
    assert_eq!(vec![Value::Signed(42), Value::Text(String::from("the answer"))], result);
}

#[test]
fn rust_struct_test_serde_seq_json() {
    // Associative representation with named keys.
    let events = vec![
        Event::MapStart(None),
        Event::Key(Ident::Name(String::from("a"))),
        Event::Signed(42),
        Event::Key(Ident::Name(String::from("b"))),
        Event::Text(String::from("the answer")),
        Event::MapEnd,
    ];
    let mut ctx = Context::new(events);
    let result = decode_record(&foo_fields(), &mut ctx).unwrap();
    assert_eq!(vec![Value::Signed(42), Value::Text(String::from("the answer"))], result);
}

fn foo_variants() -> Vec<VariantSpec> {
    vec![
        VariantSpec { name: String::from("A"), seed: Seed::Signed },
        VariantSpec { name: String::from("B"), seed: Seed::Text },
    ]
}

#[test]
fn rust_enum_test_serde_seq_postcard() {
    // Ordinal discriminant, as a binary format writes it.
    let events = vec![
        Event::Key(Ident::Ordinal(1)),
        Event::Text(String::from("the answer")),
    ];
    let mut ctx = Context::new(events);
    let result = decode_union(&foo_variants(), &mut ctx).unwrap();
    assert_eq!(Value::Case(1, Box::new(Value::Text(String::from("the answer")))), result);
}

#[test]
fn rust_enum_test_serde_seq_json() {
    // Named discriminant, as a text format writes it.
    let events = vec![
        Event::Key(Ident::Name(String::from("B"))),
        Event::Text(String::from("the answer")),
    ];
    let mut ctx = Context::new(events);
    let result = decode_union(&foo_variants(), &mut ctx).unwrap();
    assert_eq!(Value::Case(1, Box::new(Value::Text(String::from("the answer")))), result);
}

#[test]
fn raw_discriminant_resolves_by_name_bytes() {
    let events = vec![
        Event::Key(Ident::Raw(b"B".to_vec())),
        Event::Text(String::from("hello")),
    ];
    let mut ctx = Context::new(events);
    let result = decode_union(&foo_variants(), &mut ctx).unwrap();
    assert_eq!(Value::Case(1, Box::new(Value::Text(String::from("hello")))), result);
}

#[test]
fn scalar_roundtrips_both_styles() {
    for hinted in [false, true] {
        for v in [
            Value::Unsigned(7),
            Value::Signed(-5),
            Value::Text(String::from("x")),
        ] {
            let seed = match &v {
                Value::Unsigned(_) => Seed::Unsigned,
                Value::Signed(_) => Seed::Signed,
                _ => Seed::Text,
            };
            let mut ctx = Context::new(encode(&v, hinted));
            assert_eq!(v, decode(&seed, &mut ctx).unwrap());
            assert!(ctx.at_end());
        }
    }
}

#[test]
fn nested_record_roundtrip() {
    // A record holding a scalar and a counted sequence, under both styles.
    let v = Value::Record(vec![
        Value::Unsigned(9),
        Value::List(signed_list(&[4, 5])),
    ]);
    let seed = Seed::Record(vec![
        FieldSpec { name: String::from("len"), seed: Seed::Unsigned },
        FieldSpec { name: String::from("items"), seed: Seed::Counted(2, Box::new(Seed::Signed)) },
    ]);
    for hinted in [false, true] {
        let mut ctx = Context::new(encode(&v, hinted));
        assert_eq!(v, decode(&seed, &mut ctx).unwrap());
        assert!(ctx.at_end());
    }
}

#[test]
fn encode_exact_events_hinted() {
    assert_eq!(
        vec![Event::SeqStart(Some(2)), Event::Signed(1), Event::Signed(3)],
        encode(&Value::List(signed_list(&[1, 3])), true)
    );
}

#[test]
fn encode_exact_events_delimited() {
    assert_eq!(
        vec![
            Event::SeqStart(None),
            Event::Signed(1),
            Event::Signed(3),
            Event::SeqEnd,
        ],
        encode(&Value::List(signed_list(&[1, 3])), false)
    );
}

#[test]
fn serializable_seq_exact_events() {
    let wrapped = SerializableSeq::new_with_len(signed_list(&[1, 3]), 2);
    assert_eq!(
        vec![Event::SeqStart(Some(2)), Event::Signed(1), Event::Signed(3)],
        wrapped.serialize()
    );
    let wrapped = SerializableSeq::new(signed_list(&[1, 3]));
    assert_eq!(
        vec![
            Event::SeqStart(None),
            Event::Signed(1),
            Event::Signed(3),
            Event::SeqEnd,
        ],
        wrapped.serialize()
    );
}

#[test]
fn end_to_end_dependent_tuple_sequence() {
    // The composition "read a count, then that many scalars".
    for hinted in [false, true] {
        let mut ctx = Context::new(pair_events(3, &[10, 20, 30], hinted));
        let result = decode_dependent_tuple(
            &Seed::Unsigned,
            &Derivation::ElementCount(Box::new(Seed::Signed)),
            &mut ctx,
        )
        .unwrap();
        assert_eq!(Value::List(signed_list(&[10, 20, 30])), result);
        assert!(ctx.at_end());
    }
}

#[test]
fn constant_derivation_decodes_second_element() {
    // A plain two-element tuple: the derivation ignores the first value.
    let events = vec![
        Event::SeqStart(Some(2)),
        Event::Unsigned(7),
        Event::Text(String::from("payload")),
    ];
    let mut ctx = Context::new(events);
    let result = decode_dependent_tuple(
        &Seed::Unsigned,
        &Derivation::Constant(Box::new(Seed::Text)),
        &mut ctx,
    )
    .unwrap();
    assert_eq!(Value::Text(String::from("payload")), result);
}
