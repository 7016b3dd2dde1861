use fake_json::{
    generate_value, walk, Data, Error, FloatSource, JsonNumber, JsonValue, OutputData,
};
use rand::distr::Uniform;
use rand::Rng;
use rand_chacha::ChaCha20Rng;

struct Floats;

impl FloatSource for Floats {
    fn parse_float(&self, token: &str) -> Option<u64> {
        token.parse::<f64>().ok().map(f64::to_bits)
    }

    fn float_in(&self, rng: &mut ChaCha20Rng, min: u64, max: Option<u64>) -> Option<u64> {
        let low = f64::from_bits(min);
        let high = max.map_or(f64::MAX, f64::from_bits);
        Uniform::new(low, high).ok().map(|u| rng.sample(u).to_bits())
    }

    fn any_float(&self, rng: &mut ChaCha20Rng) -> u64 {
        rng.random_range(0.0..=f64::MAX).to_bits()
    }

    fn float_text(&self, bits: u64) -> String {
        f64::from_bits(bits).to_string()
    }
}

fn session(decls: &[&str], seed: u64) -> Data<Floats> {
    let decls = decls.iter().map(|d| (*d).to_owned()).collect();
    Data::new_with_seed(decls, seed, Floats).unwrap()
}

fn text(s: &str) -> JsonValue {
    JsonValue::String(s.to_owned())
}

fn number(n: u64) -> JsonValue {
    JsonValue::Number(JsonNumber::PosInt(n))
}

fn object(entries: &[(&str, JsonValue)]) -> JsonValue {
    JsonValue::Object(entries.iter().map(|(k, v)| ((*k).to_owned(), v.duplicate())).collect())
}

fn keys(v: &JsonValue) -> Vec<String> {
    match v {
        JsonValue::Object(entries) => {
            let mut ks: Vec<String> = entries.iter().map(|e| e.0.clone()).collect();
            ks.sort();
            ks
        }
        other => panic!("not an object: {other:?}"),
    }
}

fn lookup<'a>(v: &'a JsonValue, key: &str) -> &'a JsonValue {
    match v {
        JsonValue::Object(entries) => &entries.iter().find(|e| e.0 == key).unwrap().1,
        other => panic!("not an object: {other:?}"),
    }
}

#[test]
fn same_seed_gives_same_documents() {
    let schema = object(&[
        ("name", text("FirstName")),
        ("id", text("Int")),
        ("score", text("1.5..9.5")),
        ("tags", JsonValue::Array(vec![text("A|B|C"), number(1), number(6)])),
        ("maybe", text("Bool?")),
    ]);
    let mut first = session(&[], 42);
    let mut second = session(&[], 42);
    for _ in 0..20 {
        let a = walk(&schema, &mut first).unwrap();
        let b = walk(&schema, &mut second).unwrap();
        assert_eq!(format!("{a:?}"), format!("{b:?}"));
    }
}

#[test]
fn reference_gives_the_same_value_twice() {
    let mut data = session(&[], 1);
    let a = data.generate("Int[r]").unwrap();
    let b = data.generate("Int[r]").unwrap();
    assert_eq!(a, b);
    let c = data.generate("Int[s]").unwrap();
    assert_ne!(a, c);
    let schema = object(&[("x", text("FirstName[p]")), ("y", text("FirstName[p]"))]);
    let out = generate_value(&schema, &mut data).unwrap();
    assert_eq!(format!("{:?}", lookup(&out, "x")), format!("{:?}", lookup(&out, "y")));
}

#[test]
fn unique_values_are_distinct_until_exhausted() {
    let mut data = session(&[], 7);
    let mut seen = Vec::new();
    for _ in 0..3 {
        let v = data.generate("A|B|C*").unwrap();
        assert!(!seen.contains(&v));
        seen.push(v);
    }
    match data.generate("A|B|C*") {
        Err(Error::UniqueFetchFailed { data_type, already_produced }) => {
            assert_eq!(data_type, "A|B|C");
            assert_eq!(already_produced, 3);
        }
        other => panic!("expected exhaustion, got {other:?}"),
    }
}

#[test]
fn unique_user_type_and_separate_registries() {
    let mut data = session(&["Colour:red|green"], 3);
    let a = data.generate("Colour*").unwrap();
    let b = data.generate("Colour*").unwrap();
    assert_ne!(a, b);
    assert!(matches!(data.generate("Colour*"), Err(Error::UniqueFetchFailed { .. })));
    // another descriptor has a registry of its own
    assert!(data.generate("red|green*").is_ok());
}

#[test]
fn omission_frequency_is_near_three_tenths() {
    let mut data = session(&[], 11);
    let total = 20000;
    let mut omitted = 0;
    for _ in 0..total {
        if data.generate_nullable("Bool?").unwrap().is_none() {
            omitted += 1;
        }
    }
    let fraction = f64::from(omitted) / f64::from(total);
    assert!((0.28..0.32).contains(&fraction), "fraction {fraction}");
}

#[test]
fn non_nullable_descriptor_is_never_omitted() {
    let mut data = session(&[], 12);
    for _ in 0..200 {
        assert!(data.generate_nullable("Bool").unwrap().is_some());
    }
}

#[test]
fn array_cardinality_bounds() {
    let mut data = session(&[], 5);
    for _ in 0..50 {
        match generate_value(&JsonValue::Array(vec![text("Bool"), number(3)]), &mut data).unwrap() {
            JsonValue::Array(xs) => assert_eq!(xs.len(), 3),
            other => panic!("{other:?}"),
        }
        match generate_value(&JsonValue::Array(vec![text("Bool"), number(2), number(5)]), &mut data)
            .unwrap()
        {
            JsonValue::Array(xs) => assert!((2..5).contains(&xs.len())),
            other => panic!("{other:?}"),
        }
        match generate_value(&JsonValue::Array(vec![text("Bool")]), &mut data).unwrap() {
            JsonValue::Array(xs) => assert!((1..10).contains(&xs.len())),
            other => panic!("{other:?}"),
        }
    }
}

#[test]
fn array_directive_errors() {
    let mut data = session(&[], 5);
    assert!(matches!(
        generate_value(&JsonValue::Array(vec![]), &mut data),
        Err(Error::ArrayMissingDataType)
    ));
    assert!(matches!(
        generate_value(&JsonValue::Array(vec![text("Bool"), text("two")]), &mut data),
        Err(Error::ExpectedInteger(_))
    ));
    assert!(matches!(
        generate_value(&JsonValue::Array(vec![text("Bool"), number(1), text("x")]), &mut data),
        Err(Error::ExpectedInteger(_))
    ));
    assert!(matches!(
        generate_value(
            &JsonValue::Array(vec![text("Bool"), JsonValue::Number(JsonNumber::NegInt(-1))]),
            &mut data
        ),
        Err(Error::NumberNotAnInteger(JsonNumber::NegInt(-1)))
    ));
    assert!(matches!(
        generate_value(&JsonValue::Array(vec![text("Bool"), number(5), number(2)]), &mut data),
        Err(Error::ArrayEmptyRange { min: 5, max: 2 })
    ));
    match generate_value(&JsonValue::Array(vec![text("Bool"), number(0)]), &mut data).unwrap() {
        JsonValue::Array(xs) => assert!(xs.is_empty()),
        other => panic!("{other:?}"),
    }
}

#[test]
fn object_keeps_its_keys() {
    let mut data = session(&[], 9);
    let schema = object(&[("a", text("Bool")), ("b", text("Int")), ("c", text("x|y"))]);
    for _ in 0..20 {
        let out = generate_value(&schema, &mut data).unwrap();
        assert_eq!(keys(&out), vec!["a", "b", "c"]);
    }
}

#[test]
fn omitted_entries_are_absent() {
    let mut data = session(&[], 13);
    let schema = object(&[("a", text("Bool")), ("b", text("Bool?")), ("c?", text("Int"))]);
    let mut saw_omission = false;
    for _ in 0..100 {
        let out = generate_value(&schema, &mut data).unwrap();
        let ks = keys(&out);
        assert!(ks.contains(&"a".to_owned()));
        if ks.len() < 3 {
            saw_omission = true;
        }
        if let JsonValue::Object(entries) = &out {
            for (_, v) in entries {
                assert!(!matches!(v, JsonValue::Null));
            }
        }
    }
    assert!(saw_omission);
}

#[test]
fn bang_key_copies_its_value() {
    let mut data = session(&[], 13);
    let schema = object(&[("raw!", number(7)), ("kind!", text("Int"))]);
    let out = generate_value(&schema, &mut data).unwrap();
    assert_eq!(keys(&out), vec!["kind", "raw"]);
    assert!(matches!(lookup(&out, "raw"), JsonValue::Number(JsonNumber::PosInt(7))));
    assert!(matches!(lookup(&out, "kind"), JsonValue::String(s) if s == "Int"));
}

#[test]
fn enumeration_picks_a_listed_value() {
    let mut data = session(&[], 17);
    for _ in 0..100 {
        let v = data.generate("a|b|c").unwrap();
        let s = v.into_string(&Floats);
        assert!(["a", "b", "c"].contains(&s.as_str()));
    }
    let v = data.generate("|x||").unwrap();
    assert_eq!(v, OutputData::String("x".to_owned()));
    assert!(matches!(data.generate("|"), Err(Error::MissingValueBeforePipe)));
}

#[test]
fn ranges_give_typed_values_within_bounds() {
    let mut data = session(&[], 19);
    for _ in 0..200 {
        match data.generate("5..10").unwrap() {
            OutputData::Int(v) => assert!((5..10).contains(&v)),
            other => panic!("{other:?}"),
        }
        match data.generate("5.0..10.0").unwrap() {
            OutputData::Float(bits) => {
                let v = f64::from_bits(bits);
                assert!((5.0..10.0).contains(&v));
            }
            other => panic!("{other:?}"),
        }
    }
    match data.generate("18446744073709551614..").unwrap() {
        OutputData::Int(v) => assert_eq!(v, u64::MAX - 1),
        other => panic!("{other:?}"),
    }
    match data.generate("5..10.5").unwrap() {
        OutputData::Float(bits) => assert!((5.0..10.5).contains(&f64::from_bits(bits))),
        other => panic!("{other:?}"),
    }
}

#[test]
fn range_errors() {
    let mut data = session(&[], 19);
    assert!(matches!(data.generate("10..5"), Err(Error::EmptyRange(d)) if d == "10..5"));
    assert!(matches!(data.generate("7..7"), Err(Error::EmptyRange(_))));
    assert!(matches!(data.generate("abc..5"), Err(Error::InvalidBounds(b)) if b == "abc"));
    assert!(matches!(data.generate("1..x"), Err(Error::InvalidBounds(b)) if b == "x"));
    assert!(matches!(data.generate("..5"), Err(Error::InvalidBounds(b)) if b.is_empty()));
}

#[test]
fn end_to_end_scenario() {
    let mut data = session(&[], 23);
    let schema = object(&[("name", text("FirstName")), ("tag", text("X|Y")), ("id", text("1..4"))]);
    let out = walk(&schema, &mut data).unwrap().unwrap();
    assert_eq!(keys(&out), vec!["id", "name", "tag"]);
    assert!(matches!(lookup(&out, "tag"), JsonValue::String(s) if s == "X" || s == "Y"));
    assert!(matches!(lookup(&out, "id"), JsonValue::Number(JsonNumber::PosInt(n)) if (1..4).contains(n)));
    assert!(matches!(lookup(&out, "name"), JsonValue::String(s) if !s.is_empty()));
}

#[test]
fn bare_names_resolve_in_order() {
    let mut data = session(&["Bool:yes|no", "Pet:cat"], 29);
    assert!(matches!(data.generate("Bool").unwrap(), OutputData::String(s) if s == "yes" || s == "no"));
    assert_eq!(data.generate("Pet").unwrap(), OutputData::String("cat".to_owned()));
    assert!(matches!(data.generate("Int").unwrap(), OutputData::Int(_)));
    assert!(matches!(data.generate("Float").unwrap(), OutputData::Float(_)));
    let day = data.generate("DaysOfWeek").unwrap().into_string(&Floats);
    assert!(["Monday", "Tuesday", "Wednesday", "Thursday", "Friday", "Saturday", "Sunday"]
        .contains(&day.as_str()));
    assert!(matches!(data.generate("NoSuchType"), Err(Error::InvalidDataType(t)) if t == "NoSuchType"));
    assert!(matches!(data.generate("Pet?"), Err(Error::InvalidDataType(t)) if t == "Pet?"));
    let mut plain = session(&[], 29);
    assert!(matches!(plain.generate("Bool").unwrap(), OutputData::Bool(_)));
}

#[test]
fn schema_literals_are_rejected() {
    let mut data = session(&[], 31);
    assert!(matches!(generate_value(&JsonValue::Null, &mut data), Err(Error::InvalidSchemaType(_))));
    assert!(matches!(walk(&JsonValue::Bool(true), &mut data), Err(Error::InvalidSchemaType(_))));
    assert!(matches!(walk(&number(3), &mut data), Err(Error::InvalidSchemaType(_))));
    assert!(matches!(walk(&text("Nope?"), &mut data), Ok(None) | Err(Error::InvalidDataType(_))));
}

#[test]
fn construction_checks_declarations() {
    let decls = |ds: &[&str]| ds.iter().map(|d| (*d).to_owned()).collect::<Vec<_>>();
    assert!(matches!(Data::new(decls(&["A"]), Floats), Err(Error::FakerDefMissingColon)));
    assert!(matches!(Data::new(decls(&["A:b:c"]), Floats), Err(Error::FakerDefTooManyColons)));
    assert!(matches!(
        Data::new(decls(&["A:x", "B:y", "A:z"]), Floats),
        Err(Error::DuplicateDataType(d)) if d == "A:z"
    ));
    assert!(Data::new(decls(&["A:x", "B:y|z"]), Floats).is_ok());
}

#[test]
fn list_and_values() {
    let data = session(&["Pet:cat|dog", "Empty:"], 37);
    let list = data.list();
    assert_eq!(&list[..2], &["Pet".to_owned(), "Empty".to_owned()]);
    assert!(list.contains(&"FirstName".to_owned()));
    assert_eq!(data.list_with(vec!["X".to_owned()]), vec!["Pet", "Empty", "X"]);
    assert_eq!(data.values("Pet").unwrap(), "cat\ndog");
    assert_eq!(data.values("Empty").unwrap(), "");
    let days = data.values("DaysOfWeek").unwrap();
    assert_eq!(days.lines().count(), 7);
    assert!(days.contains("Monday"));
    assert!(matches!(data.values("Email"), Err(Error::NonEnumerableDataType(t)) if t == "Email"));
    assert!(matches!(data.values("Nope"), Err(Error::InvalidDataType(t)) if t == "Nope"));
    assert_eq!(
        data.values_with("X", Some(Some(vec!["a".to_owned(), "b".to_owned()]))).unwrap(),
        "a\nb"
    );
    assert!(matches!(data.values_with("X", Some(None)), Err(Error::NonEnumerableDataType(_))));
    assert!(matches!(data.values_with("X", None), Err(Error::InvalidDataType(_))));
}

#[test]
fn empty_user_value_is_generated() {
    let mut data = session(&["Blank:"], 41);
    assert_eq!(data.generate("Blank").unwrap(), OutputData::String(String::new()));
}

#[test]
fn value_text_and_json_forms() {
    assert_eq!(OutputData::Bool(true).into_string(&Floats), "True");
    assert_eq!(OutputData::Bool(false).into_string(&Floats), "False");
    assert_eq!(OutputData::Int(1234).into_string(&Floats), "1234");
    assert_eq!(OutputData::String("hi".to_owned()).into_string(&Floats), "hi");
    assert_eq!(OutputData::Float(2.5f64.to_bits()).into_string(&Floats), "2.5");
    assert!(matches!(OutputData::Int(9).into_json(), Ok(JsonValue::Number(JsonNumber::PosInt(9)))));
    assert!(matches!(OutputData::Bool(true).into_json(), Ok(JsonValue::Bool(true))));
    assert!(matches!(
        OutputData::Float(f64::INFINITY.to_bits()).into_json(),
        Err(Error::InfinityNotSupported)
    ));
    assert!(matches!(
        OutputData::Float(f64::NAN.to_bits()).into_json(),
        Err(Error::InfinityNotSupported)
    ));
    let bits = 1.5f64.to_bits();
    assert!(matches!(OutputData::Float(bits).into_json(), Ok(JsonValue::Number(JsonNumber::Float(b))) if b == bits));
    assert_ne!(OutputData::Bool(true), OutputData::Int(1));
    assert_ne!(OutputData::Int(1), OutputData::String("1".to_owned()));
}

#[test]
fn omission_follows_the_draw() {
    let mut data = session(&[], 43);
    assert!(data.generate_nullable_with("Bool?", true).unwrap().is_none());
    assert!(data.generate_nullable_with("Bool?", false).unwrap().is_some());
    assert!(data.generate_nullable_with("Bool", true).unwrap().is_some());
    assert!(matches!(data.generate_nullable_with("a|b?", false).unwrap(), Some(OutputData::String(s)) if s == "a" || s == "b"));
}

#[test]
fn array_errors_carry_the_offending_element() {
    let mut data = session(&[], 47);
    match generate_value(&JsonValue::Array(vec![text("Bool"), text("3")]), &mut data) {
        Err(Error::ExpectedInteger(JsonValue::String(s))) => assert_eq!(s, "3"),
        other => panic!("{other:?}"),
    }
    match generate_value(&JsonValue::Array(vec![text("Bool"), number(1), JsonValue::Bool(true)]), &mut data) {
        Err(Error::ExpectedInteger(JsonValue::Bool(true))) => {}
        other => panic!("{other:?}"),
    }
    match generate_value(&JsonValue::Null, &mut data) {
        Err(Error::InvalidSchemaType(JsonValue::Null)) => {}
        other => panic!("{other:?}"),
    }
}

#[test]
fn first_unique_use_succeeds_and_failures_do_not_register() {
    let mut data = session(&[], 53);
    assert!(data.generate("Bool*").is_ok());
    assert!(data.generate("Bool*").is_ok());
    assert!(matches!(data.generate("Bool*"), Err(Error::UniqueFetchFailed { already_produced: 2, .. })));
    assert!(matches!(data.generate("Nope*"), Err(Error::InvalidDataType(_))));
    assert!(data.generate("Nope|x*").is_ok());
}

#[test]
fn references_agree_inside_a_mapping() {
    let mut data = session(&[], 59);
    let schema = object(&[("a", text("Int[r]")), ("b", text("Int[r]")), ("c", text("Int[q]"))]);
    let out = walk(&schema, &mut data).unwrap().unwrap();
    assert_eq!(format!("{:?}", lookup(&out, "a")), format!("{:?}", lookup(&out, "b")));
}
