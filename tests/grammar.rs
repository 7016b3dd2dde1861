use fake_json::{
    classify, decimal, find_other_than, join_lines, number_to_int, parse_u64,
    parse_user_defined, read_int, split_char, CliArgs, Command, Descriptor, Error, JsonNumber,
};

fn args() -> CliArgs {
    CliArgs {
        count: 1,
        before: None,
        after: None,
        schema_file: "schema.json".to_owned(),
        json: None,
        data_type: None,
        user_defined: Vec::new(),
        interactive: false,
        list: false,
        values: None,
        debug: false,
    }
}

#[test]
fn classify_by_precedence() {
    assert!(matches!(classify("Int[id]"), Descriptor::Reference { inner, name } if inner == "Int" && name == "id"));
    assert!(matches!(classify("a[b][c]"), Descriptor::Reference { inner, name } if inner == "a[b]" && name == "c"));
    assert!(matches!(classify("Email*"), Descriptor::Unique(inner) if inner == "Email"));
    assert!(matches!(classify("1..5*"), Descriptor::Unique(inner) if inner == "1..5"));
    assert!(matches!(classify("1..5"), Descriptor::Range { min, max } if min == "1" && max == "5"));
    assert!(matches!(classify("3.."), Descriptor::Range { min, max } if min == "3" && max.is_empty()));
    assert!(matches!(classify("1..2..3"), Descriptor::Range { min, max } if min == "1" && max == "2"));
    assert!(matches!(classify("a||b|"), Descriptor::Choice(cs) if cs == vec!["a", "b"]));
    assert!(matches!(classify("x]"), Descriptor::Named(n) if n == "x]"));
    assert!(matches!(classify("Name"), Descriptor::Named(n) if n == "Name"));
    assert!(matches!(classify(""), Descriptor::Named(n) if n.is_empty()));
}

#[test]
fn user_defined_declarations() {
    let (name, values) = parse_user_defined("Colour:red|green|").unwrap();
    assert_eq!(name, "Colour");
    assert_eq!(values, vec!["red", "green", ""]);
    assert!(matches!(parse_user_defined("Colour"), Err(Error::FakerDefMissingColon)));
    assert!(matches!(parse_user_defined("a:b:c"), Err(Error::FakerDefTooManyColons)));
    let (name, values) = parse_user_defined(":").unwrap();
    assert_eq!(name, "");
    assert_eq!(values, vec![""]);
}

#[test]
fn text_helpers() {
    assert_eq!(split_char("a|b||c", '|'), vec!["a", "b", "", "c"]);
    assert_eq!(split_char("", '|'), vec![""]);
    assert_eq!(parse_u64("42"), Some(42));
    assert_eq!(parse_u64("+7"), Some(7));
    assert_eq!(parse_u64("18446744073709551615"), Some(u64::MAX));
    assert_eq!(parse_u64("18446744073709551616"), None);
    assert_eq!(parse_u64(""), None);
    assert_eq!(parse_u64("+"), None);
    assert_eq!(parse_u64("-1"), None);
    assert_eq!(parse_u64("1.5"), None);
    assert_eq!(decimal(0), "0");
    assert_eq!(decimal(907), "907");
    assert_eq!(decimal(u64::MAX), "18446744073709551615");
    assert_eq!(join_lines(&vec!["a".to_owned(), "b".to_owned()]), "a\nb");
    assert_eq!(join_lines(&Vec::new()), "");
}

#[test]
fn array_bounds_read_as_lengths() {
    assert_eq!(number_to_int(&JsonNumber::PosInt(12)).unwrap(), 12);
    assert!(matches!(number_to_int(&JsonNumber::NegInt(-3)), Err(Error::NumberNotAnInteger(_))));
    assert!(matches!(
        number_to_int(&JsonNumber::Float(2.0f64.to_bits())),
        Err(Error::NumberNotAnInteger(_))
    ));
}

#[test]
fn provided_options_are_listed() {
    assert!(args().list_provided().is_empty());
    let mut a = args();
    a.count = 3;
    a.list = true;
    a.user_defined = vec!["A:b".to_owned()];
    a.schema_file = "other.json".to_owned();
    assert_eq!(a.list_provided(), vec!["count", "schema", "user", "list"]);
}

#[test]
fn conflicting_options() {
    let mut a = args();
    a.list = true;
    a.data_type = Some("Int".to_owned());
    assert!(a.check_arguments().is_ok());
    a.count = 2;
    assert!(matches!(a.check_arguments(), Err(Error::ConflictingArgs("list", "count"))));
    let mut b = args();
    b.interactive = true;
    b.values = Some("Pet".to_owned());
    assert!(matches!(b.check_arguments(), Err(Error::ConflictingArgs("interactive", "values"))));
    let mut c = args();
    c.json = Some("{}".to_owned());
    assert!(c.check_arguments().is_ok());
    c.schema_file = "s.json".to_owned();
    assert!(matches!(c.check_arguments(), Err(Error::ConflictingArgs("json", "schema"))));
}

#[test]
fn command_follows_option_order() {
    let mut a = args();
    assert!(matches!(a.command(), Command::Schema));
    a.interactive = true;
    assert!(matches!(a.command(), Command::Interactive));
    a.data_type = Some("Int".to_owned());
    assert!(matches!(a.command(), Command::Generate(t) if t == "Int"));
    a.list = true;
    assert!(matches!(a.command(), Command::List));
    a.values = Some("Pet".to_owned());
    assert!(matches!(a.command(), Command::Values(t) if t == "Pet"));
}

#[test]
fn find_first_disallowed() {
    assert_eq!(find_other_than(&["a", "b", "c"], &["a"]), Some("b"));
    assert_eq!(find_other_than(&["a"], &["a", "b"]), None);
    assert_eq!(find_other_than(&[], &["a"]), None);
}

#[test]
fn typed_numbers() {
    assert_eq!(read_int(" 42 \n"), Some(42));
    assert_eq!(read_int("7"), Some(7));
    assert_eq!(read_int("\t+3\u{3000}"), Some(3));
    assert_eq!(read_int("   "), None);
    assert_eq!(read_int("4 2"), None);
    assert_eq!(read_int("-1"), None);
}
