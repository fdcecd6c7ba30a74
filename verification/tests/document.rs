use include_cargo_toml2::{parse, Toml};

fn text(value: &str) -> Toml {
    Toml::String(value.to_string())
}

#[test]
fn document_is_read_into_a_table() {
    let read = parse("name = \"demo\"\ncount = 3\n").unwrap();

    assert_eq!(
        read,
        Toml::Table(vec![("count".to_string(), Toml::Integer(3)), ("name".to_string(), text("demo"))])
    );
}

#[test]
fn every_kind_of_value_is_read() {
    let read = parse(
        r#"
        s = "text"
        i = -42
        f = 1.5
        b = true
        d = 1979-05-27T07:32:00Z
        a = [1, "two", [3]]
        [t]
        inner = false
        "#,
    )
    .unwrap();

    let expected = Toml::Table(vec![
        (
            "a".to_string(),
            Toml::Array(vec![Toml::Integer(1), text("two"), Toml::Array(vec![Toml::Integer(3)])]),
        ),
        ("b".to_string(), Toml::Boolean(true)),
        ("d".to_string(), Toml::Datetime("1979-05-27T07:32:00Z".to_string())),
        ("f".to_string(), Toml::Float(1.5f64.to_bits())),
        ("i".to_string(), Toml::Integer(-42)),
        ("s".to_string(), text("text")),
        ("t".to_string(), Toml::Table(vec![("inner".to_string(), Toml::Boolean(false))])),
    ]);
    assert_eq!(read, expected);
}

#[test]
fn float_keeps_its_bits() {
    let read = parse("x = 0.1\ny = -0.0\nz = inf\n").unwrap();

    assert_eq!(
        read,
        Toml::Table(vec![
            ("x".to_string(), Toml::Float(0.1f64.to_bits())),
            ("y".to_string(), Toml::Float((-0.0f64).to_bits())),
            ("z".to_string(), Toml::Float(f64::INFINITY.to_bits())),
        ])
    );
}

#[test]
fn empty_text_is_the_empty_table() {
    assert_eq!(parse(""), Some(Toml::Table(vec![])));
}

#[test]
fn text_that_is_no_toml_is_refused() {
    assert_eq!(parse("name = "), None);
    assert_eq!(parse("[package"), None);
    assert_eq!(parse("a = 1\na = 2\n"), None);
}

#[test]
fn no_key_is_read_twice() {
    let read = parse("[a]\nx = 1\n[b]\nx = 2\n[a.c]\ny = 3\n").unwrap();

    match read {
        Toml::Table(entries) => {
            let keys: Vec<&str> = entries.iter().map(|(k, _)| k.as_str()).collect();
            assert_eq!(keys, vec!["a", "b"]);
        }
        other => panic!("not a table: {:?}", other),
    }
}

#[test]
fn copy_holds_what_the_value_holds() {
    let read = parse("a = [1, { b = \"c\" }]\n[d]\ne = 2.5\n").unwrap();
    let copy = read.clone();

    assert_eq!(copy, read);
    assert_eq!(text("x").clone(), text("x"));
    assert_eq!(Toml::empty().clone(), Toml::Table(vec![]));
}
