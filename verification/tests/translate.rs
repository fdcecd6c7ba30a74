use include_cargo_toml2::{lookup, parse, translate, Fragment, Index, Toml, TomlIndex};

fn text(value: &str) -> Toml {
    Toml::String(value.to_string())
}

fn literal(value: &str) -> Fragment {
    Fragment::Str(value.to_string())
}

fn key(name: &str) -> Index {
    Index::Str(name.to_string())
}

#[test]
fn string_becomes_a_string_literal() {
    assert_eq!(translate(text("0.1.0")), literal("0.1.0"));
    assert_eq!(translate(text("")), literal(""));
    assert_eq!(translate(text("a \"quoted\" word\n")), literal("a \"quoted\" word\n"));
}

#[test]
fn integer_becomes_an_integer_literal() {
    assert_eq!(translate(Toml::Integer(4)), Fragment::I64(4));
    assert_eq!(translate(Toml::Integer(-4)), Fragment::I64(-4));
    assert_eq!(translate(Toml::Integer(i64::MAX)), Fragment::I64(i64::MAX));
    assert_eq!(translate(Toml::Integer(i64::MIN)), Fragment::I64(i64::MIN));
}

#[test]
fn float_becomes_a_float_literal_with_the_same_bits() {
    assert_eq!(translate(Toml::Float(1.5f64.to_bits())), Fragment::F64(1.5f64.to_bits()));
    assert_eq!(translate(Toml::Float(0.1f64.to_bits())), Fragment::F64(0.1f64.to_bits()));
}

#[test]
fn finite_float_keeps_its_literal_at_the_edges() {
    for value in [0.0f64, -0.0, f64::MAX, f64::MIN, f64::MIN_POSITIVE, -f64::MIN_POSITIVE, 5e-324, -1.5] {
        assert_eq!(translate(Toml::Float(value.to_bits())), Fragment::F64(value.to_bits()));
    }
    assert_eq!(
        translate(Toml::Float(0x7fef_ffff_ffff_ffff)),
        Fragment::F64(0x7fef_ffff_ffff_ffff)
    );
    assert_eq!(
        translate(Toml::Float(0xffef_ffff_ffff_ffff)),
        Fragment::F64(0xffef_ffff_ffff_ffff)
    );
}

#[test]
fn float_that_is_not_finite_becomes_the_constant_of_its_name() {
    assert_eq!(
        translate(Toml::Float(f64::INFINITY.to_bits())),
        Fragment::Infinite { negative: false }
    );
    assert_eq!(
        translate(Toml::Float(f64::NEG_INFINITY.to_bits())),
        Fragment::Infinite { negative: true }
    );
    assert_eq!(translate(Toml::Float(f64::NAN.to_bits())), Fragment::NotANumber);
    assert_eq!(translate(Toml::Float((-f64::NAN).to_bits())), Fragment::NotANumber);
    assert_eq!(translate(Toml::Float(0x7ff0_0000_0000_0001)), Fragment::NotANumber);
    assert_eq!(translate(Toml::Float(0xffff_ffff_ffff_ffff)), Fragment::NotANumber);
}

#[test]
fn float_that_is_not_finite_is_translated_within_an_array() {
    let read = include_cargo_toml2::parse("a = [1.5, inf, -inf, nan]").unwrap();

    assert_eq!(
        translate(lookup(TomlIndex(vec![key("a")]), read)),
        Fragment::Group(vec![
            Fragment::F64(1.5f64.to_bits()),
            Fragment::Comma,
            Fragment::Infinite { negative: false },
            Fragment::Comma,
            Fragment::Infinite { negative: true },
            Fragment::Comma,
            Fragment::NotANumber,
            Fragment::Comma,
        ])
    );
}

#[test]
fn boolean_becomes_a_word() {
    assert_eq!(translate(Toml::Boolean(true)), Fragment::Bool(true));
    assert_eq!(translate(Toml::Boolean(false)), Fragment::Bool(false));
}

#[test]
fn datetime_becomes_a_string_literal() {
    assert_eq!(
        translate(Toml::Datetime("1979-05-27T07:32:00Z".to_string())),
        literal("1979-05-27T07:32:00Z")
    );
}

#[test]
fn array_becomes_a_group_with_a_comma_behind_each_element() {
    let array = Toml::Array(vec![text("macro"), Toml::Integer(2), Toml::Boolean(true)]);

    assert_eq!(
        translate(array),
        Fragment::Group(vec![
            literal("macro"),
            Fragment::Comma,
            Fragment::I64(2),
            Fragment::Comma,
            Fragment::Bool(true),
            Fragment::Comma,
        ])
    );
}

#[test]
fn array_of_one_element_keeps_its_comma() {
    assert_eq!(
        translate(Toml::Array(vec![text("only")])),
        Fragment::Group(vec![literal("only"), Fragment::Comma])
    );
}

#[test]
fn empty_array_becomes_an_empty_group() {
    assert_eq!(translate(Toml::Array(vec![])), Fragment::Group(vec![]));
}

#[test]
fn group_of_an_array_has_two_tokens_for_each_element() {
    let items: Vec<Toml> = (0..7).map(Toml::Integer).collect();

    match translate(Toml::Array(items)) {
        Fragment::Group(tokens) => {
            assert_eq!(tokens.len(), 14);
            for i in 0..7 {
                assert_eq!(tokens[2 * i], translate(Toml::Integer(i as i64)));
                assert_eq!(tokens[2 * i + 1], Fragment::Comma);
            }
        }
        other => panic!("not a group: {:?}", other),
    }
}

#[test]
fn table_becomes_a_group_with_a_comma_behind_each_pair() {
    let table = Toml::Table(vec![
        ("edition".to_string(), text("2021")),
        ("revision".to_string(), Toml::Integer(4)),
    ]);

    assert_eq!(
        translate(table),
        Fragment::Group(vec![
            Fragment::Group(vec![literal("edition"), Fragment::Comma, literal("2021")]),
            Fragment::Comma,
            Fragment::Group(vec![literal("revision"), Fragment::Comma, Fragment::I64(4)]),
            Fragment::Comma,
        ])
    );
}

#[test]
fn group_of_a_table_has_one_pair_for_each_entry() {
    let entries: Vec<(String, Toml)> = (0..5).map(|i| (format!("key{}", i), Toml::Integer(i))).collect();

    match translate(Toml::Table(entries)) {
        Fragment::Group(tokens) => {
            assert_eq!(tokens.len(), 10);
            for i in 0..5 {
                assert_eq!(
                    tokens[2 * i],
                    Fragment::Group(vec![
                        literal(&format!("key{}", i)),
                        Fragment::Comma,
                        translate(Toml::Integer(i as i64)),
                    ])
                );
                assert_eq!(tokens[2 * i + 1], Fragment::Comma);
            }
        }
        other => panic!("not a group: {:?}", other),
    }
}

#[test]
fn empty_table_becomes_an_empty_group() {
    assert_eq!(translate(Toml::Table(vec![])), Fragment::Group(vec![]));
    assert_eq!(translate(Toml::empty()), Fragment::Group(vec![]));
}

#[test]
fn nested_values_are_translated_within() {
    let value = Toml::Array(vec![
        Toml::Array(vec![Toml::Integer(1)]),
        Toml::Table(vec![("k".to_string(), Toml::Array(vec![]))]),
    ]);

    assert_eq!(
        translate(value),
        Fragment::Group(vec![
            Fragment::Group(vec![Fragment::I64(1), Fragment::Comma]),
            Fragment::Comma,
            Fragment::Group(vec![
                Fragment::Group(vec![literal("k"), Fragment::Comma, Fragment::Group(vec![])]),
                Fragment::Comma,
            ]),
            Fragment::Comma,
        ])
    );
}

#[test]
fn scalar_that_a_path_selects_keeps_its_value() {
    let manifest = r#"
        [package]
        version = "0.1.0"
        [package.metadata.deb]
        revision = 4
        ratio = 0.25
        [lib]
        proc-macro = true
        "#;
    let select = |steps: Vec<Index>| translate(lookup(TomlIndex(steps), parse(manifest).unwrap()));

    assert_eq!(select(vec![key("package"), key("version")]), literal("0.1.0"));
    assert_eq!(
        select(vec![key("package"), key("metadata"), key("deb"), key("revision")]),
        Fragment::I64(4)
    );
    assert_eq!(
        select(vec![key("package"), key("metadata"), key("deb"), key("ratio")]),
        Fragment::F64(0.25f64.to_bits())
    );
    assert_eq!(select(vec![key("lib"), key("proc-macro")]), Fragment::Bool(true));
}
