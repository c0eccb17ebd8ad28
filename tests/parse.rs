use simple_error::{parse_internal, Catalogue, FieldShape, Interpolate, VariantShape};
use std::collections::BTreeSet;

fn to_set<T: ToString>(values: &[T]) -> BTreeSet<String> {
    values.iter().map(|a| a.to_string()).collect()
}

fn key_set(catalogue: &Catalogue) -> BTreeSet<String> {
    catalogue.names().into_iter().collect()
}

fn parse_keys(text: &str) -> (String, BTreeSet<String>) {
    let (rewritten, catalogue) = parse_internal(text);
    (rewritten, key_set(&catalogue))
}

fn trait_of(catalogue: &Catalogue, name: &str) -> Option<Option<String>> {
    catalogue.get(&name.to_string())
}

#[test]
fn test_parse_fmt_string() {
    assert_eq!(
        parse_keys("Hello, {name}!"),
        ("Hello, {name}!".to_string(), to_set(&["name"]))
    );

    assert_eq!(
        parse_keys("Hello, {name}! {age}"),
        ("Hello, {name}! {age}".to_string(), to_set(&["name", "age"]),)
    );

    assert_eq!(
        parse_keys("Hello, {0}! {1}"),
        ("Hello, {__0}! {__1}".to_string(), to_set(&["__0", "__1"]),)
    );

    assert_eq!(
        parse_keys("Hello, {}! {}"),
        ("Hello, {__0}! {__1}".to_string(), to_set(&["__0", "__1"]),)
    );

    assert_eq!(
        parse_keys("Hello, {}! {} {name} {0} {} {1} {1}"),
        (
            "Hello, {__0}! {__1} {name} {__0} {__2} {__1} {__1}".to_string(),
            to_set(&["__0", "__1", "name", "__0", "__2", "__1", "__1"]),
        )
    );

    assert_eq!(
        parse_keys(
            "Hello, {:?}! {:#?} \
            {name:?} {name:#?} \
            {:b} {0:b} {0:#b} \
            {:e} {1:e} \
            {:x} {1:x} {1:#x} \
            {:o} {:#o} {1:o} {1:#o} \
            {:p} {:#p} {1:p} {1:#p} \
            {:#E} {1:#E} \
            {:x} {1:x} \
            {:X} {:#X} {1:X} {1:#X} \
            {}{} {name:?}{:b}Hello{}"
        ),
        (
            "Hello, {__0:?}! {__1:#?} \
        {name:?} {name:#?} \
        {__2:b} {__0:b} {__0:#b} \
        {__3:e} {__1:e} \
        {__4:x} {__1:x} {__1:#x} \
        {__5:o} {__6:#o} {__1:o} {__1:#o} \
        {__7:p} {__8:#p} {__1:p} {__1:#p} \
        {__9:#E} {__1:#E} \
        {__10:x} {__1:x} \
        {__11:X} {__12:#X} {__1:X} {__1:#X} \
        {__13}{__14} {name:?}{__15:b}Hello{__16}"
                .to_string(),
            to_set(&[
                "__0", "__1", "name", "name", "__2", "__0", "__0", "__3", "__1", "__4", "__1",
                "__1", "__5", "__6", "__1", "__1", "__7", "__8", "__1", "__1", "__9", "__1",
                "__10", "__1", "__11", "__12", "__1", "__1", "__13", "__14", "name", "__15",
                "__16",
            ])
        )
    );
}

#[test]
fn plain_text_is_unchanged() {
    for text in ["", "no placeholders here", "closing only }", "a } b }} c", "ünïcödé ✓"] {
        let (rewritten, catalogue) = parse_internal(text);
        assert_eq!(rewritten, text);
        assert!(catalogue.names().is_empty());
    }
}

#[test]
fn escaped_braces_are_kept() {
    let (rewritten, catalogue) = parse_internal("{{");
    assert_eq!(rewritten, "{{");
    assert!(catalogue.names().is_empty());

    let (rewritten, catalogue) = parse_internal("}}");
    assert_eq!(rewritten, "}}");
    assert!(catalogue.names().is_empty());

    let (rewritten, catalogue) = parse_internal("{{literal}} {x}");
    assert_eq!(rewritten, "{{literal}} {x}");
    assert_eq!(key_set(&catalogue), to_set(&["x"]));
}

#[test]
fn implicit_indices_count_from_zero() {
    let (rewritten, catalogue) = parse_internal("{} {} {}");
    assert_eq!(rewritten, "{__0} {__1} {__2}");
    assert_eq!(key_set(&catalogue), to_set(&["__0", "__1", "__2"]));
    for key in ["__0", "__1", "__2"] {
        assert_eq!(trait_of(&catalogue, key), Some(None));
    }
}

#[test]
fn implicit_indices_reach_two_digits() {
    let (rewritten, _) = parse_internal("{}{}{}{}{}{}{}{}{}{}{}{}");
    assert_eq!(
        rewritten,
        "{__0}{__1}{__2}{__3}{__4}{__5}{__6}{__7}{__8}{__9}{__10}{__11}"
    );
}

#[test]
fn explicit_indices_bypass_counter() {
    let (rewritten, catalogue) = parse_internal("{1} {} {0}");
    assert_eq!(rewritten, "{__1} {__0} {__0}");
    assert_eq!(key_set(&catalogue), to_set(&["__0", "__1"]));

    let (rewritten, _) = parse_internal("{1} {} {0} {}");
    assert_eq!(rewritten, "{__1} {__0} {__0} {__1}");

    let (rewritten, _) = parse_internal("{} {0} {}");
    assert_eq!(rewritten, "{__0} {__0} {__1}");
}

#[test]
fn digit_names_take_the_prefix() {
    let (rewritten, catalogue) = parse_internal("{7} {007:x}");
    assert_eq!(rewritten, "{__7} {__007:x}");
    assert_eq!(key_set(&catalogue), to_set(&["__7", "__007"]));
}

#[test]
fn named_references_are_stable() {
    let (rewritten, catalogue) = parse_internal("{name} and {name}");
    assert_eq!(rewritten, "{name} and {name}");
    assert_eq!(catalogue.names(), vec!["name".to_string()]);
    assert_eq!(trait_of(&catalogue, "name"), Some(None));
}

#[test]
fn trait_annotations_are_captured() {
    let (rewritten, catalogue) = parse_internal("{x:?}");
    assert_eq!(rewritten, "{x:?}");
    assert_eq!(trait_of(&catalogue, "x"), Some(Some("?".to_string())));

    let (rewritten, catalogue) = parse_internal("{:#x}");
    assert_eq!(rewritten, "{__0:#x}");
    assert_eq!(trait_of(&catalogue, "__0"), Some(Some("#x".to_string())));
    assert_eq!(trait_of(&catalogue, "x"), None);

    let (rewritten, catalogue) = parse_internal("{x:}");
    assert_eq!(rewritten, "{x:}");
    assert_eq!(trait_of(&catalogue, "x"), Some(Some(String::new())));

    let (rewritten, catalogue) = parse_internal("{x:a:b}");
    assert_eq!(rewritten, "{x:a:b}");
    assert_eq!(trait_of(&catalogue, "x"), Some(Some("a:b".to_string())));
}

#[test]
fn reparsing_rewritten_text_is_a_no_op() {
    for text in [
        "Hello, {}! {:#?} {name:x} {3} {{ }} {a{b} {:}",
        "{1} {} {0}",
        "x {:e} y {",
    ] {
        let (once, first) = parse_internal(text);
        let (twice, second) = parse_internal(&once);
        assert_eq!(twice, once);
        assert_eq!(key_set(&second), key_set(&first));
        for key in first.names() {
            assert_eq!(second.get(&key), first.get(&key));
        }
    }
}

#[test]
fn duplicate_key_keeps_last_trait() {
    let (rewritten, catalogue) = parse_internal("{0:x} {0:#x}");
    assert_eq!(rewritten, "{__0:x} {__0:#x}");
    assert_eq!(catalogue.names(), vec!["__0".to_string()]);
    assert_eq!(trait_of(&catalogue, "__0"), Some(Some("#x".to_string())));

    let (_, catalogue) = parse_internal("{a:?} {a}");
    assert_eq!(trait_of(&catalogue, "a"), Some(None));
}

#[test]
fn unterminated_placeholder_drops_the_rest() {
    let (rewritten, catalogue) = parse_internal("abc {name");
    assert_eq!(rewritten, "abc ");
    assert!(catalogue.names().is_empty());

    let (rewritten, catalogue) = parse_internal("{a} tail {");
    assert_eq!(rewritten, "{a} tail ");
    assert_eq!(key_set(&catalogue), to_set(&["a"]));

    let (rewritten, catalogue) = parse_internal("{x:? and more");
    assert_eq!(rewritten, "");
    assert!(catalogue.names().is_empty());
}

#[test]
fn name_runs_to_first_closing_brace() {
    let (rewritten, catalogue) = parse_internal("{a{b}c}");
    assert_eq!(rewritten, "{a{b}c}");
    assert_eq!(key_set(&catalogue), to_set(&["a{b"]));
}

#[test]
fn interpolate_keeps_variant_and_results() {
    let variant = VariantShape {
        name: "Unnamed".to_string(),
        fields: FieldShape::Unnamed(3),
    };
    let parsed = Interpolate::parse("{0:?} and {2}", variant);
    assert_eq!(parsed.variant.name, "Unnamed");
    assert_eq!(parsed.rewritten_text, "{__0:?} and {__2}");
    assert_eq!(key_set(&parsed.identifiers), to_set(&["__0", "__2"]));
    assert_eq!(
        parsed.pattern_bindings(),
        vec!["__0".to_string(), "_".to_string(), "__2".to_string()]
    );
}

#[test]
fn pattern_bindings_by_shape() {
    let unit = Interpolate::parse(
        "Unit error",
        VariantShape { name: "Unit".to_string(), fields: FieldShape::Unit },
    );
    assert!(unit.pattern_bindings().is_empty());

    let named = Interpolate::parse(
        "Named error: {message}",
        VariantShape {
            name: "Named".to_string(),
            fields: FieldShape::Named(vec!["message".to_string(), "code".to_string()]),
        },
    );
    assert_eq!(
        named.pattern_bindings(),
        vec!["message".to_string(), "code".to_string()]
    );

    let wide = Interpolate::parse(
        "{} {11}",
        VariantShape { name: "Wide".to_string(), fields: FieldShape::Unnamed(12) },
    );
    let bindings = wide.pattern_bindings();
    assert_eq!(bindings.len(), 12);
    assert_eq!(bindings[0], "__0");
    assert_eq!(bindings[10], "_");
    assert_eq!(bindings[11], "__11");
}
