use std::collections::BTreeSet;

use interpolate::parse_internal;
use interpolate::Interpolate;

fn to_set<T: ToString>(values: &[T]) -> BTreeSet<String> {
    values.iter().map(|a| a.to_string()).collect()
}

/// Run the normalizer and collapse the identifier list to a set, for
/// assertions that do not care about order.
fn parsed(text: &str) -> (String, BTreeSet<String>) {
    let (rewritten, identifiers) = parse_internal(text);
    (rewritten, identifiers.into_iter().collect())
}

#[test]
fn test_named_placeholders() {
    // Single named placeholder
    assert_eq!(
        parsed("Hello, {name}!"),
        ("Hello, {name}!".to_string(), to_set(&["name"]))
    );

    // Multiple named placeholders
    assert_eq!(
        parsed("Hello, {name}! You are {age} years old."),
        (
            "Hello, {name}! You are {age} years old.".to_string(),
            to_set(&["name", "age"])
        )
    );
}

#[test]
fn test_positional_placeholders() {
    // Explicit positional placeholders
    assert_eq!(
        parsed("Hello, {0}! {1}"),
        ("Hello, {__0}! {__1}".to_string(), to_set(&["__0", "__1"]))
    );

    // Implicit positional placeholders
    assert_eq!(
        parsed("Hello, {}! {}"),
        ("Hello, {__0}! {__1}".to_string(), to_set(&["__0", "__1"]))
    );

    // Mixed explicit and implicit positional placeholders
    // Note: The current implementation reuses indices for the same position
    assert_eq!(
        parsed("{} {1} {0} {}"),
        ("{__0} {__1} {__0} {__1}".to_string(), to_set(&["__0", "__1"]))
    );
}

#[test]
fn test_mixed_named_and_positional() {
    assert_eq!(
        parsed("Hello, {}! My name is {name}. I'm {} years old."),
        (
            "Hello, {__0}! My name is {name}. I'm {__1} years old.".to_string(),
            to_set(&["__0", "name", "__1"])
        )
    );
}

#[test]
fn test_format_specifiers() {
    // Debug format specifier
    assert_eq!(
        parsed("Debug: {value:?}"),
        ("Debug: {value:?}".to_string(), to_set(&["value"]))
    );

    // Hex format specifier
    assert_eq!(
        parsed("Hex: {value:x}"),
        ("Hex: {value:x}".to_string(), to_set(&["value"]))
    );

    // Multiple format specifiers
    assert_eq!(
        parsed("Number: {num:04x} {num:#x}"),
        ("Number: {num:04x} {num:#x}".to_string(), to_set(&["num", "num"]))
    );
}

#[test]
fn test_edge_cases() {
    // Empty string
    assert_eq!(parsed(""), ("".to_string(), BTreeSet::new()));

    // No placeholders
    assert_eq!(
        parsed("Just a regular string"),
        ("Just a regular string".to_string(), BTreeSet::new())
    );

    // Only placeholders
    assert_eq!(
        parsed("{}{name}{0}"),
        ("{__0}{name}{__0}".to_string(), to_set(&["__0", "name", "__0"]))
    );

    // Escaped braces
    assert_eq!(
        parsed("{{escaped}} {{braces}} {name}"),
        (
            "{{escaped}} {{braces}} {name}".to_string(),
            to_set(&["name"])
        )
    );
}

#[test]
fn test_complex_combinations() {
    assert_eq!(
        parsed("User {name}: {age} years, {height:.2}m, ID: {:08x}"),
        (
            "User {name}: {age} years, {height:.2}m, ID: {__0:08x}".to_string(),
            to_set(&["name", "age", "height", "__0"])
        )
    );
}

#[test]
fn test_auto_increment() {
    let (rewritten, identifiers) = parse_internal("{} {} {}");
    assert_eq!(rewritten, "{__0} {__1} {__2}");
    assert_eq!(identifiers, vec!["__0", "__1", "__2"]);
}

#[test]
fn test_field_order_is_first_appearance() {
    let (rewritten, identifiers) = parse_internal("Hi {}! I'm {name}, {} yrs");
    assert_eq!(rewritten, "Hi {__0}! I'm {name}, {__1} yrs");
    assert_eq!(identifiers, vec!["__0", "name", "__1"]);
}

#[test]
fn test_explicit_and_auto_paths_converge() {
    // The explicit literal 0 and the first automatic index give the same
    // canonical identifier, in either order.
    assert_eq!(parsed("{0} {}"), ("{__0} {__0}".to_string(), to_set(&["__0"])));
    assert_eq!(parsed("{} {0}"), ("{__0} {__0}".to_string(), to_set(&["__0"])));
}

#[test]
fn test_rewritten_output_is_stable() {
    // Re-normalizing a rewritten template changes nothing: canonical
    // names are fixed points.
    let (first, first_fields) = parse_internal("{} {1} x {0:>8}");
    let (second, second_fields) = parse_internal(&first);
    assert_eq!(second, first);
    assert_eq!(second_fields, first_fields);
}

#[test]
fn test_escapes_only() {
    assert_eq!(parsed("{{}}"), ("{{}}".to_string(), BTreeSet::new()));
    assert_eq!(parsed("{{{{}}}}"), ("{{{{}}}}".to_string(), BTreeSet::new()));
}

#[test]
fn test_unterminated_placeholder_is_dropped() {
    // A placeholder left open at end of input contributes nothing.
    assert_eq!(parsed("abc {xyz"), ("abc ".to_string(), BTreeSet::new()));
    assert_eq!(parsed("{"), ("".to_string(), BTreeSet::new()));
    assert_eq!(parsed("{name:0"), ("".to_string(), BTreeSet::new()));
}

#[test]
fn test_empty_specifier_is_dropped() {
    assert_eq!(parsed("{name:}"), ("{name}".to_string(), to_set(&["name"])));
}

#[test]
fn test_numeric_width() {
    // Digit strings within the 8-bit range are positional references;
    // wider ones stay names, so nothing ever wraps or collides.
    assert_eq!(parsed("{255}"), ("{__255}".to_string(), to_set(&["__255"])));
    assert_eq!(parsed("{256}"), ("{256}".to_string(), to_set(&["256"])));
    // Leading zeros are kept as written.
    assert_eq!(parsed("{007}"), ("{__007}".to_string(), to_set(&["__007"])));
}

#[test]
fn test_parse_keeps_variant() {
    let variant: syn::Variant = syn::parse_str("Greeting").unwrap();
    let interp = Interpolate::parse("Hello, {}!", &variant);
    assert_eq!(interp.rewritten_text, "Hello, {__0}!");
    assert_eq!(interp.identifiers, vec!["__0"]);
    assert_eq!(interp.variant.ident.to_string(), "Greeting");
}
