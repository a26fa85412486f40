use tailwind_expand::{extract_aliases, resolve_aliases, AliasMap, Config, TailwindExpandVisitor};

fn value(m: &AliasMap, key: &str) -> Option<String> {
    m.get(key).cloned()
}

#[test]
fn test_resolve_transitive_reference() {
    let mut raw = AliasMap::new();
    raw.insert("Typography".to_string(), "text-base font-normal".to_string());
    raw.insert("Button".to_string(), "Typography px-4".to_string());

    let resolved = resolve_aliases(&raw);
    assert_eq!(
        value(&resolved, "Button"),
        Some("text-base font-normal px-4".to_string())
    );
    assert_eq!(
        value(&resolved, "Typography"),
        Some("text-base font-normal".to_string())
    );
}

#[test]
fn test_resolve_two_cycle_first_order() {
    let mut raw = AliasMap::new();
    raw.insert("A".to_string(), "B".to_string());
    raw.insert("B".to_string(), "A".to_string());

    let resolved = resolve_aliases(&raw);
    assert_eq!(value(&resolved, "A"), Some("B".to_string()));
    assert_eq!(value(&resolved, "B"), Some("A".to_string()));
}

#[test]
fn test_resolve_two_cycle_second_order() {
    let mut raw = AliasMap::new();
    raw.insert("B".to_string(), "A".to_string());
    raw.insert("A".to_string(), "B".to_string());

    let resolved = resolve_aliases(&raw);
    assert_eq!(value(&resolved, "A"), Some("B".to_string()));
    assert_eq!(value(&resolved, "B"), Some("A".to_string()));
}

#[test]
fn test_resolve_self_reference_stays_literal() {
    let mut raw = AliasMap::new();
    raw.insert("A".to_string(), "A x-1".to_string());

    let resolved = resolve_aliases(&raw);
    assert_eq!(value(&resolved, "A"), Some("A x-1".to_string()));
}

#[test]
fn test_resolve_unknown_reference_stays_literal() {
    let mut raw = AliasMap::new();
    raw.insert("A".to_string(), "Missing x-1".to_string());

    let resolved = resolve_aliases(&raw);
    assert_eq!(value(&resolved, "A"), Some("Missing x-1".to_string()));
}

#[test]
fn test_resolve_lowercase_token_is_no_reference() {
    let mut raw = AliasMap::new();
    raw.insert("A".to_string(), "b-1".to_string());
    raw.insert("B".to_string(), "A".to_string());

    let resolved = resolve_aliases(&raw);
    assert_eq!(value(&resolved, "B"), Some("b-1".to_string()));
}

#[test]
fn test_resolve_is_idempotent_on_resolved_map() {
    let mut raw = AliasMap::new();
    raw.insert("Typography".to_string(), "text-base font-normal".to_string());
    raw.insert("Button".to_string(), "Typography px-4".to_string());

    let once = resolve_aliases(&raw);
    let twice = resolve_aliases(&once);
    assert_eq!(value(&once, "Button"), value(&twice, "Button"));
    assert_eq!(value(&once, "Typography"), value(&twice, "Typography"));
}

#[test]
fn test_resolve_is_idempotent_on_cyclic_result() {
    let mut raw = AliasMap::new();
    raw.insert("A".to_string(), "B x-1".to_string());
    raw.insert("B".to_string(), "A".to_string());

    let once = resolve_aliases(&raw);
    let twice = resolve_aliases(&once);
    assert_eq!(value(&once, "A"), value(&twice, "A"));
    assert_eq!(value(&once, "B"), value(&twice, "B"));
}

#[test]
fn test_resolve_three_cycle_keeps_first_reference() {
    let mut raw = AliasMap::new();
    raw.insert("A".to_string(), "B".to_string());
    raw.insert("B".to_string(), "C".to_string());
    raw.insert("C".to_string(), "A".to_string());

    let resolved = resolve_aliases(&raw);
    assert_eq!(value(&resolved, "A"), Some("B".to_string()));
    assert_eq!(value(&resolved, "B"), Some("C".to_string()));
    assert_eq!(value(&resolved, "C"), Some("A".to_string()));
}

#[test]
fn test_alias_reference_shape() {
    assert!(tailwind_expand::is_alias_token("Button"));
    assert!(tailwind_expand::is_alias_token("ButtonMd2"));
    assert!(!tailwind_expand::is_alias_token("button"));
    assert!(!tailwind_expand::is_alias_token("Button-Md"));
    assert!(!tailwind_expand::is_alias_token(""));
    assert!(!tailwind_expand::is_alias_token("9Button"));
}

#[test]
fn test_extract_then_resolve_then_expand() {
    let css = "@expand Typography { @apply text-base; } \
               @expand Button { @apply Typography px-4; &Md { @apply h-10; } }";
    let raw = extract_aliases(css);
    let resolved = resolve_aliases(&raw);
    assert_eq!(value(&resolved, "Button"), Some("text-base px-4".to_string()));

    let visitor = TailwindExpandVisitor::new(Config { aliases: resolved, debug: false });
    let (expanded, _) = visitor.expand_class_name("Button lg:ButtonMd plain");
    assert_eq!(expanded, "text-base px-4 lg:h-10 plain");
}
