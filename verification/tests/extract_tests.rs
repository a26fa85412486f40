use tailwind_expand::{extract_aliases, extract_block_content, AliasMap};

fn value(m: &AliasMap, key: &str) -> Option<String> {
    m.get(key).cloned()
}

#[test]
fn test_block_content_balanced() {
    assert_eq!(extract_block_content("a { b } c } d"), "a { b } c ");
}

#[test]
fn test_block_content_unbalanced_runs_to_end() {
    assert_eq!(extract_block_content("a { b c"), "a { b c");
}

#[test]
fn test_block_content_immediate_close() {
    assert_eq!(extract_block_content("} rest"), "");
}

#[test]
fn test_extract_nested_rule() {
    let css = "@expand Button { @apply px-4 py-2; &Md { @apply h-10; } }";
    let raw = extract_aliases(css);
    assert_eq!(value(&raw, "Button"), Some("px-4 py-2".to_string()));
    assert_eq!(value(&raw, "ButtonMd"), Some("h-10".to_string()));
}

#[test]
fn test_extract_multiple_apply_statements() {
    let css = "@expand Card { @apply p-2; @apply m-1 rounded; }";
    let raw = extract_aliases(css);
    assert_eq!(value(&raw, "Card"), Some("p-2 m-1 rounded".to_string()));
}

#[test]
fn test_extract_same_alias_in_two_blocks() {
    let css = "@expand Card { @apply p-2; } @expand Card { @apply m-1; }";
    let raw = extract_aliases(css);
    assert_eq!(value(&raw, "Card"), Some("p-2 m-1".to_string()));
}

#[test]
fn test_extract_marker_without_brace_is_skipped() {
    let css = "@expand Broken with no block anywhere";
    let raw = extract_aliases(css);
    assert_eq!(value(&raw, "Broken"), None);
}

#[test]
fn test_extract_nested_rule_without_brace_is_skipped() {
    let css = "@expand Button { @apply a-1; &Md @apply b-2; }";
    let raw = extract_aliases(css);
    assert_eq!(value(&raw, "Button"), Some("a-1 b-2".to_string()));
    assert_eq!(value(&raw, "ButtonMd"), None);
}

#[test]
fn test_extract_trailing_apply_after_nested_rule() {
    let css = "@expand Button { @apply a-1; &Md { @apply h-10; } @apply b-2; }";
    let raw = extract_aliases(css);
    assert_eq!(value(&raw, "Button"), Some("a-1 b-2".to_string()));
    assert_eq!(value(&raw, "ButtonMd"), Some("h-10".to_string()));
}

#[test]
fn test_extract_two_nested_rules() {
    let css = "@expand Btn { &Sm { @apply h-8; } &Lg { @apply h-12; } }";
    let raw = extract_aliases(css);
    // The component itself has no @apply of its own, so only the nested
    // aliases are defined.
    assert_eq!(value(&raw, "Btn"), None);
    assert_eq!(value(&raw, "BtnSm"), Some("h-8".to_string()));
    assert_eq!(value(&raw, "BtnLg"), Some("h-12".to_string()));
}

#[test]
fn test_extract_trims_utility_lists() {
    let css = "@expand Pad { @apply   p-2   m-1  ; }";
    let raw = extract_aliases(css);
    assert_eq!(value(&raw, "Pad"), Some("p-2   m-1".to_string()));
}

#[test]
fn test_extract_statement_without_terminator_is_dropped() {
    let css = "@expand Pad { @apply p-1 }";
    let raw = extract_aliases(css);
    assert_eq!(value(&raw, "Pad"), None);
}

#[test]
fn test_extract_marker_needs_following_whitespace() {
    let css = "@expand Pad { @applyfoo; @apply p-1; }";
    let raw = extract_aliases(css);
    assert_eq!(value(&raw, "Pad"), Some("p-1".to_string()));
}

#[test]
fn test_extract_name_tight_against_brace() {
    let css = "@expand Btn{ @apply p-1; }";
    let raw = extract_aliases(css);
    assert_eq!(value(&raw, "Btn"), Some("p-1".to_string()));
}

#[test]
fn test_extract_skips_inner_brace_pairs() {
    let css = "@expand A { @apply a-1; &B { @apply b-1; .x { } } @apply c-1; }";
    let raw = extract_aliases(css);
    assert_eq!(value(&raw, "A"), Some("a-1 c-1".to_string()));
    assert_eq!(value(&raw, "AB"), Some("b-1".to_string()));
}

#[test]
fn test_extract_empty_source() {
    let raw = extract_aliases("");
    assert_eq!(value(&raw, "Button"), None);
}

#[test]
fn test_extract_ignores_other_css() {
    let css = ".btn { color: red; } @expand Button { @apply px-4; } .x { }";
    let raw = extract_aliases(css);
    assert_eq!(value(&raw, "Button"), Some("px-4".to_string()));
}
