use tailwind_expand::{AliasMap, Config, TailwindExpandVisitor};

fn create_visitor(aliases: AliasMap, debug: bool) -> TailwindExpandVisitor {
    TailwindExpandVisitor::new(Config { aliases, debug })
}

#[test]
fn test_expand_token_direct_alias() {
    let mut aliases = AliasMap::new();
    aliases.insert("Button".to_string(), "px-4 py-2".to_string());

    let visitor = create_visitor(aliases, false);
    let (expanded, alias) = visitor.expand_token("Button");
    assert_eq!(expanded, "px-4 py-2");
    assert_eq!(alias, Some("Button".to_string()));
}

#[test]
fn test_expand_token_with_variant() {
    let mut aliases = AliasMap::new();
    aliases.insert("ButtonMd".to_string(), "h-10 px-4".to_string());

    let visitor = create_visitor(aliases, false);
    let (expanded, token) = visitor.expand_token("lg:ButtonMd");
    assert_eq!(expanded, "lg:h-10 lg:px-4");
    // Returns full token for data-expand
    assert_eq!(token, Some("lg:ButtonMd".to_string()));
}

#[test]
fn test_expand_token_with_important() {
    let mut aliases = AliasMap::new();
    aliases.insert("Button".to_string(), "px-4 py-2".to_string());

    let visitor = create_visitor(aliases, false);
    let (expanded, token) = visitor.expand_token("!Button");
    assert_eq!(expanded, "!px-4 !py-2");
    // Returns full token for data-expand
    assert_eq!(token, Some("!Button".to_string()));
}

#[test]
fn test_important_with_variant_utilities() {
    let mut aliases = AliasMap::new();
    aliases.insert(
        "ButtonMain".to_string(),
        "bg-amber-500 hover:bg-amber-600".to_string(),
    );

    let visitor = create_visitor(aliases, false);
    let (expanded, _) = visitor.expand_token("!ButtonMain");
    assert_eq!(expanded, "!bg-amber-500 hover:!bg-amber-600");
}

#[test]
fn test_expand_class_name() {
    let mut aliases = AliasMap::new();
    aliases.insert("Button".to_string(), "px-4 py-2".to_string());
    aliases.insert("ButtonMd".to_string(), "h-10".to_string());

    let visitor = create_visitor(aliases, false);
    let (expanded, tokens) = visitor.expand_class_name("Button lg:ButtonMd text-white");
    assert_eq!(expanded, "px-4 py-2 lg:h-10 text-white");
    // Returns full tokens for data-expand
    assert!(tokens.contains(&"Button".to_string()));
    assert!(tokens.contains(&"lg:ButtonMd".to_string()));
}

#[test]
fn test_config_with_aliases() {
    let mut aliases = AliasMap::new();
    aliases.insert("Button".to_string(), "px-4 py-2".to_string());
    aliases.insert("ButtonMd".to_string(), "h-10".to_string());
    let config = Config { aliases, debug: false };

    let visitor = TailwindExpandVisitor::new(config);
    let (expanded, _) = visitor.expand_token("Button");
    assert_eq!(expanded, "px-4 py-2");
}

#[test]
fn test_variant_deduplication_same_variant() {
    let mut aliases = AliasMap::new();
    aliases.insert(
        "ButtonMain".to_string(),
        "bg-amber-500 hover:bg-amber-600".to_string(),
    );

    let visitor = create_visitor(aliases, false);
    let (expanded, _) = visitor.expand_token("hover:ButtonMain");
    assert_eq!(expanded, "hover:bg-amber-500 hover:bg-amber-600");
}

#[test]
fn test_variant_deduplication_dark() {
    let mut aliases = AliasMap::new();
    aliases.insert(
        "ButtonGitHub".to_string(),
        "text-slate-950 dark:text-white".to_string(),
    );

    let visitor = create_visitor(aliases, false);
    let (expanded, _) = visitor.expand_token("dark:ButtonGitHub");
    assert_eq!(expanded, "dark:text-slate-950 dark:text-white");
}

#[test]
fn test_variant_deduplication_chained() {
    let mut aliases = AliasMap::new();
    aliases.insert(
        "ButtonMain".to_string(),
        "bg-amber-500 hover:bg-amber-600".to_string(),
    );

    let visitor = create_visitor(aliases, false);
    let (expanded, _) = visitor.expand_token("dark:hover:ButtonMain");
    assert_eq!(expanded, "dark:hover:bg-amber-500 dark:hover:bg-amber-600");
}

#[test]
fn test_variant_stacking_different_variants() {
    let mut aliases = AliasMap::new();
    aliases.insert(
        "ButtonMain".to_string(),
        "bg-amber-500 hover:bg-amber-600".to_string(),
    );

    let visitor = create_visitor(aliases, false);
    let (expanded, _) = visitor.expand_token("dark:ButtonMain");
    assert_eq!(expanded, "dark:bg-amber-500 dark:hover:bg-amber-600");
}

#[test]
fn test_variant_with_important_modifier() {
    let mut aliases = AliasMap::new();
    aliases.insert(
        "ButtonMain".to_string(),
        "bg-amber-500 hover:bg-amber-600".to_string(),
    );

    let visitor = create_visitor(aliases, false);
    let (expanded, _) = visitor.expand_token("hover:!ButtonMain");
    assert_eq!(expanded, "hover:!bg-amber-500 hover:!bg-amber-600");
}

#[test]
fn test_debug_mode_tracks_aliases() {
    let mut aliases = AliasMap::new();
    aliases.insert("Button".to_string(), "px-4 py-2".to_string());
    aliases.insert("ButtonMd".to_string(), "h-10".to_string());

    let visitor = create_visitor(aliases, true);
    let (expanded, tracked_aliases) = visitor.expand_class_name("Button ButtonMd");
    assert_eq!(expanded, "px-4 py-2 h-10");
    assert!(tracked_aliases.contains(&"Button".to_string()));
    assert!(tracked_aliases.contains(&"ButtonMd".to_string()));
}

#[test]
fn test_unknown_token_passes_through() {
    let mut aliases = AliasMap::new();
    aliases.insert("Button".to_string(), "px-4 py-2".to_string());

    let visitor = create_visitor(aliases, false);
    let (expanded, alias) = visitor.expand_token("text-white");
    assert_eq!(expanded, "text-white");
    assert_eq!(alias, None);
}

#[test]
fn test_unknown_token_with_important_passes_through() {
    let mut aliases = AliasMap::new();
    aliases.insert("Button".to_string(), "px-4 py-2".to_string());

    let visitor = create_visitor(aliases, false);
    let (expanded, alias) = visitor.expand_token("!text-white");
    assert_eq!(expanded, "!text-white");
    assert_eq!(alias, None);
}

#[test]
fn test_unknown_token_with_variant_passes_through() {
    let mut aliases = AliasMap::new();
    aliases.insert("Button".to_string(), "px-4 py-2".to_string());

    let visitor = create_visitor(aliases, false);
    let (expanded, alias) = visitor.expand_token("lg:!text-white");
    assert_eq!(expanded, "lg:!text-white");
    assert_eq!(alias, None);
}

#[test]
fn test_expand_class_name_collapses_whitespace() {
    let mut aliases = AliasMap::new();
    aliases.insert("Button".to_string(), "px-4 py-2".to_string());

    let visitor = create_visitor(aliases, false);
    let (expanded, _) = visitor.expand_class_name("  Button \t text-white ");
    assert_eq!(expanded, "px-4 py-2 text-white");
}

#[test]
fn test_expand_class_name_reports_each_token_once() {
    let mut aliases = AliasMap::new();
    aliases.insert("Button".to_string(), "px-4 py-2".to_string());

    let visitor = create_visitor(aliases, false);
    let (expanded, tokens) = visitor.expand_class_name("Button Button");
    assert_eq!(expanded, "px-4 py-2 px-4 py-2");
    assert_eq!(tokens, vec!["Button".to_string()]);
}

#[test]
fn test_expand_class_name_empty_string() {
    let mut aliases = AliasMap::new();
    aliases.insert("Button".to_string(), "px-4 py-2".to_string());

    let visitor = create_visitor(aliases, false);
    let (expanded, tokens) = visitor.expand_class_name("");
    assert_eq!(expanded, "");
    assert!(tokens.is_empty());
}

#[test]
fn test_insert_important_placement() {
    assert_eq!(tailwind_expand::insert_important("bg-primary"), "!bg-primary");
    assert_eq!(
        tailwind_expand::insert_important("hover:bg-primary"),
        "hover:!bg-primary"
    );
    assert_eq!(
        tailwind_expand::insert_important("dark:hover:bg-primary"),
        "dark:hover:!bg-primary"
    );
}

#[test]
fn test_apply_variant_prefix_cases() {
    assert_eq!(tailwind_expand::apply_variant_prefix("", "hover:x"), "hover:x");
    assert_eq!(
        tailwind_expand::apply_variant_prefix("dark:", "hover:bg-x"),
        "dark:hover:bg-x"
    );
    assert_eq!(
        tailwind_expand::apply_variant_prefix("hover:", "hover:bg-x"),
        "hover:bg-x"
    );
    assert_eq!(
        tailwind_expand::apply_variant_prefix("dark:hover:", "hover:bg-x"),
        "dark:hover:bg-x"
    );
}

#[test]
fn test_is_class_attr_name_exact_match() {
    assert!(tailwind_expand::is_class_attr_name("className"));
    assert!(tailwind_expand::is_class_attr_name("class"));
    assert!(tailwind_expand::is_class_attr_name("classes"));
    assert!(!tailwind_expand::is_class_attr_name("ClassName"));
    assert!(!tailwind_expand::is_class_attr_name("style"));
}

#[test]
fn test_debug_flag_is_kept() {
    let visitor = create_visitor(AliasMap::new(), true);
    assert!(visitor.debug_enabled());
    let visitor = create_visitor(AliasMap::new(), false);
    assert!(!visitor.debug_enabled());
}
