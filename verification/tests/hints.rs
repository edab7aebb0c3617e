//! The inlay-hint decision kernels and macro completion.

use method_resolution::ide::{
    complete_macro_in_item_position, is_argument_similar_to_param_name, is_obvious_param,
    pat_is_enum_variant, should_show_param_name_hint, to_lower_snake_case, InlayHint,
    InlayHintsConfig, InlayKind,
};

#[test]
fn default_config_enables_everything() {
    let config = InlayHintsConfig::default();
    assert!(config.type_hints);
    assert!(config.parameter_hints);
    assert!(config.chaining_hints);
    assert!(config.max_length.is_none());
}

#[test]
fn obvious_params_are_recognized() {
    assert!(is_obvious_param("predicate"));
    assert!(is_obvious_param("value"));
    assert!(is_obvious_param("pat"));
    assert!(is_obvious_param("rhs"));
    assert!(is_obvious_param("other"));
    assert!(is_obvious_param("x"));
    assert!(!is_obvious_param("amount"));
}

#[test]
fn snake_case_conversion() {
    assert_eq!(to_lower_snake_case("FooBar"), "foo_bar");
    assert_eq!(to_lower_snake_case("Weekday"), "weekday");
    assert_eq!(to_lower_snake_case("already_snake"), "already_snake");
}

#[test]
fn argument_similarity_suppresses_hints() {
    let repr = "query".to_string();
    assert!(is_argument_similar_to_param_name(Some(&repr), None, "query"));
    let under = "_query".to_string();
    assert!(is_argument_similar_to_param_name(Some(&under), None, "query"));
    let enum_name = "Weekday".to_string();
    assert!(is_argument_similar_to_param_name(None, Some(&enum_name), "weekday"));
    let other = "banana".to_string();
    assert!(!is_argument_similar_to_param_name(Some(&other), None, "query"));
}

#[test]
fn param_hints_suppressed_for_obvious_cases() {
    // Empty after trimming underscores.
    assert!(!should_show_param_name_hint(None, false, 2, "__", None, None));
    // Repeats the function's own name.
    let fn_name = "resolve".to_string();
    assert!(!should_show_param_name_hint(Some(&fn_name), false, 2, "resolve", None, None));
    // Test fixtures never get hints.
    assert!(!should_show_param_name_hint(None, false, 2, "ra_fixture_text", None, None));
    // An obvious name on a one-parameter function.
    assert!(!should_show_param_name_hint(None, false, 1, "value", None, None));
    assert!(!should_show_param_name_hint(None, true, 2, "value", None, None));
    // A meaningful name on a two-parameter function shows.
    assert!(should_show_param_name_hint(None, false, 2, "timeout", None, None));
}

#[test]
fn enum_variant_patterns_need_no_type_hint() {
    let variants = vec!["Monday".to_string(), "Tuesday".to_string()];
    assert!(pat_is_enum_variant(&variants, "Monday"));
    assert!(!pat_is_enum_variant(&variants, "monday"));
    assert!(!pat_is_enum_variant(&variants, "Friday"));
}

#[test]
fn completes_macros_only_at_item_position() {
    let scope = vec![
        ("foo".to_string(), true),
        ("main".to_string(), false),
        ("vec".to_string(), true),
    ];
    let offered = complete_macro_in_item_position(true, &scope);
    assert_eq!(offered, vec!["foo".to_string(), "vec".to_string()]);
    assert!(complete_macro_in_item_position(false, &scope).is_empty());
}

#[test]
fn inlay_hint_carries_its_parts() {
    let hint = InlayHint {
        range: method_resolution::text::TextRange { start: 3, end: 7 },
        kind: InlayKind::ChainingHint,
        label: "i32".to_string(),
    };
    assert_eq!(hint.range.start, 3);
    assert!(matches!(hint.kind, InlayKind::ChainingHint));
    assert_eq!(hint.label, "i32");
    assert_eq!(method_resolution::ide::foo::<std::iter::Empty<u8>>(), "");
}
