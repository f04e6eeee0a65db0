use p4_analyzer::text::{str_eq, str_has_prefix, str_to_u32, trim_str};

#[test]
fn test_str_to_u32_values() {
    assert_eq!(str_to_u32("0"), Some(0));
    assert_eq!(str_to_u32("16"), Some(16));
    assert_eq!(str_to_u32("4294967295"), Some(4294967295));
    assert_eq!(str_to_u32("4294967296"), None);
    assert_eq!(str_to_u32(""), None);
    assert_eq!(str_to_u32("12a"), None);
    assert_eq!(str_to_u32("+16"), None);
}

#[test]
fn test_trim_str() {
    assert_eq!(trim_str("  bit<16>\t\n"), "bit<16>");
    assert_eq!(trim_str("bool"), "bool");
    assert_eq!(trim_str("   "), "");
    assert_eq!(trim_str(""), "");
}

#[test]
fn test_str_helpers() {
    assert!(str_eq("match_kind", "match_kind"));
    assert!(!str_eq("bit", "bot"));
    assert!(!str_eq("bit", "bits"));
    assert!(str_has_prefix("varbit<3>", "varbit"));
    assert!(!str_has_prefix("bit<3>", "varbit"));
}
