use libsurfer::konata::texts::{str_eq, text_hash, StringInterner};
use libsurfer::konata::trace::{format_value, AttrValue};

#[test]
fn interning_hands_out_one_id_per_text() {
    let mut strings = StringInterner::new();
    let a = strings.intern("alpha".to_string());
    let b = strings.intern("beta".to_string());
    let again = strings.intern("alpha".to_string());
    assert_eq!((a, b, again), (0, 1, 0));
    assert_eq!(strings.len(), 2);
    assert_eq!(strings.lookup("beta"), Some(1));
    assert_eq!(strings.lookup("gamma"), None);
    assert_eq!(strings.get(1), "beta");
    assert_eq!(strings.into_values(), vec!["alpha".to_string(), "beta".to_string()]);
}

#[test]
fn text_hash_is_fnv1a_over_characters() {
    assert_eq!(text_hash(""), 0xcbf2_9ce4_8422_2325);
    assert_eq!(text_hash("a"), 0xaf63_dc4c_8601_ec8c);
    assert_ne!(text_hash("ab"), text_hash("ba"));
}

#[test]
fn strings_compare_by_characters() {
    assert!(str_eq("lane", "lane"));
    assert!(!str_eq("lane", "lanes"));
    assert!(!str_eq("lane", "Lane"));
    assert!(str_eq("", ""));
}

#[test]
fn values_format_as_their_display_text() {
    assert_eq!(format_value(&AttrValue::Unsigned(42)), "42");
    assert_eq!(format_value(&AttrValue::Integer(-12)), "-12");
    assert_eq!(format_value(&AttrValue::Boolean(true)), "true");
    assert_eq!(format_value(&AttrValue::Time(0)), "0");
    assert_eq!(format_value(&AttrValue::FloatingPointNumber("1.5".to_string())), "1.5");
    assert_eq!(format_value(&AttrValue::Error), "");
    assert_eq!(
        format_value(&AttrValue::Unsigned(18_446_744_073_709_551_615)),
        "18446744073709551615"
    );
}
