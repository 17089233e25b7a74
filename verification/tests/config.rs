use parbench::config::check_setting;
use parbench::parse_leafcap;

#[test]
fn leafcap_default_and_values() {
    assert_eq!(parse_leafcap(None), 4);
    assert_eq!(parse_leafcap(Some("16")), 16);
    assert_eq!(parse_leafcap(Some("0")), 0);
    assert_eq!(parse_leafcap(Some("")), 0);
}

#[test]
fn adapint_threshold_default_and_values() {
    assert_eq!(parbench::adapint::parse_threshold(None), 1500);
    assert_eq!(parbench::adapint::parse_threshold(Some("18446744073709551615")), u64::MAX);
    assert_eq!(parbench::adapint::parse_threshold(Some("300")), 300);
}

#[test]
fn check_setting_accepts_and_refuses() {
    assert!(check_setting(None, 0));
    assert!(check_setting(Some(""), 0));
    assert!(check_setting(Some("1500"), 1500));
    assert!(!check_setting(Some("1501"), 1500));
    assert!(!check_setting(Some("12a"), u64::MAX));
    assert!(!check_setting(Some("-1"), u64::MAX));
    assert!(check_setting(Some("18446744073709551615"), u64::MAX));
    assert!(!check_setting(Some("18446744073709551616"), u64::MAX));
    assert!(!check_setting(Some("99999999999999999999999"), u64::MAX));
}
