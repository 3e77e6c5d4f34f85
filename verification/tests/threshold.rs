use tuxedo::threshold::resolve_threshold_value;

#[test]
fn threshold_values_resolve_against_their_anchor() {
    let r = |th: &str, due: Option<&str>, created: Option<&str>| resolve_threshold_value(th, due, created);
    assert_eq!(r("2026-06-01", None, None), Some("2026-06-01".to_string()));
    assert_eq!(r("-3d", Some("2026-06-10"), None), Some("2026-06-07".to_string()));
    assert_eq!(r("-3d", None, Some("2026-06-10")), Some("2026-06-07".to_string()));
    assert_eq!(r("-3d", Some("2026-06-10"), Some("2020-01-01")), Some("2026-06-07".to_string()));
    assert_eq!(r("1w", Some("2026-12-28"), None), Some("2027-01-04".to_string()));
    assert_eq!(r("-1y", Some("2024-02-29"), None), Some("2023-02-28".to_string()));
    assert_eq!(r("13m", Some("2026-01-15"), None), Some("2027-02-15".to_string()));
    assert_eq!(r("-3d", None, None), None);
    assert_eq!(r("-3d", Some("later"), None), None);
    assert_eq!(r("", Some("2026-06-10"), None), None);
    assert_eq!(r("+", Some("2026-06-10"), None), None);
    assert_eq!(r("d", Some("2026-06-10"), None), None);
}

#[test]
fn day_shifts_undo_and_add_up() {
    let there = resolve_threshold_value("45d", Some("2026-11-20"), None).unwrap();
    assert_eq!(there, "2027-01-04");
    let back = resolve_threshold_value("-45d", Some(there.as_str()), None).unwrap();
    assert_eq!(back, "2026-11-20");
    let a = resolve_threshold_value("20d", Some("2026-11-20"), None).unwrap();
    let b = resolve_threshold_value("25d", Some(a.as_str()), None).unwrap();
    assert_eq!(b, there);
    assert_eq!(resolve_threshold_value("0d", Some("2026-11-20"), None), Some("2026-11-20".to_string()));
}
