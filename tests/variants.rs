use variant_forest::variants::Variant;

#[test]
fn new_variant_has_no_importance() {
    let v = Variant::new("rs123".to_string());
    assert_eq!(v.id, "rs123");
    assert_eq!(v.max_importance, 0);
}

#[test]
fn set_importance_records_value() {
    let mut v = Variant::new("rs9".to_string());
    v.set_importance(-42);
    assert_eq!(v.max_importance, -42);
    assert_eq!(v.id, "rs9");
}
