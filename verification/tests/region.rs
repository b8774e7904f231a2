use carimbo::region::Region;

#[test]
fn default_is_us() {
    assert_eq!(Region::default(), Region::US);
}

#[test]
fn parses_setting_values() {
    assert_eq!(Region::from_setting(Some("\"br\"")), Region::BR);
    assert_eq!(Region::from_setting(Some("br")), Region::BR);
    assert_eq!(Region::from_setting(Some("\"BR\"")), Region::BR);
    assert_eq!(Region::from_setting(Some("\"us\"")), Region::US);
    assert_eq!(Region::from_setting(None), Region::US);
    assert_eq!(Region::from_setting(Some("garbage")), Region::US);
}
