use pq2hlg::tm::ToneMapMethod;

#[test]
fn method_names() {
    assert_eq!(ToneMapMethod::from_name("rgb"), Some(ToneMapMethod::Rgb));
    assert_eq!(ToneMapMethod::from_name("maxrgb"), Some(ToneMapMethod::MaxRgb));
}

#[test]
fn method_names_are_exact() {
    assert_eq!(ToneMapMethod::from_name(""), None);
    assert_eq!(ToneMapMethod::from_name("RGB"), None);
    assert_eq!(ToneMapMethod::from_name("maxRGB"), None);
    assert_eq!(ToneMapMethod::from_name("rgb "), None);
    assert_eq!(ToneMapMethod::from_name("max"), None);
    assert_eq!(ToneMapMethod::from_name("rgbmax"), None);
    assert_eq!(ToneMapMethod::from_name("maxrgbx"), None);
    assert_eq!(ToneMapMethod::from_name("rgc"), None);
}
