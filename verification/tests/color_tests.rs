use kakera_core::{u32_to_alpha, AlphaPolicy};

#[test]
fn alpha_maps_known_discriminants() {
    assert_eq!(u32_to_alpha(0).unwrap(), AlphaPolicy::Ignore);
    assert_eq!(u32_to_alpha(1).unwrap(), AlphaPolicy::Weighted);
}

#[test]
fn alpha_rejects_unknown() {
    assert!(u32_to_alpha(2).is_err());
    assert_eq!(u32_to_alpha(7), Err(7));
}

#[test]
fn alpha_default_is_ignore() {
    assert_eq!(AlphaPolicy::default(), AlphaPolicy::Ignore);
}
