use tcpreno::Algorithm;

#[test]
fn reno_name_any_ascii_case() {
    assert_eq!(Algorithm::from_name("reno"), Algorithm::Reno);
    assert_eq!(Algorithm::from_name("Reno"), Algorithm::Reno);
    assert_eq!(Algorithm::from_name("RENO"), Algorithm::Reno);
    assert_eq!(Algorithm::from_name("rEnO"), Algorithm::Reno);
}

#[test]
fn other_names_default_to_tahoe() {
    assert_eq!(Algorithm::from_name("tahoe"), Algorithm::Tahoe);
    assert_eq!(Algorithm::from_name("Tahoe"), Algorithm::Tahoe);
    assert_eq!(Algorithm::from_name(""), Algorithm::Tahoe);
    assert_eq!(Algorithm::from_name("ren"), Algorithm::Tahoe);
    assert_eq!(Algorithm::from_name("renoo"), Algorithm::Tahoe);
    assert_eq!(Algorithm::from_name("newreno"), Algorithm::Tahoe);
}

#[test]
fn from_owned_string() {
    assert_eq!(Algorithm::from(String::from("Reno")), Algorithm::Reno);
    assert_eq!(Algorithm::from(String::from("cubic")), Algorithm::Tahoe);
    let a: Algorithm = String::from("reno").into();
    assert_eq!(a, Algorithm::Reno);
}

#[test]
fn is_reno_distinguishes_variants() {
    assert!(Algorithm::Reno.is_reno());
    assert!(!Algorithm::Tahoe.is_reno());
}
