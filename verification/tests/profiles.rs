use k1fix::error::K1FixError;
use k1fix::profiles::{profile_id, profile_slot, PROFILE_COUNT};

#[test]
fn known_profiles_by_id() {
    assert_eq!(PROFILE_COUNT, 3);
    assert_eq!(profile_slot("k1").ok(), Some(0));
    assert_eq!(profile_slot("k1c").ok(), Some(1));
    assert_eq!(profile_slot("k1max").ok(), Some(2));
    for slot in 0..PROFILE_COUNT {
        assert_eq!(profile_slot(profile_id(slot)).ok(), Some(slot));
    }
}

#[test]
fn unknown_profile_errors() {
    match profile_slot("nope") {
        Err(K1FixError::UnknownProfile(id)) => assert_eq!(id, "nope"),
        _ => panic!("expected an unknown-profile error"),
    }
    assert!(profile_slot("K1").is_err());
    assert!(profile_slot("k1 ").is_err());
}
