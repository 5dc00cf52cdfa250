use component_index::registry::{placement_ok, IndexRegistry, RegistrationError};

#[test]
fn registration_succeeds_once() {
    let mut reg = IndexRegistry::new();
    let r = reg.init_index(1, &vec![10, 20], 30, &vec![40]);
    assert_eq!(r, Ok(()));
}

#[test]
fn double_registration_is_an_error() {
    let mut reg = IndexRegistry::new();
    assert_eq!(reg.init_index(1, &vec![10], 30, &vec![40]), Ok(()));
    assert_eq!(
        reg.init_index(1, &vec![10], 30, &vec![40]),
        Err(RegistrationError::DoubleRegistration)
    );
}

#[test]
fn distinct_attributes_register_independently() {
    let mut reg = IndexRegistry::new();
    assert_eq!(reg.init_index(1, &vec![10], 30, &vec![40]), Ok(()));
    assert_eq!(reg.init_index(2, &vec![10], 30, &vec![40]), Ok(()));
}

#[test]
fn misplaced_synchronizer_is_an_error() {
    let mut reg = IndexRegistry::new();
    // the synchronizer would run before a mutating phase
    assert_eq!(
        reg.init_index(1, &vec![10, 35], 30, &vec![40]),
        Err(RegistrationError::MisplacedSynchronizer)
    );
    // a rejected request does not register the token
    assert_eq!(reg.init_index(1, &vec![10], 30, &vec![40]), Ok(()));
}

#[test]
fn placement_must_be_strictly_between() {
    // strictly after every mutating phase, strictly before every reader
    assert!(placement_ok(&vec![10, 20], 30, &vec![40, 50]));
    assert!(!placement_ok(&vec![30], 30, &vec![40]));
    assert!(!placement_ok(&vec![10], 30, &vec![30]));
    assert!(!placement_ok(&vec![10], 30, &vec![20]));
    // no mutating or reading phases constrain nothing
    assert!(placement_ok(&vec![], 30, &vec![]));
}
