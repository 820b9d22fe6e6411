use quantum::internals::Internals;

#[test]
fn insert_and_get_params() {
    let mut internals: Internals<i64> = Internals::new();
    internals.insert_param("mass", 42);
    internals.insert_param("charge", -1);

    assert_eq!(42, *internals.get_param("mass"));
    assert_eq!(-1, *internals.get_param("charge"));
}

#[test]
fn inserting_again_overrides() {
    let mut internals: Internals<i64> = Internals::new();
    internals.insert_param("energy", 10);
    internals.insert_param("energy", 20);

    assert_eq!(20, *internals.get_param("energy"));
}

#[test]
fn contains_param_reports_presence() {
    let mut internals: Internals<i64> = Internals::new();
    assert!(!internals.contains_param("mass"));

    internals.insert_param("mass", 42);
    assert!(internals.contains_param("mass"));
    assert!(!internals.contains_param("charge"));
}

#[test]
fn scaled_values_fit_as_pairs() {
    // the scalable parameters of a particle composition: a value with its
    // scaling factor
    let mut internals: Internals<(f64, f64)> = Internals::default();
    internals.insert_param("rot_const", (9.243165268327e-7, 1.0));

    let (value, scaling) = *internals.get_param("rot_const");
    assert_eq!(9.243165268327e-7 * 1.0, value * scaling);
}
