use ogham::core_id::crate_id;

#[test]
fn crate_id_is_stable() {
    assert_eq!(crate_id(), "ogham-core");
}
