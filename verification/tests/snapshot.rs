use functerm::environment::{environment_name_equals, EnvironmentSnapshot};
use functerm::platform::Platform;

fn binding(name: &str, value: &str) -> (Vec<u8>, Vec<u8>) {
    (name.as_bytes().to_vec(), value.as_bytes().to_vec())
}

#[test]
fn environment_variables_round_trip() {
    let value = b"environment value".to_vec();
    let snapshot = EnvironmentSnapshot::from_variables(vec![(
        b"FUNCTERM_TEST_NAME".to_vec(),
        value.clone(),
    )]);
    assert_eq!(
        snapshot.value(b"FUNCTERM_TEST_NAME", Platform::Unix),
        Some(value)
    );
}

#[test]
fn new_tab_request_does_not_send_client_environment() {
    let client = EnvironmentSnapshot::from_variables(vec![binding("HOME", "/home/user")]);
    assert_eq!(
        EnvironmentSnapshot::for_new_tab_request(Platform::Windows, client).variables(),
        Vec::<(Vec<u8>, Vec<u8>)>::new()
    );
}

#[test]
fn new_tab_request_sends_client_environment_on_unix() {
    let client = EnvironmentSnapshot::from_variables(vec![binding("HOME", "/home/user")]);
    assert_eq!(
        EnvironmentSnapshot::for_new_tab_request(Platform::Unix, client).variables(),
        vec![binding("HOME", "/home/user")]
    );
}

#[test]
fn first_matching_variable_wins() {
    let snapshot = EnvironmentSnapshot::from_variables(vec![
        binding("Path", "first"),
        binding("PATH", "second"),
    ]);
    assert_eq!(snapshot.value(b"PATH", Platform::Unix), Some(b"second".to_vec()));
    assert_eq!(snapshot.value(b"PATH", Platform::Windows), Some(b"first".to_vec()));
    assert_eq!(snapshot.value(b"HOME", Platform::Windows), None);
}

#[test]
fn names_compare_exactly_on_unix_and_ignoring_ascii_case_on_windows() {
    assert!(environment_name_equals(b"Path", b"PATH", Platform::Windows));
    assert!(!environment_name_equals(b"Path", b"PATH", Platform::Unix));
    assert!(environment_name_equals(b"PATH", b"PATH", Platform::Unix));
    assert!(!environment_name_equals(b"PATH", b"PATH_", Platform::Windows));
    assert!(!environment_name_equals("Ä".as_bytes(), "ä".as_bytes(), Platform::Windows));
}
