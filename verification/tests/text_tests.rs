use local_ci::resource::env_vars;
use local_ci::text::{clone_strings, decimal_string, push_decimal};

#[test]
fn test_decimal_string_values() {
    assert_eq!(decimal_string(0), "0");
    assert_eq!(decimal_string(7), "7");
    assert_eq!(decimal_string(10), "10");
    assert_eq!(decimal_string(409), "409");
    assert_eq!(decimal_string(1234567890), "1234567890");
    assert_eq!(decimal_string(usize::MAX), usize::MAX.to_string());
}

#[test]
fn test_push_decimal_appends() {
    let mut s = String::from("gpu-");
    push_decimal(&mut s, 12);
    assert_eq!(s, "gpu-12");
}

#[test]
fn test_clone_strings() {
    let v = vec!["a".to_string(), "bc".to_string()];
    assert_eq!(clone_strings(&v), v);
}

#[test]
fn test_env_vars_names_and_values() {
    let granted = vec![
        ("gpu".to_string(), vec!["g0".to_string(), "g1".to_string()]),
        ("none".to_string(), vec![]),
        ("disk".to_string(), vec!["sda".to_string()]),
    ];
    assert_eq!(
        env_vars(&granted),
        vec![
            ("LCI_RESOURCE_gpu_0".to_string(), "g0".to_string()),
            ("LCI_RESOURCE_gpu_1".to_string(), "g1".to_string()),
            ("LCI_RESOURCE_disk_0".to_string(), "sda".to_string()),
        ]
    );
}

#[test]
fn test_env_vars_empty() {
    assert_eq!(env_vars(&vec![]), Vec::<(String, String)>::new());
}
