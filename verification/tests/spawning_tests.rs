use ironclad_agent::spawning::{
    child_address_from_secret, child_address_of, derive_child_address, SpawnStatus,
};

#[test]
fn status_display() {
    assert_eq!(SpawnStatus::Provisioning.to_display_string(), "provisioning");
    assert_eq!(SpawnStatus::Running.to_display_string(), "running");
    assert_eq!(SpawnStatus::Completed.to_display_string(), "completed");
    assert_eq!(SpawnStatus::TimedOut.to_display_string(), "timed_out");
    assert_eq!(SpawnStatus::Reclaimed.to_display_string(), "reclaimed");
    assert_eq!(SpawnStatus::Failed.to_display_string(), "failed");
}

fn hex_bytes(s: &str) -> Vec<u8> {
    (0..s.len())
        .step_by(2)
        .map(|i| u8::from_str_radix(&s[i..i + 2], 16).unwrap())
        .collect()
}

#[test]
fn address_of_the_generator_point() {
    // The public key of private key 1 has a well-known address.
    let hex = "04\
        79be667ef9dcbbac55a06295ce870b07029bfcdb2dce28d959f2815b16f81798\
        483ada7726a3c4655da4fbfc0e1108a8fd17b448a68554199c47d08ffb10d4b8";
    let pk = hex_bytes(hex);
    assert_eq!(
        child_address_of(&pk),
        "0x7e5f4552091a69125d5dfcb7b8c2659029395bdf"
    );
}

#[test]
fn derived_addresses_have_the_address_shape() {
    let a = derive_child_address().expect("the system random source works");
    assert!(a.starts_with("0x"));
    assert_eq!(a.len(), 42);
    assert!(a[2..].chars().all(|c| c.is_ascii_hexdigit() && !c.is_ascii_uppercase()));
}

#[test]
fn address_from_secret_one_and_invalid_secrets() {
    let mut one = [0u8; 32];
    one[31] = 1;
    assert_eq!(
        child_address_from_secret(&one),
        Some("0x7e5f4552091a69125d5dfcb7b8c2659029395bdf".to_string())
    );
    assert_eq!(child_address_from_secret(&[0u8; 32]), None);
    assert_eq!(child_address_from_secret(&[0xffu8; 32]), None);
}
