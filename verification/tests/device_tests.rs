use ironclad_agent::device::{DeviceError, DeviceIdentity, DeviceManager, PairingState};

fn test_identity() -> DeviceIdentity {
    DeviceIdentity::generate("test-device")
}

fn test_manager() -> DeviceManager {
    DeviceManager::new(test_identity(), 5)
}

#[test]
fn generate_identity() {
    let id = DeviceIdentity::generate("laptop");
    assert!(id.device_id.starts_with("dev_"));
    assert!(!id.public_key_hex.is_empty());
    assert_eq!(id.device_name, "laptop");
}

#[test]
fn identity_fingerprint() {
    let id = test_identity();
    let fp = id.fingerprint();
    assert_eq!(fp.len(), 16);
}

#[test]
fn initiate_pairing() {
    let mut mgr = test_manager();
    mgr.initiate_pairing("remote-1", "04abcdef", "phone").unwrap();
    assert_eq!(mgr.paired_count(), 1);
    assert!(!mgr.is_trusted("remote-1"));
}

#[test]
fn verify_pairing() {
    let mut mgr = test_manager();
    mgr.initiate_pairing("remote-1", "04abcdef", "phone").unwrap();
    mgr.verify_pairing("remote-1").unwrap();
    assert!(mgr.is_trusted("remote-1"));
    assert_eq!(mgr.trusted_devices().len(), 1);
}

#[test]
fn reject_pairing() {
    let mut mgr = test_manager();
    mgr.initiate_pairing("remote-1", "04abcdef", "phone").unwrap();
    mgr.reject_pairing("remote-1").unwrap();
    assert!(!mgr.is_trusted("remote-1"));
    assert_eq!(mgr.all_devices()[0].state, PairingState::Rejected);
}

#[test]
fn unpair() {
    let mut mgr = test_manager();
    mgr.initiate_pairing("remote-1", "04abcdef", "phone").unwrap();
    mgr.unpair("remote-1").unwrap();
    assert_eq!(mgr.paired_count(), 0);
}

#[test]
fn max_paired_limit() {
    let mut mgr = DeviceManager::new(test_identity(), 2);
    mgr.initiate_pairing("d1", "key1", "dev1").unwrap();
    mgr.initiate_pairing("d2", "key2", "dev2").unwrap();
    let err = mgr.initiate_pairing("d3", "key3", "dev3").unwrap_err();
    assert!(err.to_display_string().contains("maximum"));
    assert_eq!(err.to_display_string(), "maximum paired devices (2) reached");
}

#[test]
fn duplicate_pairing_rejected() {
    let mut mgr = test_manager();
    mgr.initiate_pairing("d1", "key1", "dev1").unwrap();
    let err = mgr.initiate_pairing("d1", "key1", "dev1").unwrap_err();
    assert!(err.to_display_string().contains("already"));
}

#[test]
fn verify_nonexistent_fails() {
    let mut mgr = test_manager();
    assert!(mgr.verify_pairing("nope").is_err());
}

#[test]
fn verify_non_pending_fails() {
    let mut mgr = test_manager();
    mgr.initiate_pairing("d1", "key1", "dev1").unwrap();
    mgr.verify_pairing("d1").unwrap();
    let err = mgr.verify_pairing("d1").unwrap_err();
    assert!(matches!(err, DeviceError::NotPending(ref id) if id == "d1"));
}

#[test]
fn record_seen() {
    let mut mgr = test_manager();
    mgr.initiate_pairing("d1", "key1", "dev1").unwrap();
    mgr.verify_pairing("d1").unwrap();
    mgr.record_seen("d1");
    let devs = mgr.trusted_devices();
    assert!(devs[0].last_seen.is_some());
}

#[test]
fn identity_from_clock_readings_formats() {
    let id = DeviceIdentity::from_clock_readings("pc", 0x1_0000_0001, 255, 7);
    assert_eq!(id.device_id, "dev_2");
    assert_eq!(id.public_key_hex.len(), 66);
    assert!(id.public_key_hex.starts_with("04"));
    assert!(id.public_key_hex.ends_with("ff"));
    assert_eq!(id.created_at, 7);
}

#[test]
fn fingerprint_of_pads_to_sixteen_digits() {
    assert_eq!(DeviceIdentity::fingerprint_of(0xabc), "0000000000000abc");
    assert_eq!(DeviceIdentity::fingerprint_of(u64::MAX), "ffffffffffffffff");
}

#[test]
fn verify_pairing_at_records_the_time() {
    let mut mgr = test_manager();
    mgr.initiate_pairing("d1", "key1", "dev1").unwrap();
    mgr.verify_pairing_at("d1", 1234).unwrap();
    let d = &mgr.all_devices()[0];
    assert_eq!(d.state, PairingState::Verified);
    assert_eq!(d.paired_at, Some(1234));
    assert_eq!(d.last_seen, Some(1234));
    mgr.record_seen_at("d1", 2000);
    assert_eq!(mgr.all_devices()[0].last_seen, Some(2000));
}

#[test]
fn missing_device_errors() {
    let mut mgr = test_manager();
    let err = mgr.unpair("ghost").unwrap_err();
    assert_eq!(err.to_display_string(), "device 'ghost' not found");
    assert!(mgr.reject_pairing("ghost").is_err());
    assert_eq!(mgr.identity().device_name, "test-device");
}
