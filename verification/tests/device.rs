use fluqsr::crypto::DeviceKey;
use fluqsr::device::{current_platform, default_device_name, Identity, SelfView, StoredIdentity};
use fluqsr::settings::SettingsStore;

fn strings(items: &[&str]) -> Vec<String> {
    items.iter().map(|s| s.to_string()).collect()
}

#[test]
fn identity_is_stable_across_restarts() {
    let first = Identity::generate("Laptop").unwrap();
    let second = Identity::restore(first.to_stored()).unwrap();
    assert_eq!(first.device_id, second.device_id);
    assert_eq!(first.fingerprint(), second.fingerprint());
}

#[test]
fn separate_devices_get_separate_identities() {
    let first = Identity::generate("A").unwrap();
    let second = Identity::generate("B").unwrap();
    assert_ne!(first.device_id, second.device_id);
    assert_ne!(first.fingerprint(), second.fingerprint());
}

#[test]
fn a_corrupt_key_regenerates_rather_than_failing_to_start() {
    let corrupt = StoredIdentity {
        device_id: "x".into(),
        device_name: "y".into(),
        key_pem: "not a key".into(),
    };
    assert!(Identity::restore(corrupt).is_none());
    let recovered = Identity::generate("y").unwrap();
    assert!(!recovered.device_id.is_empty());
}

#[test]
fn device_name_is_never_empty() {
    let name = default_device_name(&strings(&["", "  "]), &strings(&[" "]), "linux");
    assert!(!name.trim().is_empty());
    assert_eq!(name, "fluqsr linux");
}

#[test]
fn the_host_name_wins_over_the_user_name() {
    assert_eq!(
        default_device_name(&strings(&["", "  desk-01 "]), &strings(&["athar"]), "linux"),
        "desk-01"
    );
    assert_eq!(
        default_device_name(&strings(&[]), &strings(&["", "athar"]), "macos"),
        "athar's macos"
    );
}

#[test]
fn platforms_are_named_by_the_build_target() {
    assert_eq!(current_platform("linux"), "linux");
    assert_eq!(current_platform("windows"), "windows");
    assert_eq!(current_platform("macos"), "macos");
    assert_eq!(current_platform("freebsd"), "unknown");
}

#[test]
fn an_identity_round_trips_through_storage() {
    let id = Identity::generate("Laptop").unwrap();
    let stored = id.to_stored();
    assert_eq!(stored.device_id, id.device_id);
    assert_eq!(stored.device_name, "Laptop");
    assert!(stored.key_pem.contains("PRIVATE KEY"));
    assert_eq!(id.device_id.len(), 36);
}

#[test]
fn the_info_panel_shows_the_settings_name() {
    let id = Identity::generate("Created As").unwrap();
    let settings = SettingsStore::load(None, "Renamed".into(), "/in".into());
    let view = SelfView::of(&id, &settings, "linux");
    assert_eq!(view.device.device_name, "Renamed");
    assert_eq!(view.device.device_id, id.device_id);
    assert_eq!(view.device.platform, "linux");
    assert_eq!(view.device.fingerprint, id.fingerprint());
    assert_eq!(view.short_fingerprint, id.fingerprint().to_short());
    assert_eq!(view.settings.receive_dir, "/in");
    let info = id.info("ios");
    assert_eq!(info.device_name, "Created As");
    assert_eq!(info.platform, "ios");
}

#[test]
fn a_stored_key_restores_the_same_fingerprint() {
    let key = DeviceKey::generate().unwrap();
    let stored = StoredIdentity {
        device_id: "id".into(),
        device_name: "name".into(),
        key_pem: key.to_pem(),
    };
    let restored = Identity::restore(stored).unwrap();
    assert_eq!(restored.fingerprint(), key.fingerprint());
    assert_eq!(restored.device_name, "name");
}

#[test]
fn an_identity_written_and_read_back_is_the_same_device() {
    let id = Identity::generate("Desk").unwrap();
    let restored = Identity::restore(id.to_stored()).unwrap();
    assert_eq!(restored.device_id, id.device_id);
    assert_eq!(restored.device_name, id.device_name);
    assert_eq!(restored.fingerprint(), id.fingerprint());
    assert_eq!(restored.to_stored().key_pem, id.to_stored().key_pem);
}
