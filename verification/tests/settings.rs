use fluqsr::discovery::DEFAULT_TRANSFER_PORT;
use fluqsr::settings::{default_receive_dir, join_path, Settings, SettingsStore};

#[test]
fn defaults_are_used_on_first_run() {
    let settings = SettingsStore::load(None, "Laptop".into(), "/home/me/fluqsr".into());
    assert_eq!(settings.device_name(), "Laptop");
    assert_eq!(settings.transfer_port(), DEFAULT_TRANSFER_PORT);
    assert_eq!(settings.receive_dir(), "/home/me/fluqsr");
}

#[test]
fn changes_survive_a_restart() {
    let mut settings = SettingsStore::load(None, "Laptop".into(), "/a".into());
    settings.set_receive_dir("/tmp/inbox".into());
    settings.set_device_name("Athar's Laptop");
    let reloaded = SettingsStore::load(Some(settings.get()), "ignored".into(), "/b".into());
    assert_eq!(reloaded.device_name(), "Athar's Laptop");
    assert_eq!(reloaded.receive_dir(), "/tmp/inbox");
}

#[test]
fn a_blank_device_name_is_ignored() {
    let mut settings = SettingsStore::load(None, "Laptop".into(), "/a".into());
    settings.set_device_name("   ");
    assert_eq!(settings.device_name(), "Laptop");
}

#[test]
fn device_names_are_bounded() {
    let mut settings = SettingsStore::load(None, "Laptop".into(), "/a".into());
    settings.set_device_name(&"a".repeat(500));
    assert!(settings.device_name().chars().count() <= 64);
    assert_eq!(settings.device_name(), "a".repeat(64));
}

#[test]
fn device_names_are_trimmed() {
    let mut settings = SettingsStore::load(None, "Laptop".into(), "/a".into());
    settings.set_device_name("  Desk  ");
    assert_eq!(settings.device_name(), "Desk");
}

#[test]
fn the_default_folder_prefers_downloads() {
    assert_eq!(default_receive_dir(Some("/home/me"), true), "/home/me/Downloads/fluqsr");
    assert_eq!(default_receive_dir(Some("/home/me/"), false), "/home/me/fluqsr");
    assert_eq!(default_receive_dir(None, false), "./fluqsr");
}

#[test]
fn joining_adds_one_separator() {
    assert_eq!(join_path("a", "b"), "a/b");
    assert_eq!(join_path("a/", "b"), "a/b");
    assert_eq!(join_path("", "b"), "b");
}

#[test]
fn first_run_settings_use_the_default_port() {
    let s = Settings::defaults("Name".into(), "/dir".into());
    assert_eq!(s.transfer_port, DEFAULT_TRANSFER_PORT);
    assert_eq!(s.device_name, "Name");
    assert_eq!(s.receive_dir, "/dir");
}
