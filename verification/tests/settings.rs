use nyaland::settings::AppSettings;

#[test]
fn defaults_with_folder() {
    let s = AppSettings::with_save_path("/dl".to_string());
    assert_eq!(s.save_path, "/dl");
    assert_eq!(s.nyaa_base_url, "https://nyaa.si");
    assert_eq!(s.max_download_speed, 0);
    assert_eq!(s.max_upload_speed, 0);
    assert_eq!(s.max_connections, 200);
    assert_eq!(s.max_active_downloads, 5);
    assert!(s.start_on_launch);
}

#[test]
fn default_settings() {
    let s = AppSettings::default();
    assert_eq!(s.nyaa_base_url, "https://nyaa.si");
    assert_eq!(s.max_connections, 200);
    assert!(s.save_path.ends_with("nyaland"));
}

#[test]
fn settings_in_download_folder() {
    let s = AppSettings::settings_in(Some("/home/u/Downloads".to_string()));
    assert_eq!(s.save_path, "/home/u/Downloads/nyaland");
    assert_eq!(s.max_active_downloads, 5);
    let t = AppSettings::settings_in(Some("/home/u/Downloads/".to_string()));
    assert_eq!(t.save_path, "/home/u/Downloads/nyaland");
    let w = AppSettings::settings_in(None);
    assert_eq!(w.save_path, "./nyaland");
    assert_eq!(AppSettings::settings_in(Some(String::new())).save_path, "nyaland");
}
