use org3d::settings::{Settings, SettingsForm};

fn form() -> SettingsForm {
    SettingsForm {
        base_folder: "  /models ".to_string(),
        port: " 3000\n".to_string(),
        db_path: "db".to_string(),
        thumb_dir: " t ".to_string(),
        preferred_slicer: "orca".to_string(),
        rescan_on_startup: Some("on".to_string()),
    }
}

#[test]
fn defaults_are_empty() {
    let s = Settings::default();
    assert_eq!(s.base_folder, "");
    assert_eq!(s.port, 0);
    assert_eq!(s.db_path, "");
    assert_eq!(s.thumb_dir, "");
    assert_eq!(s.preferred_slicer, None);
    assert!(!s.rescan_on_startup);
    assert!(!s.is_configured());
}

#[test]
fn a_base_folder_makes_settings_complete() {
    let s = Settings { base_folder: "/m".to_string(), ..Settings::default() };
    assert!(s.is_configured());
}

#[test]
fn settings_are_kept_where_the_system_keeps_them() {
    let home = Some("/home/eve");
    assert_eq!(Settings::config_file(false, home, None), "/home/eve/.config/org3d/config.toml");
    assert_eq!(Settings::config_file(false, home, Some("/cfg")), "/cfg/org3d/config.toml");
    assert_eq!(Settings::config_file(false, None, None), "./.config/org3d/config.toml");
    assert_eq!(
        Settings::config_file(true, home, Some("/cfg")),
        "/home/eve/Library/Application Support/org3d/config.toml"
    );
    assert_eq!(Settings::config_dir(true, None, None), "./Library/Application Support/org3d");
}

#[test]
fn forms_are_read() {
    let s = Settings::from_form(&form());
    assert_eq!(s.base_folder, "/models");
    assert_eq!(s.port, 3000);
    assert_eq!(s.db_path, "db");
    assert_eq!(s.thumb_dir, "t");
    assert_eq!(s.preferred_slicer.as_deref(), Some("orca"));
    assert!(s.rescan_on_startup);
}

#[test]
fn ports_and_slicers_may_be_left_open() {
    for port in ["", "x", "65536", "-1", "80 80"] {
        let s = Settings::from_form(&SettingsForm { port: port.to_string(), ..form() });
        assert_eq!(s.port, 0, "port {port:?}");
    }
    let s = Settings::from_form(&SettingsForm { port: "+65535".to_string(), ..form() });
    assert_eq!(s.port, 65535);
    for slicer in ["", "none"] {
        let s = Settings::from_form(&SettingsForm { preferred_slicer: slicer.to_string(), ..form() });
        assert_eq!(s.preferred_slicer, None);
    }
    let s = Settings::from_form(&SettingsForm { rescan_on_startup: Some("off".to_string()), ..form() });
    assert!(!s.rescan_on_startup);
    let s = Settings::from_form(&SettingsForm { rescan_on_startup: None, ..form() });
    assert!(!s.rescan_on_startup);
}

#[test]
fn empty_paths_go_below_the_data_directory() {
    let s = Settings::default().with_data_dir("/data");
    assert_eq!(s.db_path, "/data/org3d.db");
    assert_eq!(s.thumb_dir, "/data/thumbs");
    let t = Settings { db_path: "/x.db".to_string(), ..Settings::default() }.with_data_dir("/data");
    assert_eq!(t.db_path, "/x.db");
    assert_eq!(t.thumb_dir, "/data/thumbs");
}
