use org3d::updater::{
    check_and_update, find_app, find_enclosing_app, find_mount_point, find_release, is_newer, read_release,
    start, startup_url, Banner, UpdateAction, UpdateEvent, UpdateState, UpdateStep,
};
use org3d::json::JsonNode;

const ANSWER: &[u8] = br#"{"tag_name": "v1.3.0", "assets": [
    {"name": "source.zip", "browser_download_url": "http://x/source.zip"},
    {"name": 5},
    {"name": "org3d.dmg", "browser_download_url": "http://x/org3d.dmg"},
    {"name": "second.dmg", "browser_download_url": "http://x/second.dmg"}]}"#;

const MOUNTED: &[u8] = b"/dev/disk4\tGUID_partition_scheme\t\n/dev/disk4s1\tApple_HFS\t/Volumes/org3d \n";

fn next(step: UpdateStep, event: UpdateEvent) -> UpdateStep {
    check_and_update(step.state, event, "1.2.9")
}

fn shown(step: &UpdateStep) -> Option<&str> {
    match &step.banner {
        Banner::Show(s) => Some(s),
        _ => None,
    }
}

fn downloading() -> UpdateStep {
    let s = next(start(), UpdateEvent::Slept);
    next(s, UpdateEvent::Answered(Some(ANSWER.to_vec())))
}

fn mounted() -> UpdateStep {
    let s = next(downloading(), UpdateEvent::Downloaded(true));
    next(s, UpdateEvent::Mounted(Some(MOUNTED.to_vec())))
}

fn copying() -> UpdateStep {
    let s = next(
        mounted(),
        UpdateEvent::Listed(vec!["/Volumes/org3d/readme".to_string(), "/Volumes/org3d/org3d.app".to_string()]),
    );
    next(s, UpdateEvent::Found(Some("/Applications/org3d.app/Contents/MacOS/org3d".to_string())))
}

#[test]
fn versions_are_compared_by_numbers() {
    assert!(is_newer("1.2.10", "1.2.9"));
    assert!(is_newer("2", "1.9.9"));
    assert!(is_newer("1.3", "1.2.99"));
    assert!(!is_newer("1.2.9", "1.2.9"));
    assert!(!is_newer("1.2", "1.2.0"));
    assert!(!is_newer("", "0.0.1"));
    assert!(!is_newer("0.9", "1.0"));
    // pieces that are no numbers are passed over
    assert!(is_newer("beta.1.5", "1.4"));
    assert!(!is_newer("99999999999999999999", "1"));
    // only three numbers count
    assert!(!is_newer("1.2.3.4", "1.2.3"));
}

#[test]
fn newer_versions_are_ordered() {
    assert!(is_newer("1.10", "1.9") && !is_newer("1.9", "1.10"));
    assert!(is_newer("3", "2.5") && is_newer("2.5", "2") && is_newer("3", "2"));
}

#[test]
fn releases_are_read() {
    let r = read_release(ANSWER, "1.2.9").unwrap();
    assert_eq!(r.version, "1.3.0");
    assert_eq!(r.url, "http://x/org3d.dmg");
    assert!(read_release(ANSWER, "1.3.0").is_none());
    assert!(read_release(b"{", "1.2.9").is_none());
    assert!(read_release(b"[]", "1.2.9").is_none());
    assert!(read_release(br#"{"tag_name": "v9", "assets": {}}"#, "1").is_none());
    assert!(read_release(br#"{"tag_name": "v9"}"#, "1").is_none());
    assert!(read_release(br#"{"tag_name": 9, "assets": []}"#, "1").is_none());
    // the first image counts, even where it cannot be had
    assert!(read_release(
        br#"{"tag_name": "9", "assets": [{"name": "a.dmg"}, {"name": "b.dmg", "browser_download_url": "u"}]}"#,
        "1"
    )
    .is_none());
}

#[test]
fn releases_are_found_in_documents() {
    let node = |parent: Option<usize>, key: Option<&str>, text: Option<&str>| JsonNode {
        parent,
        key: key.map(str::to_string),
        text: text.map(str::to_string),
    };
    let nodes = [
        node(None, None, None),
        node(Some(0), Some("tag_name"), Some("vv2.0")),
        node(Some(0), Some("assets"), None),
        node(Some(2), None, None),
        node(Some(3), Some("name"), Some("a.dmg")),
        node(Some(3), Some("browser_download_url"), Some("u")),
    ];
    let r = find_release(&nodes, "1.0").unwrap();
    assert_eq!((r.version.as_str(), r.url.as_str()), ("2.0", "u"));
    assert!(find_release(&nodes, "2.0").is_none());
    assert!(find_release(&nodes[..4], "1.0").is_none());
    assert!(find_release(&[], "1.0").is_none());
}

#[test]
fn mount_points_are_found() {
    assert_eq!(find_mount_point("a\tb\t /Volumes/X Y \r\nz"), Some("/Volumes/X Y".to_string()));
    assert_eq!(find_mount_point("/Volumes/First\n/Volumes/Second"), Some("/Volumes/First".to_string()));
    assert_eq!(find_mount_point("/Volumes/A\tno"), None);
    assert_eq!(find_mount_point(""), None);
}

#[test]
fn applications_are_found() {
    let entries = ["/Volumes/X/a.txt".to_string(), "/Volumes/X/b.app".to_string()];
    assert_eq!(find_app(&entries), Some("/Volumes/X/b.app".to_string()));
    assert_eq!(find_app(&entries[..1]), None);
    assert_eq!(
        find_enclosing_app("/Applications/o.app/Contents/MacOS/o"),
        Some("/Applications/o.app".to_string())
    );
    assert_eq!(find_enclosing_app("/usr/bin/o"), None);
    assert_eq!(find_enclosing_app("o.app"), Some("o.app".to_string()));
}

#[test]
fn an_update_runs_to_its_end() {
    let s = start();
    assert!(matches!(s.action, UpdateAction::Sleep(3)));
    let s = next(s, UpdateEvent::Slept);
    assert!(matches!(s.action, UpdateAction::AskServer));
    let s = downloading();
    assert_eq!(shown(&s), Some("Downloading update v1.3.0…"));
    assert!(matches!(&s.action, UpdateAction::Download(u) if u == "http://x/org3d.dmg"));
    let s = next(s, UpdateEvent::Downloaded(true));
    assert_eq!(shown(&s), Some("Installing update v1.3.0…"));
    assert!(matches!(s.action, UpdateAction::Mount));
    let s = mounted();
    assert!(matches!(&s.action, UpdateAction::ListVolume(m) if m == "/Volumes/org3d"));
    let s = copying();
    assert!(matches!(&s.action, UpdateAction::Copy(a, b)
        if a == "/Volumes/org3d/org3d.app" && b == "/Applications/org3d.app"));
    let s = next(s, UpdateEvent::CopyEnded(true));
    assert!(matches!(&s.action, UpdateAction::Unmount(m) if m == "/Volumes/org3d"));
    let s = next(s, UpdateEvent::Unmounted);
    assert!(matches!(&s.action, UpdateAction::ClearQuarantine(a) if a == "/Applications/org3d.app"));
    let s = next(s, UpdateEvent::Cleared);
    assert_eq!(shown(&s), Some("Update v1.3.0 installed — restarting…"));
    assert!(matches!(s.action, UpdateAction::Sleep(2)));
    let s = next(s, UpdateEvent::Slept);
    assert!(matches!(&s.action, UpdateAction::Open(a) if a == "/Applications/org3d.app"));
    let s = next(s, UpdateEvent::Opened);
    assert!(matches!(s.action, UpdateAction::Exit));
    assert!(matches!(s.state, UpdateState::Done));
}

#[test]
fn no_release_leaves_everything_as_it_is() {
    for answer in [None, Some(b"{}".to_vec())] {
        let s = next(next(start(), UpdateEvent::Slept), UpdateEvent::Answered(answer));
        assert!(matches!(s.action, UpdateAction::Stop));
        assert!(matches!(s.banner, Banner::Keep));
    }
}

#[test]
fn failures_clear_the_banner() {
    let s = next(downloading(), UpdateEvent::Downloaded(false));
    assert!(matches!((s.action, s.banner), (UpdateAction::Stop, Banner::Clear)));
    for printed in [None, Some(b"nothing".to_vec()), Some(b"\xff".to_vec())] {
        let s = next(next(downloading(), UpdateEvent::Downloaded(true)), UpdateEvent::Mounted(printed));
        assert!(matches!((s.action, s.banner), (UpdateAction::Stop, Banner::Clear)));
    }
}

#[test]
fn mounted_volumes_are_unmounted() {
    let s = next(mounted(), UpdateEvent::Listed(Vec::new()));
    assert!(matches!(&s.action, UpdateAction::Unmount(m) if m == "/Volumes/org3d"));
    let s = next(s, UpdateEvent::Unmounted);
    assert!(matches!((s.action, s.banner), (UpdateAction::Stop, Banner::Clear)));

    let s = next(mounted(), UpdateEvent::Listed(vec!["/Volumes/org3d/org3d.app".to_string()]));
    let s = next(s, UpdateEvent::Found(None));
    assert!(matches!(&s.action, UpdateAction::Unmount(_)));

    let s = next(copying(), UpdateEvent::CopyEnded(false));
    assert!(matches!(&s.action, UpdateAction::Unmount(_)));
    let s = next(s, UpdateEvent::Unmounted);
    assert_eq!(
        shown(&s),
        Some(r#"Update v1.3.0 available — <a href="http://x/org3d.dmg" style="color:inherit">Download</a>"#)
    );
    assert!(matches!(s.action, UpdateAction::Stop));
}

#[test]
fn lossy_text_is_searched() {
    let mut printed = b"\xff\t/Volumes/caf\xc3\xa9\xff\n".to_vec();
    printed.insert(0, b'x');
    let s = next(next(downloading(), UpdateEvent::Downloaded(true)), UpdateEvent::Mounted(Some(printed)));
    assert!(matches!(&s.action, UpdateAction::ListVolume(m) if m == "/Volumes/café\u{fffd}"));
}

#[test]
fn the_first_page_is_the_settings() {
    assert_eq!(startup_url(3000, true), "http://127.0.0.1:3000/");
    assert_eq!(startup_url(0, false), "http://127.0.0.1:0/settings");
}
