use org3d::autogroup::AutogroupStats;
use org3d::db::ModelRow;
use org3d::numbers::decimal_of_i64;
use org3d::server::{
    autogroup_error, autogroup_handler, check_page, escapes_html, extract_handler, fallback_port, find_slicer,
    is_stl, nonempty, open_in_slicer, paginate, parse_project, read_page, request_scan, rescan_handler,
    scan_status, search_params, serve_as_stl, serve_model_file, set_project, truncate_description,
    update_status_handler, upload_thumbnail, ContentType, FileReply, GalleryQuery, ModelCtx, OpenReply,
    ScanReply,
};

fn row() -> ModelRow {
    ModelRow {
        id: 3,
        path: "/m/x.3mf".to_string(),
        filename: "x.3mf".to_string(),
        folder: "/".to_string(),
        format: "3MF".to_string(),
        file_size: 9,
        title: None,
        designer: Some("Eve".to_string()),
        description: Some("one\ntwo".to_string()),
        application: None,
        license: None,
        created_at: None,
        object_count: None,
        triangle_count: Some(4),
        dim_x: None,
        dim_y: None,
        dim_z: None,
        thumbnail_path: None,
        project_id: Some(1),
    }
}

#[test]
fn projects_are_numbers() {
    assert_eq!(parse_project(Some("12")), Some(12));
    assert_eq!(parse_project(Some("-3")), Some(-3));
    assert_eq!(parse_project(Some("+3")), Some(3));
    assert_eq!(parse_project(Some("9223372036854775807")), Some(i64::MAX));
    assert_eq!(parse_project(Some("-9223372036854775808")), Some(i64::MIN));
    assert_eq!(parse_project(Some("9223372036854775808")), None);
    assert_eq!(parse_project(Some("")), None);
    assert_eq!(parse_project(Some("-")), None);
    assert_eq!(parse_project(Some("1 ")), None);
    assert_eq!(parse_project(None), None);
}

#[test]
fn empty_filters_are_none() {
    assert_eq!(nonempty(Some("")), None);
    assert_eq!(nonempty(Some("x")), Some("x"));
    assert_eq!(nonempty(None), None);
}

#[test]
fn descriptions_are_shortened() {
    assert_eq!(truncate_description("a\nb"), "a b");
    let full = "é".repeat(300);
    assert_eq!(truncate_description(&full), full);
    let long = "é".repeat(301);
    assert_eq!(truncate_description(&long), format!("{full}…"));
}

#[test]
fn pages_follow_one_another() {
    assert_eq!(read_page(None), 0);
    assert_eq!(read_page(Some(-7)), 0);
    assert_eq!(read_page(Some(7)), 7);
    let first = paginate(Some(0));
    assert_eq!((first.page, first.prev_page, first.next_page), (0, None, 1));
    let later = paginate(Some(5));
    assert_eq!((later.page, later.prev_page, later.next_page), (5, Some(4), 6));
    assert!(check_page(i64::MAX / 48));
    assert!(!check_page(i64::MAX / 48 + 1));
}

#[test]
fn queries_become_searches() {
    let q = GalleryQuery {
        q: Some("dragon".to_string()),
        format: Some(String::new()),
        project: Some("7".to_string()),
        page: Some(2),
    };
    let p = search_params(&q);
    assert_eq!(p.query, Some("dragon"));
    assert_eq!(p.format, None);
    assert_eq!(p.project, Some(7));
    assert_eq!(p.limit, 48);
    assert_eq!(p.offset, 96);
    assert_eq!(p.designer, None);

    let none = GalleryQuery::default();
    let p = search_params(&none);
    assert_eq!(p.query, None);
    assert_eq!(p.offset, 0);
}

#[test]
fn models_are_shown() {
    let m = ModelCtx::from_row(&row(), Some("1×2×3 mm".to_string()));
    assert_eq!(m.id, 3);
    assert_eq!(m.title, "x.3mf");
    assert_eq!(m.description.as_deref(), Some("one two"));
    assert_eq!(m.format, "3MF");
    assert_eq!(m.format_lower, "3mf");
    assert_eq!(m.dims.as_deref(), Some("1×2×3 mm"));
    assert_eq!(m.triangle_count, Some(4));
    let named = ModelRow { title: Some("Dragon".to_string()), ..row() };
    assert_eq!(ModelCtx::from_row(&named, None).title, "Dragon");
}

#[test]
fn files_are_served() {
    assert_eq!(serve_model_file(Some("3MF"), true), FileReply::Send(ContentType::ThreeMf));
    assert_eq!(serve_model_file(Some("STL"), true), FileReply::Send(ContentType::Other));
    assert_eq!(serve_model_file(Some("STL"), false), FileReply::NoFile);
    assert_eq!(serve_model_file(None, false), FileReply::NoModel);
    assert_eq!(serve_as_stl(true, true), FileReply::Send(ContentType::Stl));
    assert_eq!(serve_as_stl(true, false), FileReply::NoFile);
    assert_eq!(serve_as_stl(false, false), FileReply::NoModel);
    assert_eq!(ContentType::Stl.name(), "model/stl");
    assert_eq!(ContentType::ThreeMf.name(), "model/3mf");
    assert_eq!(ContentType::Other.name(), "application/octet-stream");
    assert!(is_stl("STL"));
    assert!(!is_stl("3MF"));
}

#[test]
fn thumbnails_are_uploaded() {
    assert!(upload_thumbnail(5, 0).is_none());
    let t = upload_thumbnail(5, 10).unwrap();
    assert_eq!(t.name, "cap_5.png");
    assert_eq!(t.url, "/thumbs/cap_5.png");
    assert_eq!(upload_thumbnail(-5, 1).unwrap().name, "cap_-5.png");
}

#[test]
fn projects_need_names() {
    assert_eq!(set_project("  My Project\t").as_deref(), Some("My Project"));
    assert_eq!(set_project(" \u{3000} "), None);
}

#[test]
fn slicers_are_known_by_key() {
    assert_eq!(find_slicer("bambu"), Some("BambuStudio"));
    assert_eq!(find_slicer("orca"), Some("OrcaSlicer"));
    assert_eq!(find_slicer("prusa"), Some("PrusaSlicer"));
    assert_eq!(find_slicer("Prusa"), None);
    assert_eq!(open_in_slicer(false, true, true), OpenReply::UnknownSlicer);
    assert_eq!(open_in_slicer(true, false, true), OpenReply::NoModel);
    assert_eq!(open_in_slicer(true, true, false), OpenReply::Failed);
    assert_eq!(open_in_slicer(true, true, true), OpenReply::Opened);
}

#[test]
fn scans_are_started_once() {
    assert_eq!(request_scan("", false), ScanReply::NoFolder);
    assert_eq!(request_scan("", true), ScanReply::NoFolder);
    assert_eq!(request_scan("/m", true), ScanReply::Busy);
    assert_eq!(request_scan("/m", false), ScanReply::Start);
    assert!(rescan_handler(ScanReply::NoFolder).contains("No base folder configured."));
    assert!(rescan_handler(ScanReply::Busy).contains("Scan already in progress."));
    assert!(rescan_handler(ScanReply::Start).contains("Scan started — check the"));
    assert_eq!(extract_handler(ScanReply::NoFolder), rescan_handler(ScanReply::NoFolder));
    assert!(extract_handler(ScanReply::Busy).contains("try again after it finishes."));
    assert!(extract_handler(ScanReply::Start).contains("Extracting ZIPs and scanning"));
}

#[test]
fn groupings_are_reported() {
    let stats = |p: usize, m: usize| AutogroupStats { projects_created: p, models_assigned: m };
    assert_eq!(
        autogroup_handler(&stats(1, 2)),
        r#"<span style="color:#80c080">Created 1 project, assigned 2 models.</span>"#
    );
    assert_eq!(
        autogroup_handler(&stats(2, 1)),
        r#"<span style="color:#80c080">Created 2 projects, assigned 1 model.</span>"#
    );
    assert_eq!(
        autogroup_handler(&stats(0, 0)),
        r#"<span style="color:var(--muted)">Nothing to group — run a scan first or all models are already assigned.</span>"#
    );
    assert_eq!(
        autogroup_error("no disk"),
        r#"<span style="color:#c08080">Error: no disk</span>"#
    );
}

#[test]
fn statuses_are_shown() {
    assert_eq!(
        scan_status(false, 12),
        r#"<span id="scan-status" class="count">12 models</span>"#
    );
    assert_eq!(
        scan_status(true, 0),
        r#"<span id="scan-status" class="count" hx-get="/api/scan/status" hx-trigger="every 1s" hx-swap="outerHTML"><span class="spinner"></span> 0 models</span>"#
    );
    assert_eq!(
        update_status_handler(Some("new")),
        r#"<div id="update-banner" class="update-banner" hx-get="/api/update/status" hx-trigger="every 2s" hx-swap="outerHTML">new</div>"#
    );
    assert_eq!(
        update_status_handler(None),
        r#"<div id="update-banner" hx-get="/api/update/status" hx-trigger="every 15s" hx-swap="outerHTML"></div>"#
    );
}

#[test]
fn ports_fall_back() {
    assert_eq!(fallback_port(3000), Some(0));
    assert_eq!(fallback_port(0), None);
    assert!(escapes_html("gallery.html"));
    assert!(!escapes_html("gallery.txt"));
}

#[test]
fn links_to_projects_are_read_back() {
    for id in [0, 7, -12, i64::MIN, i64::MAX] {
        assert_eq!(parse_project(Some(&decimal_of_i64(id))), Some(id));
    }
}

#[test]
fn each_page_starts_where_the_last_one_ended() {
    for page in [0, 1, 9] {
        let at = |p: i64| {
            let q = GalleryQuery { page: Some(p), ..GalleryQuery::default() };
            let s = search_params(&q);
            (s.offset, s.limit)
        };
        let (offset, limit) = at(page);
        assert_eq!(at(page + 1).0, offset + limit);
    }
}
