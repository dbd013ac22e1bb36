use org3d::formats::stl::{Coordinates, StlMeta};
use org3d::formats::threemf::ThreeMfMeta;
use org3d::scanner::{
    find_format, find_format_of_extension, fnv1a, index_stl, index_threemf, make_thumb_name, make_thumb_url,
    relative_folder, scan, should_scan, Dims, Format, ScanStats,
};

fn meta(thumbnail: Option<Vec<u8>>) -> ThreeMfMeta {
    ThreeMfMeta {
        title: Some("Dragon".to_string()),
        designer: Some("Eve".to_string()),
        description: None,
        application: Some("Studio".to_string()),
        license: None,
        created_at: Some("2025".to_string()),
        object_count: Some(2),
        triangle_count: None,
        vertices: Vec::new(),
        thumbnail,
    }
}

#[test]
fn hashes_are_those_of_fnv1a() {
    assert_eq!(fnv1a(b""), 0xcbf29ce484222325);
    assert_eq!(fnv1a(b"a"), 0xaf63dc4c8601ec8c);
    assert_eq!(fnv1a(b"foobar"), 0x85944171f73967e8);
}

#[test]
fn thumbnails_are_named_after_paths() {
    assert_eq!(make_thumb_name("foobar"), "85944171f73967e8.png");
    assert_eq!(make_thumb_name("ä"), format!("{:x}.png", fnv1a("ä".as_bytes())));
    assert_eq!(make_thumb_url("x.png"), "/thumbs/x.png");
}

#[test]
fn folders_are_relative() {
    assert_eq!(relative_folder("/models/a/b/x.stl", "/models"), "/a/b");
    assert_eq!(relative_folder("/models/x.stl", "/models"), "/");
    assert_eq!(relative_folder("/models/x.stl", "/models/"), "/");
    assert_eq!(relative_folder("/elsewhere/x.stl", "/models"), "/");
    assert_eq!(relative_folder("/models2/x.stl", "/models"), "/");
    assert_eq!(relative_folder("./a/x.stl", "."), "/a");
    assert_eq!(relative_folder("/", "/"), "/");
}

#[test]
fn formats_go_by_extension() {
    assert_eq!(find_format("/m/a.3mf"), Some(Format::ThreeMf));
    assert_eq!(find_format("/m/a.3MF"), Some(Format::ThreeMf));
    assert_eq!(find_format("/m/a.Stl"), Some(Format::Stl));
    assert_eq!(find_format("/m/a.step"), None);
    assert_eq!(find_format("/m/stl"), None);
    assert_eq!(find_format("/m/.stl"), None);
    assert_eq!(find_format_of_extension("stl"), Some(Format::Stl));
    assert_eq!(find_format_of_extension("STL"), None);
}

#[test]
fn every_scanned_file_is_counted_once() {
    let mut stats = ScanStats::new();
    stats.record(true);
    stats.record(false);
    stats.record(true);
    assert_eq!(stats.scanned, 3);
    assert_eq!(stats.inserted, 2);
    assert_eq!(stats.errors, 1);
}

#[test]
fn known_models_are_not_scanned_again() {
    assert!(should_scan(true, 5));
    assert!(should_scan(false, 0));
    assert!(!should_scan(false, 5));
}

#[test]
fn rows_of_3mf_files() {
    let dims = Dims { x: 1.0f64.to_bits(), y: 2.0f64.to_bits(), z: 3.0f64.to_bits() };
    let row = index_threemf("/m/a/x.3mf", "/m", 77, &meta(Some(vec![1])), Some(dims));
    assert_eq!(row.id, 0);
    assert_eq!(row.path, "/m/a/x.3mf");
    assert_eq!(row.filename, "x.3mf");
    assert_eq!(row.folder, "/a");
    assert_eq!(row.format, "3MF");
    assert_eq!(row.file_size, 77);
    assert_eq!(row.title.as_deref(), Some("Dragon"));
    assert_eq!(row.designer.as_deref(), Some("Eve"));
    assert_eq!(row.application.as_deref(), Some("Studio"));
    assert_eq!(row.created_at.as_deref(), Some("2025"));
    assert_eq!(row.object_count, Some(2));
    assert_eq!(row.triangle_count, None);
    assert_eq!(row.dim_y, Some(2.0f64.to_bits()));
    let url = format!("/thumbs/{:x}.png", fnv1a(b"/m/a/x.3mf"));
    assert_eq!(row.thumbnail_path, Some(url));
    assert_eq!(row.project_id, None);

    let bare = index_threemf("/m/x.3mf", "/m", 0, &meta(None), None);
    assert_eq!(bare.thumbnail_path, None);
    assert_eq!(bare.dim_x, None);
}

#[test]
fn rows_of_stl_files() {
    let meta = StlMeta {
        triangle_count: 12,
        coordinates: Coordinates::Bits(Vec::new()),
        name: Some("part".to_string()),
        header: Some("maker".to_string()),
    };
    let row = index_stl("/m/x.stl", "/m", 5, &meta, None);
    assert_eq!(row.format, "STL");
    assert_eq!(row.title.as_deref(), Some("part"));
    assert_eq!(row.application.as_deref(), Some("maker"));
    assert_eq!(row.object_count, Some(1));
    assert_eq!(row.triangle_count, Some(12));
    assert_eq!(row.folder, "/");
    assert_eq!(row.designer, None);
}

#[test]
fn model_files_are_picked_from_files() {
    let files: Vec<String> =
        ["/m/a.stl", "/m/b.txt", "/m/c.3MF", "/m/stl"].iter().map(|s| s.to_string()).collect();
    let found = scan(&files);
    assert_eq!(found.len(), 2);
    assert_eq!((found[0].file, found[0].format), (0, Format::Stl));
    assert_eq!((found[1].file, found[1].format), (2, Format::ThreeMf));
}
