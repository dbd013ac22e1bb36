use org3d::db::{ModelRow, SqlValue};
use org3d::rename::{apply, drop_taken, make_filename, plan, renamable, sanitize};

fn row(id: i64, path: &str, filename: &str, title: Option<&str>, designer: Option<&str>) -> ModelRow {
    ModelRow {
        id,
        path: path.to_string(),
        filename: filename.to_string(),
        folder: "/".to_string(),
        format: "3MF".to_string(),
        file_size: 1,
        title: title.map(str::to_string),
        designer: designer.map(str::to_string),
        description: None,
        application: None,
        license: None,
        created_at: None,
        object_count: None,
        triangle_count: None,
        dim_x: None,
        dim_y: None,
        dim_z: None,
        thumbnail_path: None,
        project_id: None,
    }
}

#[test]
fn test_sanitize_strips_illegal_chars() {
    assert_eq!(sanitize("hello/world"), "hello_world");
    assert_eq!(sanitize("foo:bar*baz"), "foo_bar_baz");
    assert_eq!(sanitize(r#"a"b<c>d"#), "a_b_c_d");
}

#[test]
fn test_sanitize_trims_dots_and_spaces() {
    assert_eq!(sanitize("  leading space"), "leading space");
    assert_eq!(sanitize("trailing dot."), "trailing dot");
    assert_eq!(sanitize("...dots..."), "dots");
}

#[test]
fn test_make_filename_with_designer() {
    let name = make_filename("Smokey the Dragon", Some("Eon3D"));
    assert_eq!(name, "Smokey the Dragon__Eon3D.3mf");
}

#[test]
fn test_make_filename_without_designer() {
    let name = make_filename("My Model", None);
    assert_eq!(name, "My Model.3mf");
}

#[test]
fn test_make_filename_truncates_long_title() {
    let long = "a".repeat(300);
    let name = make_filename(&long, None);
    assert!(name.len() <= 185, "filename should be truncated");
    assert!(name.ends_with(".3mf"));
}

#[test]
fn control_characters_are_replaced() {
    assert_eq!(sanitize("a\u{7}b\u{9f}c\0d"), "a_b_c_d");
    assert_eq!(sanitize("\u{0}\u{1}"), "");
}

#[test]
fn an_empty_designer_is_left_out() {
    assert_eq!(make_filename("Robot", Some(" .")), "Robot.3mf");
    assert_eq!(make_filename("", None), ".3mf");
    assert_eq!(make_filename(&"é".repeat(200), None), format!("{}.3mf", "é".repeat(180)));
}

#[test]
fn plan_keeps_files_in_their_directories() {
    let models = [
        row(1, "/m/a/x.3mf", "x.3mf", Some("Dragon"), Some("Eve")),
        row(2, "/m/b/Robot.3mf", "Robot.3mf", Some("Robot"), None),
        row(3, "/m/c/y.3mf", "y.3mf", None, Some("Eve")),
        row(4, "/elsewhere/z.3mf", "z.3mf", Some("Cup"), None),
        row(5, "/m/w.3mf", "w.3mf", Some("a/b"), None),
    ];
    let found = plan(&models, "/m/");
    assert_eq!(found.len(), 2);
    assert_eq!(found[0].id, 1);
    assert_eq!(found[0].old_path, "/m/a/x.3mf");
    assert_eq!(found[0].new_path, "/m/a/Dragon__Eve.3mf");
    assert_eq!(found[0].old_name, "x.3mf");
    assert_eq!(found[0].new_name, "Dragon__Eve.3mf");
    assert_eq!(found[1].id, 5);
    assert_eq!(found[1].new_path, "/m/a_b.3mf");
}

#[test]
fn a_sibling_with_the_same_start_is_not_under_the_root() {
    let models = [row(1, "/models2/x.3mf", "x.3mf", Some("Dragon"), None)];
    assert!(plan(&models, "/models").is_empty());
}

#[test]
fn taken_destinations_are_left_out() {
    let models = [
        row(1, "/m/x.3mf", "x.3mf", Some("A"), None),
        row(2, "/m/y.3mf", "y.3mf", Some("B"), None),
        row(3, "/m/z.3mf", "z.3mf", Some("C"), None),
    ];
    let kept = drop_taken(plan(&models, "/m"), &[false, true, false]);
    let ids: Vec<i64> = kept.iter().map(|c| c.id).collect();
    assert_eq!(ids, vec![1, 3]);
}

#[test]
fn missing_sources_are_passed_over() {
    let models = [row(1, "/m/x.3mf", "x.3mf", Some("A"), None)];
    let candidates = plan(&models, "/m");
    let (none, count) = apply(&candidates, &[false]);
    assert!(none.is_empty());
    assert_eq!(count, 0);
    let (one, count) = apply(&candidates, &[true]);
    assert_eq!(count, 1);
    assert_eq!((one[0].from.as_str(), one[0].to.as_str()), ("/m/x.3mf", "/m/A.3mf"));
    let s = &one[0].statement;
    assert_eq!(s.sql, "UPDATE models SET path = ?1, filename = ?2 WHERE path = ?3");
    assert!(matches!(&s.params[0], SqlValue::Text(t) if t == "/m/A.3mf"));
    assert!(matches!(&s.params[1], SqlValue::Text(t) if t == "A.3mf"));
    assert!(matches!(&s.params[2], SqlValue::Text(t) if t == "/m/x.3mf"));
}

#[test]
fn only_3mf_files_are_renamed() {
    let p = renamable();
    assert_eq!(p.format, Some("3MF"));
    assert_eq!(p.query, None);
    assert_eq!(p.limit, i64::MAX);
    assert_eq!(p.offset, 0);
}

#[test]
fn sanitizing_again_changes_nothing() {
    for s in ["a/b", " .x. ", "__a__", "\u{1}..", "plain", "a_b "] {
        let once = sanitize(s);
        assert_eq!(sanitize(&once), once);
        assert!(!once.contains(['/', '\\', ':', '*', '?', '"', '<', '>', '|']));
    }
}

#[test]
fn a_renamed_file_is_not_renamed_again() {
    let first = row(1, "/m/x.3mf", "x.3mf", Some("A: B"), Some("C"));
    let c = &plan(&[first], "/m")[0];
    let second = row(1, &c.new_path, &c.new_name, Some("A: B"), Some("C"));
    assert!(plan(&[second], "/m").is_empty());
}

#[test]
fn renamed_files_are_counted() {
    let models = [
        row(1, "/m/x.3mf", "x.3mf", Some("A"), None),
        row(2, "/m/y.3mf", "y.3mf", Some("B"), None),
        row(3, "/m/z.3mf", "z.3mf", Some("C"), None),
    ];
    let (renamings, count) = apply(&plan(&models, "/m"), &[true, false, true]);
    assert_eq!(count, 2);
    assert_eq!(renamings[1].from, "/m/z.3mf");
}

#[test]
fn no_two_files_get_the_same_path() {
    let models = [
        row(1, "/m/x.3mf", "x.3mf", Some("A"), Some("B")),
        row(2, "/m/y.3mf", "y.3mf", Some("A"), Some("B")),
        row(3, "/n/z.3mf", "z.3mf", Some("A"), Some("B")),
    ];
    let kept = drop_taken(plan(&models, "/"), &[false, false, false]);
    let ids: Vec<i64> = kept.iter().map(|c| c.id).collect();
    assert_eq!(ids, vec![1, 3]);
    // what is taken is no hindrance to the next
    let kept = drop_taken(plan(&models, "/"), &[true, false, false]);
    let ids: Vec<i64> = kept.iter().map(|c| c.id).collect();
    assert_eq!(ids, vec![2, 3]);
}

#[test]
fn renaming_overwrites_no_file() {
    let models = [
        row(1, "/m/x.3mf", "x.3mf", Some("A"), None),
        row(2, "/m/y.3mf", "y.3mf", Some("A"), None),
        row(3, "/m/z.3mf", "z.3mf", Some("B"), None),
    ];
    let mut disk: Vec<(String, i64)> = models.iter().map(|m| (m.path.clone(), m.id)).collect();
    let candidates = drop_taken(plan(&models, "/m"), &[false; 3]);
    let (renamings, count) = apply(&candidates, &vec![true; candidates.len()]);
    for r in &renamings {
        assert!(disk.iter().all(|(p, _)| *p != r.to));
        disk.iter_mut().find(|(p, _)| *p == r.from).unwrap().0 = r.to.clone();
    }
    assert_eq!(count, 2);
    let at = |path: &str| disk.iter().find(|(p, _)| p == path).map(|(_, id)| *id);
    assert_eq!((at("/m/A.3mf"), at("/m/y.3mf"), at("/m/B.3mf")), (Some(1), Some(2), Some(3)));
}
