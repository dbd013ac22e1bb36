use org3d::autogroup::{
    folder_to_project_name, run, strip_id_suffix, title_word, AutogroupStats, ProjectGroup, Unassigned,
};
use org3d::db::{self, ModelRow, SqlValue, Statement};
use rusqlite::types::{Value, ValueRef};
use rusqlite::Connection;

fn values(s: &Statement) -> Vec<Value> {
    s.params
        .iter()
        .map(|p| match p {
            SqlValue::Null | SqlValue::Blob => Value::Null,
            SqlValue::Int(i) => Value::Integer(*i),
            SqlValue::Real(b) => Value::Real(f64::from_bits(*b)),
            SqlValue::Text(t) => Value::Text(t.clone()),
        })
        .collect()
}

fn execute(conn: &Connection, s: &Statement) {
    conn.execute(s.sql, rusqlite::params_from_iter(values(s))).unwrap();
}

fn migrate(conn: &Connection) {
    conn.execute_batch(db::SCHEMA).unwrap();
    let made: String = conn.query_row(db::INDEX_SQL, [], |r| r.get(0)).unwrap();
    for batch in db::migrate(&made) {
        conn.execute_batch(batch).unwrap();
    }
}

fn get_by_id(conn: &Connection, id: i64) -> ModelRow {
    let s = db::get_by_id(id);
    conn.query_row(s.sql, rusqlite::params_from_iter(values(&s)), |r| {
        let mut row = Vec::new();
        for i in 0..19 {
            row.push(match r.get_ref(i)? {
                ValueRef::Null => SqlValue::Null,
                ValueRef::Integer(n) => SqlValue::Int(n),
                ValueRef::Real(f) => SqlValue::Real(f.to_bits()),
                ValueRef::Text(t) => SqlValue::Text(String::from_utf8(t.to_vec()).unwrap()),
                ValueRef::Blob(_) => SqlValue::Blob,
            });
        }
        Ok(db::row_to_model(&row).ok().unwrap())
    })
    .unwrap()
}

fn find_or_create_project(conn: &Connection, name: &str) -> i64 {
    let (create, find) = db::find_or_create_project(name);
    execute(conn, &create);
    conn.query_row(find.sql, rusqlite::params_from_iter(values(&find)), |r| r.get(0)).unwrap()
}

fn run_on(conn: &Connection) -> AutogroupStats {
    let s = db::list_unassigned();
    let mut stmt = conn.prepare(s.sql).unwrap();
    let models: Vec<Unassigned> = stmt
        .query_map([], |r| Ok(Unassigned { id: r.get(0)?, folder: r.get(1)? }))
        .unwrap()
        .map(|m| m.unwrap())
        .collect();
    let (groups, stats) = run(&models);
    for g in &groups {
        let pid = find_or_create_project(conn, &g.name);
        for id in &g.ids {
            execute(conn, &db::assign_project(*id, pid));
        }
    }
    stats
}

fn blank_row() -> ModelRow {
    ModelRow {
        id: 0,
        path: String::new(),
        filename: String::new(),
        folder: String::new(),
        format: "STL".to_string(),
        file_size: 100,
        title: None,
        designer: None,
        description: None,
        application: None,
        license: None,
        created_at: None,
        object_count: None,
        triangle_count: None,
        dim_x: None,
        dim_y: None,
        dim_z: None,
        thumbnail_path: None,
        project_id: None,
    }
}

fn model(id: i64, folder: &str) -> Unassigned {
    Unassigned { id, folder: folder.to_string() }
}

fn group(groups: &[ProjectGroup], i: usize) -> (&str, &[i64]) {
    (groups[i].name.as_str(), groups[i].ids.as_slice())
}

#[test]
fn test_folder_to_project_name_basic() {
    assert_eq!(
        folder_to_project_name("/fallout/liberty-prime-from-fallout-4-action-figure-model_files"),
        "Liberty Prime From Fallout 4 Action Figure Model"
    );
}

#[test]
fn test_strips_thingiverse_id() {
    assert_eq!(
        folder_to_project_name(
            "/gaslands/Mad Max Highway 9 Main Force Patrol Sign - Gaslands _ Darkfuture - 4766824"
        ),
        "Mad Max Highway 9 Main Force Patrol Sign Gaslands Darkfuture"
    );
}

#[test]
fn test_strips_numeric_underscore_id() {
    assert_eq!(
        folder_to_project_name("/sci-fi/Lego Usagi Yojimbo head - 4676019"),
        "Lego Usagi Yojimbo Head"
    );
}

#[test]
fn test_strips_files_suffix() {
    assert_eq!(
        folder_to_project_name("/to print/fallout-vault-31-diorama-model_files"),
        "Fallout Vault 31 Diorama Model"
    );
}

#[test]
fn test_category_only_folder_not_grouped() {
    let name = folder_to_project_name("/fallout");
    assert_eq!(name, "Fallout");
}

#[test]
fn test_auto_group_assigns_multi_file_subfolders() {
    let conn = Connection::open_in_memory().unwrap();
    conn.execute_batch("PRAGMA journal_mode=WAL;").unwrap();
    migrate(&conn);

    let base = blank_row();

    // Three files in a deep project folder
    for (path, folder) in [
        ("/tmp/p1.stl", "/fallout/liberty-prime_files"),
        ("/tmp/p2.stl", "/fallout/liberty-prime_files"),
        ("/tmp/p3.stl", "/fallout/liberty-prime_files"),
    ] {
        execute(
            &conn,
            &db::upsert(&ModelRow {
                path: path.into(),
                filename: path.into(),
                folder: folder.into(),
                ..base.clone()
            }),
        );
    }
    // One file in a shallow category folder, which is not grouped
    execute(
        &conn,
        &db::upsert(&ModelRow {
            path: "/tmp/solo.stl".into(),
            filename: "solo.stl".into(),
            folder: "/fallout".into(),
            ..base.clone()
        }),
    );

    let stats = run_on(&conn);

    assert_eq!(stats.projects_created, 1, "should create exactly one project");
    assert_eq!(stats.models_assigned, 3, "should assign three models");

    let solo = get_by_id(&conn, 4);
    assert!(solo.project_id.is_none(), "shallow folder file should stay unassigned");
}

#[test]
fn test_auto_group_does_not_override_existing() {
    let conn = Connection::open_in_memory().unwrap();
    conn.execute_batch("PRAGMA journal_mode=WAL;").unwrap();
    migrate(&conn);

    let base = ModelRow { folder: "/toys/dragon_set".into(), ..blank_row() };

    execute(
        &conn,
        &db::upsert(&ModelRow {
            path: "/tmp/a.stl".into(),
            filename: "a.stl".into(),
            ..base.clone()
        }),
    );
    execute(
        &conn,
        &db::upsert(&ModelRow {
            path: "/tmp/b.stl".into(),
            filename: "b.stl".into(),
            ..base.clone()
        }),
    );

    // Model 1 is put into another project by hand
    let manual_pid = find_or_create_project(&conn, "My Custom Project");
    execute(&conn, &db::assign_project(1, manual_pid));

    let stats = run_on(&conn);

    assert_eq!(stats.models_assigned, 0, "should not auto-group with only 1 unassigned file");

    let m1 = get_by_id(&conn, 1);
    assert_eq!(m1.project_id, Some(manual_pid));
}

#[test]
fn id_suffixes_are_stripped() {
    assert_eq!(strip_id_suffix("Dragon - 4766824"), "Dragon");
    assert_eq!(strip_id_suffix("Dragon_4766824"), "Dragon");
    assert_eq!(strip_id_suffix("Dragon - v2"), "Dragon - v2");
    // too short and too long for a number of a model site
    assert_eq!(strip_id_suffix("Dragon_123"), "Dragon_123");
    assert_eq!(strip_id_suffix("Dragon_123456789"), "Dragon_123456789");
    // an empty number behind the dash counts
    assert_eq!(strip_id_suffix("Dragon - "), "Dragon");
    assert_eq!(strip_id_suffix("Dragon_1234 - 99"), "Dragon");
    // without a space before the dash, a number has to follow
    assert_eq!(strip_id_suffix("dragon- 4766824"), "dragon");
    assert_eq!(strip_id_suffix("a - b- 12"), "a - b");
    assert_eq!(strip_id_suffix("- 4766824"), "");
    assert_eq!(strip_id_suffix("dragon- "), "dragon- ");
    assert_eq!(strip_id_suffix("dragon- v2"), "dragon- v2");
    assert_eq!(strip_id_suffix("dragon-4766824"), "dragon-4766824");
}

#[test]
fn words_get_capitals() {
    assert_eq!(title_word(""), "");
    assert_eq!(title_word("X1C"), "X1C");
    assert_eq!(title_word("AMS"), "AMS");
    assert_eq!(title_word("DRAGON"), "Dragon");
    assert_eq!(title_word("hEAD"), "Head");
    assert_eq!(title_word("ßeta"), "SSeta");
    assert_eq!(title_word("éCOLE"), "École");
}

#[test]
fn repeated_suffixes_are_stripped() {
    assert_eq!(folder_to_project_name("/a/robot_files_files"), "Robot");
    assert_eq!(folder_to_project_name("/a/robot_3d_stls"), "Robot");
    assert_eq!(folder_to_project_name("/a/robot_stl_files/"), "Robot");
    assert_eq!(folder_to_project_name("/"), "");
}

#[test]
fn groups_hold_the_models_of_their_folders() {
    let models = [
        model(1, "/toys/dragon"),
        model(2, "/toys/robot_files"),
        model(3, "/toys/dragon"),
        model(4, "/toys"),
        model(5, "/toys/robot_files"),
        model(6, "/toys"),
        model(7, "/toys/lonely"),
    ];
    let (groups, stats) = run(&models);
    assert_eq!(groups.len(), 2);
    assert_eq!(group(&groups, 0), ("Dragon", &[1i64, 3][..]));
    assert_eq!(group(&groups, 1), ("Robot", &[2i64, 5][..]));
    assert_eq!(stats.projects_created, 2);
    assert_eq!(stats.models_assigned, 4);
}

#[test]
fn folders_without_a_name_are_not_grouped() {
    let models = [model(1, "/toys/--"), model(2, "/toys/--")];
    let (groups, stats) = run(&models);
    assert!(groups.is_empty());
    assert_eq!(stats.projects_created, 0);
    assert_eq!(stats.models_assigned, 0);
}

#[test]
fn folders_are_as_deep_as_they_have_segments() {
    for folder in ["/AMS/", "/AMS//", "//AMS", "/AMS", "/", ""] {
        let (groups, _) = run(&[model(1, folder), model(2, folder)]);
        assert!(groups.is_empty(), "{folder}");
    }
    for folder in ["/AMS/x/", "//AMS//x"] {
        let (groups, _) = run(&[model(1, folder), model(2, folder)]);
        assert_eq!(group(&groups, 0), ("X", &[1i64, 2][..]));
    }
}

#[test]
fn naming_a_name_changes_nothing() {
    for folder in [
        "/fallout/liberty-prime-from-fallout-4-action-figure-model_files",
        "/a/Lego Usagi Yojimbo head - 4676019",
        "/x/AMS_X1C- 12",
        "/x/HEAD_ab  CD",
        "",
    ] {
        let name = folder_to_project_name(folder);
        assert_eq!(folder_to_project_name(&name), name);
    }
}

#[test]
fn the_case_of_ascii_is_that_of_its_letters() {
    for u in 0..128u8 {
        let c = char::from(u);
        let word = format!("{c}{c}{c}{c}{c}");
        let titled = format!("{}{}", c.to_ascii_uppercase(), word[1..].to_ascii_lowercase());
        assert_eq!(title_word(&word), titled);
    }
}

#[test]
fn only_the_deepest_segment_gives_the_name() {
    for parents in ["", "/", "/toys", "//a/b-c_files", "x"] {
        assert_eq!(folder_to_project_name(&format!("{parents}/my-robot_files")), "My Robot");
    }
}

#[test]
fn grouping_again_finds_nothing() {
    let folders = ["/toys/dragon", "/toys/robot", "/toys/dragon", "/toys", "/toys", "/a/b"];
    let models: Vec<Unassigned> =
        folders.iter().enumerate().map(|(i, f)| model(i as i64, f)).collect();
    let (groups, _) = run(&models);
    assert_eq!(groups.len(), 1);
    let left: Vec<Unassigned> = models
        .into_iter()
        .filter(|m| groups.iter().all(|g| !g.ids.contains(&m.id)))
        .collect();
    assert_eq!(left.len(), 4);
    assert!(run(&left).0.is_empty());
}
