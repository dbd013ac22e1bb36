use org3d::db::{
    self, ensure_fts_sync, is_text_search, row_to_model, ModelRow, SearchParams, SqlValue, Statement,
};
use org3d::server::{scan_status, search_params, serve_model_file, FileReply, GalleryQuery, ModelCtx};
use rusqlite::types::{Value, ValueRef};
use rusqlite::Connection;

fn values(s: &Statement) -> Vec<Value> {
    s.params
        .iter()
        .map(|p| match p {
            SqlValue::Null | SqlValue::Blob => Value::Null,
            SqlValue::Int(i) => Value::Integer(*i),
            SqlValue::Real(b) => Value::Real(f64::from_bits(*b)),
            SqlValue::Text(t) => Value::Text(t.clone()),
        })
        .collect()
}

fn execute(conn: &Connection, s: &Statement) {
    conn.execute(s.sql, rusqlite::params_from_iter(values(s))).unwrap();
}

fn migrate(conn: &Connection) {
    conn.execute_batch(db::SCHEMA).unwrap();
    let _ = conn.execute(db::ADD_PROJECT_ID, []);
    let _ = conn.execute(db::ADD_PROJECT_NAME, []);
    let made: String = conn.query_row(db::INDEX_SQL, [], |r| r.get(0)).unwrap_or_default();
    for batch in db::migrate(&made) {
        conn.execute_batch(batch).unwrap();
    }
}

fn test_db() -> Connection {
    let conn = Connection::open_in_memory().unwrap();
    conn.execute_batch(db::PRAGMAS).unwrap();
    migrate(&conn);
    conn
}

fn models(conn: &Connection, s: &Statement) -> Vec<ModelRow> {
    let mut stmt = conn.prepare(s.sql).unwrap();
    let rows = stmt
        .query_map(rusqlite::params_from_iter(values(s)), |r| {
            let mut row = Vec::new();
            for i in 0..19 {
                row.push(match r.get_ref(i)? {
                    ValueRef::Null => SqlValue::Null,
                    ValueRef::Integer(n) => SqlValue::Int(n),
                    ValueRef::Real(f) => SqlValue::Real(f.to_bits()),
                    ValueRef::Text(t) => SqlValue::Text(String::from_utf8(t.to_vec()).unwrap()),
                    ValueRef::Blob(_) => SqlValue::Blob,
                });
            }
            Ok(row_to_model(&row).ok().unwrap())
        })
        .unwrap();
    rows.map(|m| m.unwrap()).collect()
}

fn get_by_id(conn: &Connection, id: i64) -> Option<ModelRow> {
    models(conn, &db::get_by_id(id)).into_iter().next()
}

fn upsert(conn: &Connection, m: &ModelRow) {
    execute(conn, &db::upsert(m));
}

fn search(conn: &Connection, p: &SearchParams) -> Vec<ModelRow> {
    models(conn, &db::search(p))
}

fn number(conn: &Connection, s: &Statement) -> i64 {
    conn.query_row(s.sql, rusqlite::params_from_iter(values(s)), |r| r.get(0)).unwrap()
}

fn strings(conn: &Connection, s: &Statement) -> Vec<String> {
    let mut stmt = conn.prepare(s.sql).unwrap();
    let rows = stmt.query_map([], |r| r.get(0)).unwrap();
    rows.map(|x| x.unwrap()).collect()
}

fn find_or_create_project(conn: &Connection, name: &str) -> i64 {
    let (create, find) = db::find_or_create_project(name);
    execute(conn, &create);
    number(conn, &find)
}

fn sample_row(path: &str, title: &str, designer: &str, folder: &str, format: &str) -> ModelRow {
    ModelRow {
        id: 0,
        path: path.to_string(),
        filename: path.split('/').last().unwrap_or(path).to_string(),
        folder: folder.to_string(),
        format: format.to_string(),
        file_size: 1024,
        title: Some(title.to_string()),
        designer: Some(designer.to_string()),
        description: Some(format!("Description of {title}")),
        application: None,
        license: None,
        created_at: None,
        object_count: Some(1),
        triangle_count: Some(100),
        dim_x: Some(50.0f64.to_bits()),
        dim_y: Some(30.0f64.to_bits()),
        dim_z: Some(20.0f64.to_bits()),
        thumbnail_path: None,
        project_id: None,
    }
}

fn everything<'a>() -> SearchParams<'a> {
    SearchParams {
        query: None,
        designer: None,
        folder: None,
        format: None,
        project: None,
        limit: 50,
        offset: 0,
    }
}

fn dims_str(m: &ModelRow) -> Option<String> {
    let show = |b: Option<u64>| format!("{:.1}", f64::from_bits(b.unwrap_or(0)));
    m.dims_str(&show(m.dim_x), &show(m.dim_y), &show(m.dim_z))
}

#[test]
fn test_upsert_and_retrieve() {
    let conn = test_db();
    let row = sample_row("/tmp/dragon.3mf", "Dragon Model", "DesignerA", "/miniatures", "3MF");
    upsert(&conn, &row);

    let result = get_by_id(&conn, 1).expect("row should exist");
    assert_eq!(result.title.as_deref(), Some("Dragon Model"));
    assert_eq!(result.designer.as_deref(), Some("DesignerA"));
    assert_eq!(result.format, "3MF");
    assert!((f64::from_bits(result.dim_x.unwrap()) - 50.0).abs() < 0.001);
}

#[test]
fn test_upsert_updates_on_conflict() {
    let conn = test_db();
    let row = sample_row("/tmp/model.3mf", "Original Title", "DesignerA", "/", "3MF");
    upsert(&conn, &row);

    let mut updated = sample_row("/tmp/model.3mf", "Updated Title", "DesignerA", "/", "3MF");
    updated.triangle_count = Some(200);
    upsert(&conn, &updated);

    let count: i64 = conn.query_row("SELECT COUNT(*) FROM models", [], |r| r.get(0)).unwrap();
    assert_eq!(count, 1, "should not insert duplicate");

    let result = get_by_id(&conn, 1).expect("row should exist");
    assert_eq!(result.title.as_deref(), Some("Updated Title"));
    assert_eq!(result.triangle_count, Some(200));
}

#[test]
fn test_search_no_filter_returns_all() {
    let conn = test_db();
    upsert(&conn, &sample_row("/tmp/a.stl", "Alpha", "Alice", "/folder1", "STL"));
    upsert(&conn, &sample_row("/tmp/b.stl", "Beta", "Bob", "/folder2", "STL"));
    upsert(&conn, &sample_row("/tmp/c.3mf", "Gamma", "Alice", "/folder1", "3MF"));

    let results = search(&conn, &everything());
    assert_eq!(results.len(), 3);
}

#[test]
fn test_fts_search_by_title() {
    let conn = test_db();
    upsert(&conn, &sample_row("/tmp/a.stl", "Gnarly Dragon", "Alice", "/", "STL"));
    upsert(&conn, &sample_row("/tmp/b.stl", "Cute Bunny", "Bob", "/", "STL"));

    let results = search(&conn, &SearchParams { query: Some("dragon"), ..everything() });
    assert_eq!(results.len(), 1);
    assert_eq!(results[0].title.as_deref(), Some("Gnarly Dragon"));
}

#[test]
fn test_fts_search_by_project_name() {
    let conn = test_db();
    upsert(&conn, &sample_row("/tmp/a.3mf", "Dragon", "Alice", "/", "3MF"));
    let pid = find_or_create_project(&conn, "Fallout Builds");
    execute(&conn, &db::assign_project(1, pid));

    let results = search(&conn, &SearchParams { query: Some("fallout"), ..everything() });
    assert_eq!(results.len(), 1, "should find model via project name");
    assert_eq!(results[0].title.as_deref(), Some("Dragon"));
}

#[test]
fn test_fts_search_by_description() {
    let conn = test_db();
    upsert(&conn, &sample_row("/tmp/a.stl", "Model A", "Alice", "/", "STL"));

    let results = search(&conn, &SearchParams { query: Some("Description"), ..everything() });
    assert_eq!(results.len(), 1);
}

#[test]
fn test_filter_by_designer() {
    let conn = test_db();
    upsert(&conn, &sample_row("/tmp/a.stl", "A", "Alice", "/", "STL"));
    upsert(&conn, &sample_row("/tmp/b.stl", "B", "Bob", "/", "STL"));

    let results = search(&conn, &SearchParams { designer: Some("Alice"), ..everything() });
    assert_eq!(results.len(), 1);
    assert_eq!(results[0].designer.as_deref(), Some("Alice"));
}

#[test]
fn test_filter_by_format() {
    let conn = test_db();
    upsert(&conn, &sample_row("/tmp/a.stl", "A", "Alice", "/", "STL"));
    upsert(&conn, &sample_row("/tmp/b.3mf", "B", "Alice", "/", "3MF"));

    let results = search(&conn, &SearchParams { format: Some("3MF"), ..everything() });
    assert_eq!(results.len(), 1);
    assert_eq!(results[0].format, "3MF");
}

#[test]
fn test_list_designers_distinct_sorted() {
    let conn = test_db();
    upsert(&conn, &sample_row("/tmp/a.stl", "A", "Zara", "/", "STL"));
    upsert(&conn, &sample_row("/tmp/b.stl", "B", "Alice", "/", "STL"));
    upsert(&conn, &sample_row("/tmp/c.stl", "C", "Alice", "/", "STL"));

    let designers = strings(&conn, &db::list_designers());
    assert_eq!(designers, vec!["Alice", "Zara"], "should be sorted, deduplicated");
}

#[test]
fn test_count() {
    let conn = test_db();
    assert_eq!(number(&conn, &db::count()), 0);
    upsert(&conn, &sample_row("/tmp/a.stl", "A", "Alice", "/", "STL"));
    upsert(&conn, &sample_row("/tmp/b.stl", "B", "Bob", "/", "STL"));
    assert_eq!(number(&conn, &db::count()), 2);
}

#[test]
fn test_dims_str_format() {
    let conn = test_db();
    upsert(&conn, &sample_row("/tmp/a.stl", "A", "Alice", "/", "STL"));
    let row = get_by_id(&conn, 1).unwrap();
    let dims = dims_str(&row).unwrap();
    assert!(dims.contains("50.0"), "x dim should appear");
    assert!(dims.contains("mm"), "units should be mm");
    assert_eq!(dims, "50.0×30.0×20.0 mm");
}

#[test]
fn test_display_name_falls_back_to_filename() {
    let conn = test_db();
    let mut row = sample_row("/tmp/model.stl", "Named", "Alice", "/", "STL");
    upsert(&conn, &row);
    let r = get_by_id(&conn, 1).unwrap();
    assert_eq!(r.display_name(), "Named");

    // a row with no title
    row.path = "/tmp/unnamed.stl".to_string();
    row.filename = "unnamed.stl".to_string();
    row.title = None;
    upsert(&conn, &row);
    let r2 = get_by_id(&conn, 2).unwrap();
    assert_eq!(r2.display_name(), "unnamed.stl");
}

#[test]
fn dims_need_all_three() {
    let mut row = sample_row("/a", "A", "B", "/", "STL");
    row.dim_y = None;
    assert_eq!(dims_str(&row), None);
}

#[test]
fn stored_models_are_read_back() {
    let conn = test_db();
    let mut row = sample_row("/tmp/a.stl", "A", "Alice", "/f", "STL");
    row.application = Some("app".to_string());
    row.license = Some("lic".to_string());
    row.created_at = Some("2025".to_string());
    row.object_count = Some(-4);
    row.thumbnail_path = Some("/thumbs/x.png".to_string());
    row.dim_z = None;
    upsert(&conn, &row);
    let back = get_by_id(&conn, 1).unwrap();
    assert_eq!(back.path, "/tmp/a.stl");
    assert_eq!(back.filename, "a.stl");
    assert_eq!(back.folder, "/f");
    assert_eq!(back.file_size, 1024);
    assert_eq!(back.application.as_deref(), Some("app"));
    assert_eq!(back.license.as_deref(), Some("lic"));
    assert_eq!(back.created_at.as_deref(), Some("2025"));
    assert_eq!(back.object_count, Some(-4));
    assert_eq!(back.triangle_count, Some(100));
    assert_eq!(back.dim_x, Some(50.0f64.to_bits()));
    assert_eq!(back.dim_z, None);
    assert_eq!(back.thumbnail_path.as_deref(), Some("/thumbs/x.png"));
    assert_eq!(back.project_id, None);

    // a thumbnail is kept when the model is indexed again without one
    row.thumbnail_path = None;
    upsert(&conn, &row);
    assert_eq!(get_by_id(&conn, 1).unwrap().thumbnail_path.as_deref(), Some("/thumbs/x.png"));
}

#[test]
fn counts_agree_with_searches() {
    let conn = test_db();
    upsert(&conn, &sample_row("/tmp/a.stl", "Dragon", "Alice", "/x", "STL"));
    upsert(&conn, &sample_row("/tmp/b.stl", "Dragonfly", "Bob", "/y", "STL"));
    upsert(&conn, &sample_row("/tmp/c.3mf", "Cup", "Bob", "/y", "3MF"));
    for p in [
        everything(),
        SearchParams { query: Some("drag"), ..everything() },
        SearchParams { query: Some(""), folder: Some("/y"), ..everything() },
        SearchParams { query: Some("dragon"), designer: Some("Bob"), ..everything() },
    ] {
        assert_eq!(number(&conn, &db::search_count(&p)), search(&conn, &p).len() as i64);
    }
    let page = SearchParams { limit: 1, offset: 2, ..everything() };
    assert_eq!(search(&conn, &page).len(), 1);
    assert_eq!(number(&conn, &db::search_count(&page)), 3);
}

#[test]
fn projects_are_listed_and_left() {
    let conn = test_db();
    upsert(&conn, &sample_row("/tmp/a.stl", "A", "Alice", "/", "STL"));
    let pid = find_or_create_project(&conn, "Zoo");
    assert_eq!(find_or_create_project(&conn, "Zoo"), pid);
    execute(&conn, &db::assign_project(1, pid));
    assert_eq!(get_by_id(&conn, 1).unwrap().project_id, Some(pid));
    assert_eq!(search(&conn, &SearchParams { project: Some(pid), ..everything() }).len(), 1);

    let s = db::get_project_name(pid);
    let name: String =
        conn.query_row(s.sql, rusqlite::params_from_iter(values(&s)), |r| r.get(0)).unwrap();
    assert_eq!(name, "Zoo");
    let count: i64 = conn.query_row(db::list_projects().sql, [], |r| r.get(3)).unwrap();
    assert_eq!(count, 1);

    execute(&conn, &db::remove_from_project(1));
    assert_eq!(get_by_id(&conn, 1).unwrap().project_id, None);
}

#[test]
fn thumbnails_and_names_are_updated() {
    let conn = test_db();
    upsert(&conn, &sample_row("/tmp/a.stl", "A", "Alice", "/f", "STL"));
    execute(&conn, &db::update_thumbnail(1, "/thumbs/cap_1.png"));
    execute(&conn, &db::rename_model("/tmp/a.stl", "/tmp/b.stl", "b.stl"));
    let m = get_by_id(&conn, 1).unwrap();
    assert_eq!(m.thumbnail_path.as_deref(), Some("/thumbs/cap_1.png"));
    assert_eq!(m.path, "/tmp/b.stl");
    assert_eq!(m.filename, "b.stl");
    assert_eq!(strings(&conn, &db::list_folders()), vec!["/f"]);
}

#[test]
fn an_old_index_is_made_anew() {
    let conn = Connection::open_in_memory().unwrap();
    conn.execute_batch(
        "CREATE TABLE models (
            id INTEGER PRIMARY KEY, path TEXT NOT NULL UNIQUE, filename TEXT NOT NULL,
            folder TEXT NOT NULL, format TEXT NOT NULL, file_size INTEGER NOT NULL,
            title TEXT, designer TEXT, description TEXT, application TEXT, license TEXT,
            created_at TEXT, object_count INTEGER, triangle_count INTEGER,
            dim_x REAL, dim_y REAL, dim_z REAL, thumbnail_path TEXT,
            indexed_at TEXT NOT NULL DEFAULT (datetime('now')));
         CREATE VIRTUAL TABLE models_fts USING fts5(
            title, designer, description, filename, folder, content='models', content_rowid='id');
         INSERT INTO models (path, filename, folder, format, file_size, title)
            VALUES ('/tmp/a.stl', 'a.stl', '/', 'STL', 1, 'Dragon');",
    )
    .unwrap();
    migrate(&conn);
    assert_eq!(search(&conn, &SearchParams { query: Some("dragon"), ..everything() }).len(), 1);
    assert!(db::migrate("CREATE VIRTUAL TABLE models_fts USING fts5(title, project_name)").is_empty());
    assert_eq!(db::migrate("").len(), 3);
}

#[test]
fn an_empty_index_is_filled() {
    assert_eq!(ensure_fts_sync(3, 0), Some("INSERT INTO models_fts(models_fts) VALUES('rebuild')"));
    assert_eq!(ensure_fts_sync(0, 0), None);
    assert_eq!(ensure_fts_sync(3, 1), None);
}

#[test]
fn rows_that_do_not_fit_are_refused() {
    assert!(matches!(row_to_model(&[]), Err(0)));
    let mut row: Vec<SqlValue> = vec![SqlValue::Int(1)];
    for _ in 0..4 {
        row.push(SqlValue::Text("t".to_string()));
    }
    row.push(SqlValue::Null);
    assert!(matches!(row_to_model(&row), Err(5)));
    row[5] = SqlValue::Int(9);
    assert!(matches!(row_to_model(&row), Err(6)));
    for _ in 6..19 {
        row.push(SqlValue::Null);
    }
    assert_eq!(row_to_model(&row).ok().unwrap().file_size, 9);
    row[14] = SqlValue::Text("wide".to_string());
    assert!(matches!(row_to_model(&row), Err(14)));
    row[14] = SqlValue::Blob;
    assert!(matches!(row_to_model(&row), Err(14)));
}

#[test]
fn empty_texts_are_not_searched_for() {
    assert!(!is_text_search(&everything()));
    assert!(!is_text_search(&SearchParams { query: Some(""), ..everything() }));
    assert!(is_text_search(&SearchParams { query: Some("x"), ..everything() }));
    let s = db::search(&SearchParams { query: Some("x"), ..everything() });
    assert!(matches!(&s.params[0], SqlValue::Text(t) if t == "x*"));
    assert_eq!(s.params.len(), 7);
    assert_eq!(db::search(&everything()).params.len(), 6);
}

fn seeded() -> Connection {
    let conn = test_db();
    upsert(&conn, &sample_row("/tmp/dragon.stl", "Dragon", "Alice", "/miniatures", "STL"));
    upsert(&conn, &sample_row("/tmp/bunny.3mf", "Bunny", "Bob", "/cute", "3MF"));
    conn
}

/// The titles that a page of the gallery shows for a query, in order of their letters.
fn shown_titles(conn: &Connection, q: &str, format: &str) -> Vec<String> {
    let query = GalleryQuery {
        q: Some(q.to_string()),
        format: Some(format.to_string()),
        ..Default::default()
    };
    let mut titles: Vec<String> = search(conn, &search_params(&query))
        .iter()
        .map(|m| ModelCtx::from_row(m, None).title)
        .collect();
    titles.sort();
    titles
}

#[test]
fn gallery_shows_both_models() {
    let conn = seeded();
    let all = search(&conn, &search_params(&GalleryQuery::default()));
    assert!(all.iter().any(|m| m.display_name() == "Dragon"));
    assert!(all.iter().any(|m| m.display_name() == "Bunny"));
}

#[test]
fn the_status_shows_how_many_models_there_are() {
    let conn = seeded();
    assert!(scan_status(false, number(&conn, &db::count())).contains("2 models"));
}

#[test]
fn search_by_title_filters_correctly() {
    assert_eq!(shown_titles(&seeded(), "dragon", ""), vec!["Dragon"]);
}

#[test]
fn search_by_format_stl() {
    assert_eq!(shown_titles(&seeded(), "", "STL"), vec!["Dragon"]);
}

#[test]
fn search_by_format_3mf() {
    assert_eq!(shown_titles(&seeded(), "", "3MF"), vec!["Bunny"]);
}

#[test]
fn search_empty_query_returns_all() {
    assert_eq!(shown_titles(&seeded(), "", ""), vec!["Bunny", "Dragon"]);
}

#[test]
fn unknown_models_are_not_found() {
    assert!(get_by_id(&seeded(), 99999).is_none());
}

#[test]
fn file_unknown_id_returns_404() {
    let model = get_by_id(&seeded(), 99999);
    let format = model.as_ref().map(|m| m.format.as_str());
    assert_eq!(serve_model_file(format, false), FileReply::NoModel);
}

#[test]
fn file_missing_on_disk_returns_404() {
    let model = get_by_id(&seeded(), 1);
    let format = model.as_ref().map(|m| m.format.as_str());
    assert_eq!(serve_model_file(format, false), FileReply::NoFile);
}

fn indexed(conn: &Connection) -> i64 {
    conn.query_row(db::COUNT_INDEXED, [], |r| r.get(0)).unwrap()
}

#[test]
fn an_index_that_lost_its_rows_is_filled() {
    let conn = seeded();
    assert_eq!(indexed(&conn), 2);
    assert_eq!(ensure_fts_sync(number(&conn, &db::count()), indexed(&conn)), None);

    conn.execute_batch("INSERT INTO models_fts(models_fts) VALUES('delete-all')").unwrap();
    assert_eq!(indexed(&conn), 0);
    assert!(shown_titles(&conn, "dragon", "").is_empty());

    let sql = ensure_fts_sync(number(&conn, &db::count()), indexed(&conn)).unwrap();
    conn.execute_batch(sql).unwrap();
    assert_eq!(indexed(&conn), 2);
    assert_eq!(shown_titles(&conn, "dragon", ""), vec!["Dragon"]);
}

#[test]
fn every_row_can_be_asked_for() {
    let all = SearchParams { limit: i64::MAX, ..everything() };
    assert_eq!(search(&seeded(), &all).len(), 2);
}
