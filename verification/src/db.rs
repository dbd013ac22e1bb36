//! The database of models: its rows, its statements and the parameters they are run with.

use vstd::prelude::*;

use crate::text;

verus! {

/// A model in the database. The dimensions are the bits of IEEE 754 doubles.
#[derive(Clone)]
pub struct ModelRow {
    pub id: i64,
    pub path: String,
    pub filename: String,
    pub folder: String,
    pub format: String,
    pub file_size: i64,
    pub title: Option<String>,
    pub designer: Option<String>,
    pub description: Option<String>,
    pub application: Option<String>,
    pub license: Option<String>,
    pub created_at: Option<String>,
    pub object_count: Option<i64>,
    pub triangle_count: Option<i64>,
    pub dim_x: Option<u64>,
    pub dim_y: Option<u64>,
    pub dim_z: Option<u64>,
    pub thumbnail_path: Option<String>,
    pub project_id: Option<i64>,
}

pub struct ModelRowView {
    pub id: i64,
    pub path: Seq<char>,
    pub filename: Seq<char>,
    pub folder: Seq<char>,
    pub format: Seq<char>,
    pub file_size: i64,
    pub title: Option<Seq<char>>,
    pub designer: Option<Seq<char>>,
    pub description: Option<Seq<char>>,
    pub application: Option<Seq<char>>,
    pub license: Option<Seq<char>>,
    pub created_at: Option<Seq<char>>,
    pub object_count: Option<i64>,
    pub triangle_count: Option<i64>,
    pub dim_x: Option<u64>,
    pub dim_y: Option<u64>,
    pub dim_z: Option<u64>,
    pub thumbnail_path: Option<Seq<char>>,
    pub project_id: Option<i64>,
}

impl View for ModelRow {
    type V = ModelRowView;

    open spec fn view(&self) -> ModelRowView {
        ModelRowView {
            id: self.id,
            path: self.path@,
            filename: self.filename@,
            folder: self.folder@,
            format: self.format@,
            file_size: self.file_size,
            title: text::text_of(self.title),
            designer: text::text_of(self.designer),
            description: text::text_of(self.description),
            application: text::text_of(self.application),
            license: text::text_of(self.license),
            created_at: text::text_of(self.created_at),
            object_count: self.object_count,
            triangle_count: self.triangle_count,
            dim_x: self.dim_x,
            dim_y: self.dim_y,
            dim_z: self.dim_z,
            thumbnail_path: text::text_of(self.thumbnail_path),
            project_id: self.project_id,
        }
    }
}

/// A project, and how many models it has.
pub struct Project {
    pub id: i64,
    pub name: String,
    pub notes: Option<String>,
    pub model_count: i64,
}

/// What to search for, and which page of the results to give.
pub struct SearchParams<'a> {
    pub query: Option<&'a str>,
    pub designer: Option<&'a str>,
    pub folder: Option<&'a str>,
    pub format: Option<&'a str>,
    pub project: Option<i64>,
    pub limit: i64,
    pub offset: i64,
}

/// A value of a column or a parameter.
pub enum SqlValue {
    Null,
    Int(i64),
    /// The bits of a double.
    Real(u64),
    Text(String),
    /// Bytes, which no column holds.
    Blob,
}

pub enum SqlView {
    Null,
    Int(i64),
    Real(u64),
    Text(Seq<char>),
    Blob,
}

impl View for SqlValue {
    type V = SqlView;

    open spec fn view(&self) -> SqlView {
        match self {
            SqlValue::Null => SqlView::Null,
            SqlValue::Int(i) => SqlView::Int(*i),
            SqlValue::Real(b) => SqlView::Real(*b),
            SqlValue::Text(s) => SqlView::Text(s@),
            SqlValue::Blob => SqlView::Blob,
        }
    }
}

/// The values behind a list.
pub open spec fn sql_views(v: Seq<SqlValue>) -> Seq<SqlView> {
    v.map_values(|x: SqlValue| x@)
}

/// A statement and its parameters.
pub struct Statement {
    pub sql: &'static str,
    pub params: Vec<SqlValue>,
}

pub struct StatementView {
    pub sql: Seq<char>,
    pub params: Seq<SqlView>,
}

impl View for Statement {
    type V = StatementView;

    open spec fn view(&self) -> StatementView {
        StatementView { sql: self.sql@, params: sql_views(self.params@) }
    }
}

/// An optional text as a value.
pub open spec fn text_value(s: Option<Seq<char>>) -> SqlView {
    match s {
        Some(t) => SqlView::Text(t),
        None => SqlView::Null,
    }
}

/// An optional whole number as a value.
pub open spec fn int_value(n: Option<i64>) -> SqlView {
    match n {
        Some(i) => SqlView::Int(i),
        None => SqlView::Null,
    }
}

/// An optional double as a value.
pub open spec fn real_value(b: Option<u64>) -> SqlView {
    match b {
        Some(x) => SqlView::Real(x),
        None => SqlView::Null,
    }
}

fn of_text(s: &Option<String>) -> (r: SqlValue)
    ensures
        r@ == text_value(text::text_of(*s)),
{
    match s {
        Some(t) => SqlValue::Text(t.clone()),
        None => SqlValue::Null,
    }
}

fn of_str(s: Option<&str>) -> (r: SqlValue)
    ensures
        r@ == text_value(text::str_text_of(s)),
{
    match s {
        Some(t) => SqlValue::Text(t.to_owned()),
        None => SqlValue::Null,
    }
}

fn of_int(n: Option<i64>) -> (r: SqlValue)
    ensures
        r@ == int_value(n),
{
    match n {
        Some(i) => SqlValue::Int(i),
        None => SqlValue::Null,
    }
}

fn of_real(b: Option<u64>) -> (r: SqlValue)
    ensures
        r@ == real_value(b),
{
    match b {
        Some(x) => SqlValue::Real(x),
        None => SqlValue::Null,
    }
}

// ---------------------------------------------------------------------------------------
// The schema
// ---------------------------------------------------------------------------------------

/// How a connection is set up.
pub const PRAGMAS: &'static str = "PRAGMA journal_mode=WAL; PRAGMA foreign_keys=ON;";

/// The tables, the index for text search and the triggers that keep it.
pub const SCHEMA: &'static str = "
        CREATE TABLE IF NOT EXISTS projects (
            id         INTEGER PRIMARY KEY,
            name       TEXT NOT NULL UNIQUE,
            notes      TEXT,
            created_at TEXT NOT NULL DEFAULT (datetime('now'))
        );

        CREATE TABLE IF NOT EXISTS models (
            id          INTEGER PRIMARY KEY,
            path        TEXT NOT NULL UNIQUE,
            filename    TEXT NOT NULL,
            folder      TEXT NOT NULL,
            format      TEXT NOT NULL,
            file_size   INTEGER NOT NULL,

            title       TEXT,
            designer    TEXT,
            description TEXT,
            application TEXT,
            license     TEXT,
            created_at  TEXT,

            object_count  INTEGER,
            triangle_count INTEGER,
            dim_x         REAL,
            dim_y         REAL,
            dim_z         REAL,

            thumbnail_path TEXT,
            project_id     INTEGER REFERENCES projects(id),
            project_name   TEXT,

            indexed_at  TEXT NOT NULL DEFAULT (datetime('now'))
        );

        CREATE VIRTUAL TABLE IF NOT EXISTS models_fts USING fts5(
            title, designer, description, filename, folder, project_name,
            content='models', content_rowid='id'
        );

        CREATE TRIGGER IF NOT EXISTS models_ai AFTER INSERT ON models BEGIN
            INSERT INTO models_fts(rowid, title, designer, description, filename, folder, project_name)
            VALUES (new.id, new.title, new.designer, new.description, new.filename, new.folder, new.project_name);
        END;

        CREATE TRIGGER IF NOT EXISTS models_ad AFTER DELETE ON models BEGIN
            INSERT INTO models_fts(models_fts, rowid, title, designer, description, filename, folder, project_name)
            VALUES ('delete', old.id, old.title, old.designer, old.description, old.filename, old.folder, old.project_name);
        END;

        CREATE TRIGGER IF NOT EXISTS models_au AFTER UPDATE ON models BEGIN
            INSERT INTO models_fts(models_fts, rowid, title, designer, description, filename, folder, project_name)
            VALUES ('delete', old.id, old.title, old.designer, old.description, old.filename, old.folder, old.project_name);
            INSERT INTO models_fts(rowid, title, designer, description, filename, folder, project_name)
            VALUES (new.id, new.title, new.designer, new.description, new.filename, new.folder, new.project_name);
        END;
    ";

/// Adds the project of a model to a database that was made without it.
pub const ADD_PROJECT_ID: &'static str = "ALTER TABLE models ADD COLUMN project_id INTEGER";

/// Adds the name of a model's project to a database that was made without it.
pub const ADD_PROJECT_NAME: &'static str = "ALTER TABLE models ADD COLUMN project_name TEXT";

/// Asks how the index for text search was made.
pub const INDEX_SQL: &'static str = "SELECT COALESCE(sql, '') FROM sqlite_master WHERE name = 'models_fts'";

/// Removes the index for text search and its triggers.
pub const DROP_INDEX: &'static str = "
            DROP TABLE IF EXISTS models_fts;
            DROP TRIGGER IF EXISTS models_ai;
            DROP TRIGGER IF EXISTS models_ad;
            DROP TRIGGER IF EXISTS models_au;
        ";

/// Fills in the names of the projects, while no trigger is there to index them twice.
pub const FILL_PROJECT_NAMES: &'static str = "
            UPDATE models
            SET project_name = (SELECT name FROM projects WHERE id = models.project_id)
            WHERE project_id IS NOT NULL;
        ";

/// Makes the index for text search and its triggers anew, and fills it.
pub const MAKE_INDEX: &'static str = "
            CREATE VIRTUAL TABLE models_fts USING fts5(
                title, designer, description, filename, folder, project_name,
                content='models', content_rowid='id'
            );
            CREATE TRIGGER models_ai AFTER INSERT ON models BEGIN
                INSERT INTO models_fts(rowid, title, designer, description, filename, folder, project_name)
                VALUES (new.id, new.title, new.designer, new.description, new.filename, new.folder, new.project_name);
            END;
            CREATE TRIGGER models_ad AFTER DELETE ON models BEGIN
                INSERT INTO models_fts(models_fts, rowid, title, designer, description, filename, folder, project_name)
                VALUES ('delete', old.id, old.title, old.designer, old.description, old.filename, old.folder, old.project_name);
            END;
            CREATE TRIGGER models_au AFTER UPDATE ON models BEGIN
                INSERT INTO models_fts(models_fts, rowid, title, designer, description, filename, folder, project_name)
                VALUES ('delete', old.id, old.title, old.designer, old.description, old.filename, old.folder, old.project_name);
                INSERT INTO models_fts(rowid, title, designer, description, filename, folder, project_name)
                VALUES (new.id, new.title, new.designer, new.description, new.filename, new.folder, new.project_name);
            END;
            INSERT INTO models_fts(models_fts) VALUES('rebuild');
        ";

/// Fills the index for text search anew.
pub const REBUILD_INDEX: &'static str = "INSERT INTO models_fts(models_fts) VALUES('rebuild')";

/// The batches that bring the index for text search up to date, given how it was made: one
/// that does not know the names of projects is made anew.
pub open spec fn index_batches(index_sql: Seq<char>) -> Seq<Seq<char>> {
    if text::contains(index_sql, "project_name"@) {
        Seq::empty()
    } else {
        seq![DROP_INDEX@, FILL_PROJECT_NAMES@, MAKE_INDEX@]
    }
}

/// Tells which batches bring the index for text search up to date, given how it was made.
pub fn migrate(index_sql: &str) -> (r: Vec<&'static str>)
    ensures
        text::str_texts(r@) == index_batches(index_sql@),
{
    let mut out: Vec<&'static str> = Vec::new();
    if !text::contains_text(text::chars_of(index_sql).as_slice(), "project_name") {
        out.push(DROP_INDEX);
        out.push(FILL_PROJECT_NAMES);
        out.push(MAKE_INDEX);
    }
    assert(text::str_texts(out@) =~= index_batches(index_sql@));
    out
}

/// Tells whether the index for text search has to be filled anew: it is empty, and there are
/// models.
pub fn ensure_fts_sync(model_count: i64, indexed_count: i64) -> (r: Option<&'static str>)
    ensures
        match r {
            Some(sql) => sql@ == REBUILD_INDEX@ && model_count > 0 && indexed_count == 0,
            None => !(model_count > 0 && indexed_count == 0),
        },
{
    if model_count > 0 && indexed_count == 0 {
        Some(REBUILD_INDEX)
    } else {
        None
    }
}

// ---------------------------------------------------------------------------------------
// Statements
// ---------------------------------------------------------------------------------------

/// Stores a model under its path. A model that is there already is replaced, but keeps its
/// format, its project and, where it has no other, its thumbnail.
pub const UPSERT: &'static str = "INSERT INTO models (path, filename, folder, format, file_size, title, designer,
         description, application, license, created_at, object_count, triangle_count,
         dim_x, dim_y, dim_z, thumbnail_path)
         VALUES (?1,?2,?3,?4,?5,?6,?7,?8,?9,?10,?11,?12,?13,?14,?15,?16,?17)
         ON CONFLICT(path) DO UPDATE SET
           filename=excluded.filename, folder=excluded.folder, file_size=excluded.file_size,
           title=excluded.title, designer=excluded.designer, description=excluded.description,
           application=excluded.application, license=excluded.license,
           created_at=excluded.created_at, object_count=excluded.object_count,
           triangle_count=excluded.triangle_count, dim_x=excluded.dim_x,
           dim_y=excluded.dim_y, dim_z=excluded.dim_z,
           thumbnail_path=COALESCE(excluded.thumbnail_path, thumbnail_path),
           indexed_at=datetime('now')";

pub const UPDATE_THUMBNAIL: &'static str = "UPDATE models SET thumbnail_path = ?1 WHERE id = ?2";

pub const LIST_PROJECTS: &'static str = "SELECT p.id, p.name, p.notes, COUNT(m.id) as model_count
         FROM projects p
         LEFT JOIN models m ON m.project_id = p.id
         GROUP BY p.id ORDER BY p.name COLLATE NOCASE";

pub const CREATE_PROJECT: &'static str = "INSERT INTO projects (name) VALUES (?1) ON CONFLICT(name) DO NOTHING";

pub const FIND_PROJECT: &'static str = "SELECT id FROM projects WHERE name = ?1";

pub const ASSIGN_PROJECT: &'static str = "UPDATE models
         SET project_id = ?1,
             project_name = (SELECT name FROM projects WHERE id = ?1)
         WHERE id = ?2";

pub const REMOVE_FROM_PROJECT: &'static str = "UPDATE models SET project_id = NULL, project_name = NULL WHERE id = ?1";

pub const GET_PROJECT_NAME: &'static str = "SELECT name FROM projects WHERE id = ?1";

/// Searches for text, the best matches first.
pub const SEARCH_TEXT: &'static str = "
            SELECT m.id, m.path, m.filename, m.folder, m.format, m.file_size,
                   m.title, m.designer, m.description, m.application, m.license,
                   m.created_at, m.object_count, m.triangle_count,
                   m.dim_x, m.dim_y, m.dim_z, m.thumbnail_path, m.project_id
            FROM models m
            JOIN models_fts f ON f.rowid = m.id
            WHERE models_fts MATCH ?1
              AND (?2 IS NULL OR m.designer = ?2)
              AND (?3 IS NULL OR m.folder = ?3)
              AND (?4 IS NULL OR m.format = ?4)
              AND (?5 IS NULL OR m.project_id = ?5)
            ORDER BY rank
            LIMIT ?6 OFFSET ?7";

/// Lists models by their names.
pub const SEARCH_ALL: &'static str = "
            SELECT id, path, filename, folder, format, file_size,
                   title, designer, description, application, license,
                   created_at, object_count, triangle_count,
                   dim_x, dim_y, dim_z, thumbnail_path, project_id
            FROM models
            WHERE (?1 IS NULL OR designer = ?1)
              AND (?2 IS NULL OR folder = ?2)
              AND (?3 IS NULL OR format = ?3)
              AND (?4 IS NULL OR project_id = ?4)
            ORDER BY COALESCE(title, filename) COLLATE NOCASE
            LIMIT ?5 OFFSET ?6";

pub const COUNT_TEXT: &'static str = "SELECT COUNT(*) FROM models m
             JOIN models_fts f ON f.rowid = m.id
             WHERE models_fts MATCH ?1
               AND (?2 IS NULL OR m.designer = ?2)
               AND (?3 IS NULL OR m.folder = ?3)
               AND (?4 IS NULL OR m.format = ?4)
               AND (?5 IS NULL OR m.project_id = ?5)";

pub const COUNT_ALL: &'static str = "SELECT COUNT(*) FROM models
             WHERE (?1 IS NULL OR designer = ?1)
               AND (?2 IS NULL OR folder = ?2)
               AND (?3 IS NULL OR format = ?3)
               AND (?4 IS NULL OR project_id = ?4)";

pub const GET_BY_ID: &'static str = "SELECT id, path, filename, folder, format, file_size,
                title, designer, description, application, license,
                created_at, object_count, triangle_count,
                dim_x, dim_y, dim_z, thumbnail_path, project_id
         FROM models WHERE id = ?1";

pub const LIST_DESIGNERS: &'static str = "SELECT DISTINCT designer FROM models WHERE designer IS NOT NULL ORDER BY designer COLLATE NOCASE";

pub const LIST_FOLDERS: &'static str = "SELECT DISTINCT folder FROM models ORDER BY folder COLLATE NOCASE";

pub const COUNT: &'static str = "SELECT COUNT(*) FROM models";

/// Counts the rows that the index for text search holds. The index takes its content from the
/// table of models, so that its own rows are counted in the table of their sizes.
pub const COUNT_INDEXED: &'static str = "SELECT COUNT(*) FROM models_fts_docsize";

pub const RENAME_MODEL: &'static str = "UPDATE models SET path = ?1, filename = ?2 WHERE path = ?3";

pub const UNASSIGNED: &'static str = "SELECT id, folder FROM models WHERE project_id IS NULL ORDER BY folder";

/// The values that a model is stored with.
pub open spec fn stored_values(m: ModelRowView) -> Seq<SqlView> {
    seq![
        SqlView::Text(m.path),
        SqlView::Text(m.filename),
        SqlView::Text(m.folder),
        SqlView::Text(m.format),
        SqlView::Int(m.file_size),
        text_value(m.title),
        text_value(m.designer),
        text_value(m.description),
        text_value(m.application),
        text_value(m.license),
        text_value(m.created_at),
        int_value(m.object_count),
        int_value(m.triangle_count),
        real_value(m.dim_x),
        real_value(m.dim_y),
        real_value(m.dim_z),
        text_value(m.thumbnail_path),
    ]
}

/// The statement that stores a model.
pub fn upsert(m: &ModelRow) -> (r: Statement)
    ensures
        r@ == (StatementView { sql: UPSERT@, params: stored_values(m@) }),
{
    let mut params: Vec<SqlValue> = Vec::new();
    params.push(SqlValue::Text(m.path.clone()));
    params.push(SqlValue::Text(m.filename.clone()));
    params.push(SqlValue::Text(m.folder.clone()));
    params.push(SqlValue::Text(m.format.clone()));
    params.push(SqlValue::Int(m.file_size));
    params.push(of_text(&m.title));
    params.push(of_text(&m.designer));
    params.push(of_text(&m.description));
    params.push(of_text(&m.application));
    params.push(of_text(&m.license));
    params.push(of_text(&m.created_at));
    params.push(of_int(m.object_count));
    params.push(of_int(m.triangle_count));
    params.push(of_real(m.dim_x));
    params.push(of_real(m.dim_y));
    params.push(of_real(m.dim_z));
    params.push(of_text(&m.thumbnail_path));
    assert(sql_views(params@) =~= stored_values(m@));
    Statement { sql: UPSERT, params }
}

/// The statement that gives a model a thumbnail.
pub fn update_thumbnail(id: i64, path: &str) -> (r: Statement)
    ensures
        r@ == (StatementView {
            sql: UPDATE_THUMBNAIL@,
            params: seq![SqlView::Text(path@), SqlView::Int(id)],
        }),
{
    let params = vec![SqlValue::Text(path.to_owned()), SqlValue::Int(id)];
    assert(sql_views(params@) =~= seq![SqlView::Text(path@), SqlView::Int(id)]);
    Statement { sql: UPDATE_THUMBNAIL, params }
}

/// A statement without parameters.
fn plain(sql: &'static str) -> (r: Statement)
    ensures
        r@ == (StatementView { sql: sql@, params: Seq::empty() }),
{
    let params: Vec<SqlValue> = Vec::new();
    assert(sql_views(params@) =~= Seq::<SqlView>::empty());
    Statement { sql, params }
}

/// A statement whose only parameter is a number.
fn with_id(sql: &'static str, id: i64) -> (r: Statement)
    ensures
        r@ == (StatementView { sql: sql@, params: seq![SqlView::Int(id)] }),
{
    let params = vec![SqlValue::Int(id)];
    assert(sql_views(params@) =~= seq![SqlView::Int(id)]);
    Statement { sql, params }
}

/// A statement whose only parameter is a text.
fn with_text(sql: &'static str, s: &str) -> (r: Statement)
    ensures
        r@ == (StatementView { sql: sql@, params: seq![SqlView::Text(s@)] }),
{
    let params = vec![SqlValue::Text(s.to_owned())];
    assert(sql_views(params@) =~= seq![SqlView::Text(s@)]);
    Statement { sql, params }
}

/// The statement that lists the projects by their names.
pub fn list_projects() -> (r: Statement)
    ensures
        r@ == (StatementView { sql: LIST_PROJECTS@, params: Seq::empty() }),
{
    plain(LIST_PROJECTS)
}

/// The statements that make sure of a project of that name and give its number.
pub fn find_or_create_project(name: &str) -> (r: (Statement, Statement))
    ensures
        r.0@ == (StatementView { sql: CREATE_PROJECT@, params: seq![SqlView::Text(name@)] }),
        r.1@ == (StatementView { sql: FIND_PROJECT@, params: seq![SqlView::Text(name@)] }),
{
    (with_text(CREATE_PROJECT, name), with_text(FIND_PROJECT, name))
}

/// The statement that assigns a model to a project.
pub fn assign_project(model_id: i64, project_id: i64) -> (r: Statement)
    ensures
        r@ == (StatementView {
            sql: ASSIGN_PROJECT@,
            params: seq![SqlView::Int(project_id), SqlView::Int(model_id)],
        }),
{
    let params = vec![SqlValue::Int(project_id), SqlValue::Int(model_id)];
    assert(sql_views(params@) =~= seq![SqlView::Int(project_id), SqlView::Int(model_id)]);
    Statement { sql: ASSIGN_PROJECT, params }
}

/// The statement that takes a model out of its project.
pub fn remove_from_project(model_id: i64) -> (r: Statement)
    ensures
        r@ == (StatementView {
            sql: REMOVE_FROM_PROJECT@,
            params: seq![SqlView::Int(model_id)],
        }),
{
    with_id(REMOVE_FROM_PROJECT, model_id)
}

/// The statement that gives the name of a project.
pub fn get_project_name(project_id: i64) -> (r: Statement)
    ensures
        r@ == (StatementView { sql: GET_PROJECT_NAME@, params: seq![SqlView::Int(project_id)] }),
{
    with_id(GET_PROJECT_NAME, project_id)
}

/// The statement that gives a model.
pub fn get_by_id(id: i64) -> (r: Statement)
    ensures
        r@ == (StatementView { sql: GET_BY_ID@, params: seq![SqlView::Int(id)] }),
{
    with_id(GET_BY_ID, id)
}

/// The statement that lists the designers by their names.
pub fn list_designers() -> (r: Statement)
    ensures
        r@ == (StatementView { sql: LIST_DESIGNERS@, params: Seq::empty() }),
{
    plain(LIST_DESIGNERS)
}

/// The statement that lists the folders by their names.
pub fn list_folders() -> (r: Statement)
    ensures
        r@ == (StatementView { sql: LIST_FOLDERS@, params: Seq::empty() }),
{
    plain(LIST_FOLDERS)
}

/// The statement that counts the models.
pub fn count() -> (r: Statement)
    ensures
        r@ == (StatementView { sql: COUNT@, params: Seq::empty() }),
{
    plain(COUNT)
}

/// The statement that gives a model a new path and file name.
pub fn rename_model(old_path: &str, new_path: &str, new_filename: &str) -> (r: Statement)
    ensures
        r@ == (StatementView {
            sql: RENAME_MODEL@,
            params: seq![
                SqlView::Text(new_path@),
                SqlView::Text(new_filename@),
                SqlView::Text(old_path@),
            ],
        }),
{
    let params = vec![
        SqlValue::Text(new_path.to_owned()),
        SqlValue::Text(new_filename.to_owned()),
        SqlValue::Text(old_path.to_owned()),
    ];
    assert(sql_views(params@) =~= seq![
        SqlView::Text(new_path@),
        SqlView::Text(new_filename@),
        SqlView::Text(old_path@),
    ]);
    Statement { sql: RENAME_MODEL, params }
}

/// The statement that lists the models without a project, by their folders.
pub fn list_unassigned() -> (r: Statement)
    ensures
        r@ == (StatementView { sql: UNASSIGNED@, params: Seq::empty() }),
{
    plain(UNASSIGNED)
}

// ---------------------------------------------------------------------------------------
// Search
// ---------------------------------------------------------------------------------------

/// The text to search for; an empty one is none.
pub open spec fn search_text(p: SearchParams) -> Option<Seq<char>> {
    match p.query {
        Some(q) => if q@.len() > 0 {
            Some(q@)
        } else {
            None
        },
        None => None,
    }
}

/// The values that narrow a search: the start of a word, where there is text to search for,
/// and what the columns have to hold.
pub open spec fn filter_values(p: SearchParams) -> Seq<SqlView> {
    let columns = seq![
        text_value(text::str_text_of(p.designer)),
        text_value(text::str_text_of(p.folder)),
        text_value(text::str_text_of(p.format)),
        int_value(p.project),
    ];
    match search_text(p) {
        Some(q) => seq![SqlView::Text(q.push('*'))] + columns,
        None => columns,
    }
}

/// The statement that searches for models.
pub open spec fn search_statement(p: SearchParams) -> StatementView {
    StatementView {
        sql: if search_text(p) is Some {
            SEARCH_TEXT@
        } else {
            SEARCH_ALL@
        },
        params: filter_values(p) + seq![SqlView::Int(p.limit), SqlView::Int(p.offset)],
    }
}

/// The statement that counts what a search finds.
pub open spec fn count_statement(p: SearchParams) -> StatementView {
    StatementView {
        sql: if search_text(p) is Some {
            COUNT_TEXT@
        } else {
            COUNT_ALL@
        },
        params: filter_values(p),
    }
}

/// Tests whether there is text to search for.
pub fn is_text_search(p: &SearchParams) -> (r: bool)
    ensures
        r == (search_text(*p) is Some),
{
    match p.query {
        Some(q) => text::chars_of(q).len() > 0,
        None => false,
    }
}

/// The values that narrow a search.
fn read_filters(p: &SearchParams) -> (r: Vec<SqlValue>)
    ensures
        sql_views(r@) == filter_values(*p),
{
    let mut out: Vec<SqlValue> = Vec::new();
    if is_text_search(p) {
        match p.query {
            Some(q) => {
                let mut t: String = q.to_owned();
                t.push('*');
                out.push(SqlValue::Text(t));
            },
            None => {},
        }
    }
    out.push(of_str(p.designer));
    out.push(of_str(p.folder));
    out.push(of_str(p.format));
    out.push(of_int(p.project));
    assert(sql_views(out@) =~= filter_values(*p));
    out
}

/// The statement that searches for models.
pub fn search(p: &SearchParams) -> (r: Statement)
    ensures
        r@ == search_statement(*p),
{
    let mut params = read_filters(p);
    let ghost filters = params@;
    params.push(SqlValue::Int(p.limit));
    params.push(SqlValue::Int(p.offset));
    assert(sql_views(params@) =~= sql_views(filters) + seq![
        SqlView::Int(p.limit),
        SqlView::Int(p.offset),
    ]);
    Statement {
        sql: if is_text_search(p) {
            SEARCH_TEXT
        } else {
            SEARCH_ALL
        },
        params,
    }
}

/// The statement that counts what a search finds.
pub fn search_count(p: &SearchParams) -> (r: Statement)
    ensures
        r@ == count_statement(*p),
{
    Statement {
        sql: if is_text_search(p) {
            COUNT_TEXT
        } else {
            COUNT_ALL
        },
        params: read_filters(p),
    }
}

/// What a search counts is what it searches for, on every page: the two statements are
/// narrowed by the same values.
pub proof fn count_matches_search(p: SearchParams, limit: i64, offset: i64)
    ensures
        search_statement(SearchParams { limit, offset, ..p }).params == count_statement(p).params
            + seq![SqlView::Int(limit), SqlView::Int(offset)],
        search_text(p) is Some ==> search_statement(SearchParams { limit, offset, ..p }).sql
            == SEARCH_TEXT@ && count_statement(p).sql == COUNT_TEXT@,
        search_text(p) is None ==> search_statement(SearchParams { limit, offset, ..p }).sql
            == SEARCH_ALL@ && count_statement(p).sql == COUNT_ALL@,
{
}

// ---------------------------------------------------------------------------------------
// Rows
// ---------------------------------------------------------------------------------------

/// What a column of a model holds.
#[derive(Clone, Copy, PartialEq, Eq, Structural, Debug)]
pub enum Column {
    Int,
    Text,
    IntOrNull,
    TextOrNull,
    RealOrNull,
}

/// What the columns of a model hold, in the order in which they are selected.
pub open spec fn columns() -> Seq<Column> {
    seq![
        Column::Int,
        Column::Text,
        Column::Text,
        Column::Text,
        Column::Text,
        Column::Int,
        Column::TextOrNull,
        Column::TextOrNull,
        Column::TextOrNull,
        Column::TextOrNull,
        Column::TextOrNull,
        Column::TextOrNull,
        Column::IntOrNull,
        Column::IntOrNull,
        Column::RealOrNull,
        Column::RealOrNull,
        Column::RealOrNull,
        Column::TextOrNull,
        Column::IntOrNull,
    ]
}

/// Whether a column can hold a value.
pub open spec fn holds(c: Column, v: SqlView) -> bool {
    match c {
        Column::Int => v is Int,
        Column::Text => v is Text,
        Column::IntOrNull => v is Int || v is Null,
        Column::TextOrNull => v is Text || v is Null,
        Column::RealOrNull => v is Real || v is Null,
    }
}

/// The first column from `i` on that is missing or holds what it cannot.
pub open spec fn first_misfit(row: Seq<SqlView>, i: nat) -> Option<nat>
    decreases 19 - i,
{
    if i >= 19 {
        None
    } else if i >= row.len() || !holds(columns()[i as int], row[i as int]) {
        Some(i)
    } else {
        first_misfit(row, i + 1)
    }
}

pub open spec fn as_text(v: SqlView) -> Option<Seq<char>> {
    match v {
        SqlView::Text(t) => Some(t),
        _ => None,
    }
}

pub open spec fn as_int(v: SqlView) -> Option<i64> {
    match v {
        SqlView::Int(i) => Some(i),
        _ => None,
    }
}

pub open spec fn as_real(v: SqlView) -> Option<u64> {
    match v {
        SqlView::Real(b) => Some(b),
        _ => None,
    }
}

/// The model that a row holds, or the first column that does not fit.
pub open spec fn model_of(row: Seq<SqlView>) -> Result<ModelRowView, nat> {
    match first_misfit(row, 0) {
        Some(i) => Err(i),
        None => Ok(
            ModelRowView {
                id: row[0]->Int_0,
                path: row[1]->Text_0,
                filename: row[2]->Text_0,
                folder: row[3]->Text_0,
                format: row[4]->Text_0,
                file_size: row[5]->Int_0,
                title: as_text(row[6]),
                designer: as_text(row[7]),
                description: as_text(row[8]),
                application: as_text(row[9]),
                license: as_text(row[10]),
                created_at: as_text(row[11]),
                object_count: as_int(row[12]),
                triangle_count: as_int(row[13]),
                dim_x: as_real(row[14]),
                dim_y: as_real(row[15]),
                dim_z: as_real(row[16]),
                thumbnail_path: as_text(row[17]),
                project_id: as_int(row[18]),
            },
        ),
    }
}

fn column(i: usize) -> (r: Column)
    requires
        i < 19,
    ensures
        r == columns()[i as int],
{
    if i == 0 || i == 5 {
        Column::Int
    } else if i < 5 {
        Column::Text
    } else if i == 12 || i == 13 || i == 18 {
        Column::IntOrNull
    } else if i == 14 || i == 15 || i == 16 {
        Column::RealOrNull
    } else {
        Column::TextOrNull
    }
}

fn check_value(c: Column, v: &SqlValue) -> (r: bool)
    ensures
        r == holds(c, v@),
{
    match (c, v) {
        (Column::Int, SqlValue::Int(_)) => true,
        (Column::Text, SqlValue::Text(_)) => true,
        (Column::IntOrNull, SqlValue::Int(_)) => true,
        (Column::IntOrNull, SqlValue::Null) => true,
        (Column::TextOrNull, SqlValue::Text(_)) => true,
        (Column::TextOrNull, SqlValue::Null) => true,
        (Column::RealOrNull, SqlValue::Real(_)) => true,
        (Column::RealOrNull, SqlValue::Null) => true,
        _ => false,
    }
}

fn to_text(v: &SqlValue) -> (r: Option<String>)
    ensures
        text::text_of(r) == as_text(v@),
{
    match v {
        SqlValue::Text(s) => Some(s.clone()),
        _ => None,
    }
}

fn to_int(v: &SqlValue) -> (r: Option<i64>)
    ensures
        r == as_int(v@),
{
    match v {
        SqlValue::Int(i) => Some(*i),
        _ => None,
    }
}

fn to_real(v: &SqlValue) -> (r: Option<u64>)
    ensures
        r == as_real(v@),
{
    match v {
        SqlValue::Real(b) => Some(*b),
        _ => None,
    }
}

fn must_text(v: &SqlValue) -> (r: String)
    requires
        v@ is Text,
    ensures
        r@ == v@->Text_0,
{
    match v {
        SqlValue::Text(s) => s.clone(),
        _ => String::new(),
    }
}

fn must_int(v: &SqlValue) -> (r: i64)
    requires
        v@ is Int,
    ensures
        r == v@->Int_0,
{
    match v {
        SqlValue::Int(i) => *i,
        _ => 0,
    }
}

/// A row without misfits has a fitting value in every column.
proof fn lemma_no_misfit(row: Seq<SqlView>, i: nat, k: nat)
    requires
        first_misfit(row, i) is None,
        i <= k < 19,
    ensures
        k < row.len(),
        holds(columns()[k as int], row[k as int]),
    decreases 19 - i,
{
    if i < k {
        lemma_no_misfit(row, i + 1, k);
    }
}

/// Reads a model from the values of its columns; the error is the first column that does not
/// fit.
pub fn row_to_model(row: &[SqlValue]) -> (r: Result<ModelRow, usize>)
    ensures
        match r {
            Ok(m) => model_of(sql_views(row@)) == Ok::<ModelRowView, nat>(m@),
            Err(i) => model_of(sql_views(row@)) == Err::<ModelRowView, nat>(i as nat),
        },
{
    let ghost rv = sql_views(row@);
    let mut i: usize = 0;
    while i < 19
        invariant
            i <= 19,
            rv == sql_views(row@),
            first_misfit(rv, 0) == first_misfit(rv, i as nat),
        decreases 19 - i,
    {
        if i >= row.len() {
            return Err(i);
        }
        assert(rv[i as int] == row@[i as int]@);
        if !check_value(column(i), &row[i]) {
            return Err(i);
        }
        i = i + 1;
    }
    proof {
        assert forall|k: int| 0 <= k < 19 implies k < row@.len() && holds(
            #[trigger] columns()[k],
            row@[k]@,
        ) by {
            lemma_no_misfit(rv, 0, k as nat);
            assert(rv[k] == row@[k]@);
        }
        assert(holds(columns()[0], row@[0]@));
        assert(holds(columns()[1], row@[1]@));
        assert(holds(columns()[2], row@[2]@));
        assert(holds(columns()[3], row@[3]@));
        assert(holds(columns()[4], row@[4]@));
        assert(holds(columns()[5], row@[5]@));
        assert(holds(columns()[18], row@[18]@));
    }
    Ok(
        ModelRow {
            id: must_int(&row[0]),
            path: must_text(&row[1]),
            filename: must_text(&row[2]),
            folder: must_text(&row[3]),
            format: must_text(&row[4]),
            file_size: must_int(&row[5]),
            title: to_text(&row[6]),
            designer: to_text(&row[7]),
            description: to_text(&row[8]),
            application: to_text(&row[9]),
            license: to_text(&row[10]),
            created_at: to_text(&row[11]),
            object_count: to_int(&row[12]),
            triangle_count: to_int(&row[13]),
            dim_x: to_real(&row[14]),
            dim_y: to_real(&row[15]),
            dim_z: to_real(&row[16]),
            thumbnail_path: to_text(&row[17]),
            project_id: to_int(&row[18]),
        },
    )
}

/// A row with a fitting value in every column has no misfit.
proof fn lemma_fitting(row: Seq<SqlView>, i: nat)
    requires
        row.len() >= 19,
        forall|k: int| 0 <= k < 19 ==> holds(#[trigger] columns()[k], row[k]),
    ensures
        first_misfit(row, i) is None,
    decreases 19 - i,
{
    if i < 19 {
        assert(holds(columns()[i as int], row[i as int]));
        lemma_fitting(row, i + 1);
    }
}

/// What a model is stored with fits its columns.
proof fn lemma_stored_row(m: ModelRowView, row: Seq<SqlView>)
    requires
        row.len() == 19,
        row[0] == SqlView::Int(m.id),
        forall|k: int| 0 <= k < 17 ==> row[k + 1] == #[trigger] stored_values(m)[k],
        row[18] == int_value(m.project_id),
    ensures
        forall|k: int| 0 <= k < 19 ==> holds(#[trigger] columns()[k], row[k]),
        row[1] == SqlView::Text(m.path),
        row[2] == SqlView::Text(m.filename),
        row[3] == SqlView::Text(m.folder),
        row[4] == SqlView::Text(m.format),
        row[5] == SqlView::Int(m.file_size),
        row[6] == text_value(m.title),
        row[7] == text_value(m.designer),
        row[8] == text_value(m.description),
        row[9] == text_value(m.application),
        row[10] == text_value(m.license),
        row[11] == text_value(m.created_at),
        row[12] == int_value(m.object_count),
        row[13] == int_value(m.triangle_count),
        row[14] == real_value(m.dim_x),
        row[15] == real_value(m.dim_y),
        row[16] == real_value(m.dim_z),
        row[17] == text_value(m.thumbnail_path),
{
    let v = stored_values(m);
    assert(row[1] == v[0] && row[2] == v[1] && row[3] == v[2] && row[4] == v[3]);
    assert(row[5] == v[4] && row[6] == v[5] && row[7] == v[6] && row[8] == v[7]);
    assert(row[9] == v[8] && row[10] == v[9] && row[11] == v[10] && row[12] == v[11]);
    assert(row[13] == v[12] && row[14] == v[13] && row[15] == v[14] && row[16] == v[15]);
    assert(row[17] == v[16]);
}

/// A model that was stored is read back: the values it is stored with, behind its number and
/// before its project, are a row that holds it.
pub proof fn stored_model_reads_back(m: ModelRowView)
    ensures
        model_of(
            seq![SqlView::Int(m.id)] + stored_values(m) + seq![int_value(m.project_id)],
        ) == Ok::<ModelRowView, nat>(m),
{
    let row = seq![SqlView::Int(m.id)] + stored_values(m) + seq![int_value(m.project_id)];
    assert(row.len() == 19);
    assert(row[0] == SqlView::Int(m.id));
    assert(forall|k: int| 0 <= k < 17 ==> row[k + 1] == #[trigger] stored_values(m)[k]);
    assert(row[18] == int_value(m.project_id));
    lemma_stored_row(m, row);
    lemma_fitting(row, 0);
}

// ---------------------------------------------------------------------------------------
// What a model is shown as
// ---------------------------------------------------------------------------------------

impl ModelRow {
    /// The title of a model, or the name of its file where it has none.
    pub fn display_name(&self) -> (r: &str)
        ensures
            r@ == (match self@.title {
                Some(t) => t,
                None => self@.filename,
            }),
    {
        match &self.title {
            Some(t) => t.as_str(),
            None => self.filename.as_str(),
        }
    }

    /// The dimensions of a model, given each with one decimal; a model of which one is not
    /// known has none.
    pub fn dims_str(&self, x: &str, y: &str, z: &str) -> (r: Option<String>)
        ensures
            text::text_of(r) == (if self.dim_x is Some && self.dim_y is Some && self.dim_z is Some {
                Some(x@ + seq!['×'] + y@ + seq!['×'] + z@ + " mm"@)
            } else {
                None
            }),
    {
        if self.dim_x.is_some() && self.dim_y.is_some() && self.dim_z.is_some() {
            let mut out: Vec<char> = text::chars_of(x);
            out.push('×');
            text::append_chars(&mut out, text::chars_of(y).as_slice());
            out.push('×');
            text::append_chars(&mut out, text::chars_of(z).as_slice());
            text::append_chars(&mut out, text::chars_of(" mm").as_slice());
            let s = text::string_of(out.as_slice());
            assert(s@ =~= x@ + seq!['×'] + y@ + seq!['×'] + z@ + " mm"@);
            Some(s)
        } else {
            None
        }
    }
}

// ---------------------------------------------------------------------------------------
// What stands in which place
// ---------------------------------------------------------------------------------------

/// A search binds all that was asked for: where there is text to search for, it stands with a
/// star behind it in the first place, and the designer, the folder, the format and the project
/// in the four behind that; where there is none, these four stand first. Only a filter that
/// is absent is null. The limit and the offset stand last.
pub proof fn searches_bind_every_filter(p: SearchParams)
    ensures
        ({
            let texted = p.query is Some && p.query->0@.len() > 0;
            let at: int = if texted {
                1
            } else {
                0
            };
            let s = search_statement(p);
            &&& s.params.len() == at + 6
            &&& texted ==> s.sql == SEARCH_TEXT@ && s.params[0] == SqlView::Text(
                p.query->0@ + seq!['*'],
            )
            &&& !texted ==> s.sql == SEARCH_ALL@
            &&& s.params[at] == (match p.designer {
                Some(d) => SqlView::Text(d@),
                None => SqlView::Null,
            })
            &&& s.params[at + 1] == (match p.folder {
                Some(f) => SqlView::Text(f@),
                None => SqlView::Null,
            })
            &&& s.params[at + 2] == (match p.format {
                Some(f) => SqlView::Text(f@),
                None => SqlView::Null,
            })
            &&& s.params[at + 3] == (match p.project {
                Some(i) => SqlView::Int(i),
                None => SqlView::Null,
            })
            &&& s.params[at + 4] == SqlView::Int(p.limit)
            &&& s.params[at + 5] == SqlView::Int(p.offset)
        }),
{
    if p.query is Some {
        assert(p.query->0@.push('*') =~= p.query->0@ + seq!['*']);
    }
}

/// A count binds what the search binds, but for the limit and the offset.
pub proof fn counts_bind_what_searches_bind(p: SearchParams)
    ensures
        count_statement(p).params == search_statement(p).params.drop_last().drop_last(),
        p.query is Some && p.query->0@.len() > 0 ==> count_statement(p).sql == COUNT_TEXT@,
        p.query is None || p.query->0@.len() == 0 ==> count_statement(p).sql == COUNT_ALL@,
{
    let f = filter_values(p);
    assert((f + seq![SqlView::Int(p.limit), SqlView::Int(p.offset)]).drop_last().drop_last() =~= f);
}

/// The values of a model are bound in the order of the columns that the statement names.
pub proof fn stored_values_stand_in_their_columns(m: ModelRowView)
    ensures
        ({
            let v = stored_values(m);
            &&& v.len() == 17
            &&& v[0] == SqlView::Text(m.path)
            &&& v[1] == SqlView::Text(m.filename)
            &&& v[2] == SqlView::Text(m.folder)
            &&& v[3] == SqlView::Text(m.format)
            &&& v[4] == SqlView::Int(m.file_size)
            &&& m.title is None ==> v[5] == SqlView::Null
            &&& m.title is Some ==> v[5] == SqlView::Text(m.title->0)
            &&& m.designer is None ==> v[6] == SqlView::Null
            &&& m.designer is Some ==> v[6] == SqlView::Text(m.designer->0)
            &&& m.description is None ==> v[7] == SqlView::Null
            &&& m.description is Some ==> v[7] == SqlView::Text(m.description->0)
            &&& m.application is None ==> v[8] == SqlView::Null
            &&& m.application is Some ==> v[8] == SqlView::Text(m.application->0)
            &&& m.license is None ==> v[9] == SqlView::Null
            &&& m.license is Some ==> v[9] == SqlView::Text(m.license->0)
            &&& m.created_at is None ==> v[10] == SqlView::Null
            &&& m.created_at is Some ==> v[10] == SqlView::Text(m.created_at->0)
            &&& m.object_count is None ==> v[11] == SqlView::Null
            &&& m.object_count is Some ==> v[11] == SqlView::Int(m.object_count->0)
            &&& m.triangle_count is None ==> v[12] == SqlView::Null
            &&& m.triangle_count is Some ==> v[12] == SqlView::Int(m.triangle_count->0)
            &&& m.dim_x is None ==> v[13] == SqlView::Null
            &&& m.dim_x is Some ==> v[13] == SqlView::Real(m.dim_x->0)
            &&& m.dim_y is None ==> v[14] == SqlView::Null
            &&& m.dim_y is Some ==> v[14] == SqlView::Real(m.dim_y->0)
            &&& m.dim_z is None ==> v[15] == SqlView::Null
            &&& m.dim_z is Some ==> v[15] == SqlView::Real(m.dim_z->0)
            &&& m.thumbnail_path is None ==> v[16] == SqlView::Null
            &&& m.thumbnail_path is Some ==> v[16] == SqlView::Text(m.thumbnail_path->0)
        }),
{
}

/// A row is refused for its first column that is missing or holds a value of the wrong kind,
/// and for none but such: only the seventh column and those behind it may be null.
pub proof fn the_first_misfit_is_told(row: Seq<SqlView>, i: nat)
    requires
        i < 19,
        i == row.len() || (i < row.len() && !fits_its_column(row[i as int], i as int)),
        forall|k: int| 0 <= k < i ==> fits_its_column(#[trigger] row[k], k),
    ensures
        model_of(row) == Err::<ModelRowView, nat>(i),
{
    lemma_misfit_at(row, 0, i);
}

/// Whether a value is of the kind that its column asks for: the number, the size, the project
/// and the counts are whole numbers, the dimensions doubles, and the rest text.
pub open spec fn fits_its_column(v: SqlView, k: int) -> bool {
    ||| (k >= 6 && v is Null)
    ||| (if k == 0 || k == 5 || k == 12 || k == 13 || k == 18 {
        v is Int
    } else if 14 <= k <= 16 {
        v is Real
    } else {
        v is Text
    })
}

proof fn lemma_misfit_at(row: Seq<SqlView>, from: nat, i: nat)
    requires
        from <= i < 19,
        i == row.len() || (i < row.len() && !fits_its_column(row[i as int], i as int)),
        forall|k: int| 0 <= k < i ==> fits_its_column(#[trigger] row[k], k),
    ensures
        first_misfit(row, from) == Some(i),
    decreases i - from,
{
    if from < i {
        assert(fits_its_column(row[from as int], from as int));
        lemma_misfit_at(row, from + 1, i);
    }
}

/// An index that knows the names of projects stays, and any other one is dropped, the names are
/// filled in, and the index is made anew, in that order.
pub proof fn old_indexes_are_made_anew(before: Seq<char>, after: Seq<char>, other: Seq<char>)
    requires
        !other.contains('p'),
    ensures
        index_batches(before + "project_name"@ + after).len() == 0,
        index_batches(other).len() == 3,
        index_batches(other)[0] == DROP_INDEX@,
        index_batches(other)[1] == FILL_PROJECT_NAMES@,
        index_batches(other)[2] == MAKE_INDEX@,
{
    reveal_strlit("project_name");
    let s = before + "project_name"@ + after;
    let n = before.len() as int;
    assert(s.subrange(n, n + 12) =~= "project_name"@);
    assert(text::matches_at(s, "project_name"@, n));
    text::lemma_contains_absent(other, "project_name"@);
}

} // verus!
