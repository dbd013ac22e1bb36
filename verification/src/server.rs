//! The web gallery: what its pages ask for, and what they are answered.

use vstd::prelude::*;

use crate::autogroup::AutogroupStats;
use crate::db::{ModelRow, ModelRowView, SearchParams};
use crate::numbers;
use crate::scanner;
use crate::text;
use crate::text::CharSet;
use crate::unicode;

verus! {

/// What the gallery is started with.
pub struct AppConfig {
    pub db_path: String,
    pub thumb_dir: String,
    pub files_root: String,
    pub port: u16,
    pub data_dir: String,
}

/// The query of the gallery. The project is text, so that an empty one is not refused.
#[derive(Default)]
pub struct GalleryQuery {
    pub q: Option<String>,
    pub format: Option<String>,
    pub project: Option<String>,
    pub page: Option<i64>,
}

/// How many models a page shows.
pub const PAGE_SIZE: i64 = 48;

// ---------------------------------------------------------------------------------------
// Queries
// ---------------------------------------------------------------------------------------

/// The project that a text names: any whole number of sixty-four bits.
pub open spec fn project_of(s: Option<Seq<char>>) -> Option<i64> {
    match s {
        Some(t) => match numbers::integer(t) {
            Some(n) => if i64::MIN <= n <= i64::MAX {
                Some(n as i64)
            } else {
                None
            },
            None => None,
        },
        None => None,
    }
}

/// Reads the project that a text names.
pub fn parse_project(s: Option<&str>) -> (r: Option<i64>)
    ensures
        r == project_of(text::str_text_of(s)),
{
    match s {
        Some(t) => numbers::parse_i64(text::chars_of(t).as_slice()),
        None => None,
    }
}

/// The text, unless it is empty.
pub open spec fn unless_empty(s: Option<Seq<char>>) -> Option<Seq<char>> {
    match s {
        Some(t) => if t.len() > 0 {
            Some(t)
        } else {
            None
        },
        None => None,
    }
}

/// Takes an empty text of a query for none.
pub fn nonempty(s: Option<&str>) -> (r: Option<&str>)
    ensures
        text::str_text_of(r) == unless_empty(text::str_text_of(s)),
{
    match s {
        Some(t) => if text::chars_of(t).len() > 0 {
            Some(t)
        } else {
            None
        },
        None => None,
    }
}

/// The page that a query asks for; pages are counted from zero.
pub open spec fn page_of(page: Option<i64>) -> i64 {
    match page {
        Some(p) => if p > 0 {
            p
        } else {
            0
        },
        None => 0,
    }
}

/// Reads the page that a query asks for.
pub fn read_page(page: Option<i64>) -> (r: i64)
    ensures
        r == page_of(page),
{
    match page {
        Some(p) => if p > 0 {
            p
        } else {
            0
        },
        None => 0,
    }
}

/// Whether there are numbers for the models of a page.
pub open spec fn page_fits(page: i64) -> bool {
    page * PAGE_SIZE <= i64::MAX
}

/// Tests whether there are numbers for the models of a page.
pub fn check_page(page: i64) -> (r: bool)
    requires
        page >= 0,
    ensures
        r == page_fits(page),
{
    page <= 0x7fff_ffff_ffff_ffff / PAGE_SIZE
}

/// A reference to the text of an optional string.
fn as_str(s: &Option<String>) -> (r: Option<&str>)
    ensures
        text::str_text_of(r) == text::text_of(*s),
{
    match s {
        Some(t) => Some(t.as_str()),
        None => None,
    }
}

/// The search that a query asks for.
pub fn search_params<'a>(q: &'a GalleryQuery) -> (r: SearchParams<'a>)
    requires
        page_fits(page_of(q.page)),
    ensures
        text::str_text_of(r.query) == unless_empty(text::text_of(q.q)),
        r.designer is None,
        r.folder is None,
        text::str_text_of(r.format) == unless_empty(text::text_of(q.format)),
        r.project == project_of(text::text_of(q.project)),
        r.limit == PAGE_SIZE,
        r.offset == page_of(q.page) * PAGE_SIZE,
{
    let page: i64 = read_page(q.page);
    SearchParams {
        query: nonempty(as_str(&q.q)),
        designer: None,
        folder: None,
        format: nonempty(as_str(&q.format)),
        project: parse_project(as_str(&q.project)),
        limit: PAGE_SIZE,
        offset: page * PAGE_SIZE,
    }
}

/// The pages beside a page.
pub struct Pagination {
    pub page: i64,
    pub prev_page: Option<i64>,
    pub next_page: i64,
}

/// Finds the pages beside the page that a query asks for.
pub fn paginate(page: Option<i64>) -> (r: Pagination)
    requires
        page_fits(page_of(page)),
    ensures
        r.page == page_of(page),
        r.prev_page == (if page_of(page) > 0 {
            Some((page_of(page) - 1) as i64)
        } else {
            None
        }),
        r.next_page == page_of(page) + 1,
{
    let p: i64 = read_page(page);
    Pagination {
        page: p,
        prev_page: if p > 0 {
            Some(p - 1)
        } else {
            None
        },
        next_page: p + 1,
    }
}

/// The pages of a search follow one another: each starts where the one before it ended.
pub proof fn pages_are_adjacent(page: i64)
    requires
        page >= 0,
        page_fits(page),
        page < i64::MAX,
        page_fits((page + 1) as i64),
    ensures
        page_of(Some((page + 1) as i64)) * PAGE_SIZE == page_of(Some(page)) * PAGE_SIZE
            + PAGE_SIZE,
{
}

// ---------------------------------------------------------------------------------------
// Models as they are shown
// ---------------------------------------------------------------------------------------

/// The text on one line.
pub open spec fn on_one_line(s: Seq<char>) -> Seq<char> {
    s.map_values(
        |c: char|
            if c == '\n' {
                ' '
            } else {
                c
            },
    )
}

/// The text on one line and at most three hundred characters long, with an ellipsis where it
/// was longer.
pub open spec fn truncated(s: Seq<char>) -> Seq<char> {
    if s.len() > 300 {
        on_one_line(s).take(300).push('…')
    } else {
        on_one_line(s)
    }
}

/// Shortens a description.
pub fn truncate_description(s: &str) -> (r: String)
    ensures
        r@ == truncated(s@),
{
    let all = text::chars_of(s);
    let mut out: Vec<char> = Vec::new();
    let mut i: usize = 0;
    while i < all.len() && i < 300
        invariant
            i <= all@.len(),
            i <= 300,
            out@ == on_one_line(all@).take(i as int),
        decreases all@.len() - i,
    {
        let c: char = all[i];
        out.push(
            if c == '\n' {
                ' '
            } else {
                c
            },
        );
        assert(out@ =~= on_one_line(all@).take(i + 1));
        i = i + 1;
    }
    if all.len() > 300 {
        out.push('…');
    }
    assert(out@ =~= truncated(s@));
    text::string_of(out.as_slice())
}

/// A shortened description is on one line, and never longer than 301 characters.
pub proof fn truncated_text_is_short(s: Seq<char>)
    ensures
        truncated(s).len() <= 301,
        !truncated(s).contains('\n'),
{
}

/// A model as a page shows it.
#[derive(Clone)]
pub struct ModelCtx {
    pub id: i64,
    pub title: String,
    pub designer: Option<String>,
    pub description: Option<String>,
    pub format: String,
    pub format_lower: String,
    pub thumbnail_path: Option<String>,
    pub dims: Option<String>,
    pub triangle_count: Option<i64>,
    pub application: Option<String>,
    pub license: Option<String>,
    pub created_at: Option<String>,
    pub path: String,
    pub filename: String,
    pub folder: String,
}

pub struct ModelCtxView {
    pub id: i64,
    pub title: Seq<char>,
    pub designer: Option<Seq<char>>,
    pub description: Option<Seq<char>>,
    pub format: Seq<char>,
    pub format_lower: Seq<char>,
    pub thumbnail_path: Option<Seq<char>>,
    pub dims: Option<Seq<char>>,
    pub triangle_count: Option<i64>,
    pub application: Option<Seq<char>>,
    pub license: Option<Seq<char>>,
    pub created_at: Option<Seq<char>>,
    pub path: Seq<char>,
    pub filename: Seq<char>,
    pub folder: Seq<char>,
}

impl View for ModelCtx {
    type V = ModelCtxView;

    open spec fn view(&self) -> ModelCtxView {
        ModelCtxView {
            id: self.id,
            title: self.title@,
            designer: text::text_of(self.designer),
            description: text::text_of(self.description),
            format: self.format@,
            format_lower: self.format_lower@,
            thumbnail_path: text::text_of(self.thumbnail_path),
            dims: text::text_of(self.dims),
            triangle_count: self.triangle_count,
            application: text::text_of(self.application),
            license: text::text_of(self.license),
            created_at: text::text_of(self.created_at),
            path: self.path@,
            filename: self.filename@,
            folder: self.folder@,
        }
    }
}

/// A model as a page shows it, given the text of its dimensions.
pub open spec fn shown(m: ModelRowView, dims: Option<Seq<char>>) -> ModelCtxView {
    ModelCtxView {
        id: m.id,
        title: match m.title {
            Some(t) => t,
            None => m.filename,
        },
        designer: m.designer,
        description: match m.description {
            Some(d) => Some(truncated(d)),
            None => None,
        },
        format: m.format,
        format_lower: unicode::lowercase(m.format),
        thumbnail_path: m.thumbnail_path,
        dims,
        triangle_count: m.triangle_count,
        application: m.application,
        license: m.license,
        created_at: m.created_at,
        path: m.path,
        filename: m.filename,
        folder: m.folder,
    }
}

impl ModelCtx {
    /// Makes of a row what a page shows, given the text of its dimensions.
    pub fn from_row(m: &ModelRow, dims: Option<String>) -> (r: ModelCtx)
        ensures
            r@ == shown(m@, text::text_of(dims)),
    {
        let description: Option<String> = match &m.description {
            Some(d) => Some(truncate_description(d.as_str())),
            None => None,
        };
        ModelCtx {
            id: m.id,
            title: m.display_name().to_owned(),
            designer: text::copy_text(&m.designer),
            description,
            format: m.format.clone(),
            format_lower: m.format.as_str().to_lowercase(),
            thumbnail_path: text::copy_text(&m.thumbnail_path),
            dims,
            triangle_count: m.triangle_count,
            application: text::copy_text(&m.application),
            license: text::copy_text(&m.license),
            created_at: text::copy_text(&m.created_at),
            path: m.path.clone(),
            filename: m.filename.clone(),
            folder: m.folder.clone(),
        }
    }
}

// ---------------------------------------------------------------------------------------
// Files
// ---------------------------------------------------------------------------------------

/// What a request for a file is answered.
#[derive(Clone, Copy, PartialEq, Eq, Structural, Debug)]
pub enum FileReply {
    /// The file, with that content type.
    Send(ContentType),
    /// No model has that number.
    NoModel,
    /// The file of the model cannot be had.
    NoFile,
}

#[derive(Clone, Copy, PartialEq, Eq, Structural, Debug)]
pub enum ContentType {
    Stl,
    ThreeMf,
    Other,
}

impl ContentType {
    /// The name of a content type.
    pub open spec fn spec_name(self) -> Seq<char> {
        match self {
            ContentType::Stl => "model/stl"@,
            ContentType::ThreeMf => "model/3mf"@,
            ContentType::Other => "application/octet-stream"@,
        }
    }

    /// The name of a content type.
    pub fn name(self) -> (r: &'static str)
        ensures
            r@ == self.spec_name(),
    {
        match self {
            ContentType::Stl => "model/stl",
            ContentType::ThreeMf => "model/3mf",
            ContentType::Other => "application/octet-stream",
        }
    }
}

/// Answers a request for the file of a model, given the format of the model, if there is one,
/// and whether its file could be read.
pub fn serve_model_file(format: Option<&str>, readable: bool) -> (r: FileReply)
    ensures
        r == (match format {
            Some(f) => if !readable {
                FileReply::NoFile
            } else if f@ == "3MF"@ {
                FileReply::Send(ContentType::ThreeMf)
            } else {
                FileReply::Send(ContentType::Other)
            },
            None => FileReply::NoModel,
        }),
{
    match format {
        Some(f) => if !readable {
            FileReply::NoFile
        } else if text::same(f, "3MF") {
            FileReply::Send(ContentType::ThreeMf)
        } else {
            FileReply::Send(ContentType::Other)
        },
        None => FileReply::NoModel,
    }
}

/// Answers a request for a model as an STL file, given whether there is a model of that number
/// and whether its geometry could be read.
pub fn serve_as_stl(found: bool, readable: bool) -> (r: FileReply)
    ensures
        r == (if !found {
            FileReply::NoModel
        } else if readable {
            FileReply::Send(ContentType::Stl)
        } else {
            FileReply::NoFile
        }),
{
    if !found {
        FileReply::NoModel
    } else if readable {
        FileReply::Send(ContentType::Stl)
    } else {
        FileReply::NoFile
    }
}

/// Tests whether the file of a model is an STL file as it stands; any other is converted.
pub fn is_stl(format: &str) -> (r: bool)
    ensures
        r == (format@ == "STL"@),
{
    text::same(format, "STL")
}

/// The name of the thumbnail that a page made of a model.
pub open spec fn capture_name(id: i64) -> Seq<char> {
    text::concat(seq!["cap_"@, numbers::decimal(id as int), ".png"@])
}

/// A thumbnail to store: the name of its file, and the address it is served at.
pub struct Thumbnail {
    pub name: String,
    pub url: String,
}

/// Makes the name and the address of a thumbnail that a page sent; one without bytes is
/// refused.
pub fn upload_thumbnail(id: i64, size: usize) -> (r: Option<Thumbnail>)
    ensures
        match r {
            Some(t) => size > 0 && t.name@ == capture_name(id) && t.url@ == scanner::thumb_url(
                capture_name(id),
            ),
            None => size == 0,
        },
{
    if size == 0 {
        return None;
    }
    let number = numbers::decimal_of_i64(id);
    let parts: [&str; 3] = ["cap_", number.as_str(), ".png"];
    proof {
        assert(text::str_texts(parts@) =~= seq!["cap_"@, number@, ".png"@]);
    }
    let name = text::concat_texts(&parts);
    let url = scanner::make_thumb_url(name.as_str());
    Some(Thumbnail { name, url })
}

// ---------------------------------------------------------------------------------------
// Projects and slicers
// ---------------------------------------------------------------------------------------

/// Reads the name of a project that a model is put into; a name of white space is refused.
pub fn set_project(name: &str) -> (r: Option<String>)
    ensures
        text::text_of(r) == unless_empty(Some(text::trim(name@, CharSet::Space))),
{
    let all = text::chars_of(name);
    let inner = text::trim_chars(all.as_slice(), CharSet::Space);
    if inner.len() > 0 {
        Some(text::string_of(inner))
    } else {
        None
    }
}

/// The slicer behind the key of a button.
pub open spec fn slicer(key: Seq<char>) -> Option<Seq<char>> {
    if key == "bambu"@ {
        Some("BambuStudio"@)
    } else if key == "orca"@ {
        Some("OrcaSlicer"@)
    } else if key == "prusa"@ {
        Some("PrusaSlicer"@)
    } else {
        None
    }
}

/// Finds the slicer behind the key of a button.
pub fn find_slicer(key: &str) -> (r: Option<&'static str>)
    ensures
        text::str_text_of(r) == slicer(key@),
{
    if text::same(key, "bambu") {
        Some("BambuStudio")
    } else if text::same(key, "orca") {
        Some("OrcaSlicer")
    } else if text::same(key, "prusa") {
        Some("PrusaSlicer")
    } else {
        None
    }
}

/// What a request to open a model in a slicer is answered.
#[derive(Clone, Copy, PartialEq, Eq, Structural, Debug)]
pub enum OpenReply {
    Opened,
    UnknownSlicer,
    NoModel,
    Failed,
}

/// Answers a request to open a model in a slicer, given whether the slicer is known, whether
/// there is a model of that number, and whether the slicer was started.
pub fn open_in_slicer(known: bool, found: bool, started: bool) -> (r: OpenReply)
    ensures
        r == (if !known {
            OpenReply::UnknownSlicer
        } else if !found {
            OpenReply::NoModel
        } else if started {
            OpenReply::Opened
        } else {
            OpenReply::Failed
        }),
{
    if !known {
        OpenReply::UnknownSlicer
    } else if !found {
        OpenReply::NoModel
    } else if started {
        OpenReply::Opened
    } else {
        OpenReply::Failed
    }
}

// ---------------------------------------------------------------------------------------
// Scans
// ---------------------------------------------------------------------------------------

/// What a request for a scan is answered.
#[derive(Clone, Copy, PartialEq, Eq, Structural, Debug)]
pub enum ScanReply {
    /// No base folder is set.
    NoFolder,
    /// A scan is under way.
    Busy,
    /// The scan starts.
    Start,
}

/// Answers a request for a scan or for an extraction, given the base folder and whether a scan
/// is under way.
pub fn request_scan(files_root: &str, scanning: bool) -> (r: ScanReply)
    ensures
        r == (if files_root@.len() == 0 {
            ScanReply::NoFolder
        } else if scanning {
            ScanReply::Busy
        } else {
            ScanReply::Start
        }),
{
    if text::chars_of(files_root).len() == 0 {
        ScanReply::NoFolder
    } else if scanning {
        ScanReply::Busy
    } else {
        ScanReply::Start
    }
}

/// What the page shows when no base folder is set.
pub const NO_FOLDER: &'static str = "<span style=\"color:var(--muted)\">No base folder configured.</span>";

/// What the page shows when a scan is asked for while one is under way.
pub const SCAN_BUSY: &'static str = "<span style=\"color:var(--muted)\">Scan already in progress.</span>";

/// What the page shows when a scan starts.
pub const SCAN_STARTED: &'static str = "<span style=\"color:#80c080\">Scan started — check the <a href=\"/\" style=\"color:inherit\">Gallery</a> for progress.</span>";

/// What the page shows when an extraction is asked for while a scan is under way.
pub const EXTRACT_BUSY: &'static str = "<span style=\"color:var(--muted)\">A scan is already in progress — try again after it finishes.</span>";

/// What the page shows when an extraction starts.
pub const EXTRACT_STARTED: &'static str = "<span style=\"color:#80c080\">Extracting ZIPs and scanning — check the <a href=\"/\" style=\"color:inherit\">Gallery</a> for progress.</span>";

/// What the page shows when there was nothing to group.
pub const NOTHING_TO_GROUP: &'static str = "<span style=\"color:var(--muted)\">Nothing to group — run a scan first or all models are already assigned.</span>";

/// What the page shows of a request for a scan.
pub fn rescan_handler(reply: ScanReply) -> (r: &'static str)
    ensures
        r@ == (match reply {
            ScanReply::NoFolder => NO_FOLDER@,
            ScanReply::Busy => SCAN_BUSY@,
            ScanReply::Start => SCAN_STARTED@,
        }),
{
    match reply {
        ScanReply::NoFolder => NO_FOLDER,
        ScanReply::Busy => SCAN_BUSY,
        ScanReply::Start => SCAN_STARTED,
    }
}

/// What the page shows of a request for an extraction.
pub fn extract_handler(reply: ScanReply) -> (r: &'static str)
    ensures
        r@ == (match reply {
            ScanReply::NoFolder => NO_FOLDER@,
            ScanReply::Busy => EXTRACT_BUSY@,
            ScanReply::Start => EXTRACT_STARTED@,
        }),
{
    match reply {
        ScanReply::NoFolder => NO_FOLDER,
        ScanReply::Busy => EXTRACT_BUSY,
        ScanReply::Start => EXTRACT_STARTED,
    }
}

/// The ending of a noun behind a count.
pub open spec fn plural(n: usize) -> Seq<char> {
    if n == 1 {
        ""@
    } else {
        "s"@
    }
}

/// What the page shows of a grouping.
pub open spec fn grouped_text(stats: AutogroupStats) -> Seq<char> {
    if stats.models_assigned == 0 {
        NOTHING_TO_GROUP@
    } else {
        text::concat(
            seq![
                "<span style=\"color:#80c080\">Created "@,
                numbers::decimal(stats.projects_created as int),
                " project"@,
                plural(stats.projects_created),
                ", assigned "@,
                numbers::decimal(stats.models_assigned as int),
                " model"@,
                plural(stats.models_assigned),
                ".</span>"@,
            ],
        )
    }
}

fn ending(n: usize) -> (r: &'static str)
    ensures
        r@ == plural(n),
{
    if n == 1 {
        ""
    } else {
        "s"
    }
}

/// Writes what the page shows of a grouping.
pub fn autogroup_handler(stats: &AutogroupStats) -> (r: String)
    ensures
        r@ == grouped_text(*stats),
{
    if stats.models_assigned == 0 {
        return NOTHING_TO_GROUP.to_owned();
    }
    let projects = numbers::decimal_of_u64(stats.projects_created as u64);
    let models = numbers::decimal_of_u64(stats.models_assigned as u64);
    let parts: [&str; 9] = [
        "<span style=\"color:#80c080\">Created ",
        projects.as_str(),
        " project",
        ending(stats.projects_created),
        ", assigned ",
        models.as_str(),
        " model",
        ending(stats.models_assigned),
        ".</span>",
    ];
    proof {
        assert(text::str_texts(parts@) =~= seq![
            "<span style=\"color:#80c080\">Created "@,
            projects@,
            " project"@,
            plural(stats.projects_created),
            ", assigned "@,
            models@,
            " model"@,
            plural(stats.models_assigned),
            ".</span>"@,
        ]);
    }
    text::concat_texts(&parts)
}

/// Writes what the page shows of a grouping that failed.
pub fn autogroup_error(error: &str) -> (r: String)
    ensures
        r@ == text::concat(
            seq!["<span style=\"color:#c08080\">Error: "@, error@, "</span>"@],
        ),
{
    let parts: [&str; 3] = ["<span style=\"color:#c08080\">Error: ", error, "</span>"];
    proof {
        assert(text::str_texts(parts@) =~= seq![
            "<span style=\"color:#c08080\">Error: "@,
            error@,
            "</span>"@,
        ]);
    }
    text::concat_texts(&parts)
}

/// What the page shows before the count of models: while a scan is under way it asks again.
pub open spec fn scan_status_start(scanning: bool) -> Seq<char> {
    if scanning {
        "<span id=\"scan-status\" class=\"count\" hx-get=\"/api/scan/status\" hx-trigger=\"every 1s\" hx-swap=\"outerHTML\"><span class=\"spinner\"></span> "@
    } else {
        "<span id=\"scan-status\" class=\"count\">"@
    }
}

/// Writes what the page shows of the models and of a scan.
pub fn scan_status(scanning: bool, count: i64) -> (r: String)
    ensures
        r@ == text::concat(
            seq![scan_status_start(scanning), numbers::decimal(count as int), " models</span>"@],
        ),
{
    let start: &str = if scanning {
        "<span id=\"scan-status\" class=\"count\" hx-get=\"/api/scan/status\" hx-trigger=\"every 1s\" hx-swap=\"outerHTML\"><span class=\"spinner\"></span> "
    } else {
        "<span id=\"scan-status\" class=\"count\">"
    };
    let number = numbers::decimal_of_i64(count);
    let parts: [&str; 3] = [start, number.as_str(), " models</span>"];
    proof {
        assert(text::str_texts(parts@) =~= seq![
            scan_status_start(scanning),
            number@,
            " models</span>"@,
        ]);
    }
    text::concat_texts(&parts)
}

/// What the page shows where there is no banner.
pub const NO_BANNER: &'static str = "<div id=\"update-banner\" hx-get=\"/api/update/status\" hx-trigger=\"every 15s\" hx-swap=\"outerHTML\"></div>";

/// What the page shows before a banner.
pub const BANNER_START: &'static str = "<div id=\"update-banner\" class=\"update-banner\" hx-get=\"/api/update/status\" hx-trigger=\"every 2s\" hx-swap=\"outerHTML\">";

/// Writes what the page shows of an update.
pub fn update_status_handler(banner: Option<&str>) -> (r: String)
    ensures
        r@ == (match banner {
            Some(b) => text::concat(seq![BANNER_START@, b@, "</div>"@]),
            None => NO_BANNER@,
        }),
{
    match banner {
        Some(b) => {
            let parts: [&str; 3] = [BANNER_START, b, "</div>"];
            proof {
                assert(text::str_texts(parts@) =~= seq![BANNER_START@, b@, "</div>"@]);
            }
            text::concat_texts(&parts)
        },
        None => NO_BANNER.to_owned(),
    }
}

// ---------------------------------------------------------------------------------------
// The start of the server
// ---------------------------------------------------------------------------------------

/// The port to try when the configured one cannot be had: any free one, unless that was tried
/// already.
pub fn fallback_port(port: u16) -> (r: Option<u16>)
    ensures
        r == (if port != 0 {
            Some(0u16)
        } else {
            None
        }),
{
    if port != 0 {
        Some(0)
    } else {
        None
    }
}

/// Tests whether what is put into a template has to be escaped for HTML.
pub fn escapes_html(template: &str) -> (r: bool)
    ensures
        r == ".html"@.is_suffix_of(template@),
{
    text::ends_with(text::chars_of(template).as_slice(), ".html")
}

/// The number of a project that a link carries is read back.
pub proof fn project_links_read_back(id: i64)
    ensures
        project_of(Some(numbers::decimal(id as int))) == Some(id),
{
    numbers::decimal_reads_back(id as int);
}

// ---------------------------------------------------------------------------------------
// What is shown
// ---------------------------------------------------------------------------------------

/// A description of up to 300 characters is shown whole, and of a longer one the first 300 are,
/// with an ellipsis behind. Line feeds become spaces, and nothing else changes.
pub proof fn descriptions_are_shown_up_to_a_length(s: Seq<char>, i: int)
    ensures
        s.len() <= 300 ==> truncated(s).len() == s.len(),
        s.len() > 300 ==> truncated(s).len() == 301 && truncated(s)[300] == '…',
        0 <= i < s.len() && i < 300 && s[i] == '\n' ==> truncated(s)[i] == ' ',
        0 <= i < s.len() && i < 300 && s[i] != '\n' ==> truncated(s)[i] == s[i],
{
}

/// A model is shown with all that is known of it: by its title, or else by the name of its file,
/// with a short description, and with everything else as it is.
pub proof fn models_are_shown_as_they_are(m: ModelRowView, dims: Option<Seq<char>>)
    ensures
        ({
            let c = shown(m, dims);
            &&& c.id == m.id
            &&& m.title matches Some(t) ==> c.title == t
            &&& m.title is None ==> c.title == m.filename
            &&& c.designer == m.designer
            &&& m.description matches Some(d) ==> c.description == Some(truncated(d))
            &&& m.description is None ==> c.description is None
            &&& c.format == m.format
            &&& c.format_lower == unicode::lowercase(m.format)
            &&& c.thumbnail_path == m.thumbnail_path
            &&& c.dims == dims
            &&& c.triangle_count == m.triangle_count
            &&& c.application == m.application
            &&& c.license == m.license
            &&& c.created_at == m.created_at
            &&& c.path == m.path
            &&& c.filename == m.filename
            &&& c.folder == m.folder
        }),
{
}

/// A page that is asked for is shown, and without one, or below the first one, the first.
pub proof fn pages_start_at_the_first(p: i64)
    ensures
        p >= 0 ==> page_of(Some(p)) == p,
        p < 0 ==> page_of(Some(p)) == 0,
        page_of(None) == 0,
        p >= 0 && page_fits(p) ==> page_of(Some(p)) * 48 <= i64::MAX,
{
}

/// A filter that is empty is no filter, and any other one stays as it is.
pub proof fn empty_filters_are_none(s: Seq<char>)
    ensures
        s.len() == 0 ==> unless_empty(Some(s)) is None,
        s.len() > 0 ==> unless_empty(Some(s)) == Some(s),
        unless_empty(None) is None,
{
}

/// A project that is asked for by anything but a number of 64 bits is none.
pub proof fn projects_are_numbers(n: int)
    ensures
        i64::MIN <= n <= i64::MAX ==> project_of(Some(numbers::decimal(n))) == Some(n as i64),
        n < i64::MIN || n > i64::MAX ==> project_of(Some(numbers::decimal(n))) is None,
        project_of(None) is None,
{
    numbers::decimal_reads_back(n);
}

/// Captured pictures of different models have different names.
pub proof fn captures_differ(a: i64, b: i64)
    requires
        a != b,
    ensures
        capture_name(a) != capture_name(b),
        capture_name(a) == "cap_"@ + numbers::decimal(a as int) + ".png"@,
{
    reveal_strlit("cap_");
    reveal_strlit(".png");
    let (x, y) = (numbers::decimal(a as int), numbers::decimal(b as int));
    text::lemma_concat_three("cap_"@, x, ".png"@);
    text::lemma_concat_three("cap_"@, y, ".png"@);
    let (p, q) = (capture_name(a), capture_name(b));
    if p == q {
        assert(p.len() == 4 + x.len() + 4 && q.len() == 4 + y.len() + 4);
        assert(p.subrange(4, 4 + x.len() as int) =~= x);
        assert(q.subrange(4, 4 + y.len() as int) =~= y);
        numbers::decimal_reads_back(a as int);
        numbers::decimal_reads_back(b as int);
    }
}

/// Each of the three slicers has its own program, and there is no other.
pub proof fn slicers_have_their_programs(key: Seq<char>)
    ensures
        slicer("bambu"@) == Some("BambuStudio"@),
        slicer("orca"@) == Some("OrcaSlicer"@),
        slicer("prusa"@) == Some("PrusaSlicer"@),
        slicer(key) is Some ==> seq!["bambu"@, "orca"@, "prusa"@].contains(key),
{
    reveal_strlit("bambu");
    reveal_strlit("orca");
    reveal_strlit("prusa");
    assert("bambu"@[0] == 'b' && "orca"@[0] == 'o' && "prusa"@[0] == 'p');
    let all = seq!["bambu"@, "orca"@, "prusa"@];
    assert(all[0] == "bambu"@ && all[1] == "orca"@ && all[2] == "prusa"@);
}

/// What was grouped is told with both counts, in the singular for one and in the plural for any
/// other number; where no model was assigned, there was nothing to group.
pub proof fn both_counts_are_told(stats: AutogroupStats)
    ensures
        stats.models_assigned == 0 ==> grouped_text(stats) == NOTHING_TO_GROUP@,
        stats.models_assigned > 0 ==> grouped_text(stats) == "<span style=\"color:#80c080\">Created "@
            + numbers::decimal(stats.projects_created as int) + " project"@ + (
        if stats.projects_created == 1 {
            ""@
        } else {
            "s"@
        }) + ", assigned "@ + numbers::decimal(stats.models_assigned as int) + " model"@ + (
        if stats.models_assigned == 1 {
            ""@
        } else {
            "s"@
        }) + ".</span>"@,
{
    let parts = seq![
        "<span style=\"color:#80c080\">Created "@,
        numbers::decimal(stats.projects_created as int),
        " project"@,
        plural(stats.projects_created),
        ", assigned "@,
        numbers::decimal(stats.models_assigned as int),
        " model"@,
        plural(stats.models_assigned),
        ".</span>"@,
    ];
    text::lemma_concat_step(parts, 0);
    text::lemma_concat_step(parts, 1);
    text::lemma_concat_step(parts, 2);
    text::lemma_concat_step(parts, 3);
    text::lemma_concat_step(parts, 4);
    text::lemma_concat_step(parts, 5);
    text::lemma_concat_step(parts, 6);
    text::lemma_concat_step(parts, 7);
    text::lemma_concat_step(parts, 8);
    assert(parts.take(9) =~= parts);
    assert(text::concat(parts.take(1)) =~= parts[0]);
}

/// The status names the count, and is asked for again every second only while a scan is under
/// way.
pub proof fn only_running_scans_are_asked_for_again()
    ensures
        text::contains(scan_status_start(true), "every 1s"@),
        !text::contains(scan_status_start(false), "every 1s"@),
{
    reveal_strlit(
        "<span id=\"scan-status\" class=\"count\" hx-get=\"/api/scan/status\" hx-trigger=\"every 1s\" hx-swap=\"outerHTML\"><span class=\"spinner\"></span> ",
    );
    reveal_strlit("<span id=\"scan-status\" class=\"count\">");
    reveal_strlit("every 1s");
    let pat = "every 1s"@;
    let s = scan_status_start(true);
    assert(s.subrange(75, 83) =~= pat);
    assert(text::matches_at(s, pat, 75));
    let t = scan_status_start(false);
    if text::contains(t, pat) {
        let i = choose|i: int| text::matches_at(t, pat, i);
        assert(t.subrange(i, i + 8)[1] == t[i + 1]);
        assert(t[i + 1] == 'v');
    }
}

} // verus!
