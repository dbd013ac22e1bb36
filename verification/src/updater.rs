//! The self-update of the desktop application: which release to take, and what to do next.

use vstd::prelude::*;

use crate::json;
use crate::json::{JsonNode, JsonNodeView};
use crate::lists;
use crate::numbers;
use crate::paths;
use crate::text;
use crate::text::CharSet;
use crate::unicode;

verus! {

// ---------------------------------------------------------------------------------------
// Versions
// ---------------------------------------------------------------------------------------

/// The numbers among the pieces of a version, in order.
pub open spec fn version_numbers(pieces: Seq<Seq<char>>) -> Seq<nat>
    decreases pieces.len(),
{
    if pieces.len() == 0 {
        Seq::empty()
    } else {
        let rest = version_numbers(pieces.drop_last());
        match numbers::natural(pieces.last()) {
            Some(n) => if n <= u64::MAX {
                rest.push(n)
            } else {
                rest
            },
            None => rest,
        }
    }
}

/// The number at a place, or zero where there is none.
pub open spec fn number_at(v: Seq<nat>, i: int) -> nat {
    if i < v.len() {
        v[i]
    } else {
        0
    }
}

/// The first three numbers of a version.
pub open spec fn version(s: Seq<char>) -> (nat, nat, nat) {
    let v = version_numbers(text::split(s, CharSet::Dot));
    (number_at(v, 0), number_at(v, 1), number_at(v, 2))
}

/// Whether a version comes after another.
pub open spec fn comes_after(a: (nat, nat, nat), b: (nat, nat, nat)) -> bool {
    ||| a.0 > b.0
    ||| a.0 == b.0 && a.1 > b.1
    ||| a.0 == b.0 && a.1 == b.1 && a.2 > b.2
}

fn place(v: &[u64], i: usize) -> (r: u64)
    ensures
        r == (if i < v@.len() {
            v@[i as int]
        } else {
            0
        }),
{
    if i < v.len() {
        v[i]
    } else {
        0
    }
}

fn read_version(s: &str) -> (r: (u64, u64, u64))
    ensures
        (r.0 as nat, r.1 as nat, r.2 as nat) == version(s@),
{
    let all = text::chars_of(s);
    let pieces = text::split_chars(all.as_slice(), CharSet::Dot);
    let ghost ps = text::runs(pieces@);
    let mut found: Vec<u64> = Vec::new();
    let mut i: usize = 0;
    assert(ps.take(0) == Seq::<Seq<char>>::empty());
    while i < pieces.len()
        invariant
            i <= pieces@.len(),
            ps == text::runs(pieces@),
            found@.len() == version_numbers(ps.take(i as int)).len(),
            forall|k: int|
                0 <= k < found@.len() ==> (#[trigger] found@[k]) as nat == version_numbers(
                    ps.take(i as int),
                )[k],
        decreases pieces@.len() - i,
    {
        proof {
            assert(ps.take(i + 1).drop_last() == ps.take(i as int));
            assert(ps.take(i + 1).last() == pieces@[i as int]@);
        }
        match numbers::parse_u64(pieces[i]) {
            Some(n) => {
                found.push(n);
            },
            None => {},
        }
        i = i + 1;
    }
    assert(ps.take(i as int) == ps);
    (place(found.as_slice(), 0), place(found.as_slice(), 1), place(found.as_slice(), 2))
}

/// Tests whether a version comes after the current one.
pub fn is_newer(latest: &str, current: &str) -> (r: bool)
    ensures
        r == comes_after(version(latest@), version(current@)),
{
    let a = read_version(latest);
    let b = read_version(current);
    a.0 > b.0 || (a.0 == b.0 && a.1 > b.1) || (a.0 == b.0 && a.1 == b.1 && a.2 > b.2)
}

/// No version is newer than itself, and of two versions at most one is newer.
pub proof fn newer_is_one_way(a: Seq<char>, b: Seq<char>)
    ensures
        comes_after(version(a), version(b)) ==> !comes_after(version(b), version(a)),
        !comes_after(version(a), version(a)),
{
}

/// A version that is newer than a newer one is newer.
pub proof fn newer_is_transitive(a: Seq<char>, b: Seq<char>, c: Seq<char>)
    requires
        comes_after(version(a), version(b)),
        comes_after(version(b), version(c)),
    ensures
        comes_after(version(a), version(c)),
{
}

// ---------------------------------------------------------------------------------------
// The release
// ---------------------------------------------------------------------------------------

/// A release that can be installed.
pub struct Release {
    pub version: String,
    pub url: String,
}

pub struct ReleaseView {
    pub version: Seq<char>,
    pub url: Seq<char>,
}

impl View for Release {
    type V = ReleaseView;

    open spec fn view(&self) -> ReleaseView {
        ReleaseView { version: self.version@, url: self.url@ }
    }
}

/// The version that a release is tagged with.
pub open spec fn release_version(doc: Seq<JsonNodeView>) -> Seq<char> {
    match json::member_text(doc, 0, "tag_name"@) {
        Some(t) => text::trim_start(t, CharSet::LetterV),
        None => Seq::empty(),
    }
}

/// Whether an asset is a disk image, by its name.
pub open spec fn is_image(doc: Seq<JsonNodeView>, asset: int) -> bool {
    match json::member_text(doc, asset, "name"@) {
        Some(n) => ".dmg"@.is_suffix_of(n),
        None => false,
    }
}

/// The first of the assets that is a disk image.
pub open spec fn first_image(doc: Seq<JsonNodeView>, assets: Seq<int>) -> Option<int>
    decreases assets.len(),
{
    if assets.len() == 0 {
        None
    } else if is_image(doc, assets[0]) {
        Some(assets[0])
    } else {
        first_image(doc, assets.skip(1))
    }
}

/// Where the disk image of a release can be had.
pub open spec fn image_url(doc: Seq<JsonNodeView>) -> Option<Seq<char>> {
    match json::member(doc, 0, "assets"@) {
        Some(a) => match first_image(doc, json::items(doc, a)) {
            Some(i) => json::member_text(doc, i, "browser_download_url"@),
            None => None,
        },
        None => None,
    }
}

/// The release to install, if it is newer than the current version and has a disk image.
pub open spec fn release_of(doc: Seq<JsonNodeView>, current: Seq<char>) -> Option<ReleaseView> {
    if comes_after(version(release_version(doc)), version(current)) {
        match image_url(doc) {
            Some(url) => Some(ReleaseView { version: release_version(doc), url }),
            None => None,
        }
    } else {
        None
    }
}

fn find_image_url(nodes: &[JsonNode]) -> (r: Option<String>)
    ensures
        text::text_of(r) == image_url(json::document(nodes@)),
{
    let ghost doc = json::document(nodes@);
    let list: usize = match json::find_member(nodes, 0, "assets") {
        Some(a) => a,
        None => {
            return None;
        },
    };
    let assets = json::find_items(nodes, list);
    let ghost all = lists::ints(assets@);
    let mut i: usize = 0;
    assert(all.skip(0) == all);
    while i < assets.len()
        invariant
            i <= assets@.len(),
            doc == json::document(nodes@),
            all == lists::ints(assets@),
            all == json::items(doc, list as int),
            json::member(doc, 0, "assets"@) == Some(list as int),
            first_image(doc, all) == first_image(doc, all.skip(i as int)),
        decreases assets@.len() - i,
    {
        let asset: usize = assets[i];
        proof {
            assert(all.skip(i as int)[0] == asset as int);
            assert(all.skip(i as int).skip(1) == all.skip(i + 1));
        }
        let image: bool = match json::find_member_text(nodes, asset, "name") {
            Some(n) => text::ends_with(text::chars_of(n.as_str()).as_slice(), ".dmg"),
            None => false,
        };
        if image {
            return text::owned_text(
                json::find_member_text(nodes, asset, "browser_download_url"),
            );
        }
        i = i + 1;
    }
    None
}

/// Finds the release to install.
pub fn find_release(nodes: &[JsonNode], current: &str) -> (r: Option<Release>)
    ensures
        match r {
            Some(rel) => release_of(json::document(nodes@), current@) == Some(rel@),
            None => release_of(json::document(nodes@), current@) is None,
        },
{
    let version: String = match json::find_member_text(nodes, 0, "tag_name") {
        Some(t) => text::string_of(
            text::trim_start_chars(text::chars_of(t.as_str()).as_slice(), CharSet::LetterV),
        ),
        None => String::new(),
    };
    assert(version@ =~= release_version(json::document(nodes@)));
    if !is_newer(version.as_str(), current) {
        return None;
    }
    match find_image_url(nodes) {
        Some(url) => Some(Release { version, url }),
        None => None,
    }
}

/// The release that the answer of the release server names.
pub open spec fn answered_release(answer: Seq<u8>, current: Seq<char>) -> Option<ReleaseView> {
    match json::json_nodes(answer) {
        Some(doc) => release_of(doc, current),
        None => None,
    }
}

/// Reads which release to install from the answer of the release server.
pub fn read_release(answer: &[u8], current: &str) -> (r: Option<Release>)
    ensures
        match r {
            Some(rel) => answered_release(answer@, current@) == Some(rel@),
            None => answered_release(answer@, current@) is None,
        },
{
    match json::parse_json(answer) {
        Some(nodes) => find_release(nodes.as_slice(), current),
        None => None,
    }
}

// ---------------------------------------------------------------------------------------
// The disk image and the application
// ---------------------------------------------------------------------------------------

/// What stands behind the last tab of a line, without the white space around it.
pub open spec fn last_column(line: Seq<char>) -> Seq<char> {
    text::trim(text::split(line, CharSet::Tab).last(), CharSet::Space)
}

/// The first of the lines whose last column is a mounted volume.
pub open spec fn first_volume(lines: Seq<Seq<char>>) -> Option<Seq<char>>
    decreases lines.len(),
{
    if lines.len() == 0 {
        None
    } else if "/Volumes/"@.is_prefix_of(last_column(lines[0])) {
        Some(last_column(lines[0]))
    } else {
        first_volume(lines.skip(1))
    }
}

/// Where a disk image was mounted, by what the mount tool printed.
pub open spec fn mount_point(printed: Seq<char>) -> Option<Seq<char>> {
    first_volume(text::split(printed, CharSet::LineFeed))
}

/// Finds where a disk image was mounted.
pub fn find_mount_point(printed: &str) -> (r: Option<String>)
    ensures
        text::text_of(r) == mount_point(printed@),
{
    let all = text::chars_of(printed);
    let lines = text::split_chars(all.as_slice(), CharSet::LineFeed);
    let ghost ls = text::runs(lines@);
    let mut i: usize = 0;
    assert(ls.skip(0) == ls);
    while i < lines.len()
        invariant
            i <= lines@.len(),
            ls == text::runs(lines@),
            mount_point(printed@) == first_volume(ls.skip(i as int)),
        decreases lines@.len() - i,
    {
        let columns = text::split_chars(lines[i], CharSet::Tab);
        let last: &[char] = columns[columns.len() - 1];
        let volume = text::trim_chars(last, CharSet::Space);
        proof {
            assert(ls.skip(i as int)[0] == lines@[i as int]@);
            assert(ls.skip(i as int).skip(1) == ls.skip(i + 1));
            assert(text::runs(columns@).last() == last@);
        }
        if text::starts_with(volume, "/Volumes/") {
            return Some(text::string_of(volume));
        }
        i = i + 1;
    }
    None
}

/// Whether a path is that of an application.
pub open spec fn is_app(path: Seq<char>) -> bool {
    paths::extension(path) == Some("app"@)
}

fn check_app(path: &str) -> (r: bool)
    ensures
        r == is_app(path@),
{
    match paths::find_extension(path) {
        Some(e) => text::same(e.as_str(), "app"),
        None => false,
    }
}

/// The first of the paths that is an application.
pub open spec fn first_app(entries: Seq<Seq<char>>) -> Option<Seq<char>>
    decreases entries.len(),
{
    if entries.len() == 0 {
        None
    } else if is_app(entries[0]) {
        Some(entries[0])
    } else {
        first_app(entries.skip(1))
    }
}

/// Finds the first of the paths that is an application.
pub fn find_app(entries: &[String]) -> (r: Option<String>)
    ensures
        text::text_of(r) == first_app(text::texts(entries@)),
{
    let ghost es = text::texts(entries@);
    let mut i: usize = 0;
    assert(es.skip(0) == es);
    while i < entries.len()
        invariant
            i <= entries@.len(),
            es == text::texts(entries@),
            first_app(es) == first_app(es.skip(i as int)),
        decreases entries@.len() - i,
    {
        proof {
            assert(es.skip(i as int)[0] == entries@[i as int]@);
            assert(es.skip(i as int).skip(1) == es.skip(i + 1));
        }
        if check_app(entries[i].as_str()) {
            return Some(entries[i].clone());
        }
        i = i + 1;
    }
    None
}

/// The application that a path lies in: the path itself or the nearest directory above it.
pub open spec fn enclosing_app(path: Seq<char>) -> Option<Seq<char>>
    decreases path.len(),
    via enclosing_app_decreases
{
    if is_app(path) {
        Some(path)
    } else {
        match paths::parent(path) {
            Some(p) => enclosing_app(p),
            None => None,
        }
    }
}

#[via_fn]
proof fn enclosing_app_decreases(path: Seq<char>) {
    paths::parent_is_shorter(path);
}

/// Finds the application that a path lies in.
pub fn find_enclosing_app(path: &str) -> (r: Option<String>)
    ensures
        text::text_of(r) == enclosing_app(path@),
{
    let mut at: String = path.to_owned();
    loop
        invariant
            enclosing_app(path@) == enclosing_app(at@),
        decreases at@.len(),
    {
        if check_app(at.as_str()) {
            return Some(at);
        }
        proof {
            paths::parent_is_shorter(at@);
        }
        match paths::find_parent(at.as_str()) {
            Some(p) => {
                at = p;
            },
            None => {
                return None;
            },
        }
    }
}

// ---------------------------------------------------------------------------------------
// The steps of an update
// ---------------------------------------------------------------------------------------

/// How far an update has come.
pub enum UpdateState {
    /// The application has just started.
    Starting,
    /// The release server was asked.
    Asking,
    Downloading(Release),
    Mounting(Release),
    /// The volume was mounted, and is looked through.
    Listing(Release, String),
    /// The application on the volume was found, and the running one is looked for.
    Locating(Release, String, String),
    /// The application is copied over the running one.
    Copying(Release, String, String),
    /// The volume is unmounted, and nothing was installed.
    GivingUp,
    /// The volume is unmounted, and the application could not be copied.
    CopyFailed(Release),
    /// The volume is unmounted, and the application was copied.
    Copied(Release, String),
    /// The new application is cleared for use.
    Clearing(Release, String),
    /// The restart is announced.
    Restarting(String),
    /// The new application is opened.
    Opening,
    Done,
}

/// What is to be done next.
pub enum UpdateAction {
    Sleep(u64),
    AskServer,
    Download(String),
    Mount,
    ListVolume(String),
    FindExecutable,
    /// Copy the first application over the second.
    Copy(String, String),
    Unmount(String),
    ClearQuarantine(String),
    Open(String),
    /// Leave the application as it is.
    Stop,
    /// Leave the application.
    Exit,
}

/// What came of the last action.
pub enum UpdateEvent {
    Slept,
    /// The answer of the release server, if there was one.
    Answered(Option<Vec<u8>>),
    Downloaded(bool),
    /// What the mount tool printed, if it succeeded.
    Mounted(Option<Vec<u8>>),
    /// The paths of what lies on the volume.
    Listed(Vec<String>),
    /// The path of the running program, if it is known.
    Found(Option<String>),
    CopyEnded(bool),
    Unmounted,
    Cleared,
    Opened,
}

/// What becomes of the banner on the page.
pub enum Banner {
    Keep,
    Clear,
    Show(String),
}

/// One step of an update.
pub struct UpdateStep {
    pub state: UpdateState,
    pub action: UpdateAction,
    pub banner: Banner,
}

pub enum UpdateStateView {
    Starting,
    Asking,
    Downloading(ReleaseView),
    Mounting(ReleaseView),
    Listing(ReleaseView, Seq<char>),
    Locating(ReleaseView, Seq<char>, Seq<char>),
    Copying(ReleaseView, Seq<char>, Seq<char>),
    GivingUp,
    CopyFailed(ReleaseView),
    Copied(ReleaseView, Seq<char>),
    Clearing(ReleaseView, Seq<char>),
    Restarting(Seq<char>),
    Opening,
    Done,
}

pub enum UpdateActionView {
    Sleep(u64),
    AskServer,
    Download(Seq<char>),
    Mount,
    ListVolume(Seq<char>),
    FindExecutable,
    Copy(Seq<char>, Seq<char>),
    Unmount(Seq<char>),
    ClearQuarantine(Seq<char>),
    Open(Seq<char>),
    Stop,
    Exit,
}

pub enum UpdateEventView {
    Slept,
    Answered(Option<Seq<u8>>),
    Downloaded(bool),
    Mounted(Option<Seq<u8>>),
    Listed(Seq<Seq<char>>),
    Found(Option<Seq<char>>),
    CopyEnded(bool),
    Unmounted,
    Cleared,
    Opened,
}

pub enum BannerView {
    Keep,
    Clear,
    Show(Seq<char>),
}

pub struct UpdateStepView {
    pub state: UpdateStateView,
    pub action: UpdateActionView,
    pub banner: BannerView,
}

impl View for UpdateState {
    type V = UpdateStateView;

    open spec fn view(&self) -> UpdateStateView {
        match self {
            UpdateState::Starting => UpdateStateView::Starting,
            UpdateState::Asking => UpdateStateView::Asking,
            UpdateState::Downloading(r) => UpdateStateView::Downloading(r@),
            UpdateState::Mounting(r) => UpdateStateView::Mounting(r@),
            UpdateState::Listing(r, m) => UpdateStateView::Listing(r@, m@),
            UpdateState::Locating(r, m, a) => UpdateStateView::Locating(r@, m@, a@),
            UpdateState::Copying(r, m, c) => UpdateStateView::Copying(r@, m@, c@),
            UpdateState::GivingUp => UpdateStateView::GivingUp,
            UpdateState::CopyFailed(r) => UpdateStateView::CopyFailed(r@),
            UpdateState::Copied(r, c) => UpdateStateView::Copied(r@, c@),
            UpdateState::Clearing(r, c) => UpdateStateView::Clearing(r@, c@),
            UpdateState::Restarting(c) => UpdateStateView::Restarting(c@),
            UpdateState::Opening => UpdateStateView::Opening,
            UpdateState::Done => UpdateStateView::Done,
        }
    }
}

impl View for UpdateAction {
    type V = UpdateActionView;

    open spec fn view(&self) -> UpdateActionView {
        match self {
            UpdateAction::Sleep(n) => UpdateActionView::Sleep(*n),
            UpdateAction::AskServer => UpdateActionView::AskServer,
            UpdateAction::Download(u) => UpdateActionView::Download(u@),
            UpdateAction::Mount => UpdateActionView::Mount,
            UpdateAction::ListVolume(m) => UpdateActionView::ListVolume(m@),
            UpdateAction::FindExecutable => UpdateActionView::FindExecutable,
            UpdateAction::Copy(a, b) => UpdateActionView::Copy(a@, b@),
            UpdateAction::Unmount(m) => UpdateActionView::Unmount(m@),
            UpdateAction::ClearQuarantine(c) => UpdateActionView::ClearQuarantine(c@),
            UpdateAction::Open(c) => UpdateActionView::Open(c@),
            UpdateAction::Stop => UpdateActionView::Stop,
            UpdateAction::Exit => UpdateActionView::Exit,
        }
    }
}

impl View for UpdateEvent {
    type V = UpdateEventView;

    open spec fn view(&self) -> UpdateEventView {
        match self {
            UpdateEvent::Slept => UpdateEventView::Slept,
            UpdateEvent::Answered(b) => UpdateEventView::Answered(lists::bytes_of(*b)),
            UpdateEvent::Downloaded(ok) => UpdateEventView::Downloaded(*ok),
            UpdateEvent::Mounted(b) => UpdateEventView::Mounted(lists::bytes_of(*b)),
            UpdateEvent::Listed(v) => UpdateEventView::Listed(text::texts(v@)),
            UpdateEvent::Found(p) => UpdateEventView::Found(text::text_of(*p)),
            UpdateEvent::CopyEnded(ok) => UpdateEventView::CopyEnded(*ok),
            UpdateEvent::Unmounted => UpdateEventView::Unmounted,
            UpdateEvent::Cleared => UpdateEventView::Cleared,
            UpdateEvent::Opened => UpdateEventView::Opened,
        }
    }
}

impl View for Banner {
    type V = BannerView;

    open spec fn view(&self) -> BannerView {
        match self {
            Banner::Keep => BannerView::Keep,
            Banner::Clear => BannerView::Clear,
            Banner::Show(s) => BannerView::Show(s@),
        }
    }
}

impl View for UpdateStep {
    type V = UpdateStepView;

    open spec fn view(&self) -> UpdateStepView {
        UpdateStepView { state: self.state@, action: self.action@, banner: self.banner@ }
    }
}

/// The banner while a release is downloaded.
pub open spec fn downloading_text(version: Seq<char>) -> Seq<char> {
    text::concat(seq!["Downloading update v"@, version, "…"@])
}

/// The banner while a release is installed.
pub open spec fn installing_text(version: Seq<char>) -> Seq<char> {
    text::concat(seq!["Installing update v"@, version, "…"@])
}

/// The banner when a release was installed.
pub open spec fn installed_text(version: Seq<char>) -> Seq<char> {
    text::concat(seq!["Update v"@, version, " installed — restarting…"@])
}

/// The banner when a release has to be installed by hand.
pub open spec fn available_text(version: Seq<char>, url: Seq<char>) -> Seq<char> {
    text::concat(
        seq![
            "Update v"@,
            version,
            " available — <a href=\""@,
            url,
            "\" style=\"color:inherit\">Download</a>"@,
        ],
    )
}

/// A step that ends the update.
pub open spec fn last_step(banner: BannerView) -> UpdateStepView {
    UpdateStepView { state: UpdateStateView::Done, action: UpdateActionView::Stop, banner }
}

/// A step that leaves the banner as it is.
pub open spec fn quiet_step(state: UpdateStateView, action: UpdateActionView) -> UpdateStepView {
    UpdateStepView { state, action, banner: BannerView::Keep }
}

/// The first step: give the page a moment before anything else.
pub open spec fn first_step() -> UpdateStepView {
    quiet_step(UpdateStateView::Starting, UpdateActionView::Sleep(3))
}

/// The next step, given how far the update has come and what came of the last action.
pub open spec fn next_step(
    state: UpdateStateView,
    event: UpdateEventView,
    current: Seq<char>,
) -> UpdateStepView {
    match (state, event) {
        (UpdateStateView::Starting, UpdateEventView::Slept) => quiet_step(
            UpdateStateView::Asking,
            UpdateActionView::AskServer,
        ),
        (UpdateStateView::Asking, UpdateEventView::Answered(Some(answer))) => match answered_release(
            answer,
            current,
        ) {
            Some(r) => UpdateStepView {
                state: UpdateStateView::Downloading(r),
                action: UpdateActionView::Download(r.url),
                banner: BannerView::Show(downloading_text(r.version)),
            },
            None => last_step(BannerView::Keep),
        },
        (UpdateStateView::Downloading(r), UpdateEventView::Downloaded(ok)) => if ok {
            UpdateStepView {
                state: UpdateStateView::Mounting(r),
                action: UpdateActionView::Mount,
                banner: BannerView::Show(installing_text(r.version)),
            }
        } else {
            last_step(BannerView::Clear)
        },
        (UpdateStateView::Mounting(r), UpdateEventView::Mounted(Some(printed))) => match mount_point(
            unicode::lossy_text(printed),
        ) {
            Some(m) => quiet_step(
                UpdateStateView::Listing(r, m),
                UpdateActionView::ListVolume(m),
            ),
            None => last_step(BannerView::Clear),
        },
        (UpdateStateView::Mounting(r), UpdateEventView::Mounted(None)) => last_step(
            BannerView::Clear,
        ),
        (UpdateStateView::Listing(r, m), UpdateEventView::Listed(entries)) => match first_app(
            entries,
        ) {
            Some(a) => quiet_step(
                UpdateStateView::Locating(r, m, a),
                UpdateActionView::FindExecutable,
            ),
            None => quiet_step(UpdateStateView::GivingUp, UpdateActionView::Unmount(m)),
        },
        (UpdateStateView::Locating(r, m, a), UpdateEventView::Found(exe)) => match running_app(
            exe,
        ) {
            Some(c) => quiet_step(
                UpdateStateView::Copying(r, m, c),
                UpdateActionView::Copy(a, c),
            ),
            None => quiet_step(UpdateStateView::GivingUp, UpdateActionView::Unmount(m)),
        },
        (UpdateStateView::GivingUp, UpdateEventView::Unmounted) => last_step(BannerView::Clear),
        (UpdateStateView::Copying(r, m, c), UpdateEventView::CopyEnded(ok)) => quiet_step(
            if ok {
                UpdateStateView::Copied(r, c)
            } else {
                UpdateStateView::CopyFailed(r)
            },
            UpdateActionView::Unmount(m),
        ),
        (UpdateStateView::CopyFailed(r), UpdateEventView::Unmounted) => last_step(
            BannerView::Show(available_text(r.version, r.url)),
        ),
        (UpdateStateView::Copied(r, c), UpdateEventView::Unmounted) => quiet_step(
            UpdateStateView::Clearing(r, c),
            UpdateActionView::ClearQuarantine(c),
        ),
        (UpdateStateView::Clearing(r, c), UpdateEventView::Cleared) => UpdateStepView {
            state: UpdateStateView::Restarting(c),
            action: UpdateActionView::Sleep(2),
            banner: BannerView::Show(installed_text(r.version)),
        },
        (UpdateStateView::Restarting(c), UpdateEventView::Slept) => quiet_step(
            UpdateStateView::Opening,
            UpdateActionView::Open(c),
        ),
        (UpdateStateView::Opening, UpdateEventView::Opened) => quiet_step(
            UpdateStateView::Done,
            UpdateActionView::Exit,
        ),
        _ => last_step(BannerView::Keep),
    }
}

/// The application that the running program lies in, if the program is known.
pub open spec fn running_app(exe: Option<Seq<char>>) -> Option<Seq<char>> {
    match exe {
        Some(e) => enclosing_app(e),
        None => None,
    }
}

fn stop(banner: Banner) -> (r: UpdateStep)
    ensures
        r@ == last_step(banner@),
{
    UpdateStep { state: UpdateState::Done, action: UpdateAction::Stop, banner }
}

fn quiet(state: UpdateState, action: UpdateAction) -> (r: UpdateStep)
    ensures
        r@ == quiet_step(state@, action@),
{
    UpdateStep { state, action, banner: Banner::Keep }
}

fn show(parts: &[&str]) -> (r: Banner)
    ensures
        r@ == BannerView::Show(text::concat(text::str_texts(parts@))),
{
    Banner::Show(text::concat_texts(parts))
}

/// The first step of an update.
pub fn start() -> (r: UpdateStep)
    ensures
        r@ == first_step(),
{
    quiet(UpdateState::Starting, UpdateAction::Sleep(3))
}

fn after_answer(answer: &[u8], current: &str) -> (r: UpdateStep)
    ensures
        r@ == next_step(
            UpdateStateView::Asking,
            UpdateEventView::Answered(Some(answer@)),
            current@,
        ),
{
    match read_release(answer, current) {
        Some(release) => {
            let parts: [&str; 3] = ["Downloading update v", release.version.as_str(), "…"];
            let banner = show(&parts);
            proof {
                assert(text::str_texts(parts@) =~= seq![
                    "Downloading update v"@,
                    release.version@,
                    "…"@,
                ]);
            }
            let url = release.url.clone();
            UpdateStep {
                state: UpdateState::Downloading(release),
                action: UpdateAction::Download(url),
                banner,
            }
        },
        None => stop(Banner::Keep),
    }
}

fn after_download(release: Release, ok: bool) -> (r: UpdateStep)
    ensures
        forall|current: Seq<char>|
            r@ == #[trigger] next_step(
                UpdateStateView::Downloading(release@),
                UpdateEventView::Downloaded(ok),
                current,
            ),
{
    if !ok {
        return stop(Banner::Clear);
    }
    let parts: [&str; 3] = ["Installing update v", release.version.as_str(), "…"];
    let banner = show(&parts);
    proof {
        assert(text::str_texts(parts@) =~= seq!["Installing update v"@, release.version@, "…"@]);
    }
    UpdateStep { state: UpdateState::Mounting(release), action: UpdateAction::Mount, banner }
}

fn after_mount(release: Release, printed: &[u8]) -> (r: UpdateStep)
    ensures
        forall|current: Seq<char>|
            r@ == #[trigger] next_step(
                UpdateStateView::Mounting(release@),
                UpdateEventView::Mounted(Some(printed@)),
                current,
            ),
{
    let t = unicode::lossy_string(printed);
    match find_mount_point(t.as_str()) {
        Some(m) => {
            let volume = m.clone();
            quiet(UpdateState::Listing(release, m), UpdateAction::ListVolume(volume))
        },
        None => stop(Banner::Clear),
    }
}

fn after_listing(release: Release, mount: String, entries: &[String]) -> (r: UpdateStep)
    ensures
        forall|current: Seq<char>|
            r@ == #[trigger] next_step(
                UpdateStateView::Listing(release@, mount@),
                UpdateEventView::Listed(text::texts(entries@)),
                current,
            ),
{
    match find_app(entries) {
        Some(a) => quiet(
            UpdateState::Locating(release, mount, a),
            UpdateAction::FindExecutable,
        ),
        None => quiet(UpdateState::GivingUp, UpdateAction::Unmount(mount)),
    }
}

fn after_location(
    release: Release,
    mount: String,
    app: String,
    exe: &Option<String>,
) -> (r: UpdateStep)
    ensures
        forall|current: Seq<char>|
            r@ == #[trigger] next_step(
                UpdateStateView::Locating(release@, mount@, app@),
                UpdateEventView::Found(text::text_of(*exe)),
                current,
            ),
{
    let running: Option<String> = match exe {
        Some(e) => find_enclosing_app(e.as_str()),
        None => None,
    };
    match running {
        Some(c) => {
            let target = c.clone();
            quiet(UpdateState::Copying(release, mount, c), UpdateAction::Copy(app, target))
        },
        None => quiet(UpdateState::GivingUp, UpdateAction::Unmount(mount)),
    }
}

fn after_failed_copy(release: Release) -> (r: UpdateStep)
    ensures
        forall|current: Seq<char>|
            r@ == #[trigger] next_step(
                UpdateStateView::CopyFailed(release@),
                UpdateEventView::Unmounted,
                current,
            ),
{
    let parts: [&str; 5] = [
        "Update v",
        release.version.as_str(),
        " available — <a href=\"",
        release.url.as_str(),
        "\" style=\"color:inherit\">Download</a>",
    ];
    let banner = show(&parts);
    proof {
        assert(text::str_texts(parts@) =~= seq![
            "Update v"@,
            release.version@,
            " available — <a href=\""@,
            release.url@,
            "\" style=\"color:inherit\">Download</a>"@,
        ]);
    }
    stop(banner)
}

fn after_clearing(release: Release, app: String) -> (r: UpdateStep)
    ensures
        forall|current: Seq<char>|
            r@ == #[trigger] next_step(
                UpdateStateView::Clearing(release@, app@),
                UpdateEventView::Cleared,
                current,
            ),
{
    let parts: [&str; 3] = ["Update v", release.version.as_str(), " installed — restarting…"];
    let banner = show(&parts);
    proof {
        assert(text::str_texts(parts@) =~= seq![
            "Update v"@,
            release.version@,
            " installed — restarting…"@,
        ]);
    }
    UpdateStep { state: UpdateState::Restarting(app), action: UpdateAction::Sleep(2), banner }
}

/// The next step of an update, given how far it has come, what came of the last action and
/// the version that runs.
pub fn check_and_update(state: UpdateState, event: UpdateEvent, current: &str) -> (r: UpdateStep)
    ensures
        r@ == next_step(state@, event@, current@),
{
    match (state, event) {
        (UpdateState::Starting, UpdateEvent::Slept) => quiet(
            UpdateState::Asking,
            UpdateAction::AskServer,
        ),
        (UpdateState::Asking, UpdateEvent::Answered(Some(answer))) => after_answer(
            answer.as_slice(),
            current,
        ),
        (UpdateState::Downloading(release), UpdateEvent::Downloaded(ok)) => after_download(
            release,
            ok,
        ),
        (UpdateState::Mounting(release), UpdateEvent::Mounted(Some(printed))) => after_mount(
            release,
            printed.as_slice(),
        ),
        (UpdateState::Mounting(_), UpdateEvent::Mounted(None)) => stop(Banner::Clear),
        (UpdateState::Listing(release, mount), UpdateEvent::Listed(entries)) => after_listing(
            release,
            mount,
            entries.as_slice(),
        ),
        (UpdateState::Locating(release, mount, app), UpdateEvent::Found(exe)) => after_location(
            release,
            mount,
            app,
            &exe,
        ),
        (UpdateState::GivingUp, UpdateEvent::Unmounted) => stop(Banner::Clear),
        (UpdateState::Copying(release, mount, app), UpdateEvent::CopyEnded(ok)) => if ok {
            quiet(UpdateState::Copied(release, app), UpdateAction::Unmount(mount))
        } else {
            quiet(UpdateState::CopyFailed(release), UpdateAction::Unmount(mount))
        },
        (UpdateState::CopyFailed(release), UpdateEvent::Unmounted) => after_failed_copy(release),
        (UpdateState::Copied(release, app), UpdateEvent::Unmounted) => {
            let target = app.clone();
            quiet(UpdateState::Clearing(release, app), UpdateAction::ClearQuarantine(target))
        },
        (UpdateState::Clearing(release, app), UpdateEvent::Cleared) => after_clearing(
            release,
            app,
        ),
        (UpdateState::Restarting(app), UpdateEvent::Slept) => quiet(
            UpdateState::Opening,
            UpdateAction::Open(app),
        ),
        (UpdateState::Opening, UpdateEvent::Opened) => quiet(
            UpdateState::Done,
            UpdateAction::Exit,
        ),
        _ => stop(Banner::Keep),
    }
}

// ---------------------------------------------------------------------------------------
// What holds of the steps
// ---------------------------------------------------------------------------------------

/// Whether an event is what comes of the action that a state waits for.
pub open spec fn answers(state: UpdateStateView, event: UpdateEventView) -> bool {
    match state {
        UpdateStateView::Starting => event is Slept,
        UpdateStateView::Asking => event is Answered,
        UpdateStateView::Downloading(_) => event is Downloaded,
        UpdateStateView::Mounting(_) => event is Mounted,
        UpdateStateView::Listing(_, _) => event is Listed,
        UpdateStateView::Locating(_, _, _) => event is Found,
        UpdateStateView::Copying(_, _, _) => event is CopyEnded,
        UpdateStateView::GivingUp => event is Unmounted,
        UpdateStateView::CopyFailed(_) => event is Unmounted,
        UpdateStateView::Copied(_, _) => event is Unmounted,
        UpdateStateView::Clearing(_, _) => event is Cleared,
        UpdateStateView::Restarting(_) => event is Slept,
        UpdateStateView::Opening => event is Opened,
        UpdateStateView::Done => false,
    }
}

/// The volume that is mounted in a state and not yet to be unmounted.
pub open spec fn mounted_volume(state: UpdateStateView) -> Option<Seq<char>> {
    match state {
        UpdateStateView::Listing(_, m) => Some(m),
        UpdateStateView::Locating(_, m, _) => Some(m),
        UpdateStateView::Copying(_, m, _) => Some(m),
        _ => None,
    }
}

/// A volume that was mounted is unmounted whatever happens: each step keeps it or unmounts it.
pub proof fn mounted_volume_is_unmounted(
    state: UpdateStateView,
    event: UpdateEventView,
    current: Seq<char>,
)
    requires
        mounted_volume(state) is Some,
        answers(state, event),
    ensures
        mounted_volume(next_step(state, event, current).state) == mounted_volume(state)
            || next_step(state, event, current).action == UpdateActionView::Unmount(
            mounted_volume(state)->0,
        ),
{
}

/// Whether the banner tells of work in a state.
pub open spec fn shows_work(state: UpdateStateView) -> bool {
    match state {
        UpdateStateView::Starting => false,
        UpdateStateView::Asking => false,
        UpdateStateView::Done => false,
        _ => true,
    }
}

/// An update that stops does not leave a banner that tells of work.
pub proof fn stopped_update_leaves_no_stale_banner(
    state: UpdateStateView,
    event: UpdateEventView,
    current: Seq<char>,
)
    requires
        shows_work(state),
        answers(state, event),
        next_step(state, event, current).action is Stop,
    ensures
        !(next_step(state, event, current).banner is Keep),
{
}

/// How many steps an update can still take.
pub open spec fn steps_left(state: UpdateStateView) -> nat {
    match state {
        UpdateStateView::Starting => 11,
        UpdateStateView::Asking => 10,
        UpdateStateView::Downloading(_) => 9,
        UpdateStateView::Mounting(_) => 8,
        UpdateStateView::Listing(_, _) => 7,
        UpdateStateView::Locating(_, _, _) => 6,
        UpdateStateView::Copying(_, _, _) => 5,
        UpdateStateView::Copied(_, _) => 4,
        UpdateStateView::Clearing(_, _) => 3,
        UpdateStateView::Restarting(_) => 2,
        UpdateStateView::Opening => 1,
        UpdateStateView::GivingUp => 1,
        UpdateStateView::CopyFailed(_) => 1,
        UpdateStateView::Done => 0,
    }
}

/// An update comes to an end: each step leaves fewer to take, and the last one stops it or
/// leaves the application.
pub proof fn update_comes_to_an_end(
    state: UpdateStateView,
    event: UpdateEventView,
    current: Seq<char>,
)
    requires
        !(state is Done),
    ensures
        steps_left(next_step(state, event, current).state) < steps_left(state),
        next_step(state, event, current).state is Done <==> (next_step(
            state,
            event,
            current,
        ).action is Stop || next_step(state, event, current).action is Exit),
{
}

/// Nothing is downloaded unless the release server answered with a newer release.
pub proof fn only_newer_releases_are_downloaded(
    state: UpdateStateView,
    event: UpdateEventView,
    current: Seq<char>,
)
    requires
        next_step(state, event, current).action is Download,
    ensures
        next_step(state, event, current).state matches UpdateStateView::Downloading(r)
            && comes_after(version(r.version), version(current)),
{
}

// ---------------------------------------------------------------------------------------
// The start of the application
// ---------------------------------------------------------------------------------------

/// The page that the application opens with: the settings, as long as there are none.
pub open spec fn startup_path(settings_exist: bool) -> Seq<char> {
    if settings_exist {
        "/"@
    } else {
        "/settings"@
    }
}

/// The address that the application opens with.
pub fn startup_url(port: u16, settings_exist: bool) -> (r: String)
    ensures
        r@ == text::concat(
            seq![
                "http://127.0.0.1:"@,
                numbers::decimal(port as int),
                startup_path(settings_exist),
            ],
        ),
{
    let number = numbers::decimal_of_u64(port as u64);
    let path: &str = if settings_exist {
        "/"
    } else {
        "/settings"
    };
    let parts: [&str; 3] = ["http://127.0.0.1:", number.as_str(), path];
    proof {
        assert(text::str_texts(parts@) =~= seq!["http://127.0.0.1:"@, number@, path@]);
    }
    text::concat_texts(&parts)
}

// ---------------------------------------------------------------------------------------
// Versions
// ---------------------------------------------------------------------------------------

proof fn lemma_version_pieces(v: Seq<nat>, pieces: Seq<Seq<char>>)
    requires
        v.len() == pieces.len(),
        forall|i: int|
            0 <= i < v.len() ==> numbers::natural(#[trigger] pieces[i]) == Some(v[i]) && v[i]
                <= u64::MAX,
    ensures
        version_numbers(pieces) == v,
    decreases v.len(),
{
    if v.len() > 0 {
        let n = v.len() - 1;
        assert forall|i: int| 0 <= i < n implies numbers::natural(#[trigger] pieces.drop_last()[i])
            == Some(v.drop_last()[i]) && v.drop_last()[i] <= u64::MAX by {
            assert(pieces.drop_last()[i] == pieces[i]);
        }
        lemma_version_pieces(v.drop_last(), pieces.drop_last());
        assert(numbers::natural(pieces[n]) == Some(v[n]));
        assert(v.drop_last().push(v[n]) =~= v);
    } else {
        assert(version_numbers(pieces) =~= v);
    }
}

proof fn lemma_decimal_piece(n: nat)
    ensures
        text::all_chars(numbers::decimal(n as int), |c: char| !CharSet::Dot.has(c)),
        numbers::natural(numbers::decimal(n as int)) == Some(n),
{
    numbers::decimal_is_digits(n);
    numbers::decimal_reads_back(n as int);
}

/// A version of three numbers is these numbers, one of two has a zero behind them, and what
/// stands behind the third does not count.
pub proof fn versions_are_their_numbers(a: nat, b: nat, c: nat, rest: Seq<char>)
    requires
        a <= u64::MAX,
        b <= u64::MAX,
        c <= u64::MAX,
    ensures
        ({
            let x = numbers::decimal(a as int);
            let y = numbers::decimal(b as int);
            let z = numbers::decimal(c as int);
            &&& version(x) == (a, 0nat, 0nat)
            &&& version(x.push('.') + y) == (a, b, 0nat)
            &&& version(x.push('.') + y.push('.') + z) == (a, b, c)
            &&& version((x.push('.') + y.push('.') + z).push('.') + rest) == (a, b, c)
        }),
{
    let x = numbers::decimal(a as int);
    let y = numbers::decimal(b as int);
    let z = numbers::decimal(c as int);
    lemma_decimal_piece(a);
    lemma_decimal_piece(b);
    lemma_decimal_piece(c);
    text::lemma_split_absent(x, CharSet::Dot);
    lemma_version_pieces(seq![a], seq![x]);
    let xy = x.push('.') + y;
    text::lemma_split_push(x, '.', y, CharSet::Dot);
    assert(seq![x].push(y) =~= seq![x, y]);
    lemma_version_pieces(seq![a, b], seq![x, y]);
    let xyz = x.push('.') + y.push('.') + z;
    assert(xyz =~= xy.push('.') + z);
    text::lemma_split_push(xy, '.', z, CharSet::Dot);
    assert(seq![x, y].push(z) =~= seq![x, y, z]);
    lemma_version_pieces(seq![a, b, c], seq![x, y, z]);
    text::lemma_split_below(xyz, '.', rest, CharSet::Dot);
    let more = text::split(rest, CharSet::Dot);
    lemma_more_pieces(seq![x, y, z], more);
    let all = version_numbers(seq![x, y, z] + more);
    assert(all.take(3) == seq![a, b, c]);
    assert(all.take(3)[0] == a && all.take(3)[1] == b && all.take(3)[2] == c);
    assert(all[0] == a && all[1] == b && all[2] == c);
}

proof fn lemma_more_pieces(first: Seq<Seq<char>>, more: Seq<Seq<char>>)
    ensures
        version_numbers(first + more).len() >= version_numbers(first).len(),
        version_numbers(first + more).take(version_numbers(first).len() as int)
            == version_numbers(first),
    decreases more.len(),
{
    let n = version_numbers(first).len() as int;
    if more.len() == 0 {
        assert(first + more =~= first);
        assert(version_numbers(first).take(n) =~= version_numbers(first));
    } else {
        assert((first + more).drop_last() =~= first + more.drop_last());
        lemma_more_pieces(first, more.drop_last());
        let before = version_numbers(first + more.drop_last());
        let after = version_numbers(first + more);
        assert(after.take(n) =~= before.take(n));
    }
}

/// A piece of a version that is no number of 64 bits is passed over.
pub proof fn other_pieces_are_passed_over(pieces: Seq<Seq<char>>, piece: Seq<char>)
    ensures
        numbers::natural(piece) is None || numbers::natural(piece)->0 > u64::MAX
            ==> version_numbers(pieces.push(piece)) == version_numbers(pieces),
        numbers::natural(piece) is Some && numbers::natural(piece)->0 <= u64::MAX
            ==> version_numbers(pieces.push(piece)) == version_numbers(pieces).push(
            numbers::natural(piece)->0,
        ),
{
    assert(pieces.push(piece).drop_last() =~= pieces);
}

/// The first number in which two versions differ tells which one is newer, and of two different
/// versions one is.
pub proof fn the_first_difference_tells(a: (nat, nat, nat), b: (nat, nat, nat))
    ensures
        a.0 != b.0 ==> (comes_after(a, b) <==> a.0 > b.0),
        a.0 == b.0 && a.1 != b.1 ==> (comes_after(a, b) <==> a.1 > b.1),
        a.0 == b.0 && a.1 == b.1 ==> (comes_after(a, b) <==> a.2 > b.2),
        a != b ==> comes_after(a, b) || comes_after(b, a),
{
}

// ---------------------------------------------------------------------------------------
// What is found on the way
// ---------------------------------------------------------------------------------------

/// The image of a release is the first of its assets whose name ends in `.dmg`.
pub proof fn the_first_image_is_taken(doc: Seq<JsonNodeView>, assets: Seq<int>, k: int)
    requires
        0 <= k <= assets.len(),
        forall|j: int|
            0 <= j < k ==> !(json::member_text(doc, #[trigger] assets[j], "name"@) matches Some(n)
                && ".dmg"@.is_suffix_of(n)),
        k < assets.len() ==> (json::member_text(doc, assets[k], "name"@) matches Some(n)
            && ".dmg"@.is_suffix_of(n)),
    ensures
        k < assets.len() ==> first_image(doc, assets) == Some(assets[k]),
        k == assets.len() ==> first_image(doc, assets) is None,
    decreases k,
{
    if k > 0 {
        let rest = assets.skip(1);
        assert(!is_image(doc, assets[0]));
        assert forall|j: int| 0 <= j < k - 1 implies !(json::member_text(
            doc,
            #[trigger] rest[j],
            "name"@,
        ) matches Some(n) && ".dmg"@.is_suffix_of(n)) by {
            assert(rest[j] == assets[j + 1]);
        }
        the_first_image_is_taken(doc, rest, k - 1);
    }
}

/// A release is installed from its image exactly where it is newer than the application, by its
/// tag without the letters in front of it, and has an image with an address.
pub proof fn newer_releases_with_an_image_are_taken(
    doc: Seq<JsonNodeView>,
    current: Seq<char>,
    tag: Seq<char>,
    url: Seq<char>,
)
    requires
        json::member_text(doc, 0, "tag_name"@) == Some(tag),
    ensures
        ({
            let v = text::trim_start(tag, CharSet::LetterV);
            let newer = comes_after(version(v), version(current));
            &&& newer && image_url(doc) == Some(url) ==> release_of(doc, current) == Some(
                ReleaseView { version: v, url },
            )
            &&& !newer || image_url(doc) is None ==> release_of(doc, current) is None
        }),
{
}

/// The letters `v` in front of a tag go, and nothing else does.
pub proof fn tags_lose_their_letter(tag: Seq<char>)
    requires
        tag.len() > 0,
        tag[0] != 'v',
    ensures
        text::trim_start(tag, CharSet::LetterV) == tag,
        text::trim_start(seq!['v'] + tag, CharSet::LetterV) == tag,
{
    let s = seq!['v'] + tag;
    assert(s[0] == 'v');
    assert(s.skip(1) =~= tag);
    assert(text::trim_start(tag, CharSet::LetterV) == tag);
}

/// The volume is named in the last column of the first line where that is the path of one.
pub proof fn the_first_volume_is_taken(lines: Seq<Seq<char>>, k: int)
    requires
        0 <= k <= lines.len(),
        forall|j: int|
            0 <= j < k ==> !"/Volumes/"@.is_prefix_of(last_column(#[trigger] lines[j])),
        k < lines.len() ==> "/Volumes/"@.is_prefix_of(last_column(lines[k])),
    ensures
        k < lines.len() ==> first_volume(lines) == Some(last_column(lines[k])),
        k == lines.len() ==> first_volume(lines) is None,
    decreases k,
{
    if k > 0 {
        let rest = lines.skip(1);
        assert(!"/Volumes/"@.is_prefix_of(last_column(lines[0])));
        assert forall|j: int| 0 <= j < k - 1 implies !"/Volumes/"@.is_prefix_of(
            last_column(#[trigger] rest[j]),
        ) by {
            assert(rest[j] == lines[j + 1]);
        }
        the_first_volume_is_taken(rest, k - 1);
    }
}

/// The last column of a line stands behind its last tab, without white space around it.
pub proof fn columns_are_parted_by_tabs(front: Seq<char>, column: Seq<char>)
    requires
        !column.contains('\t'),
    ensures
        last_column(front.push('\t') + column) == text::trim(column, CharSet::Space),
        last_column(column) == text::trim(column, CharSet::Space),
{
    let clean = |c: char| !CharSet::Tab.has(c);
    assert forall|i: int| 0 <= i < column.len() implies clean(#[trigger] column[i]) by {
        assert(column.contains(column[i]));
    }
    text::lemma_split_push(front, '\t', column, CharSet::Tab);
    text::lemma_split_absent(column, CharSet::Tab);
}

/// The volume is looked for in every line that the tool printed.
pub proof fn every_printed_line_is_read(a: Seq<char>, b: Seq<char>)
    ensures
        mount_point(a.push('\n') + b) == (if mount_point(a) is Some {
            mount_point(a)
        } else {
            mount_point(b)
        }),
{
    text::lemma_split_below(a, '\n', b, CharSet::LineFeed);
    lemma_volumes_add(text::split(a, CharSet::LineFeed), text::split(b, CharSet::LineFeed));
}

proof fn lemma_volumes_add(a: Seq<Seq<char>>, b: Seq<Seq<char>>)
    ensures
        first_volume(a + b) == (if first_volume(a) is Some {
            first_volume(a)
        } else {
            first_volume(b)
        }),
    decreases a.len(),
{
    if a.len() == 0 {
        assert(a + b =~= b);
    } else {
        assert((a + b).skip(1) =~= a.skip(1) + b);
        lemma_volumes_add(a.skip(1), b);
    }
}

/// The application on a volume is the first entry with the extension `app`.
pub proof fn the_first_app_is_taken(entries: Seq<Seq<char>>, k: int)
    requires
        0 <= k <= entries.len(),
        forall|j: int|
            0 <= j < k ==> paths::extension(#[trigger] entries[j]) != Some("app"@),
        k < entries.len() ==> paths::extension(entries[k]) == Some("app"@),
    ensures
        k < entries.len() ==> first_app(entries) == Some(entries[k]),
        k == entries.len() ==> first_app(entries) is None,
    decreases k,
{
    if k > 0 {
        let rest = entries.skip(1);
        assert(paths::extension(entries[0]) != Some("app"@));
        assert forall|j: int| 0 <= j < k - 1 implies paths::extension(#[trigger] rest[j]) != Some(
            "app"@,
        ) by {
            assert(rest[j] == entries[j + 1]);
        }
        the_first_app_is_taken(rest, k - 1);
    }
}

/// The application around a program is the nearest folder with the extension `app`: the program
/// itself, or that of the folder it lies in, however deep.
pub proof fn the_nearest_app_encloses(d: Seq<char>, name: Seq<char>)
    requires
        paths::is_tight(d),
        paths::is_file_name(name),
    ensures
        ({
            let path = paths::joined(d, name);
            &&& paths::extension(path) == Some("app"@) ==> enclosing_app(path) == Some(path)
            &&& paths::extension(path) != Some("app"@) ==> enclosing_app(path) == enclosing_app(d)
        }),
{
    paths::child_of_directory(d, name);
    paths::parent_is_shorter(paths::joined(d, name));
}

/// An enclosing application is one, and no shorter path of the program's is.
pub proof fn enclosing_apps_are_apps(path: Seq<char>)
    ensures
        enclosing_app(path) matches Some(a) ==> paths::extension(a) == Some("app"@),
        enclosing_app(path) is None ==> paths::extension(path) != Some("app"@),
        paths::extension(path) == Some("app"@) ==> enclosing_app(path) == Some(path),
    decreases path.len(),
{
    if !is_app(path) {
        match paths::parent(path) {
            Some(p) => {
                paths::parent_is_shorter(path);
                enclosing_apps_are_apps(p);
            },
            None => {},
        }
    }
}

// ---------------------------------------------------------------------------------------
// How an update goes
// ---------------------------------------------------------------------------------------

/// An update in which everything succeeds goes all the way: a newer release is downloaded from
/// its address, mounted, looked through, copied over the running application, unmounted, cleared
/// and opened, and then the application is left.
pub proof fn updates_go_all_the_way(
    answer: Seq<u8>,
    current: Seq<char>,
    r: ReleaseView,
    printed: Seq<u8>,
    volume: Seq<char>,
    entries: Seq<Seq<char>>,
    app: Seq<char>,
    exe: Seq<char>,
    running: Seq<char>,
)
    requires
        answered_release(answer, current) == Some(r),
        mount_point(unicode::lossy_text(printed)) == Some(volume),
        first_app(entries) == Some(app),
        enclosing_app(exe) == Some(running),
    ensures
        ({
            let s0 = first_step();
            let s1 = next_step(s0.state, UpdateEventView::Slept, current);
            let s2 = next_step(s1.state, UpdateEventView::Answered(Some(answer)), current);
            let s3 = next_step(s2.state, UpdateEventView::Downloaded(true), current);
            let s4 = next_step(s3.state, UpdateEventView::Mounted(Some(printed)), current);
            let s5 = next_step(s4.state, UpdateEventView::Listed(entries), current);
            let s6 = next_step(s5.state, UpdateEventView::Found(Some(exe)), current);
            let s7 = next_step(s6.state, UpdateEventView::CopyEnded(true), current);
            let s8 = next_step(s7.state, UpdateEventView::Unmounted, current);
            let s9 = next_step(s8.state, UpdateEventView::Cleared, current);
            let s10 = next_step(s9.state, UpdateEventView::Slept, current);
            let s11 = next_step(s10.state, UpdateEventView::Opened, current);
            &&& s0.action == UpdateActionView::Sleep(3)
            &&& s1.action is AskServer
            &&& s2.action == UpdateActionView::Download(r.url)
            &&& s3.action is Mount
            &&& s4.action == UpdateActionView::ListVolume(volume)
            &&& s5.action is FindExecutable
            &&& s6.action == UpdateActionView::Copy(app, running)
            &&& s7.action == UpdateActionView::Unmount(volume)
            &&& s8.action == UpdateActionView::ClearQuarantine(running)
            &&& s9.action == UpdateActionView::Sleep(2)
            &&& s10.action == UpdateActionView::Open(running)
            &&& s11.action is Exit
            &&& s11.state is Done
            &&& s2.banner == BannerView::Show(downloading_text(r.version))
            &&& s3.banner == BannerView::Show(installing_text(r.version))
            &&& s9.banner == BannerView::Show(installed_text(r.version))
            &&& s0.banner is Keep
            &&& s1.banner is Keep
            &&& s4.banner is Keep
            &&& s5.banner is Keep
            &&& s6.banner is Keep
            &&& s7.banner is Keep
            &&& s8.banner is Keep
            &&& s10.banner is Keep
            &&& s11.banner is Keep
        }),
{
}

/// An update that fails stops: where nothing was shown nothing changes, and otherwise the banner
/// goes; where the application could not be copied, it gives the address instead. A volume that
/// was mounted is unmounted first.
pub proof fn failed_updates_stop(
    r: ReleaseView,
    volume: Seq<char>,
    app: Seq<char>,
    running: Seq<char>,
    entries: Seq<Seq<char>>,
    exe: Option<Seq<char>>,
    current: Seq<char>,
)
    ensures
        ({
            let asked = next_step(UpdateStateView::Asking, UpdateEventView::Answered(None), current);
            let lost = next_step(
                UpdateStateView::Downloading(r),
                UpdateEventView::Downloaded(false),
                current,
            );
            let unmounted = next_step(
                UpdateStateView::Mounting(r),
                UpdateEventView::Mounted(None),
                current,
            );
            let bare = next_step(
                UpdateStateView::Listing(r, volume),
                UpdateEventView::Listed(entries),
                current,
            );
            let astray = next_step(
                UpdateStateView::Locating(r, volume, app),
                UpdateEventView::Found(exe),
                current,
            );
            let uncopied = next_step(
                UpdateStateView::Copying(r, volume, running),
                UpdateEventView::CopyEnded(false),
                current,
            );
            let told = next_step(uncopied.state, UpdateEventView::Unmounted, current);
            let away = next_step(bare.state, UpdateEventView::Unmounted, current);
            &&& asked.action is Stop
            &&& asked.banner is Keep
            &&& lost.action is Stop
            &&& lost.banner is Clear
            &&& unmounted.action is Stop
            &&& unmounted.banner is Clear
            &&& first_app(entries) is None ==> bare.action == UpdateActionView::Unmount(volume)
                && away.action is Stop && away.banner is Clear
            &&& exe is None || enclosing_app(exe->0) is None ==> astray.action
                == UpdateActionView::Unmount(volume)
            &&& uncopied.action == UpdateActionView::Unmount(volume)
            &&& told.action is Stop
            &&& told.banner == BannerView::Show(available_text(r.version, r.url))
        }),
{
}

/// What the banner says names the version, and where the application could not be copied the
/// address too.
pub proof fn banners_name_the_version(version: Seq<char>, url: Seq<char>)
    ensures
        downloading_text(version) == "Downloading update v"@ + version + "…"@,
        installing_text(version) == "Installing update v"@ + version + "…"@,
        installed_text(version) == "Update v"@ + version + " installed — restarting…"@,
        available_text(version, url) == "Update v"@ + version + " available — <a href=\""@ + url
            + "\" style=\"color:inherit\">Download</a>"@,
{
    text::lemma_concat_three("Downloading update v"@, version, "…"@);
    text::lemma_concat_three("Installing update v"@, version, "…"@);
    text::lemma_concat_three("Update v"@, version, " installed — restarting…"@);
    let a = seq!["Update v"@, version, " available — <a href=\""@];
    let b = seq![url, "\" style=\"color:inherit\">Download</a>"@];
    text::lemma_concat_three("Update v"@, version, " available — <a href=\""@);
    text::texts_follow_one_another(a, b);
    text::lemma_concat_step(b, 0);
    text::lemma_concat_step(b, 1);
    assert(b.take(2) =~= b);
    assert(text::concat(b) =~= url + "\" style=\"color:inherit\">Download</a>"@);
    assert(a + b =~= seq![
        "Update v"@,
        version,
        " available — <a href=\""@,
        url,
        "\" style=\"color:inherit\">Download</a>"@,
    ]);
    assert(available_text(version, url) =~= "Update v"@ + version + " available — <a href=\""@ + url
        + "\" style=\"color:inherit\">Download</a>"@);
}

/// The application starts with its gallery, and with its settings where there are none yet.
pub proof fn settings_come_first()
    ensures
        startup_path(true) == "/"@,
        startup_path(false) == "/settings"@,
{
}

/// An answer without a tag, or that is no document, tells of no release.
pub proof fn answers_without_a_tag_tell_nothing(doc: Seq<JsonNodeView>, current: Seq<char>)
    requires
        json::member_text(doc, 0, "tag_name"@) is None,
    ensures
        release_of(doc, current) is None,
{
    let e = Seq::<char>::empty();
    text::lemma_split_absent(e, CharSet::Dot);
    reveal_with_fuel(version_numbers, 2);
    assert(numbers::natural(e) is None);
    assert(seq![e].drop_last() =~= Seq::<Seq<char>>::empty());
}

} // verus!
