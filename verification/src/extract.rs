//! ZIP archives and the directories they are extracted into.

use vstd::prelude::*;

use crate::archive;
use crate::archive::{Entry, EntryView};
use crate::lists;
use crate::paths;
use crate::text;
use crate::text::CharSet;

verus! {

/// What became of an archive.
pub struct ExtractResult {
    pub zip_path: String,
    pub dest_dir: String,
    pub files_extracted: usize,
    /// The directory was there before, and nothing was extracted.
    pub skipped: bool,
}

pub struct ExtractResultView {
    pub zip_path: Seq<char>,
    pub dest_dir: Seq<char>,
    pub files_extracted: usize,
    pub skipped: bool,
}

impl View for ExtractResult {
    type V = ExtractResultView;

    open spec fn view(&self) -> ExtractResultView {
        ExtractResultView {
            zip_path: self.zip_path@,
            dest_dir: self.dest_dir@,
            files_extracted: self.files_extracted,
            skipped: self.skipped,
        }
    }
}

/// Whether a path is that of a ZIP archive.
pub open spec fn is_zip(path: Seq<char>) -> bool {
    match paths::extension(path) {
        Some(e) => text::same_ignoring_ascii_case(e, "zip"@),
        None => false,
    }
}

/// Tests whether a path is that of a ZIP archive.
pub fn check_zip(path: &str) -> (r: bool)
    ensures
        r == is_zip(path@),
{
    match paths::find_extension(path) {
        Some(e) => text::eq_ignore_ascii_case(text::chars_of(e.as_str()).as_slice(), "zip"),
        None => false,
    }
}

/// The directory of an archive: beside it, with its name but for the extension.
pub open spec fn dest_dir(zip_path: Seq<char>, root: Seq<char>) -> Seq<char> {
    let dir = match paths::parent(zip_path) {
        Some(p) => p,
        None => root,
    };
    let stem = match paths::stem(zip_path) {
        Some(s) => s,
        None => Seq::empty(),
    };
    paths::joined(dir, stem)
}

/// Finds the directory that an archive is extracted into.
pub fn find_dest_dir(zip_path: &str, root: &str) -> (r: String)
    ensures
        r@ == dest_dir(zip_path@, root@),
{
    let dir: String = match paths::find_parent(zip_path) {
        Some(p) => p,
        None => root.to_owned(),
    };
    let stem: String = match paths::find_stem(zip_path) {
        Some(s) => s,
        None => String::new(),
    };
    assert(paths::stem(zip_path@) is None ==> stem@ =~= Seq::<char>::empty());
    paths::join(dir.as_str(), stem.as_str())
}

/// An archive, by its position among the files, and the directory that it is extracted into.
pub struct Job {
    pub file: usize,
    pub dest_dir: String,
}

pub struct JobView {
    pub file: int,
    pub dest_dir: Seq<char>,
}

impl View for Job {
    type V = JobView;

    open spec fn view(&self) -> JobView {
        JobView { file: self.file as int, dest_dir: self.dest_dir@ }
    }
}

/// The jobs behind a list.
pub open spec fn job_views(v: Seq<Job>) -> Seq<JobView> {
    v.map_values(|j: Job| j@)
}

/// The archives among the first `n` files, and the directories that they are extracted into.
pub open spec fn jobs(files: Seq<Seq<char>>, root: Seq<char>, n: nat) -> Seq<JobView>
    decreases n,
{
    if n == 0 {
        Seq::empty()
    } else {
        let rest = jobs(files, root, (n - 1) as nat);
        if is_zip(files[n - 1]) {
            rest.push(JobView { file: n - 1, dest_dir: dest_dir(files[n - 1], root) })
        } else {
            rest
        }
    }
}

/// Finds the archives among files, and the directories that they are extracted into.
pub fn extract_all(files: &[String], root: &str) -> (r: Vec<Job>)
    ensures
        job_views(r@) == jobs(text::texts(files@), root@, files@.len()),
        forall|k: int| 0 <= k < r@.len() ==> (#[trigger] r@[k]).file < files@.len(),
{
    let ghost fs = text::texts(files@);
    let mut out: Vec<Job> = Vec::new();
    let mut i: usize = 0;
    assert(job_views(out@) == Seq::<JobView>::empty());
    while i < files.len()
        invariant
            i <= files@.len(),
            fs == text::texts(files@),
            job_views(out@) == jobs(fs, root@, i as nat),
            forall|k: int| 0 <= k < out@.len() ==> (#[trigger] out@[k]).file < files@.len(),
        decreases files@.len() - i,
    {
        let ghost before = out@;
        assert(fs[i as int] == files@[i as int]@);
        if check_zip(files[i].as_str()) {
            let job = Job { file: i, dest_dir: find_dest_dir(files[i].as_str(), root) };
            out.push(job);
            assert(job_views(out@) =~= job_views(before).push(job@));
        }
        i = i + 1;
    }
    out
}

// ---------------------------------------------------------------------------------------
// Where an entry goes
// ---------------------------------------------------------------------------------------

/// Whether a piece of an entry's name may be a part of a path: it is not empty, and does not
/// lead out of the directory.
pub open spec fn is_safe(piece: Seq<char>) -> bool {
    piece.len() > 0 && piece != ".."@
}

/// The pieces that may be parts of a path.
pub open spec fn safe_only(pieces: Seq<Seq<char>>) -> Seq<Seq<char>>
    decreases pieces.len(),
{
    if pieces.len() == 0 {
        Seq::empty()
    } else if is_safe(pieces.last()) {
        safe_only(pieces.drop_last()).push(pieces.last())
    } else {
        safe_only(pieces.drop_last())
    }
}

/// The path of an entry below the directory of its archive.
pub open spec fn safe_name(raw: Seq<char>) -> Seq<char> {
    text::join(safe_only(text::split(raw, CharSet::AnySlash)), '/')
}

/// Makes the name of an entry a path below the directory of its archive.
pub fn make_safe_name(raw: &str) -> (r: String)
    ensures
        r@ == safe_name(raw@),
{
    let all = text::chars_of(raw);
    let pieces = text::split_chars(all.as_slice(), CharSet::AnySlash);
    let ghost ps = text::runs(pieces@);
    let dots = text::chars_of("..");
    let mut kept: Vec<&[char]> = Vec::new();
    let mut i: usize = 0;
    assert(ps.take(0) == Seq::<Seq<char>>::empty());
    assert(text::runs(kept@) == Seq::<Seq<char>>::empty());
    while i < pieces.len()
        invariant
            i <= pieces@.len(),
            ps == text::runs(pieces@),
            dots@ == ".."@,
            text::runs(kept@) == safe_only(ps.take(i as int)),
        decreases pieces@.len() - i,
    {
        let piece: &[char] = pieces[i];
        let ghost before = kept@;
        proof {
            assert(ps.take(i + 1).drop_last() == ps.take(i as int));
            assert(ps.take(i + 1).last() == piece@);
        }
        if piece.len() > 0 && !text::same_chars(piece, dots.as_slice()) {
            kept.push(piece);
            assert(text::runs(kept@) =~= text::runs(before).push(piece@));
        }
        i = i + 1;
    }
    assert(ps.take(i as int) == ps);
    text::string_of(text::join_runs(kept.as_slice(), '/').as_slice())
}

/// Whether an entry is a directory: its name ends with a slash.
pub open spec fn is_dir_name(raw: Seq<char>) -> bool {
    raw.len() > 0 && (raw.last() == '/' || raw.last() == '\\')
}

fn check_dir_name(raw: &str) -> (r: bool)
    ensures
        r == is_dir_name(raw@),
{
    let all = text::chars_of(raw);
    all.len() > 0 && (all[all.len() - 1] == '/' || all[all.len() - 1] == '\\')
}

/// What to do about an entry.
pub enum EntryPlan {
    /// The entry cannot be opened: the extraction fails.
    Fail,
    /// Nothing is left of the entry's name.
    Skip,
    MakeDir(String),
    WriteFile(String, Vec<u8>),
    /// The data of the entry is broken: what came out of it is written, and the extraction then
    /// fails.
    WritePart(String, Vec<u8>),
}

pub enum EntryPlanView {
    Fail,
    Skip,
    MakeDir(Seq<char>),
    WriteFile(Seq<char>, Seq<u8>),
    WritePart(Seq<char>, Seq<u8>),
}

impl View for EntryPlan {
    type V = EntryPlanView;

    open spec fn view(&self) -> EntryPlanView {
        match self {
            EntryPlan::Fail => EntryPlanView::Fail,
            EntryPlan::Skip => EntryPlanView::Skip,
            EntryPlan::MakeDir(p) => EntryPlanView::MakeDir(p@),
            EntryPlan::WriteFile(p, c) => EntryPlanView::WriteFile(p@, c@),
            EntryPlan::WritePart(p, c) => EntryPlanView::WritePart(p@, c@),
        }
    }
}

impl EntryPlanView {
    /// Whether the extraction fails with that entry.
    pub open spec fn fails(self) -> bool {
        self is Fail || self is WritePart
    }
}

impl EntryPlan {
    /// Tests whether the extraction fails with that entry.
    pub fn check_fails(&self) -> (r: bool)
        ensures
            r == self@.fails(),
    {
        match self {
            EntryPlan::Fail => true,
            EntryPlan::WritePart(_, _) => true,
            _ => false,
        }
    }
}

/// What to do about an entry of that name.
pub open spec fn entry_plan(dest: Seq<char>, raw: Seq<char>, entry: EntryView) -> EntryPlanView {
    let path = paths::joined(dest, safe_name(raw));
    if entry is Unopened {
        EntryPlanView::Fail
    } else if safe_name(raw).len() == 0 {
        EntryPlanView::Skip
    } else if is_dir_name(raw) {
        EntryPlanView::MakeDir(path)
    } else {
        match entry {
            EntryView::Whole(c) => EntryPlanView::WriteFile(path, c),
            EntryView::Broken(c) => EntryPlanView::WritePart(path, c),
            EntryView::Unopened => EntryPlanView::Fail,
        }
    }
}

/// Tells what to do about an entry of that name.
pub fn plan_entry(dest: &str, raw: &str, entry: Entry) -> (r: EntryPlan)
    ensures
        r@ == entry_plan(dest@, raw@, entry@),
{
    let unopened: bool = match &entry {
        Entry::Unopened => true,
        _ => false,
    };
    if unopened {
        return EntryPlan::Fail;
    }
    let name = make_safe_name(raw);
    if text::chars_of(name.as_str()).len() == 0 {
        return EntryPlan::Skip;
    }
    let path = paths::join(dest, name.as_str());
    if check_dir_name(raw) {
        return EntryPlan::MakeDir(path);
    }
    match entry {
        Entry::Whole(c) => EntryPlan::WriteFile(path, c),
        Entry::Broken(c) => EntryPlan::WritePart(path, c),
        Entry::Unopened => EntryPlan::Fail,
    }
}

/// What to do about the entries of an archive, up to the first that fails.
pub open spec fn plans(dest: Seq<char>, data: Seq<u8>, names: Seq<Seq<char>>) -> Seq<EntryPlanView>
    decreases names.len(),
{
    if names.len() == 0 {
        Seq::empty()
    } else {
        let first = entry_plan(dest, names[0], archive::zip_entry(data, names[0]));
        if first.fails() {
            seq![first]
        } else {
            seq![first] + plans(dest, data, names.skip(1))
        }
    }
}

/// The plans behind a list.
pub open spec fn plan_views(v: Seq<EntryPlan>) -> Seq<EntryPlanView> {
    v.map_values(|p: EntryPlan| p@)
}

/// Tells how an archive is extracted into a directory; bytes that are no archive have no plan.
///
/// Where the last of the plans is a failure, so is the extraction.
pub fn extract_one(data: &[u8], dest: &str) -> (r: Option<Vec<EntryPlan>>)
    ensures
        match r {
            Some(v) => archive::zip_names(data@) matches Some(names) && plan_views(v@) == plans(
                dest@,
                data@,
                names,
            ),
            None => archive::zip_names(data@) is None,
        },
{
    let names = match archive::entry_names(data) {
        Some(names) => names,
        None => {
            return None;
        },
    };
    let ghost ns = text::texts(names@);
    let mut out: Vec<EntryPlan> = Vec::new();
    let mut i: usize = 0;
    assert(ns.skip(0) == ns);
    assert(plan_views(out@) + plans(dest@, data@, ns) == plans(dest@, data@, ns));
    while i < names.len()
        invariant
            i <= names@.len(),
            ns == text::texts(names@),
            archive::zip_names(data@) == Some(ns),
            plan_views(out@) + plans(dest@, data@, ns.skip(i as int)) == plans(
                dest@,
                data@,
                ns,
            ),
        decreases names@.len() - i,
    {
        let name: &str = names[i].as_str();
        let ghost before = out@;
        let ghost rest = ns.skip(i as int);
        proof {
            assert(rest[0] == name@);
            assert(rest.skip(1) == ns.skip(i + 1));
        }
        let plan = plan_entry(dest, name, archive::read_entry(data, name));
        let failed: bool = plan.check_fails();
        out.push(plan);
        assert(plan_views(out@) =~= plan_views(before).push(plan@));
        if failed {
            assert(plan_views(out@) =~= plan_views(before) + plans(dest@, data@, rest));
            return Some(out);
        }
        assert(plan_views(out@) + plans(dest@, data@, ns.skip(i + 1)) =~= plan_views(before)
            + plans(dest@, data@, rest));
        i = i + 1;
    }
    assert(plan_views(out@) + plans(dest@, data@, ns.skip(i as int)) =~= plan_views(out@));
    Some(out)
}

/// How many files plans write.
pub open spec fn file_count(v: Seq<EntryPlanView>) -> nat
    decreases v.len(),
{
    if v.len() == 0 {
        0
    } else if v.last() is WriteFile {
        file_count(v.drop_last()) + 1
    } else {
        file_count(v.drop_last())
    }
}

/// Counts the files that plans write; an extraction that fails counts none.
pub fn count_files(plans: &[EntryPlan]) -> (r: Option<usize>)
    ensures
        match r {
            Some(n) => n == file_count(plan_views(plans@)) && forall|k: int|
                0 <= k < plans@.len() ==> !(#[trigger] plans@[k])@.fails(),
            None => exists|k: int| 0 <= k < plans@.len() && (#[trigger] plans@[k])@.fails(),
        },
{
    let ghost ps = plan_views(plans@);
    let mut n: usize = 0;
    let mut i: usize = 0;
    assert(ps.take(0) == Seq::<EntryPlanView>::empty());
    while i < plans.len()
        invariant
            i <= plans@.len(),
            n <= i,
            ps == plan_views(plans@),
            n == file_count(ps.take(i as int)),
            forall|k: int| 0 <= k < i ==> !(#[trigger] plans@[k])@.fails(),
        decreases plans@.len() - i,
    {
        proof {
            assert(ps.take(i + 1).drop_last() == ps.take(i as int));
            assert(ps.take(i + 1).last() == plans@[i as int]@);
        }
        if plans[i].check_fails() {
            assert(plans@[i as int]@.fails());
            return None;
        }
        match &plans[i] {
            EntryPlan::WriteFile(_, _) => {
                n = n + 1;
            },
            _ => {},
        }
        i = i + 1;
    }
    assert(ps.take(i as int) == ps);
    Some(n)
}

/// What became of an archive: one whose directory was there is skipped, one that was extracted
/// is counted, and of one that failed nothing is recorded.
pub fn record(
    zip_path: &str,
    dest_dir: &str,
    dest_existed: bool,
    files: Option<usize>,
) -> (r: Option<ExtractResult>)
    ensures
        match r {
            Some(e) => e@ == (ExtractResultView {
                zip_path: zip_path@,
                dest_dir: dest_dir@,
                files_extracted: if dest_existed {
                    0
                } else {
                    files->0
                },
                skipped: dest_existed,
            }) && (dest_existed || files is Some),
            None => !dest_existed && files is None,
        },
{
    if dest_existed {
        return Some(
            ExtractResult {
                zip_path: zip_path.to_owned(),
                dest_dir: dest_dir.to_owned(),
                files_extracted: 0,
                skipped: true,
            },
        );
    }
    match files {
        Some(n) => Some(
            ExtractResult {
                zip_path: zip_path.to_owned(),
                dest_dir: dest_dir.to_owned(),
                files_extracted: n,
                skipped: false,
            },
        ),
        None => None,
    }
}

/// How many of the archives were extracted just now.
pub open spec fn fresh_count(v: Seq<ExtractResult>) -> nat
    decreases v.len(),
{
    if v.len() == 0 {
        0
    } else if v.last().skipped {
        fresh_count(v.drop_last())
    } else {
        fresh_count(v.drop_last()) + 1
    }
}

/// Counts the archives that were extracted just now.
pub fn count_fresh(results: &[ExtractResult]) -> (r: usize)
    ensures
        r == fresh_count(results@),
{
    let mut n: usize = 0;
    let mut i: usize = 0;
    assert(results@.take(0) == Seq::<ExtractResult>::empty());
    while i < results.len()
        invariant
            i <= results@.len(),
            n <= i,
            n == fresh_count(results@.take(i as int)),
        decreases results@.len() - i,
    {
        assert(results@.take(i + 1).drop_last() == results@.take(i as int));
        if !results[i].skipped {
            n = n + 1;
        }
        i = i + 1;
    }
    assert(results@.take(i as int) == results@);
    n
}

// ---------------------------------------------------------------------------------------
// What holds of the paths
// ---------------------------------------------------------------------------------------

/// What is left of pieces is safe, and has no slash.
proof fn lemma_safe_pieces(pieces: Seq<Seq<char>>)
    requires
        forall|k: int|
            0 <= k < pieces.len() ==> text::all_chars(
                #[trigger] pieces[k],
                |c: char| !CharSet::AnySlash.has(c),
            ),
    ensures
        forall|k: int|
            0 <= k < safe_only(pieces).len() ==> is_safe(#[trigger] safe_only(pieces)[k])
                && text::all_chars(safe_only(pieces)[k], |c: char| !CharSet::Slash.has(c)),
    decreases pieces.len(),
{
    let f = |c: char| !CharSet::AnySlash.has(c);
    let g = |c: char| !CharSet::Slash.has(c);
    if pieces.len() > 0 {
        let rest = pieces.drop_last();
        assert forall|k: int| 0 <= k < rest.len() implies text::all_chars(
            #[trigger] rest[k],
            f,
        ) by {
            assert(rest[k] == pieces[k]);
        }
        lemma_safe_pieces(rest);
        let last = pieces[pieces.len() - 1];
        assert(text::all_chars(last, f));
        assert(text::all_chars(last, g)) by {
            assert forall|j: int| 0 <= j < last.len() implies g(#[trigger] last[j]) by {
                assert(f(last[j]));
            }
        }
        let all = safe_only(pieces);
        let prev = safe_only(rest);
        assert forall|k: int| 0 <= k < all.len() implies is_safe(#[trigger] all[k])
            && text::all_chars(all[k], g) by {
            if k < prev.len() {
                assert(all[k] == prev[k]);
            }
        }
    }
}

/// Nothing is extracted outside of the directory of its archive: the path of an entry is under
/// that directory, and none of the parts that follow leads out of it.
pub proof fn entries_stay_in_their_directory(dest: Seq<char>, raw: Seq<char>)
    requires
        safe_name(raw).len() > 0,
    ensures
        paths::is_under(paths::joined(dest, safe_name(raw)), dest),
        forall|k: int|
            paths::parts(dest).len() <= k < paths::parts(
                paths::joined(dest, safe_name(raw)),
            ).len() ==> #[trigger] paths::part_texts(paths::joined(dest, safe_name(raw)))[k]
                != ".."@,
{
    let rel = safe_name(raw);
    let pieces = text::split(raw, CharSet::AnySlash);
    let kept = safe_only(pieces);
    text::lemma_split_clean(raw, CharSet::AnySlash);
    lemma_safe_pieces(pieces);
    assert(kept.len() > 0);
    text::lemma_split_join(kept, '/', CharSet::Slash);
    assert(!paths::is_rooted(rel)) by {
        if paths::is_rooted(rel) {
            text::lemma_first_at(rel, CharSet::Slash, 0);
            assert(text::split(rel, CharSet::Slash)[0] == rel.take(0));
            assert(is_safe(kept[0]));
        }
    }
    paths::joined_path_is_under(dest, rel);
    let s = paths::joined(dest, rel);
    assert forall|k: int|
        paths::parts(dest).len() <= k < paths::parts(s).len() implies #[trigger] paths::part_texts(
        s,
    )[k] != ".."@ by {
        paths::joined_parts_are_pieces(dest, rel, k);
        let t = paths::part_texts(s)[k];
        let j = choose|j: int| 0 <= j < kept.len() && kept[j] == t;
        assert(is_safe(kept[j]));
    }
}

/// An archive is extracted into a directory beside it that has its name but for the extension.
pub proof fn archives_are_extracted_beside_themselves(zip_path: Seq<char>, root: Seq<char>)
    requires
        paths::parent(zip_path) is Some,
        paths::stem(zip_path) is Some,
        paths::is_file_name(paths::stem(zip_path)->0),
    ensures
        paths::parent(dest_dir(zip_path, root)) == paths::parent(zip_path),
        paths::file_name(dest_dir(zip_path, root)) == paths::stem(zip_path),
{
    paths::parent_is_tight(zip_path);
    paths::child_of_directory(paths::parent(zip_path)->0, paths::stem(zip_path)->0);
}

// ---------------------------------------------------------------------------------------
// What is extracted, and where
// ---------------------------------------------------------------------------------------

/// Every archive among the files is extracted, in the order of the files, to the directory of
/// its stem beside it.
pub proof fn every_archive_is_extracted(files: Seq<Seq<char>>, root: Seq<char>)
    ensures
        jobs(files, root, files.len()) == lists::positions(
            files.len() as int,
            |i: int|
                paths::extension(files[i]) is Some && text::same_ignoring_ascii_case(
                    paths::extension(files[i])->0,
                    "zip"@,
                ),
        ).map_values(|i: int| JobView { file: i, dest_dir: dest_dir(files[i], root) }),
{
    lemma_jobs(files, root, files.len());
}

proof fn lemma_jobs(files: Seq<Seq<char>>, root: Seq<char>, n: nat)
    requires
        n <= files.len(),
    ensures
        jobs(files, root, n) == lists::positions(
            n as int,
            |i: int|
                paths::extension(files[i]) is Some && text::same_ignoring_ascii_case(
                    paths::extension(files[i])->0,
                    "zip"@,
                ),
        ).map_values(|i: int| JobView { file: i, dest_dir: dest_dir(files[i], root) }),
    decreases n,
{
    let p = |i: int|
        paths::extension(files[i]) is Some && text::same_ignoring_ascii_case(
            paths::extension(files[i])->0,
            "zip"@,
        );
    let f = |i: int| JobView { file: i, dest_dir: dest_dir(files[i], root) };
    if n > 0 {
        lemma_jobs(files, root, (n - 1) as nat);
        let rest = lists::positions(n - 1, p);
        assert(rest.push(n - 1).map_values(f) =~= rest.map_values(f).push(f(n - 1)));
    } else {
        assert(lists::positions(0, p).map_values(f) =~= Seq::<JobView>::empty());
    }
}

/// The directory of an archive has the archive's name without its extension, and lies where the
/// archive lies.
pub proof fn archives_name_their_directory(
    d: Seq<char>,
    base: Seq<char>,
    ext: Seq<char>,
    root: Seq<char>,
)
    requires
        paths::is_tight(d),
        paths::is_file_name(base),
        !ext.contains('/'),
        !ext.contains('.'),
    ensures
        dest_dir(paths::joined(d, base.push('.') + ext), root) == paths::joined(d, base),
        is_zip(paths::joined(d, base.push('.') + ext)) <==> text::same_ignoring_ascii_case(
            ext,
            "zip"@,
        ),
{
    let name = base.push('.') + ext;
    paths::stem_and_extension_part_at_the_last_dot(d, base, ext);
    assert(paths::is_file_name(name)) by {
        let n = base.len() as int;
        assert(name[n] == '.');
        if name.contains('/') {
            let i = choose|i: int| 0 <= i < name.len() && name[i] == '/';
            if i < n {
                assert(base[i] == '/');
            } else if i > n {
                assert(ext[i - n - 1] == '/');
            }
        }
        assert(name.len() >= 2);
        if name == seq!['.', '.'] {
            assert(name.len() == 2);
            assert(base[0] == name[0]);
            assert(base =~= seq!['.']);
        }
    }
    paths::child_of_directory(d, name);
}

proof fn lemma_safe_is_filter(pieces: Seq<Seq<char>>)
    ensures
        safe_only(pieces) == pieces.filter(|p: Seq<char>| p.len() > 0 && p != ".."@),
    decreases pieces.len(),
{
    reveal(Seq::filter);
    if pieces.len() > 0 {
        lemma_safe_is_filter(pieces.drop_last());
    } else {
        assert(pieces.filter(|p: Seq<char>| p.len() > 0 && p != ".."@) =~= safe_only(pieces));
    }
}

/// The name of an entry keeps all its parts but the empty ones and those that lead up, in their
/// order, whichever slash stands between them.
pub proof fn safe_names_keep_their_parts(raw: Seq<char>)
    ensures
        safe_name(raw) == text::join(
            text::split(raw, CharSet::AnySlash).filter(|p: Seq<char>| p.len() > 0 && p != ".."@),
            '/',
        ),
{
    lemma_safe_is_filter(text::split(raw, CharSet::AnySlash));
}

proof fn lemma_all_safe(pieces: Seq<Seq<char>>)
    requires
        forall|k: int|
            0 <= k < pieces.len() ==> (#[trigger] pieces[k]).len() > 0 && pieces[k] != ".."@,
    ensures
        safe_only(pieces) == pieces,
    decreases pieces.len(),
{
    if pieces.len() > 0 {
        let rest = pieces.drop_last();
        assert forall|k: int| 0 <= k < rest.len() implies (#[trigger] rest[k]).len() > 0 && rest[k]
            != ".."@ by {
            assert(rest[k] == pieces[k]);
        }
        lemma_all_safe(rest);
        let n = pieces.len() - 1;
        assert(pieces[n].len() > 0 && pieces[n] != ".."@);
        assert(rest.push(pieces[n]) =~= pieces);
    } else {
        assert(safe_only(pieces) =~= pieces);
    }
}

/// A name without backslashes and with nothing but safe parts stays as it is.
pub proof fn safe_names_stay(raw: Seq<char>)
    requires
        !raw.contains('\\'),
        forall|k: int|
            0 <= k < text::split(raw, CharSet::Slash).len() ==> (#[trigger] text::split(
                raw,
                CharSet::Slash,
            )[k]).len() > 0 && text::split(raw, CharSet::Slash)[k] != ".."@,
    ensures
        safe_name(raw) == raw,
{
    lemma_same_split(raw);
    lemma_all_safe(text::split(raw, CharSet::Slash));
    text::pieces_join_again(raw, '/', CharSet::Slash);
}

proof fn lemma_same_first(s: Seq<char>)
    requires
        !s.contains('\\'),
    ensures
        text::first_of(s, CharSet::AnySlash) == text::first_of(s, CharSet::Slash),
{
    text::lemma_first_of(s, CharSet::Slash);
    let i = text::first_of(s, CharSet::Slash);
    assert forall|j: int| 0 <= j < i implies !CharSet::AnySlash.has(#[trigger] s[j]) by {
        assert(s.contains(s[j]));
    }
    text::lemma_first_at(s, CharSet::AnySlash, i);
}

proof fn lemma_same_split(s: Seq<char>)
    requires
        !s.contains('\\'),
    ensures
        text::split(s, CharSet::AnySlash) == text::split(s, CharSet::Slash),
    decreases s.len(),
{
    lemma_same_first(s);
    text::lemma_first_of(s, CharSet::Slash);
    let i = text::first_of(s, CharSet::Slash);
    if i < s.len() {
        let rest = s.skip(i + 1);
        assert(!rest.contains('\\')) by {
            if rest.contains('\\') {
                let j = choose|j: int| 0 <= j < rest.len() && rest[j] == '\\';
                assert(s[i + 1 + j] == '\\');
            }
        }
        lemma_same_split(rest);
    }
}

/// Each entry is extracted by its own name and content, in the order of the archive, up to the
/// first one that fails.
pub proof fn entries_are_extracted_in_order(
    dest: Seq<char>,
    data: Seq<u8>,
    names: Seq<Seq<char>>,
    k: int,
)
    requires
        0 <= k < names.len(),
        forall|j: int|
            0 <= j < k ==> !entry_plan(
                dest,
                #[trigger] names[j],
                archive::zip_entry(data, names[j]),
            ).fails(),
    ensures
        k < plans(dest, data, names).len() <= names.len(),
        plans(dest, data, names)[k] == entry_plan(
            dest,
            names[k],
            archive::zip_entry(data, names[k]),
        ),
        plans(dest, data, names)[k].fails() ==> plans(dest, data, names).len() == k + 1,
    decreases names.len(),
{
    let rest = names.skip(1);
    let first = entry_plan(dest, names[0], archive::zip_entry(data, names[0]));
    if k > 0 {
        assert(!first.fails());
        assert forall|j: int| 0 <= j < k - 1 implies !entry_plan(
            dest,
            #[trigger] rest[j],
            archive::zip_entry(data, rest[j]),
        ).fails() by {
            assert(rest[j] == names[j + 1]);
        }
        entries_are_extracted_in_order(dest, data, rest, k - 1);
    } else {
        lemma_plan_count(dest, data, names);
    }
}

proof fn lemma_plan_count(dest: Seq<char>, data: Seq<u8>, names: Seq<Seq<char>>)
    ensures
        plans(dest, data, names).len() <= names.len(),
    decreases names.len(),
{
    if names.len() > 0 {
        lemma_plan_count(dest, data, names.skip(1));
    }
}

/// An entry is a directory where its name ends in a slash, and otherwise a file with exactly its
/// content, below the destination; one that cannot be opened fails, and one without a safe part
/// is passed over.
pub proof fn entries_keep_their_content(dest: Seq<char>, raw: Seq<char>, entry: EntryView)
    ensures
        ({
            let name = safe_name(raw);
            let path = paths::joined(dest, name);
            let plan = entry_plan(dest, raw, entry);
            let dir = raw.len() > 0 && (raw.last() == '/' || raw.last() == '\\');
            &&& plan is Fail <==> entry is Unopened
            &&& plan is Skip <==> !(entry is Unopened) && name.len() == 0
            &&& !(entry is Unopened) && name.len() > 0 && dir ==> plan == EntryPlanView::MakeDir(
                path,
            )
            &&& name.len() > 0 && !dir ==> (entry matches EntryView::Whole(c) ==> plan
                == EntryPlanView::WriteFile(path, c))
            &&& name.len() > 0 && !dir ==> (entry matches EntryView::Broken(c) ==> plan
                == EntryPlanView::WritePart(path, c))
            &&& plan.fails() <==> plan is Fail || plan is WritePart
        }),
{
}

/// The files that are counted are those that are written whole.
pub proof fn whole_files_are_counted(v: Seq<EntryPlanView>)
    ensures
        file_count(v) == lists::positions(v.len() as int, |i: int| v[i] is WriteFile).len(),
{
    lemma_file_count(v, v.len() as int);
    assert(v.take(v.len() as int) =~= v);
}

proof fn lemma_file_count(v: Seq<EntryPlanView>, n: int)
    requires
        0 <= n <= v.len(),
    ensures
        file_count(v.take(n)) == lists::positions(n, |i: int| v[i] is WriteFile).len(),
    decreases n,
{
    if n > 0 {
        lemma_file_count(v, n - 1);
        assert(v.take(n).drop_last() =~= v.take(n - 1));
    }
}

/// The archives that are counted are those that were not skipped.
pub proof fn fresh_archives_are_counted(v: Seq<ExtractResult>)
    ensures
        fresh_count(v) == lists::positions(v.len() as int, |i: int| !v[i].skipped).len(),
{
    lemma_fresh_count(v, v.len() as int);
    assert(v.take(v.len() as int) =~= v);
}

proof fn lemma_fresh_count(v: Seq<ExtractResult>, n: int)
    requires
        0 <= n <= v.len(),
    ensures
        fresh_count(v.take(n)) == lists::positions(n, |i: int| !v[i].skipped).len(),
    decreases n,
{
    if n > 0 {
        lemma_fresh_count(v, n - 1);
        assert(v.take(n).drop_last() =~= v.take(n - 1));
    }
}

/// An archive without a directory is extracted below the root, and one without a stem into the
/// directory itself.
pub proof fn bare_archives_are_extracted_below_the_root(zip_path: Seq<char>, root: Seq<char>)
    ensures
        paths::parent(zip_path) is None && paths::stem(zip_path) is Some ==> dest_dir(
            zip_path,
            root,
        ) == paths::joined(root, paths::stem(zip_path)->0),
        paths::parent(zip_path) is Some && paths::stem(zip_path) is None ==> dest_dir(
            zip_path,
            root,
        ) == paths::joined(paths::parent(zip_path)->0, Seq::empty()),
        paths::parent(zip_path) is None && paths::stem(zip_path) is None ==> dest_dir(
            zip_path,
            root,
        ) == paths::joined(root, Seq::empty()),
{
}

} // verus!
