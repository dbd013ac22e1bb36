//! File names made of what 3MF files say of themselves.

use vstd::prelude::*;

use crate::db;
use crate::db::{ModelRow, ModelRowView, SearchParams, Statement, StatementView};
use crate::lists;
use crate::paths;
use crate::text;
use crate::text::CharSet;

verus! {

/// A file to rename.
pub struct RenameCandidate {
    pub id: i64,
    pub old_path: String,
    pub new_path: String,
    pub old_name: String,
    pub new_name: String,
}

pub struct RenameCandidateView {
    pub id: i64,
    pub old_path: Seq<char>,
    pub new_path: Seq<char>,
    pub old_name: Seq<char>,
    pub new_name: Seq<char>,
}

impl View for RenameCandidate {
    type V = RenameCandidateView;

    open spec fn view(&self) -> RenameCandidateView {
        RenameCandidateView {
            id: self.id,
            old_path: self.old_path@,
            new_path: self.new_path@,
            old_name: self.old_name@,
            new_name: self.new_name@,
        }
    }
}

/// The candidates behind a list.
pub open spec fn candidate_views(v: Seq<RenameCandidate>) -> Seq<RenameCandidateView> {
    v.map_values(|c: RenameCandidate| c@)
}

/// The models behind a list.
pub open spec fn row_views(v: Seq<ModelRow>) -> Seq<ModelRowView> {
    v.map_values(|m: ModelRow| m@)
}

// ---------------------------------------------------------------------------------------
// The name of a file
// ---------------------------------------------------------------------------------------

/// Whether a file name cannot hold a character: those that some file system gives a meaning,
/// and control characters.
pub open spec fn is_illegal(c: char) -> bool {
    ||| c == '/'
    ||| c == '\\'
    ||| c == ':'
    ||| c == '*'
    ||| c == '?'
    ||| c == '"'
    ||| c == '<'
    ||| c == '>'
    ||| c == '|'
    ||| (c as u32) < 0x20
    ||| 0x7f <= (c as u32) <= 0x9f
}

/// The text with an underscore for each character that a file name cannot hold.
pub open spec fn legal(s: Seq<char>) -> Seq<char> {
    s.map_values(
        |c: char|
            if is_illegal(c) {
                '_'
            } else {
                c
            },
    )
}

/// The text as a part of a file name: without characters that it cannot hold, and without dots,
/// spaces and underscores at its ends.
pub open spec fn sanitized(s: Seq<char>) -> Seq<char> {
    text::trim(legal(s), CharSet::NameEdge)
}

fn check_illegal(c: char) -> (r: bool)
    ensures
        r == is_illegal(c),
{
    let u: u32 = c as u32;
    c == '/' || c == '\\' || c == ':' || c == '*' || c == '?' || c == '"' || c == '<' || c == '>'
        || c == '|' || u < 0x20 || (0x7f <= u && u <= 0x9f)
}

fn sanitize_chars(s: &str) -> (r: Vec<char>)
    ensures
        r@ == sanitized(s@),
{
    let all = text::chars_of(s);
    let mut out: Vec<char> = Vec::new();
    let mut i: usize = 0;
    while i < all.len()
        invariant
            i <= all@.len(),
            out@ == legal(all@.take(i as int)),
        decreases all@.len() - i,
    {
        assert(all@.take(i + 1) == all@.take(i as int).push(all@[i as int]));
        let c: char = all[i];
        out.push(
            if check_illegal(c) {
                '_'
            } else {
                c
            },
        );
        assert(out@ =~= legal(all@.take(i + 1)));
        i = i + 1;
    }
    assert(all@.take(i as int) == all@);
    let mut r: Vec<char> = Vec::new();
    text::append_chars(&mut r, text::trim_chars(out.as_slice(), CharSet::NameEdge));
    assert(r@ =~= sanitized(s@));
    r
}

/// Makes a text a part of a file name.
pub fn sanitize(s: &str) -> (r: String)
    ensures
        r@ == sanitized(s@),
{
    text::string_of(sanitize_chars(s).as_slice())
}

/// The title and, behind two underscores, the designer, as far as they give names.
pub open spec fn full_stem(title: Seq<char>, designer: Option<Seq<char>>) -> Seq<char> {
    match designer {
        Some(d) => if sanitized(d).len() > 0 {
            sanitized(title) + "__"@ + sanitized(d)
        } else {
            sanitized(title)
        },
        None => sanitized(title),
    }
}

/// The first `n` characters of a text.
pub open spec fn at_most(s: Seq<char>, n: int) -> Seq<char> {
    if s.len() > n {
        s.take(n)
    } else {
        s
    }
}

/// The name of a 3MF file with that title and designer.
pub open spec fn named_after(title: Seq<char>, designer: Option<Seq<char>>) -> Seq<char> {
    at_most(full_stem(title, designer), 180) + ".3mf"@
}

/// Makes the name of a 3MF file of its title and designer.
pub fn make_filename(title: &str, designer: Option<&str>) -> (r: String)
    ensures
        r@ == named_after(title@, text::str_text_of(designer)),
{
    let mut stem = sanitize_chars(title);
    match designer {
        Some(d) => {
            let ds = sanitize_chars(d);
            if ds.len() > 0 {
                text::append_chars(&mut stem, text::chars_of("__").as_slice());
                text::append_chars(&mut stem, ds.as_slice());
            }
        },
        None => {},
    }
    assert(stem@ =~= full_stem(title@, text::str_text_of(designer)));
    let mut out: Vec<char> = Vec::new();
    if stem.len() > 180 {
        text::append_chars(&mut out, text::slice_to(stem.as_slice(), 180));
    } else {
        text::append_chars(&mut out, stem.as_slice());
    }
    text::append_chars(&mut out, text::chars_of(".3mf").as_slice());
    assert(out@ =~= named_after(title@, text::str_text_of(designer)));
    text::string_of(out.as_slice())
}

// ---------------------------------------------------------------------------------------
// The plan
// ---------------------------------------------------------------------------------------

/// The directory of a file, or the root folder where the path has no directory.
pub open spec fn directory(path: Seq<char>, root: Seq<char>) -> Seq<char> {
    match paths::parent(path) {
        Some(p) => p,
        None => root,
    }
}

/// How a model's file is renamed: in its directory, to the name that its title and designer
/// give. A model without a title, or outside of the root folder, or that has that name, is
/// not renamed.
pub open spec fn candidate(m: ModelRowView, root: Seq<char>) -> Option<RenameCandidateView> {
    match m.title {
        Some(title) => {
            let new_name = named_after(title, m.designer);
            if paths::is_under(m.path, root) && new_name != m.filename {
                Some(
                    RenameCandidateView {
                        id: m.id,
                        old_path: m.path,
                        new_path: paths::joined(directory(m.path, root), new_name),
                        old_name: m.filename,
                        new_name,
                    },
                )
            } else {
                None
            }
        },
        None => None,
    }
}

/// How the files of models are renamed.
pub open spec fn candidates(models: Seq<ModelRowView>, root: Seq<char>) -> Seq<
    RenameCandidateView,
>
    decreases models.len(),
{
    if models.len() == 0 {
        Seq::empty()
    } else {
        let rest = candidates(models.drop_last(), root);
        match candidate(models.last(), root) {
            Some(c) => rest.push(c),
            None => rest,
        }
    }
}

fn find_candidate(m: &ModelRow, root: &str) -> (r: Option<RenameCandidate>)
    ensures
        match r {
            Some(c) => candidate(m@, root@) == Some(c@),
            None => candidate(m@, root@) is None,
        },
{
    let title: &String = match &m.title {
        Some(t) => t,
        None => {
            return None;
        },
    };
    if !paths::starts_with(m.path.as_str(), root) {
        return None;
    }
    let designer: Option<&str> = match &m.designer {
        Some(d) => Some(d.as_str()),
        None => None,
    };
    let new_name = make_filename(title.as_str(), designer);
    if text::same(new_name.as_str(), m.filename.as_str()) {
        return None;
    }
    let dir: String = match paths::find_parent(m.path.as_str()) {
        Some(p) => p,
        None => root.to_owned(),
    };
    let new_path = paths::join(dir.as_str(), new_name.as_str());
    Some(
        RenameCandidate {
            id: m.id,
            old_path: m.path.clone(),
            new_path,
            old_name: m.filename.clone(),
            new_name,
        },
    )
}

/// Tells how the files of 3MF models under a root folder are renamed, before it is known which
/// of the new paths are taken.
pub fn plan(models: &[ModelRow], root: &str) -> (r: Vec<RenameCandidate>)
    ensures
        candidate_views(r@) == candidates(row_views(models@), root@),
{
    let ghost ms = row_views(models@);
    let mut out: Vec<RenameCandidate> = Vec::new();
    let mut i: usize = 0;
    assert(ms.take(0) == Seq::<ModelRowView>::empty());
    assert(candidate_views(out@) == Seq::<RenameCandidateView>::empty());
    while i < models.len()
        invariant
            i <= models@.len(),
            ms == row_views(models@),
            candidate_views(out@) == candidates(ms.take(i as int), root@),
        decreases models@.len() - i,
    {
        proof {
            assert(ms.take(i + 1).drop_last() == ms.take(i as int));
            assert(ms.take(i + 1).last() == models@[i as int]@);
        }
        let ghost before = out@;
        match find_candidate(&models[i], root) {
            Some(c) => {
                out.push(c);
                assert(candidate_views(out@) =~= candidate_views(before).push(c@));
            },
            None => {},
        }
        i = i + 1;
    }
    assert(ms.take(i as int) == ms);
    out
}

/// Whether one of the candidates gets that path.
pub open spec fn gets(v: Seq<RenameCandidateView>, path: Seq<char>) -> bool {
    exists|k: int| 0 <= k < v.len() && (#[trigger] v[k]).new_path == path
}

/// The candidates whose new path is free: nothing lies there, and no candidate before gets it.
pub open spec fn free(v: Seq<RenameCandidateView>, taken: Seq<bool>) -> Seq<RenameCandidateView>
    decreases v.len(),
{
    if v.len() == 0 {
        Seq::empty()
    } else {
        let rest = free(v.drop_last(), taken);
        if taken[v.len() - 1] || gets(rest, v.last().new_path) {
            rest
        } else {
            rest.push(v.last())
        }
    }
}

fn check_gets(v: &[RenameCandidate], path: &str) -> (r: bool)
    ensures
        r == gets(candidate_views(v@), path@),
{
    let ghost vs = candidate_views(v@);
    let mut i: usize = 0;
    while i < v.len()
        invariant
            i <= v@.len(),
            vs == candidate_views(v@),
            forall|k: int| 0 <= k < i ==> (#[trigger] vs[k]).new_path != path@,
        decreases v@.len() - i,
    {
        assert(vs[i as int] == v@[i as int]@);
        if text::same(v[i].new_path.as_str(), path) {
            return true;
        }
        i = i + 1;
    }
    false
}

/// Leaves out the candidates whose new path is taken, by a file or by a candidate before: no
/// file is overwritten.
pub fn drop_taken(candidates: Vec<RenameCandidate>, taken: &[bool]) -> (r: Vec<RenameCandidate>)
    requires
        taken@.len() == candidates@.len(),
    ensures
        candidate_views(r@) == free(candidate_views(candidates@), taken@),
{
    let ghost cs = candidate_views(candidates@);
    let mut out: Vec<RenameCandidate> = Vec::new();
    let mut i: usize = 0;
    assert(cs.take(0) == Seq::<RenameCandidateView>::empty());
    assert(candidate_views(out@) == Seq::<RenameCandidateView>::empty());
    while i < candidates.len()
        invariant
            i <= candidates@.len(),
            taken@.len() == candidates@.len(),
            cs == candidate_views(candidates@),
            candidate_views(out@) == free(cs.take(i as int), taken@),
        decreases candidates@.len() - i,
    {
        let c: &RenameCandidate = &candidates[i];
        proof {
            assert(cs.take(i + 1).drop_last() == cs.take(i as int));
            assert(cs.take(i + 1).last() == c@);
        }
        let ghost before = out@;
        if !taken[i] && !check_gets(out.as_slice(), c.new_path.as_str()) {
            let copy = RenameCandidate {
                id: c.id,
                old_path: c.old_path.clone(),
                new_path: c.new_path.clone(),
                old_name: c.old_name.clone(),
                new_name: c.new_name.clone(),
            };
            assert(copy@ == c@);
            out.push(copy);
            assert(candidate_views(out@) =~= candidate_views(before).push(c@));
        }
        i = i + 1;
    }
    assert(cs.take(i as int) == cs);
    out
}

/// A file to move, and the statement to run when it was moved.
pub struct Renaming {
    pub from: String,
    pub to: String,
    pub statement: Statement,
}

pub struct RenamingView {
    pub from: Seq<char>,
    pub to: Seq<char>,
    pub statement: StatementView,
}

impl View for Renaming {
    type V = RenamingView;

    open spec fn view(&self) -> RenamingView {
        RenamingView { from: self.from@, to: self.to@, statement: self.statement@ }
    }
}

/// The renamings behind a list.
pub open spec fn renaming_views(v: Seq<Renaming>) -> Seq<RenamingView> {
    v.map_values(|x: Renaming| x@)
}

/// How a candidate is renamed.
pub open spec fn renaming(c: RenameCandidateView) -> RenamingView {
    RenamingView {
        from: c.old_path,
        to: c.new_path,
        statement: StatementView {
            sql: db::RENAME_MODEL@,
            params: seq![
                db::SqlView::Text(c.new_path),
                db::SqlView::Text(c.new_name),
                db::SqlView::Text(c.old_path),
            ],
        },
    }
}

/// How the candidates are renamed whose files are there; those that are missing are passed
/// over.
pub open spec fn renamings(v: Seq<RenameCandidateView>, present: Seq<bool>) -> Seq<RenamingView>
    decreases v.len(),
{
    if v.len() == 0 {
        Seq::empty()
    } else {
        let rest = renamings(v.drop_last(), present);
        if present[v.len() - 1] {
            rest.push(renaming(v.last()))
        } else {
            rest
        }
    }
}

/// How many of the first `n` files are there.
pub open spec fn present_count(present: Seq<bool>, n: nat) -> nat
    decreases n,
{
    if n == 0 {
        0
    } else if present[n - 1] {
        present_count(present, (n - 1) as nat) + 1
    } else {
        present_count(present, (n - 1) as nat)
    }
}

/// Tells how candidates are renamed, given which of their files are there, and how many files
/// are renamed by that.
pub fn apply(candidates: &[RenameCandidate], present: &[bool]) -> (r: (Vec<Renaming>, usize))
    requires
        present@.len() == candidates@.len(),
    ensures
        renaming_views(r.0@) == renamings(candidate_views(candidates@), present@),
        r.1 == present_count(present@, present@.len()),
        r.1 == r.0@.len(),
{
    let ghost cs = candidate_views(candidates@);
    let mut out: Vec<Renaming> = Vec::new();
    let mut i: usize = 0;
    assert(cs.take(0) == Seq::<RenameCandidateView>::empty());
    assert(renaming_views(out@) == Seq::<RenamingView>::empty());
    while i < candidates.len()
        invariant
            i <= candidates@.len(),
            present@.len() == candidates@.len(),
            cs == candidate_views(candidates@),
            renaming_views(out@) == renamings(cs.take(i as int), present@),
            out@.len() == present_count(present@, i as nat),
        decreases candidates@.len() - i,
    {
        let c: &RenameCandidate = &candidates[i];
        let ghost before = out@;
        proof {
            assert(cs.take(i + 1).drop_last() == cs.take(i as int));
            assert(cs.take(i + 1).last() == c@);
        }
        if present[i] {
            let x = Renaming {
                from: c.old_path.clone(),
                to: c.new_path.clone(),
                statement: db::rename_model(
                    c.old_path.as_str(),
                    c.new_path.as_str(),
                    c.new_name.as_str(),
                ),
            };
            assert(x@ == renaming(c@));
            out.push(x);
            assert(renaming_views(out@) =~= renaming_views(before).push(x@));
        }
        i = i + 1;
    }
    assert(cs.take(i as int) == cs);
    let count: usize = out.len();
    (out, count)
}

/// Which models to rename: all of them that are 3MF files.
pub fn renamable() -> (r: SearchParams<'static>)
    ensures
        r.query is None,
        r.designer is None,
        r.folder is None,
        r.format matches Some(f) && f@ == "3MF"@,
        r.project is None,
        r.limit == i64::MAX,
        r.offset == 0,
{
    SearchParams {
        query: None,
        designer: None,
        folder: None,
        format: Some("3MF"),
        project: None,
        limit: i64::MAX,
        offset: 0,
    }
}

// ---------------------------------------------------------------------------------------
// What holds of the names
// ---------------------------------------------------------------------------------------

/// A sanitized text has no character that a file name cannot hold, and neither starts nor ends
/// with a dot, a space or an underscore.
pub proof fn sanitized_text_is_legal(s: Seq<char>)
    ensures
        text::all_chars(sanitized(s), |c: char| !is_illegal(c)),
        sanitized(s).len() > 0 ==> !CharSet::NameEdge.has(sanitized(s)[0])
            && !CharSet::NameEdge.has(sanitized(s).last()),
{
    let f = |c: char| !is_illegal(c);
    assert(text::all_chars(legal(s), f));
    text::lemma_trim_chars(legal(s), CharSet::NameEdge, f);
    text::lemma_trim_edges(legal(s), CharSet::NameEdge);
}

/// The name of a file has no character that it cannot hold, ends with the extension of 3MF
/// files, and is never longer than 184 characters.
pub proof fn file_names_are_legal(title: Seq<char>, designer: Option<Seq<char>>)
    ensures
        text::all_chars(named_after(title, designer), |c: char| !is_illegal(c)),
        ".3mf"@.is_suffix_of(named_after(title, designer)),
        named_after(title, designer).len() <= 184,
        paths::is_file_name(named_after(title, designer)),
{
    let f = |c: char| !is_illegal(c);
    let name = named_after(title, designer);
    reveal_strlit("__");
    reveal_strlit(".3mf");
    sanitized_text_is_legal(title);
    match designer {
        Some(d) => {
            sanitized_text_is_legal(d);
        },
        None => {},
    }
    assert(text::all_chars(full_stem(title, designer), f));
    assert(text::all_chars(name, f));
    assert(name.skip(name.len() - 4) =~= ".3mf"@);
    assert(name.subrange(name.len() - 4, name.len() as int) =~= ".3mf"@);
    assert(name[name.len() - 1] == 'f');
    assert(seq!['.'][0] == '.');
    assert(!name.contains('/')) by {
        if name.contains('/') {
            let i = choose|i: int| 0 <= i < name.len() && name[i] == '/';
            assert(f(name[i]));
        }
    }
}

/// A renamed file stays in its directory, under its new name.
pub proof fn renamed_file_stays_in_its_directory(m: ModelRowView, root: Seq<char>)
    requires
        candidate(m, root) is Some,
        paths::parent(m.path) is Some,
    ensures
        paths::parent((candidate(m, root)->0).new_path) == paths::parent(m.path),
        paths::file_name((candidate(m, root)->0).new_path) == Some(
            (candidate(m, root)->0).new_name,
        ),
{
    file_names_are_legal(m.title->0, m.designer);
    paths::parent_is_tight(m.path);
    paths::child_of_directory(paths::parent(m.path)->0, named_after(m.title->0, m.designer));
}

/// A candidate that is left is one of the candidates, and nothing lies at its new path.
pub proof fn taken_paths_are_left(v: Seq<RenameCandidateView>, taken: Seq<bool>, k: int)
    requires
        taken.len() == v.len(),
        0 <= k < free(v, taken).len(),
    ensures
        exists|i: int| 0 <= i < v.len() && #[trigger] v[i] == free(v, taken)[k] && !taken[i],
    decreases v.len(),
{
    if v.len() > 0 {
        let rest = v.drop_last();
        if k < free(rest, taken).len() {
            lemma_free_prefix(rest, taken, taken.drop_last());
            taken_paths_are_left(rest, taken.drop_last(), k);
            let i = choose|i: int|
                0 <= i < rest.len() && #[trigger] rest[i] == free(rest, taken)[k] && !taken[i];
            assert(v[i] == free(v, taken)[k]);
        } else {
            assert(v[v.len() - 1] == free(v, taken)[k]);
        }
    }
}

proof fn lemma_free_prefix(v: Seq<RenameCandidateView>, a: Seq<bool>, b: Seq<bool>)
    requires
        v.len() <= a.len(),
        v.len() <= b.len(),
        forall|i: int| 0 <= i < v.len() ==> a[i] == b[i],
    ensures
        free(v, a) == free(v, b),
    decreases v.len(),
{
    if v.len() > 0 {
        lemma_free_prefix(v.drop_last(), a, b);
    }
}

/// No two candidates that are left get the same path.
pub proof fn new_paths_differ(v: Seq<RenameCandidateView>, taken: Seq<bool>, i: int, j: int)
    requires
        taken.len() == v.len(),
        0 <= i < j < free(v, taken).len(),
    ensures
        free(v, taken)[i].new_path != free(v, taken)[j].new_path,
    decreases v.len(),
{
    if v.len() > 0 {
        let rest = v.drop_last();
        let kept = free(rest, taken);
        lemma_free_prefix(rest, taken, taken.drop_last());
        assert(free(v, taken)[i] == kept[i]);
        if j < kept.len() {
            new_paths_differ(rest, taken.drop_last(), i, j);
        }
    }
}

/// What lies where on the disk when the files of candidates were moved one after another.
pub open spec fn disk_after(
    disk: Map<Seq<char>, Seq<u8>>,
    v: Seq<RenameCandidateView>,
) -> Map<Seq<char>, Seq<u8>>
    decreases v.len(),
{
    if v.len() == 0 {
        disk
    } else {
        let before = disk_after(disk, v.drop_last());
        before.remove(v.last().old_path).insert(v.last().new_path, before[v.last().old_path])
    }
}

/// Renaming overwrites and loses no file: where the files of the candidates are there, nothing
/// lies at the new paths, and no path is that of two candidates, every renamed file lies at
/// its new path, and every other one where it lay.
pub proof fn renaming_overwrites_nothing(
    disk: Map<Seq<char>, Seq<u8>>,
    v: Seq<RenameCandidateView>,
)
    requires
        forall|k: int| 0 <= k < v.len() ==> disk.contains_key((#[trigger] v[k]).old_path),
        forall|k: int| 0 <= k < v.len() ==> !disk.contains_key((#[trigger] v[k]).new_path),
        forall|i: int, j: int|
            0 <= i < j < v.len() ==> (#[trigger] v[i]).old_path != (#[trigger] v[j]).old_path
                && v[i].new_path != v[j].new_path,
    ensures
        forall|k: int|
            0 <= k < v.len() ==> disk_after(disk, v).contains_key((#[trigger] v[k]).new_path)
                && disk_after(disk, v)[v[k].new_path] == disk[v[k].old_path]
                && !disk_after(disk, v).contains_key(v[k].old_path),
        forall|p: Seq<char>|
            disk.contains_key(p) && (forall|k: int|
                0 <= k < v.len() ==> (#[trigger] v[k]).old_path != p)
                ==> #[trigger] disk_after(disk, v).contains_key(p) && disk_after(disk, v)[p]
                == disk[p],
    decreases v.len(),
{
    if v.len() > 0 {
        let rest = v.drop_last();
        let last = v[v.len() - 1];
        let before = disk_after(disk, rest);
        let after = disk_after(disk, v);
        assert forall|k: int| 0 <= k < rest.len() implies disk.contains_key(
            (#[trigger] rest[k]).old_path,
        ) && !disk.contains_key(rest[k].new_path) by {
            assert(rest[k] == v[k]);
        }
        assert forall|i: int, j: int| 0 <= i < j < rest.len() implies (#[trigger] rest[i]).old_path
            != (#[trigger] rest[j]).old_path && rest[i].new_path != rest[j].new_path by {
            assert(rest[i] == v[i] && rest[j] == v[j]);
        }
        renaming_overwrites_nothing(disk, rest);
        assert(before.contains_key(last.old_path) && before[last.old_path] == disk[last.old_path])
            by {
            assert forall|k: int| 0 <= k < rest.len() implies (#[trigger] rest[k]).old_path
                != last.old_path by {
                assert(rest[k] == v[k]);
            }
        }
        assert forall|k: int| 0 <= k < v.len() implies after.contains_key(
            (#[trigger] v[k]).new_path,
        ) && after[v[k].new_path] == disk[v[k].old_path] && !after.contains_key(v[k].old_path) by {
            assert(disk.contains_key(v[k].old_path) && !disk.contains_key(last.new_path));
            if k < rest.len() {
                assert(rest[k] == v[k]);
                assert(!disk.contains_key(v[k].new_path) && disk.contains_key(last.old_path));
                assert(v[k].new_path != last.new_path);
            }
        }
        assert forall|p: Seq<char>|
            disk.contains_key(p) && (forall|k: int|
                0 <= k < v.len() ==> (#[trigger] v[k]).old_path != p) implies #[trigger] after.contains_key(
            p,
        ) && after[p] == disk[p] by {
            assert(!disk.contains_key(last.new_path));
            assert forall|k: int| 0 <= k < rest.len() implies (#[trigger] rest[k]).old_path != p by {
                assert(rest[k] == v[k]);
            }
            assert(before.contains_key(p));
        }
    }
}

/// Trimming a text that neither starts nor ends with what is trimmed changes nothing.
proof fn lemma_nothing_to_trim(s: Seq<char>, set: CharSet)
    requires
        s.len() > 0 ==> !set.has(s[0]) && !set.has(s.last()),
    ensures
        text::trim(s, set) == s,
{
}

/// Sanitizing a text again changes nothing.
pub proof fn sanitizing_is_done_once(s: Seq<char>)
    ensures
        sanitized(sanitized(s)) == sanitized(s),
{
    let t = sanitized(s);
    sanitized_text_is_legal(s);
    let f = |c: char| !is_illegal(c);
    assert(legal(t) =~= t) by {
        assert forall|i: int| 0 <= i < t.len() implies legal(t)[i] == t[i] by {
            assert(f(t[i]));
        }
    }
    lemma_nothing_to_trim(t, CharSet::NameEdge);
}

/// A file that was renamed is not renamed again.
pub proof fn renaming_is_done_once(m: ModelRowView, root: Seq<char>)
    requires
        candidate(m, root) is Some,
    ensures
        ({
            let c = candidate(m, root)->0;
            candidate(ModelRowView { path: c.new_path, filename: c.new_name, ..m }, root) is None
        }),
{
}

// ---------------------------------------------------------------------------------------
// What a name is made of
// ---------------------------------------------------------------------------------------

/// Sanitizing keeps the middle of a text, character by character: each of the nine characters
/// that file systems give a meaning, and each control character, becomes an underscore, and
/// every other one stays. Of the ends only dots, spaces, underscores, and what became one, go.
pub proof fn sanitizing_keeps_the_middle(s: Seq<char>) -> (r: (int, int))
    ensures
        ({
            let bad = |c: char|
                seq!['/', '\\', ':', '*', '?', '"', '<', '>', '|'].contains(c) || c <= '\u{1f}'
                    || '\u{7f}' <= c <= '\u{9f}';
            let edge = |c: char| c == '.' || c == ' ' || c == '_' || bad(c);
            &&& 0 <= r.0 <= r.1 <= s.len()
            &&& sanitized(s).len() == r.1 - r.0
            &&& forall|k: int|
                r.0 <= k < r.1 ==> sanitized(s)[k - r.0] == (if bad(#[trigger] s[k]) {
                    '_'
                } else {
                    s[k]
                })
            &&& forall|k: int| 0 <= k < r.0 || r.1 <= k < s.len() ==> edge(#[trigger] s[k])
            &&& r.0 < r.1 ==> !edge(s[r.0]) && !edge(s[r.1 - 1])
        }),
{
    let list = seq!['/', '\\', ':', '*', '?', '"', '<', '>', '|'];
    let bad = |c: char| list.contains(c) || c <= '\u{1f}' || '\u{7f}' <= c <= '\u{9f}';
    assert forall|c: char| #[trigger] bad(c) == is_illegal(c) by {
        assert(list[0] == '/' && list[1] == '\\' && list[2] == ':' && list[3] == '*' && list[4]
            == '?' && list[5] == '"' && list[6] == '<' && list[7] == '>' && list[8] == '|');
        lemma_control_codes(c);
        if list.contains(c) {
            let i = choose|i: int| 0 <= i < list.len() && list[i] == c;
            assert(is_illegal(list[i]));
        }
    }
    let l = legal(s);
    let (i, j) = text::trimming_takes_the_ends(l, CharSet::NameEdge);
    assert forall|k: int| i <= k < j implies sanitized(s)[k - i] == (if bad(#[trigger] s[k]) {
        '_'
    } else {
        s[k]
    }) by {
        assert(l[k] == sanitized(s)[k - i]);
    }
    assert forall|k: int| 0 <= k < i || j <= k < s.len() implies (s[k] == '.' || s[k] == ' '
        || s[k] == '_' || bad(#[trigger] s[k])) by {
        assert(CharSet::NameEdge.has(l[k]));
    }
    if i < j {
        assert(l[i] == sanitized(s)[0] && l[j - 1] == sanitized(s)[j - 1 - i]);
    }
    (i, j)
}

proof fn lemma_control_codes(c: char)
    ensures
        (c <= '\u{1f}') == ((c as u32) < 0x20),
        ('\u{7f}' <= c <= '\u{9f}') == (0x7f <= (c as u32) <= 0x9f),
{
}

/// A text that a file name can hold, and that has none of what is trimmed at its ends, stays as
/// it is.
pub proof fn good_names_stay(s: Seq<char>)
    requires
        forall|i: int|
            0 <= i < s.len() ==> ' ' <= #[trigger] s[i] <= '~' && s[i] != '/' && s[i] != '\\'
                && s[i] != ':' && s[i] != '*' && s[i] != '?' && s[i] != '"' && s[i] != '<' && s[i]
                != '>' && s[i] != '|',
        s.len() > 0 ==> s[0] != '.' && s[0] != ' ' && s[0] != '_' && s.last() != '.' && s.last()
            != ' ' && s.last() != '_',
    ensures
        sanitized(s) == s,
{
    assert(legal(s) =~= s);
    lemma_nothing_to_trim(s, CharSet::NameEdge);
}

/// A file is named after its title and its designer: whatever their lengths, where both and the
/// two underscores between them take at most 180 characters together, the name is exactly
/// these and the extension.
pub proof fn names_hold_title_and_designer(title: Seq<char>, designer: Seq<char>)
    requires
        sanitized(designer).len() > 0,
        sanitized(title).len() + 2 + sanitized(designer).len() <= 180,
    ensures
        named_after(title, Some(designer)) == sanitized(title) + "__"@ + sanitized(designer)
            + ".3mf"@,
{
    reveal_strlit("__");
}

/// Where there is no designer, or nothing of it is left, the name is the title and the
/// extension.
pub proof fn names_without_designer_hold_the_title(title: Seq<char>, designer: Option<Seq<char>>)
    requires
        designer is None || sanitized(designer->0).len() == 0,
        sanitized(title).len() <= 180,
    ensures
        named_after(title, designer) == sanitized(title) + ".3mf"@,
{
}

/// A name that would be longer than 180 characters, without its extension, is cut there: the
/// title comes first, and the designer as far as there is room for it.
pub proof fn long_names_are_cut(title: Seq<char>, designer: Option<Seq<char>>)
    ensures
        ({
            let t = sanitized(title);
            let name = named_after(title, designer);
            &&& t.len() >= 180 ==> name == t.take(180) + ".3mf"@
            &&& designer is Some && sanitized(designer->0).len() > 0 && t.len() + 2 + sanitized(
                designer->0,
            ).len() > 180 ==> name.len() == 184 && name.take(180) == (t + "__"@ + sanitized(
                designer->0,
            )).take(180)
        }),
{
    reveal_strlit("__");
    reveal_strlit(".3mf");
    let t = sanitized(title);
    let stem = full_stem(title, designer);
    if t.len() >= 180 {
        assert(stem.take(180) =~= t.take(180));
        assert(at_most(stem, 180) =~= t.take(180));
    }
    if stem.len() > 180 {
        assert(named_after(title, designer).take(180) =~= stem.take(180));
    }
}

/// Files of the same title by different designers get different names, where there is room for
/// both.
pub proof fn designers_tell_files_apart(title: Seq<char>, a: Seq<char>, b: Seq<char>)
    requires
        sanitized(a) != sanitized(b),
        sanitized(title).len() + 2 + sanitized(a).len() <= 180,
        sanitized(title).len() + 2 + sanitized(b).len() <= 180,
    ensures
        named_after(title, Some(a)) != named_after(title, Some(b)),
{
    reveal_strlit("__");
    reveal_strlit(".3mf");
    let t = sanitized(title);
    let (x, y) = (sanitized(a), sanitized(b));
    let (p, q) = (named_after(title, Some(a)), named_after(title, Some(b)));
    if p == q {
        if x.len() > 0 && y.len() > 0 {
            names_hold_title_and_designer(title, a);
            names_hold_title_and_designer(title, b);
            assert(p.subrange(t.len() as int + 2, (t.len() + 2 + x.len()) as int) =~= x);
            assert(q.subrange(t.len() as int + 2, (t.len() + 2 + y.len()) as int) =~= y);
            assert(p.len() == t.len() + 2 + x.len() + 4);
            assert(q.len() == t.len() + 2 + y.len() + 4);
        }
        if x.len() == 0 {
            names_without_designer_hold_the_title(title, Some(a));
            assert(p.len() == t.len() + 4);
            if y.len() == 0 {
                assert(x =~= y);
            } else {
                names_hold_title_and_designer(title, b);
                assert(q.len() == t.len() + 2 + y.len() + 4);
            }
        } else if y.len() == 0 {
            names_without_designer_hold_the_title(title, Some(b));
            assert(q.len() == t.len() + 4);
            names_hold_title_and_designer(title, a);
            assert(p.len() == t.len() + 2 + x.len() + 4);
        }
    }
}

// ---------------------------------------------------------------------------------------
// Which files are renamed
// ---------------------------------------------------------------------------------------

/// The plan for two lists of models is that for the one and then that for the other: no model
/// changes what another one is renamed to.
pub proof fn plans_add_up(a: Seq<ModelRowView>, b: Seq<ModelRowView>, root: Seq<char>)
    ensures
        candidates(a + b, root) == candidates(a, root) + candidates(b, root),
    decreases b.len(),
{
    if b.len() == 0 {
        assert(a + b =~= a);
        assert(candidates(a, root) + candidates(b, root) =~= candidates(a, root));
    } else {
        assert((a + b).drop_last() =~= a + b.drop_last());
        plans_add_up(a, b.drop_last(), root);
        assert(candidates(a + b, root) =~= candidates(a, root) + candidates(b, root));
    }
}

/// Every model under the root folder that has a title, and another name than its title and
/// designer give, is renamed to that name, in its directory; no other model is renamed.
pub proof fn titled_models_are_renamed(m: ModelRowView, root: Seq<char>)
    ensures
        ({
            let v = candidates(seq![m], root);
            if m.title is Some && paths::is_under(m.path, root) && m.filename != named_after(
                m.title->0,
                m.designer,
            ) {
                &&& v.len() == 1
                &&& v[0].id == m.id
                &&& v[0].old_path == m.path
                &&& v[0].old_name == m.filename
                &&& v[0].new_name == named_after(m.title->0, m.designer)
                &&& paths::parent(m.path) is Some ==> v[0].new_path == paths::joined(
                    paths::parent(m.path)->0,
                    v[0].new_name,
                )
                &&& paths::parent(m.path) is None ==> v[0].new_path == paths::joined(
                    root,
                    v[0].new_name,
                )
            } else {
                v.len() == 0
            }
        }),
{
    reveal_with_fuel(candidates, 2);
    assert(seq![m].drop_last() =~= Seq::<ModelRowView>::empty());
}

proof fn lemma_free_keeps(v: Seq<RenameCandidateView>, taken: Seq<bool>, n: int)
    requires
        taken.len() == v.len(),
        0 <= n <= v.len(),
    ensures
        exists|m: int|
            0 <= m <= free(v, taken).len() && #[trigger] free(v, taken).take(m) == free(
                v.take(n),
                taken.take(n),
            ),
    decreases v.len() - n,
{
    lemma_free_prefix(v.take(n), taken, taken.take(n));
    if n == v.len() {
        assert(v.take(n) =~= v);
        assert(taken.take(n) =~= taken);
        let f = free(v, taken);
        assert(f.take(f.len() as int) =~= f);
    } else {
        lemma_free_keeps(v, taken, n + 1);
        lemma_free_prefix(v.take(n + 1), taken, taken.take(n + 1));
        let f = free(v, taken);
        let m = choose|m: int|
            0 <= m <= f.len() && #[trigger] f.take(m) == free(v.take(n + 1), taken.take(n + 1));
        assert(v.take(n + 1).drop_last() =~= v.take(n));
        let before = free(v.take(n), taken);
        let after = free(v.take(n + 1), taken);
        if after == before {
            assert(f.take(m) == before);
        } else {
            assert(after.drop_last() =~= before);
            assert(f.take(m - 1) =~= f.take(m).drop_last());
        }
    }
}

/// A candidate is left out only for its path: where nothing lies at its new path, a candidate
/// is left that gets it, and that is the first one of those where nothing lies.
pub proof fn the_first_on_a_free_path_is_kept(
    v: Seq<RenameCandidateView>,
    taken: Seq<bool>,
    i: int,
)
    requires
        taken.len() == v.len(),
        0 <= i < v.len(),
        !taken[i],
        forall|k: int|
            0 <= k < i ==> (#[trigger] v[k]).new_path != v[i].new_path || taken[k],
    ensures
        free(v, taken).contains(v[i]),
{
    lemma_free_keeps(v, taken, i + 1);
    let f = free(v, taken);
    let m = choose|m: int|
        0 <= m <= f.len() && #[trigger] f.take(m) == free(v.take(i + 1), taken.take(i + 1));
    lemma_free_prefix(v.take(i), taken.take(i + 1), taken.take(i));
    assert(v.take(i + 1).drop_last() =~= v.take(i));
    let before = free(v.take(i), taken.take(i));
    if gets(before, v[i].new_path) {
        let k = choose|k: int| 0 <= k < before.len() && (#[trigger] before[k]).new_path == v[i].new_path;
        taken_paths_are_left(v.take(i), taken.take(i), k);
        let j = choose|j: int|
            0 <= j < i && #[trigger] v.take(i)[j] == before[k] && !taken.take(i)[j];
        assert(v[j].new_path == v[i].new_path && !taken[j]);
    }
    assert(f.take(m).last() == v[i]);
    assert(f[m - 1] == v[i]);
}

/// The candidates that are left stay in their order: those among the first are left first.
pub proof fn candidates_stay_in_order(v: Seq<RenameCandidateView>, taken: Seq<bool>, n: int)
    requires
        taken.len() == v.len(),
        0 <= n <= v.len(),
    ensures
        free(v.take(n), taken.take(n)).is_prefix_of(free(v, taken)),
{
    lemma_free_keeps(v, taken, n);
    let f = free(v, taken);
    let m = choose|m: int|
        0 <= m <= f.len() && #[trigger] f.take(m) == free(v.take(n), taken.take(n));
    assert(f.take(m).is_prefix_of(f));
}

/// The files that are there are moved, each from its old path to its new one, in the order of
/// the candidates, and the ones that are missing are not. The statement finds the model by its
/// old path and gives it the new path and name.
pub proof fn present_files_are_moved(v: Seq<RenameCandidateView>, present: Seq<bool>)
    requires
        present.len() == v.len(),
    ensures
        ({
            let there = lists::positions(v.len() as int, |i: int| present[i]);
            &&& renamings(v, present).len() == there.len()
            &&& present_count(present, present.len()) == there.len()
            &&& forall|k: int|
                0 <= k < there.len() ==> {
                    let r = #[trigger] renamings(v, present)[k];
                    let c = v[there[k]];
                    &&& r.from == c.old_path
                    &&& r.to == c.new_path
                    &&& r.statement.sql == db::RENAME_MODEL@
                    &&& r.statement.params.len() == 3
                    &&& r.statement.params[0] == db::SqlView::Text(c.new_path)
                    &&& r.statement.params[1] == db::SqlView::Text(c.new_name)
                    &&& r.statement.params[2] == db::SqlView::Text(c.old_path)
                }
        }),
{
    lemma_moved(v, present, v.len() as int);
    assert(v.take(v.len() as int) =~= v);
    let p = |i: int| present[i];
    lists::positions_are_all(v.len() as int, p);
}

proof fn lemma_moved(v: Seq<RenameCandidateView>, present: Seq<bool>, n: int)
    requires
        present.len() == v.len(),
        0 <= n <= v.len(),
    ensures
        renamings(v.take(n), present) == lists::positions(n, |i: int| present[i]).map_values(
            |i: int| renaming(v[i]),
        ),
        present_count(present, n as nat) == lists::positions(n, |i: int| present[i]).len(),
    decreases n,
{
    let p = |i: int| present[i];
    let f = |i: int| renaming(v[i]);
    if n > 0 {
        lemma_moved(v, present, n - 1);
        assert(v.take(n).drop_last() =~= v.take(n - 1));
        let rest = lists::positions(n - 1, p);
        assert(rest.push(n - 1).map_values(f) =~= rest.map_values(f).push(renaming(v[n - 1])));
    } else {
        assert(lists::positions(0, p).map_values(f) =~= Seq::<RenamingView>::empty());
    }
}

} // verus!
