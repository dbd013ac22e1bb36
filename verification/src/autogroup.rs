//! Projects for models that share a folder.

use vstd::prelude::*;
use vstd::utf8;

use crate::lists;
use crate::text;
use crate::text::CharSet;
use crate::unicode;

verus! {

/// How many projects models were assigned to, and how many models.
pub struct AutogroupStats {
    pub projects_created: usize,
    pub models_assigned: usize,
}

// ---------------------------------------------------------------------------------------
// The name of a project
// ---------------------------------------------------------------------------------------

/// The text without a dash, a space and a number at the end. With a space before the dash, that
/// space goes too, and the number may be missing.
pub open spec fn without_dash_id(s: Seq<char>) -> Seq<char> {
    match text::last_match(s, "- "@) {
        Some(i) => if !text::all_digits(s.skip(i + 2)) {
            s
        } else if i > 0 && s[i - 1] == ' ' {
            s.take(i - 1)
        } else if s.len() > i + 2 {
            s.take(i)
        } else {
            s
        },
        None => s,
    }
}

/// The text without `_` and a number of four to eight digits behind it at the end.
pub open spec fn without_underscore_id(s: Seq<char>) -> Seq<char> {
    match text::last_match(s, "_"@) {
        Some(i) => if 4 <= s.len() - i - 1 <= 8 && text::all_digits(s.skip(i + 1)) {
            s.take(i)
        } else {
            s
        },
        None => s,
    }
}

/// The text without the number that model sites put at its end.
pub open spec fn without_id(s: Seq<char>) -> Seq<char> {
    without_underscore_id(without_dash_id(s))
}

fn strip_dash_id(s: &[char]) -> (r: &[char])
    ensures
        r@ == without_dash_id(s@),
{
    proof {
        reveal_strlit("- ");
    }
    match text::find_last(s, "- ") {
        Some(i) => {
            let len: usize = s.len();
            assert(i + 2 <= len);
            if !text::only_digits(text::slice_from(s, i + 2)) {
                s
            } else if i > 0 && s[i - 1] == ' ' {
                text::slice_to(s, i - 1)
            } else if len > i + 2 {
                text::slice_to(s, i)
            } else {
                s
            }
        },
        None => s,
    }
}

fn strip_underscore_id(s: &[char]) -> (r: &[char])
    ensures
        r@ == without_underscore_id(s@),
{
    proof {
        reveal_strlit("_");
    }
    match text::find_last(s, "_") {
        Some(i) => {
            let len: usize = s.len();
            assert(i + 1 <= len);
            let tail = text::slice_from(s, i + 1);
            if 4 <= tail.len() && tail.len() <= 8 && text::only_digits(tail) {
                text::slice_to(s, i)
            } else {
                s
            }
        },
        None => s,
    }
}

/// Strips the number that model sites put at the end of a name: ` - 4766824`, `_4766824` or
/// `- 4766824`.
pub fn strip_id_suffix(s: &str) -> (r: String)
    ensures
        r@ == without_id(s@),
{
    let all = text::chars_of(s);
    text::string_of(strip_underscore_id(strip_dash_id(all.as_slice())))
}

/// Whether every character is an ASCII capital letter or digit.
pub open spec fn all_capitals(w: Seq<char>) -> bool {
    forall|i: int|
        0 <= i < w.len() ==> 'A' <= #[trigger] w[i] <= 'Z' || '0' <= w[i] <= '9'
}

/// The word with a capital letter at its start and small letters behind; a short word in
/// capitals stays as it is.
pub open spec fn titled(w: Seq<char>) -> Seq<char> {
    if w.len() == 0 || (w.len() <= 4 && all_capitals(w)) {
        w
    } else {
        unicode::uppercase(w[0]) + unicode::lowercase(w.skip(1))
    }
}

fn only_capitals(w: &[char]) -> (r: bool)
    ensures
        r == all_capitals(w@),
{
    let mut i: usize = 0;
    while i < w.len()
        invariant
            i <= w@.len(),
            forall|k: int|
                0 <= k < i ==> 'A' <= #[trigger] w@[k] <= 'Z' || '0' <= w@[k] <= '9',
        decreases w@.len() - i,
    {
        let c: char = w[i];
        if !(('A' <= c && c <= 'Z') || ('0' <= c && c <= '9')) {
            assert(!('A' <= w@[i as int] <= 'Z' || '0' <= w@[i as int] <= '9'));
            return false;
        }
        i = i + 1;
    }
    true
}

/// Writes a word with a capital letter at its start, and keeps short words in capitals.
pub fn title_word(w: &str) -> (r: String)
    ensures
        r@ == titled(w@),
{
    text::string_of(title_chars(text::chars_of(w).as_slice()).as_slice())
}

fn title_chars(w: &[char]) -> (r: Vec<char>)
    ensures
        r@ == titled(w@),
{
    let mut out: Vec<char> = Vec::new();
    if w.len() == 0 || (w.len() <= 4 && only_capitals(w)) {
        text::append_chars(&mut out, w);
        assert(out@ =~= w@);
        return out;
    }
    let head = text::chars_of(unicode::char_to_uppercase(w[0]).as_str());
    let tail = text::string_of(text::slice_from(w, 1)).as_str().to_lowercase();
    text::append_chars(&mut out, head.as_slice());
    text::append_chars(&mut out, text::chars_of(tail.as_str()).as_slice());
    assert(out@ =~= titled(w@));
    out
}

/// The deepest part of a folder.
pub open spec fn deepest(folder: Seq<char>) -> Seq<char> {
    text::split(text::trim(folder, CharSet::Slash), CharSet::Slash).last()
}

/// The text without the endings that folders of model files have.
pub open spec fn without_files_suffix(s: Seq<char>) -> Seq<char> {
    let a = text::trim_suffixes(s, "_model_files"@);
    let b = text::trim_suffixes(a, "_stl_files"@);
    let c = text::trim_suffixes(b, "_files"@);
    let d = text::trim_suffixes(c, "_stls"@);
    text::trim_suffixes(d, "_3d"@)
}

/// The text with spaces for dashes and underscores.
pub open spec fn spaced(s: Seq<char>) -> Seq<char> {
    s.map_values(
        |c: char|
            if c == '-' || c == '_' {
                ' '
            } else {
                c
            },
    )
}

/// Words with capital letters at their starts.
pub open spec fn titled_all(words: Seq<Seq<char>>) -> Seq<Seq<char>> {
    words.map_values(|w: Seq<char>| titled(w))
}

/// The name of the project of a folder: its deepest part in words.
pub open spec fn project_name(folder: Seq<char>) -> Seq<char> {
    let segment = without_files_suffix(without_id(deepest(folder)));
    text::join(titled_all(text::words(spaced(segment))), ' ')
}

fn strip_files_suffix(s: &[char]) -> (r: &[char])
    ensures
        r@ == without_files_suffix(s@),
{
    proof {
        reveal_strlit("_model_files");
        reveal_strlit("_stl_files");
        reveal_strlit("_files");
        reveal_strlit("_stls");
        reveal_strlit("_3d");
    }
    let a = text::trim_suffix_chars(s, "_model_files");
    let b = text::trim_suffix_chars(a, "_stl_files");
    let c = text::trim_suffix_chars(b, "_files");
    let d = text::trim_suffix_chars(c, "_stls");
    text::trim_suffix_chars(d, "_3d")
}

fn to_spaced(s: &[char]) -> (r: Vec<char>)
    ensures
        r@ == spaced(s@),
{
    let mut out: Vec<char> = Vec::new();
    let mut i: usize = 0;
    while i < s.len()
        invariant
            i <= s@.len(),
            out@ == spaced(s@.take(i as int)),
        decreases s@.len() - i,
    {
        assert(s@.take(i + 1) == s@.take(i as int).push(s@[i as int]));
        let c: char = s[i];
        out.push(
            if c == '-' || c == '_' {
                ' '
            } else {
                c
            },
        );
        assert(out@ =~= spaced(s@.take(i + 1)));
        i = i + 1;
    }
    assert(s@.take(i as int) == s@);
    out
}

/// Turns a folder into the readable name of a project.
pub fn folder_to_project_name(folder: &str) -> (r: String)
    ensures
        r@ == project_name(folder@),
{
    let all = text::chars_of(folder);
    let inner = text::trim_chars(all.as_slice(), CharSet::Slash);
    let pieces = text::split_chars(inner, CharSet::Slash);
    let last: &[char] = pieces[pieces.len() - 1];
    assert(text::runs(pieces@).last() == last@);
    let segment = strip_files_suffix(strip_underscore_id(strip_dash_id(last)));
    let plain = to_spaced(segment);
    let words = text::split_words(plain.as_slice());
    let ghost ws = text::runs(words@);
    let mut titles: Vec<Vec<char>> = Vec::new();
    let mut i: usize = 0;
    while i < words.len()
        invariant
            i <= words@.len(),
            ws == text::runs(words@),
            titles@.len() == i,
            forall|k: int| 0 <= k < i ==> (#[trigger] titles@[k])@ == titled(ws[k]),
        decreases words@.len() - i,
    {
        assert(ws[i as int] == words@[i as int]@);
        titles.push(title_chars(words[i]));
        i = i + 1;
    }
    assert(titles@.map_values(|p: Vec<char>| p@) =~= titled_all(ws));
    text::string_of(text::join_chars(titles.as_slice(), ' ').as_slice())
}

// ---------------------------------------------------------------------------------------
// What holds of the names
// ---------------------------------------------------------------------------------------

/// Whether a character is ASCII, and does not separate folders.
spec fn in_segment(c: char) -> bool {
    c <= '\u{7f}' && c != '/'
}

/// Whether a character can stand in a word of a name that is ASCII.
spec fn in_word(c: char) -> bool {
    in_segment(c) && c != '-' && c != '_' && !text::is_space(c)
}

/// Whether a character can stand in a name that is ASCII.
spec fn in_name(c: char) -> bool {
    in_word(c) || c == ' '
}

/// The deepest part of an ASCII folder is ASCII, and has no slash.
proof fn lemma_deepest(folder: Seq<char>)
    requires
        utf8::is_ascii_chars(folder),
    ensures
        text::all_chars(deepest(folder), |c: char| in_segment(c)),
{
    let ascii = |c: char| c <= '\u{7f}';
    let clean = |c: char| !CharSet::Slash.has(c);
    let inner = text::trim(folder, CharSet::Slash);
    let pieces = text::split(inner, CharSet::Slash);
    assert(text::all_chars(folder, ascii));
    text::lemma_trim_chars(folder, CharSet::Slash, ascii);
    text::lemma_split_chars(inner, CharSet::Slash, ascii);
    text::lemma_split_clean(inner, CharSet::Slash);
    let last = pieces[pieces.len() - 1];
    assert(text::all_chars(last, ascii));
    assert(text::all_chars(last, clean));
    assert forall|i: int| 0 <= i < last.len() implies in_segment(#[trigger] last[i]) by {
        assert(ascii(last[i]));
        assert(clean(last[i]));
    }
}

/// Stripping adds no characters.
proof fn lemma_stripped_chars(s: Seq<char>, f: spec_fn(char) -> bool)
    requires
        text::all_chars(s, f),
    ensures
        text::all_chars(without_files_suffix(without_id(s)), f),
{
    let t = without_dash_id(s);
    text::lemma_last_match(s, "- "@, s.len() as int);
    assert(text::all_chars(t, f));
    let u = without_underscore_id(t);
    text::lemma_last_match(t, "_"@, t.len() as int);
    assert(text::all_chars(u, f));
    let a = text::trim_suffixes(u, "_model_files"@);
    let b = text::trim_suffixes(a, "_stl_files"@);
    let c = text::trim_suffixes(b, "_files"@);
    let d = text::trim_suffixes(c, "_stls"@);
    text::lemma_suffix_chars(u, "_model_files"@, f);
    text::lemma_suffix_chars(a, "_stl_files"@, f);
    text::lemma_suffix_chars(b, "_files"@, f);
    text::lemma_suffix_chars(c, "_stls"@, f);
    text::lemma_suffix_chars(d, "_3d"@, f);
}

/// The words of a segment have neither separators nor white space, and are not empty.
proof fn lemma_segment_words(segment: Seq<char>)
    requires
        text::all_chars(segment, |c: char| in_segment(c)),
    ensures
        forall|k: int|
            0 <= k < text::words(spaced(segment)).len() ==> text::all_chars(
                #[trigger] text::words(spaced(segment))[k],
                |c: char| in_word(c),
            ) && text::words(spaced(segment))[k].len() > 0,
{
    let plain = spaced(segment);
    let seg = |c: char| in_segment(c);
    let parted = |c: char| in_segment(c) && c != '-' && c != '_';
    let unspaced = |c: char| !CharSet::Space.has(c);
    let word = |c: char| in_word(c);
    let ws = text::words(plain);
    assert forall|i: int| 0 <= i < plain.len() implies parted(#[trigger] plain[i]) by {
        assert(seg(segment[i]));
    }
    text::lemma_words_chars(plain, parted);
    text::lemma_words_clean(plain);
    assert forall|k: int| 0 <= k < ws.len() implies text::all_chars(#[trigger] ws[k], word)
        && ws[k].len() > 0 by {
        let w = ws[k];
        assert(text::all_chars(w, parted));
        assert(text::all_chars(w, unspaced));
        assert forall|i: int| 0 <= i < w.len() implies word(#[trigger] w[i]) by {
            assert(parted(w[i]));
            assert(unspaced(w[i]));
        }
    }
}

proof fn lemma_least_char(c: char)
    ensures
        '\0' <= c,
{
}

/// A word of ASCII letters keeps its length and its kind of characters, and capital letters
/// are given once.
proof fn lemma_titled_word(w: Seq<char>)
    requires
        w.len() > 0,
        text::all_chars(w, |c: char| in_word(c)),
    ensures
        titled(w).len() == w.len(),
        text::all_chars(titled(w), |c: char| in_word(c)),
        titled(titled(w)) == titled(w),
{
    let word = |c: char| in_word(c);
    let rest = w.skip(1);
    let t = titled(w);
    assert(word(w[0]));
    assert forall|i: int| 0 <= i < rest.len() implies word(#[trigger] rest[i]) by {
        assert(word(w[i + 1]));
    }
    assert(utf8::is_ascii_chars(rest)) by {
        assert forall|i: int| 0 <= i < rest.len() implies '\0' <= #[trigger] rest[i] <= '\u{7f}' by {
            assert(word(rest[i]));
            lemma_least_char(rest[i]);
        }
    }
    if w.len() > 4 || !all_capitals(w) {
        assert(t.len() == w.len());
        assert(t[0] == text::ascii_capital(w[0]));
        assert forall|i: int| 0 <= i < t.len() implies word(#[trigger] t[i]) by {
            if i > 0 {
                assert(t[i] == text::ascii_small(rest[i - 1]));
                assert(word(rest[i - 1]));
            }
        }
        let small = t.skip(1);
        assert(small =~= unicode::ascii_lowercase(rest));
        assert(utf8::is_ascii_chars(small)) by {
            assert forall|i: int| 0 <= i < small.len() implies '\0' <= #[trigger] small[i]
                <= '\u{7f}' by {
                assert(word(t[i + 1]));
            }
        }
        assert(unicode::ascii_lowercase(small) =~= small);
        assert(unicode::uppercase(t[0]) =~= seq![t[0]]);
        assert(seq![t[0]] + small =~= t);
    }
}

/// A name of ASCII words is its own deepest part, and nothing is stripped of it.
proof fn lemma_plain_name(name: Seq<char>)
    requires
        text::all_chars(name, |c: char| in_name(c)),
    ensures
        without_files_suffix(without_id(deepest(name))) == name,
        spaced(name) == name,
{
    let kind = |c: char| in_name(c);
    let clean = |c: char| !CharSet::Slash.has(c);
    assert forall|i: int| 0 <= i < name.len() implies clean(#[trigger] name[i]) && name[i] != '-'
        && name[i] != '_' by {
        assert(kind(name[i]));
    }
    text::lemma_trim_absent(name, CharSet::Slash);
    text::lemma_split_absent(name, CharSet::Slash);
    assert(deepest(name) == name);
    reveal_strlit("- ");
    reveal_strlit("_");
    reveal_strlit("_model_files");
    reveal_strlit("_stl_files");
    reveal_strlit("_files");
    reveal_strlit("_stls");
    reveal_strlit("_3d");
    assert(!name.contains('-') && !name.contains('_'));
    text::lemma_last_match_absent(name, "- "@, name.len() as int);
    text::lemma_last_match_absent(name, "_"@, name.len() as int);
    text::lemma_suffix_absent(name, "_model_files"@);
    text::lemma_suffix_absent(name, "_stl_files"@);
    text::lemma_suffix_absent(name, "_files"@);
    text::lemma_suffix_absent(name, "_stls"@);
    text::lemma_suffix_absent(name, "_3d"@);
    assert(spaced(name) =~= name);
}

/// The words of a name are those that it was made of.
proof fn lemma_name_words(ws: Seq<Seq<char>>)
    requires
        forall|k: int|
            0 <= k < ws.len() ==> text::all_chars(#[trigger] ws[k], |c: char| in_word(c))
                && ws[k].len() > 0,
    ensures
        text::words(text::join(ws, ' ')) == ws,
        text::all_chars(text::join(ws, ' '), |c: char| in_name(c)),
{
    let word = |c: char| in_word(c);
    let kind = |c: char| in_name(c);
    let unspaced = |c: char| !CharSet::Space.has(c);
    assert forall|k: int| 0 <= k < ws.len() implies text::all_chars(#[trigger] ws[k], kind)
        && text::all_chars(ws[k], unspaced) by {
        let w = ws[k];
        assert(text::all_chars(w, word));
        assert forall|i: int| 0 <= i < w.len() implies kind(#[trigger] w[i]) && unspaced(w[i]) by {
            assert(word(w[i]));
        }
    }
    text::lemma_join_chars(ws, ' ', kind);
    text::lemma_words_join(ws);
}

/// Leading slashes go, and what stands behind the last one stays.
proof fn lemma_trimmed_path(parents: Seq<char>, segment: Seq<char>)
    requires
        segment.len() > 0,
        text::all_chars(segment, |c: char| !CharSet::Slash.has(c)),
    ensures
        text::split(
            text::trim_start(parents.push('/') + segment, CharSet::Slash),
            CharSet::Slash,
        ).last() == segment,
        text::trim_start(parents.push('/') + segment, CharSet::Slash).len() > 0,
        text::trim_start(parents.push('/') + segment, CharSet::Slash).last() == segment.last(),
    decreases parents.len(),
{
    let clean = |c: char| !CharSet::Slash.has(c);
    let s = parents.push('/') + segment;
    assert(clean(segment[0]));
    if parents.len() == 0 {
        assert(s[0] == '/');
        assert(s.skip(1) =~= segment);
        assert(text::trim_start(segment, CharSet::Slash) == segment);
        text::lemma_split_absent(segment, CharSet::Slash);
    } else if parents[0] == '/' {
        assert(s[0] == parents[0]);
        assert(s.skip(1) =~= parents.skip(1).push('/') + segment);
        lemma_trimmed_path(parents.skip(1), segment);
    } else {
        assert(s[0] == parents[0]);
        text::lemma_split_push(parents, '/', segment, CharSet::Slash);
    }
}

/// Only the deepest segment of a folder names its project: the folders that it lies in do not
/// matter.
pub proof fn deepest_segment_names_the_project(parents: Seq<char>, segment: Seq<char>)
    requires
        segment.len() > 0,
        !segment.contains('/'),
    ensures
        project_name(parents.push('/') + segment) == project_name(segment),
{
    let clean = |c: char| !CharSet::Slash.has(c);
    let s = parents.push('/') + segment;
    assert forall|i: int| 0 <= i < segment.len() implies clean(#[trigger] segment[i]) by {
        assert(segment.contains(segment[i]));
    }
    lemma_trimmed_path(parents, segment);
    assert(clean(segment[segment.len() - 1]));
    assert(deepest(s) == segment);
    text::lemma_trim_absent(segment, CharSet::Slash);
    text::lemma_split_absent(segment, CharSet::Slash);
    assert(deepest(segment) == segment);
}

/// The name of a project is its own name: naming a name changes nothing. This is said of ASCII
/// text; of other text the case of letters is not known to settle.
pub proof fn naming_is_done_once(folder: Seq<char>)
    requires
        utf8::is_ascii_chars(folder),
    ensures
        project_name(project_name(folder)) == project_name(folder),
{
    let segment = without_files_suffix(without_id(deepest(folder)));
    let words = text::words(spaced(segment));
    let ws = titled_all(words);
    let name = text::join(ws, ' ');
    lemma_deepest(folder);
    lemma_stripped_chars(deepest(folder), |c: char| in_segment(c));
    lemma_segment_words(segment);
    assert forall|k: int| 0 <= k < ws.len() implies text::all_chars(
        #[trigger] ws[k],
        |c: char| in_word(c),
    ) && ws[k].len() > 0 && titled(ws[k]) == ws[k] by {
        assert(ws[k] == titled(words[k]));
        lemma_titled_word(words[k]);
    }
    lemma_name_words(ws);
    lemma_plain_name(name);
    assert(titled_all(ws) =~= ws);
}

// ---------------------------------------------------------------------------------------
// The groups
// ---------------------------------------------------------------------------------------

/// A model without a project, and the folder it lies in.
pub struct Unassigned {
    pub id: i64,
    pub folder: String,
}

/// A project, and the models to assign to it.
pub struct ProjectGroup {
    pub name: String,
    pub ids: Vec<i64>,
}

pub struct UnassignedView {
    pub id: i64,
    pub folder: Seq<char>,
}

pub struct ProjectGroupView {
    pub name: Seq<char>,
    pub ids: Seq<i64>,
}

impl View for Unassigned {
    type V = UnassignedView;

    open spec fn view(&self) -> UnassignedView {
        UnassignedView { id: self.id, folder: self.folder@ }
    }
}

impl View for ProjectGroup {
    type V = ProjectGroupView;

    open spec fn view(&self) -> ProjectGroupView {
        ProjectGroupView { name: self.name@, ids: self.ids@ }
    }
}

/// The models behind a list.
pub open spec fn model_views(v: Seq<Unassigned>) -> Seq<UnassignedView> {
    v.map_values(|m: Unassigned| m@)
}

/// The groups behind a list.
pub open spec fn group_views(v: Seq<ProjectGroup>) -> Seq<ProjectGroupView> {
    v.map_values(|g: ProjectGroup| g@)
}

/// The folders of models, each once, in the order of their first models.
pub open spec fn folders(models: Seq<UnassignedView>) -> Seq<Seq<char>>
    decreases models.len(),
{
    if models.len() == 0 {
        Seq::empty()
    } else {
        let rest = folders(models.drop_last());
        if rest.contains(models.last().folder) {
            rest
        } else {
            rest.push(models.last().folder)
        }
    }
}

/// The models in a folder, in order.
pub open spec fn ids_in(models: Seq<UnassignedView>, folder: Seq<char>) -> Seq<i64>
    decreases models.len(),
{
    if models.len() == 0 {
        Seq::empty()
    } else if models.last().folder == folder {
        ids_in(models.drop_last(), folder).push(models.last().id)
    } else {
        ids_in(models.drop_last(), folder)
    }
}

/// How many segments a folder has; that of a top-level category has one.
pub open spec fn depth(folder: Seq<char>) -> nat {
    filled(text::split(folder, CharSet::Slash))
}

/// How many of the pieces are not empty.
pub open spec fn filled(pieces: Seq<Seq<char>>) -> nat
    decreases pieces.len(),
{
    if pieces.len() == 0 {
        0
    } else if pieces.last().len() > 0 {
        filled(pieces.drop_last()) + 1
    } else {
        filled(pieces.drop_last())
    }
}

/// Whether the models in a folder make a project: the folder lies below a category and gives
/// a name, and there are two models in it at least.
pub open spec fn makes_project(models: Seq<UnassignedView>, folder: Seq<char>) -> bool {
    depth(folder) >= 2 && ids_in(models, folder).len() >= 2 && project_name(folder).len() > 0
}

/// The folders among `fs` whose models make a project.
pub open spec fn project_folders(
    models: Seq<UnassignedView>,
    fs: Seq<Seq<char>>,
) -> Seq<Seq<char>>
    decreases fs.len(),
{
    if fs.len() == 0 {
        Seq::empty()
    } else if makes_project(models, fs.last()) {
        project_folders(models, fs.drop_last()).push(fs.last())
    } else {
        project_folders(models, fs.drop_last())
    }
}

/// The group of a folder.
pub open spec fn group_of(models: Seq<UnassignedView>, folder: Seq<char>) -> ProjectGroupView {
    ProjectGroupView { name: project_name(folder), ids: ids_in(models, folder) }
}

/// The groups of folders.
pub open spec fn groups_of(models: Seq<UnassignedView>, fs: Seq<Seq<char>>) -> Seq<
    ProjectGroupView,
> {
    fs.map_values(|f: Seq<char>| group_of(models, f))
}

/// The groups that models make.
pub open spec fn groups(models: Seq<UnassignedView>) -> Seq<ProjectGroupView> {
    groups_of(models, project_folders(models, folders(models)))
}

/// How many models groups have together.
pub open spec fn assigned(gs: Seq<ProjectGroupView>) -> nat
    decreases gs.len(),
{
    if gs.len() == 0 {
        0
    } else {
        assigned(gs.drop_last()) + gs.last().ids.len()
    }
}

/// The models of a folder, as they are found.
struct Bucket {
    folder: String,
    ids: Vec<i64>,
}

spec fn bucket_folders(v: Seq<Bucket>) -> Seq<Seq<char>> {
    v.map_values(|b: Bucket| b.folder@)
}

/// The position of the bucket of a folder.
fn find_bucket(buckets: &[Bucket], folder: &str) -> (r: Option<usize>)
    ensures
        match r {
            Some(i) => i < buckets@.len() && buckets@[i as int].folder@ == folder@,
            None => !bucket_folders(buckets@).contains(folder@),
        },
{
    let mut i: usize = buckets.len();
    while i > 0
        invariant
            i <= buckets@.len(),
            forall|k: int| i <= k < buckets@.len() ==> (#[trigger] buckets@[k]).folder@ != folder@,
        decreases i,
    {
        i = i - 1;
        if text::same(buckets[i].folder.as_str(), folder) {
            return Some(i);
        }
    }
    assert(!bucket_folders(buckets@).contains(folder@)) by {
        if bucket_folders(buckets@).contains(folder@) {
            let k = choose|k: int|
                0 <= k < buckets@.len() && bucket_folders(buckets@)[k] == folder@;
            assert(buckets@[k].folder@ == folder@);
        }
    }
    None
}

/// No folder is listed twice.
proof fn lemma_folders_distinct(models: Seq<UnassignedView>)
    ensures
        folders(models).no_duplicates(),
    decreases models.len(),
{
    if models.len() > 0 {
        lemma_folders_distinct(models.drop_last());
    }
}

/// A folder that no model lies in has no models.
proof fn lemma_no_ids(models: Seq<UnassignedView>, folder: Seq<char>)
    requires
        !folders(models).contains(folder),
    ensures
        ids_in(models, folder).len() == 0,
    decreases models.len(),
{
    if models.len() > 0 {
        let rest = models.drop_last();
        assert(!folders(rest).contains(folder)) by {
            if folders(rest).contains(folder) {
                let k = choose|k: int| 0 <= k < folders(rest).len() && folders(rest)[k] == folder;
                assert(folders(models)[k] == folder);
            }
        }
        assert(models.last().folder != folder) by {
            if models.last().folder == folder {
                assert(folders(models).last() == folder);
                assert(folders(models).contains(folder));
            }
        }
        lemma_no_ids(rest, folder);
    }
}

/// Sorts models by their folders.
fn fill_buckets(models: &[Unassigned]) -> (r: Vec<Bucket>)
    ensures
        bucket_folders(r@) == folders(model_views(models@)),
        forall|k: int|
            0 <= k < r@.len() ==> (#[trigger] r@[k]).ids@ == ids_in(
                model_views(models@),
                r@[k].folder@,
            ),
{
    let ghost ms = model_views(models@);
    let mut out: Vec<Bucket> = Vec::new();
    let mut i: usize = 0;
    assert(ms.take(0) == Seq::<UnassignedView>::empty());
    assert(bucket_folders(out@) == Seq::<Seq<char>>::empty());
    while i < models.len()
        invariant
            i <= models@.len(),
            ms == model_views(models@),
            bucket_folders(out@) == folders(ms.take(i as int)),
            forall|k: int|
                0 <= k < out@.len() ==> (#[trigger] out@[k]).ids@ == ids_in(
                    ms.take(i as int),
                    out@[k].folder@,
                ),
        decreases models@.len() - i,
    {
        let id: i64 = models[i].id;
        let folder: &String = &models[i].folder;
        let ghost done = ms.take(i as int);
        let ghost next = ms.take(i + 1);
        let ghost before = out@;
        proof {
            assert(next.drop_last() == done);
            assert(next.last() == models@[i as int]@);
            lemma_folders_distinct(done);
        }
        match find_bucket(out.as_slice(), folder.as_str()) {
            Some(j) => {
                out[j].ids.push(id);
                proof {
                    assert(folders(done)[j as int] == folder@) by {
                        assert(bucket_folders(before)[j as int] == folder@);
                    }
                    assert(bucket_folders(out@) =~= bucket_folders(before));
                    assert forall|k: int| 0 <= k < out@.len() implies (#[trigger] out@[k]).ids@
                        == ids_in(next, out@[k].folder@) by {
                        assert(before[k].ids@ == ids_in(done, before[k].folder@));
                        if k != j {
                            assert(folders(done)[k] == before[k].folder@);
                            assert(before[k].folder@ != folder@);
                        }
                    }
                }
            },
            None => {
                let mut ids: Vec<i64> = Vec::new();
                ids.push(id);
                proof {
                    lemma_no_ids(done, folder@);
                }
                out.push(Bucket { folder: folder.clone(), ids });
                proof {
                    assert(bucket_folders(out@) =~= bucket_folders(before).push(folder@));
                    assert forall|k: int| 0 <= k < out@.len() implies (#[trigger] out@[k]).ids@
                        == ids_in(next, out@[k].folder@) by {
                        if k < before.len() {
                            assert(before[k].ids@ == ids_in(done, before[k].folder@));
                            assert(folders(done)[k] == before[k].folder@) by {
                                assert(bucket_folders(before)[k] == before[k].folder@);
                            }
                            assert(folders(done).contains(before[k].folder@));
                        } else {
                            assert(ids_in(done, folder@) =~= Seq::<i64>::empty());
                            assert(out@[k].ids@ =~= ids_in(done, folder@).push(id));
                        }
                    }
                }
            },
        }
        i = i + 1;
    }
    assert(ms.take(i as int) == ms);
    out
}

/// How many models folders have together.
spec fn total(models: Seq<UnassignedView>, fs: Seq<Seq<char>>) -> nat
    decreases fs.len(),
{
    if fs.len() == 0 {
        0
    } else {
        total(models, fs.drop_last()) + ids_in(models, fs.last()).len()
    }
}

/// One more model adds at most one to what different folders have together.
proof fn lemma_total_step(models: Seq<UnassignedView>, fs: Seq<Seq<char>>)
    requires
        models.len() > 0,
        fs.no_duplicates(),
    ensures
        total(models, fs) <= total(models.drop_last(), fs) + 1,
        !fs.contains(models.last().folder) ==> total(models, fs) == total(
            models.drop_last(),
            fs,
        ),
    decreases fs.len(),
{
    if fs.len() > 0 {
        let rest = fs.drop_last();
        lemma_total_step(models, rest);
        if fs.last() == models.last().folder {
            assert(!rest.contains(fs.last())) by {
                if rest.contains(fs.last()) {
                    let k = choose|k: int| 0 <= k < rest.len() && rest[k] == fs.last();
                    assert(fs[k] == fs[fs.len() - 1]);
                }
            }
            assert(fs.contains(fs.last()));
        }
        if !fs.contains(models.last().folder) {
            assert(!rest.contains(models.last().folder)) by {
                if rest.contains(models.last().folder) {
                    let k = choose|k: int|
                        0 <= k < rest.len() && rest[k] == models.last().folder;
                    assert(fs[k] == models.last().folder);
                }
            }
            assert(fs[fs.len() - 1] != models.last().folder);
        }
    }
}

/// Different folders have no more models together than there are.
proof fn lemma_total_bound(models: Seq<UnassignedView>, fs: Seq<Seq<char>>)
    requires
        fs.no_duplicates(),
    ensures
        total(models, fs) <= models.len(),
    decreases models.len(),
{
    if models.len() > 0 {
        lemma_total_bound(models.drop_last(), fs);
        lemma_total_step(models, fs);
    } else {
        lemma_total_empty(models, fs);
    }
}

proof fn lemma_total_empty(models: Seq<UnassignedView>, fs: Seq<Seq<char>>)
    requires
        models.len() == 0,
    ensures
        total(models, fs) == 0,
    decreases fs.len(),
{
    if fs.len() > 0 {
        lemma_total_empty(models, fs.drop_last());
    }
}

/// The first of different folders are different.
proof fn lemma_distinct_prefix(fs: Seq<Seq<char>>, n: int)
    requires
        fs.no_duplicates(),
        0 <= n <= fs.len(),
    ensures
        fs.take(n).no_duplicates(),
{
}

fn count_segments(folder: &str) -> (r: usize)
    ensures
        r == depth(folder@),
{
    let all = text::chars_of(folder);
    let pieces = text::split_chars(all.as_slice(), CharSet::Slash);
    let ghost ps = text::runs(pieces@);
    let mut n: usize = 0;
    let mut i: usize = 0;
    assert(ps.take(0) == Seq::<Seq<char>>::empty());
    while i < pieces.len()
        invariant
            i <= pieces@.len(),
            n <= i,
            ps == text::runs(pieces@),
            n == filled(ps.take(i as int)),
        decreases pieces@.len() - i,
    {
        proof {
            assert(ps.take(i + 1).drop_last() == ps.take(i as int));
            assert(ps.take(i + 1).last() == pieces@[i as int]@);
        }
        if pieces[i].len() > 0 {
            n = n + 1;
        }
        i = i + 1;
    }
    assert(ps.take(i as int) == ps);
    n
}

/// Groups models that share a folder into projects.
///
/// Only folders below a category count, and only those with two models or more; the project
/// has the name of the folder's deepest part.
pub fn run(models: &[Unassigned]) -> (r: (Vec<ProjectGroup>, AutogroupStats))
    ensures
        group_views(r.0@) == groups(model_views(models@)),
        r.1.projects_created == groups(model_views(models@)).len(),
        r.1.models_assigned == assigned(groups(model_views(models@))),
{
    let ghost ms = model_views(models@);
    let ghost fs = folders(ms);
    let model_count: usize = models.len();
    let buckets = fill_buckets(models);
    let mut out: Vec<ProjectGroup> = Vec::new();
    let mut count: usize = 0;
    let mut i: usize = 0;
    let ghost all = buckets@;
    proof {
        lemma_folders_distinct(ms);
        assert(fs.take(0) == Seq::<Seq<char>>::empty());
        assert(group_views(out@) == groups_of(ms, Seq::empty()));
        assert(bucket_folders(all) =~= fs);
    }
    while i < buckets.len()
        invariant
            i <= buckets@.len(),
            buckets@ == all,
            bucket_folders(all) == fs,
            fs.no_duplicates(),
            ms.len() == model_count,
            forall|k: int|
                0 <= k < all.len() ==> (#[trigger] all[k]).ids@ == ids_in(ms, all[k].folder@),
            group_views(out@) == groups_of(ms, project_folders(ms, fs.take(i as int))),
            count == assigned(groups_of(ms, project_folders(ms, fs.take(i as int)))),
            count <= total(ms, fs.take(i as int)),
        decreases buckets@.len() - i,
    {
        let ghost done = fs.take(i as int);
        let ghost next = fs.take(i + 1);
        let ghost before = out@;
        let ghost folder = all[i as int].folder@;
        proof {
            assert(bucket_folders(all)[i as int] == folder);
            assert(next.drop_last() == done);
            assert(next.last() == folder);
            lemma_distinct_prefix(fs, i + 1);
            lemma_total_bound(ms, next);
            assert(all[i as int].ids@ == ids_in(ms, folder));
        }
        let bucket: &Bucket = &buckets[i];
        let name = folder_to_project_name(bucket.folder.as_str());
        let deep: bool = count_segments(bucket.folder.as_str()) >= 2;
        let many: bool = bucket.ids.len() >= 2;
        let named: bool = text::chars_of(name.as_str()).len() > 0;
        if deep && many && named {
            count = count + bucket.ids.len();
            let group = ProjectGroup { name, ids: copy_ids(bucket.ids.as_slice()) };
            assert(group@ == group_of(ms, folder));
            out.push(group);
            proof {
                let old_groups = groups_of(ms, project_folders(ms, done));
                let new_groups = groups_of(ms, project_folders(ms, next));
                assert(group_views(out@) =~= group_views(before).push(group@));
                assert(new_groups =~= old_groups.push(group@));
                assert(new_groups.drop_last() =~= old_groups);
            }
        }
        i = i + 1;
    }
    assert(fs.take(i as int) == fs);
    let stats = AutogroupStats { projects_created: out.len(), models_assigned: count };
    assert(group_views(out@).len() == out@.len());
    (out, stats)
}

fn copy_ids(ids: &[i64]) -> (r: Vec<i64>)
    ensures
        r@ == ids@,
{
    let mut out: Vec<i64> = Vec::new();
    let mut i: usize = 0;
    while i < ids.len()
        invariant
            i <= ids@.len(),
            out@ == ids@.take(i as int),
        decreases ids@.len() - i,
    {
        out.push(ids[i]);
        i = i + 1;
    }
    out
}

// ---------------------------------------------------------------------------------------
// What holds of the groups
// ---------------------------------------------------------------------------------------

/// The folders of projects are those among the given ones that make a project.
proof fn lemma_project_folders(models: Seq<UnassignedView>, fs: Seq<Seq<char>>)
    ensures
        forall|k: int|
            0 <= k < project_folders(models, fs).len() ==> makes_project(
                models,
                #[trigger] project_folders(models, fs)[k],
            ) && fs.contains(project_folders(models, fs)[k]),
        forall|f: Seq<char>|
            fs.contains(f) && makes_project(models, f) ==> #[trigger] project_folders(
                models,
                fs,
            ).contains(f),
        fs.no_duplicates() ==> project_folders(models, fs).no_duplicates(),
    decreases fs.len(),
{
    let p = project_folders(models, fs);
    if fs.len() > 0 {
        let rest = fs.drop_last();
        let q = project_folders(models, rest);
        lemma_project_folders(models, rest);
        assert forall|k: int| 0 <= k < p.len() implies makes_project(models, #[trigger] p[k])
            && fs.contains(p[k]) by {
            if k < q.len() {
                assert(p[k] == q[k]);
                assert(rest.contains(q[k]));
                let j = choose|j: int| 0 <= j < rest.len() && rest[j] == q[k];
                assert(fs[j] == p[k]);
            } else {
                assert(fs[fs.len() - 1] == p[k]);
            }
        }
        assert forall|f: Seq<char>| fs.contains(f) && makes_project(models, f) implies
            #[trigger] p.contains(f) by {
            let j = choose|j: int| 0 <= j < fs.len() && fs[j] == f;
            if j < rest.len() {
                assert(rest[j] == f);
                assert(q.contains(f));
                let k = choose|k: int| 0 <= k < q.len() && q[k] == f;
                assert(p[k] == f);
            } else {
                assert(p[p.len() - 1] == f);
            }
        }
        if fs.no_duplicates() {
            assert(rest.no_duplicates());
            assert forall|a: int, b: int| 0 <= a < p.len() && 0 <= b < p.len() && a != b implies
                p[a] != p[b] by {
                if a < q.len() && b < q.len() {
                    assert(q[a] != q[b]);
                } else if a < q.len() {
                    assert(rest.contains(q[a]));
                    let j = choose|j: int| 0 <= j < rest.len() && rest[j] == q[a];
                    assert(fs[j] != fs[fs.len() - 1]);
                } else {
                    assert(rest.contains(q[b]));
                    let j = choose|j: int| 0 <= j < rest.len() && rest[j] == q[b];
                    assert(fs[j] != fs[fs.len() - 1]);
                }
            }
        }
    }
}

/// What is listed for a folder is a model that lies in it.
proof fn lemma_ids_in(models: Seq<UnassignedView>, folder: Seq<char>, k: int)
    requires
        0 <= k < ids_in(models, folder).len(),
    ensures
        exists|j: int|
            0 <= j < models.len() && (#[trigger] models[j]).folder == folder && models[j].id
                == ids_in(models, folder)[k],
    decreases models.len(),
{
    if models.len() > 0 {
        let rest = models.drop_last();
        if k < ids_in(rest, folder).len() {
            lemma_ids_in(rest, folder, k);
            let j = choose|j: int|
                0 <= j < rest.len() && (#[trigger] rest[j]).folder == folder && rest[j].id
                    == ids_in(rest, folder)[k];
            assert(models[j].folder == folder);
        } else {
            assert(models[models.len() - 1].folder == folder);
        }
    }
}

/// A folder in which a model lies is listed.
proof fn lemma_folder_listed(models: Seq<UnassignedView>, folder: Seq<char>)
    requires
        ids_in(models, folder).len() > 0,
    ensures
        folders(models).contains(folder),
{
    if !folders(models).contains(folder) {
        lemma_no_ids(models, folder);
    }
}

/// Each group holds the models of one folder, which lies below a category, holds two of them
/// at least and gives the group its name.
pub proof fn group_is_a_shared_folder(models: Seq<UnassignedView>, k: int)
    requires
        0 <= k < groups(models).len(),
    ensures
        exists|f: Seq<char>|
            #[trigger] makes_project(models, f) && groups(models)[k] == group_of(models, f),
{
    lemma_project_folders(models, folders(models));
    let f = project_folders(models, folders(models))[k];
    assert(makes_project(models, f));
    assert(groups(models)[k] == group_of(models, f));
}

/// Each folder that makes a project has its group.
pub proof fn shared_folder_is_a_group(models: Seq<UnassignedView>, f: Seq<char>)
    requires
        makes_project(models, f),
    ensures
        groups(models).contains(group_of(models, f)),
{
    lemma_folder_listed(models, f);
    lemma_project_folders(models, folders(models));
    let p = project_folders(models, folders(models));
    assert(p.contains(f));
    let k = choose|k: int| 0 <= k < p.len() && p[k] == f;
    assert(groups(models)[k] == group_of(models, f));
}

/// No model is in two groups.
pub proof fn groups_are_disjoint(models: Seq<UnassignedView>, a: int, b: int, id: i64)
    requires
        forall|i: int, j: int|
            0 <= i < j < models.len() ==> (#[trigger] models[i]).id != (#[trigger] models[j]).id,
        0 <= a < groups(models).len(),
        0 <= b < groups(models).len(),
        groups(models)[a].ids.contains(id),
        groups(models)[b].ids.contains(id),
    ensures
        a == b,
{
    let p = project_folders(models, folders(models));
    lemma_folders_distinct(models);
    lemma_project_folders(models, folders(models));
    assert(groups(models)[a].ids == ids_in(models, p[a]));
    assert(groups(models)[b].ids == ids_in(models, p[b]));
    let i = choose|i: int| 0 <= i < ids_in(models, p[a]).len() && ids_in(models, p[a])[i] == id;
    let j = choose|j: int| 0 <= j < ids_in(models, p[b]).len() && ids_in(models, p[b])[j] == id;
    lemma_ids_in(models, p[a], i);
    lemma_ids_in(models, p[b], j);
    let x = choose|x: int|
        0 <= x < models.len() && (#[trigger] models[x]).folder == p[a] && models[x].id == id;
    let y = choose|y: int|
        0 <= y < models.len() && (#[trigger] models[y]).folder == p[b] && models[y].id == id;
    assert(x == y);
}

/// Every grouped model lies in a folder below a category.
pub proof fn grouped_models_lie_below_a_category(models: Seq<UnassignedView>, k: int, id: i64)
    requires
        0 <= k < groups(models).len(),
        groups(models)[k].ids.contains(id),
    ensures
        exists|j: int|
            0 <= j < models.len() && (#[trigger] models[j]).id == id && depth(models[j].folder)
                >= 2,
{
    let p = project_folders(models, folders(models));
    lemma_project_folders(models, folders(models));
    assert(makes_project(models, p[k]));
    assert(groups(models)[k].ids == ids_in(models, p[k]));
    let i = choose|i: int| 0 <= i < ids_in(models, p[k]).len() && ids_in(models, p[k])[i] == id;
    lemma_ids_in(models, p[k], i);
}

/// The models of the groups of folders are among those of the folders.
proof fn lemma_assigned_bound(models: Seq<UnassignedView>, fs: Seq<Seq<char>>)
    ensures
        assigned(groups_of(models, project_folders(models, fs))) <= total(models, fs),
    decreases fs.len(),
{
    if fs.len() > 0 {
        let rest = fs.drop_last();
        lemma_assigned_bound(models, rest);
        let gs = groups_of(models, project_folders(models, fs));
        let before = groups_of(models, project_folders(models, rest));
        if makes_project(models, fs.last()) {
            assert(gs.drop_last() =~= before);
            assert(gs.last() == group_of(models, fs.last()));
        }
    }
}

/// Whether one of the groups has that model.
pub open spec fn is_grouped(gs: Seq<ProjectGroupView>, id: i64) -> bool {
    exists|k: int| 0 <= k < gs.len() && (#[trigger] gs[k]).ids.contains(id)
}

/// The models that groups leave without a project.
pub open spec fn left(models: Seq<UnassignedView>, gs: Seq<ProjectGroupView>) -> Seq<
    UnassignedView,
>
    decreases models.len(),
{
    if models.len() == 0 {
        Seq::empty()
    } else if is_grouped(gs, models.last().id) {
        left(models.drop_last(), gs)
    } else {
        left(models.drop_last(), gs).push(models.last())
    }
}

/// Of the models in a folder no more are left than there were, and none that a group has.
proof fn lemma_left_ids(models: Seq<UnassignedView>, gs: Seq<ProjectGroupView>, f: Seq<char>)
    ensures
        ids_in(left(models, gs), f).len() <= ids_in(models, f).len(),
        forall|k: int|
            0 <= k < ids_in(left(models, gs), f).len() ==> !is_grouped(
                gs,
                #[trigger] ids_in(left(models, gs), f)[k],
            ) && ids_in(models, f).contains(ids_in(left(models, gs), f)[k]),
    decreases models.len(),
{
    if models.len() > 0 {
        let rest = models.drop_last();
        lemma_left_ids(rest, gs, f);
        let before = ids_in(left(rest, gs), f);
        let after = ids_in(left(models, gs), f);
        let all = ids_in(models, f);
        let last = models.last();
        assert(left(rest, gs).push(last).drop_last() =~= left(rest, gs));
        assert forall|k: int| 0 <= k < after.len() implies !is_grouped(gs, #[trigger] after[k])
            && all.contains(after[k]) by {
            if k < before.len() {
                assert(after[k] == before[k]);
                assert(ids_in(rest, f).contains(before[k]));
                let j = choose|j: int|
                    0 <= j < ids_in(rest, f).len() && ids_in(rest, f)[j] == before[k];
                assert(all[j] == before[k]);
            } else {
                assert(all[all.len() - 1] == after[k]);
            }
        }
    }
}

/// Grouping what an earlier grouping left finds nothing.
pub proof fn grouping_is_done_once(models: Seq<UnassignedView>)
    ensures
        groups(left(models, groups(models))).len() == 0,
{
    let gs = groups(models);
    let rest = left(models, gs);
    if groups(rest).len() > 0 {
        group_is_a_shared_folder(rest, 0);
        let f = choose|f: Seq<char>|
            #[trigger] makes_project(rest, f) && groups(rest)[0] == group_of(rest, f);
        lemma_left_ids(models, gs, f);
        assert(makes_project(models, f));
        shared_folder_is_a_group(models, f);
        let k = choose|k: int| 0 <= k < gs.len() && gs[k] == group_of(models, f);
        let id = ids_in(rest, f)[0];
        assert(gs[k].ids.contains(id));
        assert(is_grouped(gs, id));
    }
}

/// No more models are assigned than there are.
pub proof fn assigned_models_are_among_the_models(models: Seq<UnassignedView>)
    ensures
        assigned(groups(models)) <= models.len(),
{
    lemma_folders_distinct(models);
    lemma_total_bound(models, folders(models));
    lemma_assigned_bound(models, folders(models));
}

// ---------------------------------------------------------------------------------------
// Which folders are grouped
// ---------------------------------------------------------------------------------------

proof fn lemma_filled(pieces: Seq<Seq<char>>)
    ensures
        filled(pieces) == text::nonempty_only(pieces).len(),
    decreases pieces.len(),
{
    reveal(Seq::filter);
    if pieces.len() > 0 {
        lemma_filled(pieces.drop_last());
    }
}

proof fn lemma_filled_add(a: Seq<Seq<char>>, b: Seq<Seq<char>>)
    ensures
        filled(a + b) == filled(a) + filled(b),
    decreases b.len(),
{
    if b.len() == 0 {
        assert(a + b =~= a);
    } else {
        assert((a + b).drop_last() =~= a + b.drop_last());
        lemma_filled_add(a, b.drop_last());
    }
}

/// The segments of a folder are those of its parts: a folder below another one has the segments
/// of both, and a name without a slash is one segment, if there is anything in it.
pub proof fn segments_add_up(a: Seq<char>, b: Seq<char>)
    ensures
        depth(a.push('/') + b) == depth(a) + depth(b),
        a.len() == 0 ==> depth(a) == 0,
        a.len() > 0 && !a.contains('/') ==> depth(a) == 1,
{
    text::lemma_split_below(a, '/', b, CharSet::Slash);
    lemma_filled_add(text::split(a, CharSet::Slash), text::split(b, CharSet::Slash));
    if !a.contains('/') {
        let clean = |c: char| !CharSet::Slash.has(c);
        assert forall|i: int| 0 <= i < a.len() implies clean(#[trigger] a[i]) by {
            assert(a.contains(a[i]));
        }
        text::lemma_split_absent(a, CharSet::Slash);
        reveal_with_fuel(filled, 2);
        assert(seq![a].drop_last() =~= Seq::<Seq<char>>::empty());
    } else {
        assert(a.len() > 0);
    }
}

proof fn lemma_ids_positions(models: Seq<UnassignedView>, f: Seq<char>, n: int)
    requires
        0 <= n <= models.len(),
    ensures
        ids_in(models.take(n), f) == lists::positions(
            n,
            |i: int| models[i].folder == f,
        ).map_values(|i: int| models[i].id),
    decreases n,
{
    let p = |i: int| models[i].folder == f;
    let id = |i: int| models[i].id;
    if n > 0 {
        lemma_ids_positions(models, f, n - 1);
        assert(models.take(n).drop_last() =~= models.take(n - 1));
        let rest = lists::positions(n - 1, p);
        assert(rest.push(n - 1).map_values(id) =~= rest.map_values(id).push(models[n - 1].id));
    } else {
        assert(lists::positions(0, p).map_values(id) =~= Seq::<i64>::empty());
    }
}

/// A folder of two segments or more, however deep it lies, that holds at least two models and
/// gives a name has a group: under that name, with exactly the models of the folder, in their
/// order.
pub proof fn deep_folders_are_grouped(models: Seq<UnassignedView>, f: Seq<char>, i: int, j: int)
    requires
        0 <= i < j < models.len(),
        models[i].folder == f,
        models[j].folder == f,
        text::nonempty_only(text::split(f, CharSet::Slash)).len() >= 2,
        project_name(f).len() > 0,
    ensures
        exists|k: int|
            0 <= k < groups(models).len() && (#[trigger] groups(models)[k]).name == project_name(f)
                && groups(models)[k].ids == lists::positions(
                models.len() as int,
                |x: int| models[x].folder == f,
            ).map_values(|x: int| models[x].id),
{
    let n = models.len() as int;
    let p = |x: int| models[x].folder == f;
    let all = lists::positions(n, p);
    lists::positions_are_all(n, p);
    assert(p(i) && p(j));
    assert(all.contains(i) && all.contains(j));
    let a = choose|a: int| 0 <= a < all.len() && all[a] == i;
    let b = choose|b: int| 0 <= b < all.len() && all[b] == j;
    assert(a != b);
    lemma_ids_positions(models, f, n);
    assert(models.take(n) =~= models);
    lemma_filled(text::split(f, CharSet::Slash));
    assert(makes_project(models, f));
    shared_folder_is_a_group(models, f);
    let k = choose|k: int| 0 <= k < groups(models).len() && groups(models)[k] == group_of(models, f);
    assert(groups(models)[k].name == project_name(f));
}

/// There is no other group: each one holds exactly the models of a folder of two segments or
/// more, two of them at least, under the name of the folder, which is not empty.
pub proof fn only_deep_folders_are_grouped(models: Seq<UnassignedView>, k: int) -> (f: Seq<char>)
    requires
        0 <= k < groups(models).len(),
    ensures
        groups(models)[k].name == project_name(f),
        groups(models)[k].name.len() > 0,
        groups(models)[k].ids.len() >= 2,
        groups(models)[k].ids == lists::positions(
            models.len() as int,
            |x: int| models[x].folder == f,
        ).map_values(|x: int| models[x].id),
        text::nonempty_only(text::split(f, CharSet::Slash)).len() >= 2,
{
    group_is_a_shared_folder(models, k);
    let f = choose|f: Seq<char>|
        #[trigger] makes_project(models, f) && groups(models)[k] == group_of(models, f);
    lemma_ids_positions(models, f, models.len() as int);
    assert(models.take(models.len() as int) =~= models);
    lemma_filled(text::split(f, CharSet::Slash));
    f
}

/// No two groups are of the same models: there is one group for a folder.
pub proof fn folders_are_grouped_once(models: Seq<UnassignedView>, a: int, b: int)
    requires
        forall|i: int, j: int|
            0 <= i < j < models.len() ==> (#[trigger] models[i]).id != (#[trigger] models[j]).id,
        0 <= a < groups(models).len(),
        0 <= b < groups(models).len(),
        groups(models)[a].ids == groups(models)[b].ids,
    ensures
        a == b,
{
    group_is_a_shared_folder(models, a);
    let id = groups(models)[a].ids[0];
    assert(groups(models)[a].ids.contains(id));
    groups_are_disjoint(models, a, b, id);
}

/// How many models are assigned is what the groups hold, one after another.
pub proof fn assigned_models_add_up(a: Seq<ProjectGroupView>, g: ProjectGroupView)
    ensures
        assigned(a.push(g)) == assigned(a) + g.ids.len(),
        assigned(Seq::empty()) == 0,
{
    assert(a.push(g).drop_last() =~= a);
}

/// The models in folders below one more folder.
pub open spec fn below(parent: Seq<char>, models: Seq<UnassignedView>) -> Seq<UnassignedView> {
    models.map_values(
        |m: UnassignedView| UnassignedView { id: m.id, folder: parent.push('/') + m.folder },
    )
}

proof fn lemma_ids_below(parent: Seq<char>, models: Seq<UnassignedView>, f: Seq<char>)
    ensures
        ids_in(below(parent, models), parent.push('/') + f) == ids_in(models, f),
    decreases models.len(),
{
    if models.len() > 0 {
        lemma_ids_below(parent, models.drop_last(), f);
        assert(below(parent, models).drop_last() =~= below(parent, models.drop_last()));
        let g = models.last().folder;
        let head = parent.push('/');
        if head + g == head + f {
            assert((head + g).skip(head.len() as int) =~= g);
            assert((head + f).skip(head.len() as int) =~= f);
        }
    }
}

proof fn lemma_trim_end_slashes(x: Seq<char>, b: Seq<char>)
    requires
        x.len() > 0,
        x.last() != '/',
        forall|i: int| 0 <= i < b.len() ==> #[trigger] b[i] == '/',
    ensures
        text::trim_end(x + b, CharSet::Slash) == x,
    decreases b.len(),
{
    if b.len() == 0 {
        assert(x + b =~= x);
    } else {
        assert((x + b).last() == b[b.len() - 1]);
        assert((x + b).drop_last() =~= x + b.drop_last());
        lemma_trim_end_slashes(x, b.drop_last());
    }
}

proof fn lemma_deepest_form(a: Seq<char>, seg: Seq<char>, b: Seq<char>)
    requires
        a.len() == 0 || a.last() == '/',
        seg.len() > 0,
        text::all_chars(seg, |c: char| !CharSet::Slash.has(c)),
        forall|i: int| 0 <= i < b.len() ==> #[trigger] b[i] == '/',
    ensures
        deepest(a + seg + b) == seg,
    decreases a.len(),
{
    let s = a + seg + b;
    let clean = |c: char| !CharSet::Slash.has(c);
    assert(clean(seg[0]));
    assert(clean(seg[seg.len() - 1]));
    if a.len() > 0 && a[0] == '/' {
        assert(s[0] == '/');
        assert(s.skip(1) =~= a.skip(1) + seg + b);
        lemma_deepest_form(a.skip(1), seg, b);
    } else {
        if a.len() == 0 {
            assert(s[0] == seg[0]);
        } else {
            assert(s[0] == a[0]);
        }
        assert(text::trim_start(s, CharSet::Slash) == s);
        lemma_trim_end_slashes(a + seg, b);
        if a.len() == 0 {
            assert(a + seg =~= seg);
            text::lemma_split_absent(seg, CharSet::Slash);
        } else {
            assert(a + seg =~= a.drop_last().push('/') + seg);
            text::lemma_split_push(a.drop_last(), '/', seg, CharSet::Slash);
        }
    }
}

/// Where a folder has a character that is no slash, it ends in a segment and slashes.
proof fn lemma_folder_form(f: Seq<char>) -> (r: (Seq<char>, Seq<char>, Seq<char>))
    requires
        exists|i: int| 0 <= i < f.len() && #[trigger] f[i] != '/',
    ensures
        f == r.0 + r.1 + r.2,
        r.0.len() == 0 || r.0.last() == '/',
        r.1.len() > 0,
        text::all_chars(r.1, |c: char| !CharSet::Slash.has(c)),
        forall|i: int| 0 <= i < r.2.len() ==> #[trigger] r.2[i] == '/',
    decreases f.len(),
{
    let i = choose|i: int| 0 <= i < f.len() && #[trigger] f[i] != '/';
    let rest = f.drop_last();
    let clean = |c: char| !CharSet::Slash.has(c);
    if f.last() == '/' {
        assert(rest[i] != '/');
        let (a, seg, b) = lemma_folder_form(rest);
        assert(f =~= rest.push('/'));
        assert(rest.push('/') =~= a + seg + b.push('/'));
        (a, seg, b.push('/'))
    } else {
        let n = f.len() as int;
        let last = f[n - 1];
        let none = Seq::<char>::empty();
        if n == 1 || f[n - 2] == '/' {
            let seg = seq![last];
            assert(clean(seg[0]));
            assert(f =~= rest + seg + none);
            (rest, seg, none)
        } else {
            assert(rest[n - 2] != '/');
            let (a, seg, b) = lemma_folder_form(rest);
            if b.len() > 0 {
                assert(rest[n - 2] == b[b.len() - 1]);
            }
            assert(b =~= none);
            assert(f =~= rest.push(last));
            assert(rest.push(last) =~= a + seg.push(last) + none);
            assert forall|k: int| 0 <= k < seg.push(last).len() implies clean(
                #[trigger] seg.push(last)[k],
            ) by {
                if k < seg.len() {
                    assert(clean(seg[k]));
                }
            }
            (a, seg.push(last), none)
        }
    }
}

proof fn lemma_blank_folder(f: Seq<char>)
    requires
        forall|i: int| 0 <= i < f.len() ==> #[trigger] f[i] == '/',
    ensures
        text::trim(f, CharSet::Slash).len() == 0,
    decreases f.len(),
{
    let (i, j) = text::trimming_takes_the_ends(f, CharSet::Slash);
    if i < j {
        assert(f[i] == '/');
    }
}

/// A folder without a segment gives no name.
proof fn lemma_no_segment_no_name(f: Seq<char>)
    requires
        forall|i: int| 0 <= i < f.len() ==> #[trigger] f[i] == '/',
    ensures
        project_name(f).len() == 0,
{
    lemma_blank_folder(f);
    let e = Seq::<char>::empty();
    assert(text::trim(f, CharSet::Slash) =~= e);
    text::lemma_split_absent(e, CharSet::Slash);
    assert(deepest(f) == e);
    lemma_plain_name(e);
    text::lemma_trim_absent(e, CharSet::Slash);
    assert(deepest(e) == e);
    text::white_space_parts_words(e, ' ', e);
    assert(titled_all(text::words(e)) =~= Seq::<Seq<char>>::empty());
}

/// Slashes behind a folder, and the folders that it lies in, do not change the name of its
/// project.
pub proof fn place_does_not_change_the_name(a: Seq<char>, segment: Seq<char>, slashes: Seq<char>)
    requires
        a.len() == 0 || a.last() == '/',
        segment.len() > 0,
        !segment.contains('/'),
        forall|i: int| 0 <= i < slashes.len() ==> #[trigger] slashes[i] == '/',
    ensures
        project_name(a + segment + slashes) == project_name(segment),
{
    let clean = |c: char| !CharSet::Slash.has(c);
    assert forall|i: int| 0 <= i < segment.len() implies clean(#[trigger] segment[i]) by {
        assert(segment.contains(segment[i]));
    }
    lemma_deepest_form(a, segment, slashes);
    let e = Seq::<char>::empty();
    lemma_deepest_form(e, segment, e);
    assert(e + segment + e =~= segment);
}

/// Putting all folders below one more folder loses no group: each one is there again, with the
/// same name and the same models.
pub proof fn one_more_parent_loses_no_group(
    parent: Seq<char>,
    models: Seq<UnassignedView>,
    k: int,
)
    requires
        0 <= k < groups(models).len(),
    ensures
        groups(below(parent, models)).contains(groups(models)[k]),
{
    group_is_a_shared_folder(models, k);
    let f = choose|f: Seq<char>|
        #[trigger] makes_project(models, f) && groups(models)[k] == group_of(models, f);
    let head = parent.push('/');
    let g = head + f;
    segments_add_up(parent, f);
    lemma_ids_below(parent, models, f);
    if forall|i: int| 0 <= i < f.len() ==> #[trigger] f[i] == '/' {
        lemma_no_segment_no_name(f);
    }
    let (a, seg, b) = lemma_folder_form(f);
    lemma_deepest_form(a, seg, b);
    lemma_deepest_form(head + a, seg, b);
    assert(head + a + seg + b =~= g);
    assert(project_name(g) == project_name(f));
    assert(makes_project(below(parent, models), g));
    shared_folder_is_a_group(below(parent, models), g);
}

// ---------------------------------------------------------------------------------------
// What a name is made of
// ---------------------------------------------------------------------------------------

proof fn lemma_last_match_is(s: Seq<char>, pat: Seq<char>, i: int)
    requires
        text::matches_at(s, pat, i),
        forall|j: int| i < j <= s.len() ==> !text::matches_at(s, pat, j),
    ensures
        text::last_match(s, pat) == Some(i),
{
    text::the_last_place_is_found(s, pat, i);
    text::lemma_last_match(s, pat, s.len() as int);
}

/// The number that model sites put behind a name goes, with what stands between: a space, a
/// dash and a space, a dash and a space, or an underscore. Behind an underscore it has four to
/// eight digits, or stays.
pub proof fn site_numbers_go(name: Seq<char>, number: Seq<char>)
    requires
        !name.contains('-'),
        !name.contains('_'),
        number.len() > 0,
        text::all_digits(number),
    ensures
        without_id(name) == name,
        without_id(name + " - "@ + number) == name,
        name.len() == 0 || name.last() != ' ' ==> without_id(name + "- "@ + number) == name,
        4 <= number.len() <= 8 ==> without_id(name + "_"@ + number) == name,
        number.len() < 4 || number.len() > 8 ==> without_id(name + "_"@ + number) == name + "_"@
            + number,
{
    reveal_strlit("- ");
    reveal_strlit(" - ");
    reveal_strlit("_");
    let n = name.len() as int;
    text::lemma_last_match_absent(name, "- "@, n);
    text::lemma_last_match_absent(name, "_"@, n);

    let a = name + " - "@ + number;
    assert(a.subrange(n + 1, n + 3) =~= "- "@);
    assert forall|j: int| n + 1 < j <= a.len() implies !text::matches_at(a, "- "@, j) by {
        if text::matches_at(a, "- "@, j) {
            assert(a.subrange(j, j + 2)[0] == a[j]);
            if j >= n + 3 {
                assert(a[j] == number[j - n - 3]);
            }
        }
    }
    lemma_last_match_is(a, "- "@, n + 1);
    assert(a.skip(n + 3) =~= number);
    assert(a[n] == ' ');
    assert(a.take(n) =~= name);

    let b = name + "- "@ + number;
    assert(b.subrange(n, n + 2) =~= "- "@);
    assert forall|j: int| n < j <= b.len() implies !text::matches_at(b, "- "@, j) by {
        if text::matches_at(b, "- "@, j) {
            assert(b.subrange(j, j + 2)[0] == b[j]);
            if j >= n + 2 {
                assert(b[j] == number[j - n - 2]);
            }
        }
    }
    lemma_last_match_is(b, "- "@, n);
    assert(b.skip(n + 2) =~= number);
    assert(b.take(n) =~= name);
    if n > 0 {
        assert(b[n - 1] == name[n - 1]);
    }

    let c = name + "_"@ + number;
    assert(!c.contains('-')) by {
        if c.contains('-') {
            let i = choose|i: int| 0 <= i < c.len() && c[i] == '-';
            if i < n {
                assert(name[i] == '-');
            } else if i > n {
                assert(number[i - n - 1] == '-');
            }
        }
    }
    text::lemma_last_match_absent(c, "- "@, c.len() as int);
    assert(c.subrange(n, n + 1) =~= "_"@);
    assert forall|j: int| n < j <= c.len() implies !text::matches_at(c, "_"@, j) by {
        if text::matches_at(c, "_"@, j) {
            assert(c.subrange(j, j + 1)[0] == c[j]);
            assert(c[j] == number[j - n - 1]);
        }
    }
    lemma_last_match_is(c, "_"@, n);
    assert(c.skip(n + 1) =~= number);
    assert(c.take(n) =~= name);
}

/// A text that does not end in a number keeps its end.
pub proof fn other_ends_stay(s: Seq<char>)
    requires
        s.len() > 0,
        !('0' <= s.last() <= '9'),
        s.last() != ' ',
    ensures
        without_id(s) == s,
{
    reveal_strlit("- ");
    reveal_strlit("_");
    let n = s.len() as int;
    text::lemma_last_match(s, "- "@, n);
    match text::last_match(s, "- "@) {
        Some(i) => {
            assert(s.subrange(i, i + 2)[1] == s[i + 1]);
            let tail = s.skip(i + 2);
            assert(tail.len() > 0);
            assert(tail[tail.len() - 1] == s[n - 1]);
        },
        None => {},
    }
    text::lemma_last_match(s, "_"@, n);
    match text::last_match(s, "_"@) {
        Some(i) => {
            let tail = s.skip(i + 1);
            if tail.len() > 0 {
                assert(tail[tail.len() - 1] == s[n - 1]);
            }
        },
        None => {},
    }
}

/// Each of the endings that folders of model files have goes.
pub proof fn file_endings_go(name: Seq<char>)
    requires
        !name.contains('_'),
    ensures
        without_files_suffix(name) == name,
        without_files_suffix(name + "_model_files"@) == name,
        without_files_suffix(name + "_stl_files"@) == name,
        without_files_suffix(name + "_files"@) == name,
        without_files_suffix(name + "_stls"@) == name,
        without_files_suffix(name + "_3d"@) == name,
{
    reveal_strlit("_model_files");
    reveal_strlit("_stl_files");
    reveal_strlit("_files");
    reveal_strlit("_stls");
    reveal_strlit("_3d");
    let (m, s, f, t, d) = ("_model_files"@, "_stl_files"@, "_files"@, "_stls"@, "_3d"@);
    text::lemma_suffix_absent(name, m);
    text::lemma_suffix_absent(name, s);
    text::lemma_suffix_absent(name, f);
    text::lemma_suffix_absent(name, t);
    text::lemma_suffix_absent(name, d);
    text::suffixes_are_taken_off(name, m);
    text::suffixes_are_taken_off(name, s);
    text::suffixes_are_taken_off(name, f);
    text::suffixes_are_taken_off(name, t);
    text::suffixes_are_taken_off(name, d);
    lemma_other_end(name, s, m);
    lemma_other_end(name, f, m);
    lemma_other_end(name, f, s);
    lemma_other_end(name, t, m);
    lemma_other_end(name, t, s);
    lemma_other_end(name, t, f);
    lemma_other_end(name, d, m);
    lemma_other_end(name, d, s);
    lemma_other_end(name, d, f);
    lemma_other_end(name, d, t);
}

/// An ending stays where another one is taken off that is not its own end.
proof fn lemma_other_end(name: Seq<char>, end: Seq<char>, other: Seq<char>)
    requires
        !name.contains('_'),
        end.len() > 0,
        other.len() > 0,
        other[0] == '_',
        other.len() > end.len() || other.last() != end.last(),
    ensures
        text::trim_suffixes(name + end, other) == name + end,
{
    let s = name + end;
    if other.is_suffix_of(s) {
        let at = s.len() - other.len();
        let tail = s.subrange(at, s.len() as int);
        assert(tail == other);
        assert(tail[0] == s[at]);
        assert(tail[other.len() - 1] == s[s.len() - 1]);
        if other.len() > end.len() {
            assert(s[at] == name[at]);
            assert(name.contains('_'));
        }
    }
}

/// Dashes and underscores part words as spaces do.
pub proof fn separators_part_words(a: Seq<char>, sep: char, b: Seq<char>)
    requires
        sep == '-' || sep == '_' || sep == ' ',
    ensures
        text::words(spaced(a.push(sep) + b)) == text::words(spaced(a)) + text::words(spaced(b)),
        (forall|i: int| 0 <= i < a.len() ==> #[trigger] a[i] != '-' && a[i] != '_') ==> spaced(a)
            == a,
{
    assert(spaced(a.push(sep) + b) =~= spaced(a).push(' ') + spaced(b));
    text::white_space_parts_words(spaced(a), ' ', spaced(b));
    if forall|i: int| 0 <= i < a.len() ==> #[trigger] a[i] != '-' && a[i] != '_' {
        assert(spaced(a) =~= a);
    }
}

/// The name of a folder of one segment, where nothing is to be stripped of it, is all its
/// words, each with a capital letter, and with spaces between them.
pub proof fn names_hold_every_word(segment: Seq<char>)
    requires
        !segment.contains('/'),
        without_id(segment) == segment,
        without_files_suffix(segment) == segment,
    ensures
        ({
            let ws = text::words(spaced(segment));
            project_name(segment) == text::join(
                Seq::new(ws.len(), |i: int| titled(ws[i])),
                ' ',
            )
        }),
{
    let clean = |c: char| !CharSet::Slash.has(c);
    assert forall|i: int| 0 <= i < segment.len() implies clean(#[trigger] segment[i]) by {
        assert(segment.contains(segment[i]));
    }
    text::lemma_trim_absent(segment, CharSet::Slash);
    text::lemma_split_absent(segment, CharSet::Slash);
    let ws = text::words(spaced(segment));
    assert(titled_all(ws) =~= Seq::new(ws.len(), |i: int| titled(ws[i])));
}

/// What is stripped of a segment is stripped of the name: only what is left names the project.
pub proof fn stripped_segments_name_the_project(segment: Seq<char>)
    requires
        !segment.contains('/'),
        ({
            let rest = without_files_suffix(without_id(segment));
            without_files_suffix(without_id(rest)) == rest
        }),
    ensures
        project_name(segment) == project_name(without_files_suffix(without_id(segment))),
{
    let clean = |c: char| !CharSet::Slash.has(c);
    let rest = without_files_suffix(without_id(segment));
    assert forall|i: int| 0 <= i < segment.len() implies clean(#[trigger] segment[i]) by {
        assert(segment.contains(segment[i]));
    }
    lemma_stripped_chars(segment, clean);
    text::lemma_trim_absent(segment, CharSet::Slash);
    text::lemma_split_absent(segment, CharSet::Slash);
    text::lemma_trim_absent(rest, CharSet::Slash);
    text::lemma_split_absent(rest, CharSet::Slash);
}

/// Of an ASCII word the first letter becomes a capital one, and the others become small; a word
/// of at most four capital letters and digits stays.
pub proof fn words_get_one_capital(w: Seq<char>, i: int)
    requires
        forall|k: int| 0 <= k < w.len() ==> #[trigger] w[k] <= '\u{7f}',
        0 <= i < w.len(),
    ensures
        ({
            let short = w.len() <= 4 && forall|k: int|
                0 <= k < w.len() ==> 'A' <= #[trigger] w[k] <= 'Z' || '0' <= w[k] <= '9';
            let t = titled(w)[i];
            &&& titled(w).len() == w.len()
            &&& short ==> t == w[i]
            &&& !short && i == 0 && 'a' <= w[i] <= 'z' ==> t as int == w[i] as int - 32
            &&& !short && i == 0 && !('a' <= w[i] <= 'z') ==> t == w[i]
            &&& !short && i > 0 && 'A' <= w[i] <= 'Z' ==> t as int == w[i] as int + 32
            &&& !short && i > 0 && !('A' <= w[i] <= 'Z') ==> t == w[i]
        }),
{
    let rest = w.skip(1);
    assert(utf8::is_ascii_chars(rest)) by {
        assert forall|k: int| 0 <= k < rest.len() implies '\0' <= #[trigger] rest[k] <= '\u{7f}' by {
            assert(rest[k] == w[k + 1]);
            lemma_least_char(rest[k]);
        }
    }
    if !(w.len() <= 4 && all_capitals(w)) && i > 0 {
        assert(titled(w)[i] == text::ascii_small(rest[i - 1]));
    }
}

/// Behind a space, a dash and a space the number may be missing, but not behind a dash and a
/// space alone.
pub proof fn missing_numbers_go_too(name: Seq<char>)
    requires
        !name.contains('-'),
        !name.contains('_'),
    ensures
        without_id(name + " - "@) == name,
        name.len() == 0 || name.last() != ' ' ==> without_id(name + "- "@) == name + "- "@,
{
    reveal_strlit("- ");
    reveal_strlit(" - ");
    reveal_strlit("_");
    let n = name.len() as int;
    text::lemma_last_match_absent(name, "_"@, n);

    let a = name + " - "@;
    assert(a.subrange(n + 1, n + 3) =~= "- "@);
    assert(text::matches_at(a, "- "@, n + 1));
    assert forall|j: int| n + 1 < j <= a.len() implies !text::matches_at(a, "- "@, j) by {
    }
    lemma_last_match_is(a, "- "@, n + 1);
    assert(a[n] == ' ');
    assert(a.take(n) =~= name);

    let b = name + "- "@;
    assert(b.subrange(n, n + 2) =~= "- "@);
    assert(text::matches_at(b, "- "@, n));
    assert forall|j: int| n < j <= b.len() implies !text::matches_at(b, "- "@, j) by {
    }
    lemma_last_match_is(b, "- "@, n);
    if n > 0 {
        assert(b[n - 1] == name[n - 1]);
    }
    assert(!b.contains('_')) by {
        if b.contains('_') {
            let i = choose|i: int| 0 <= i < b.len() && b[i] == '_';
            if i < n {
                assert(name[i] == '_');
            }
        }
    }
    text::lemma_last_match_absent(b, "_"@, b.len() as int);
}

proof fn lemma_differs(s: Seq<char>, other: Seq<char>, back: int)
    requires
        0 < back <= s.len(),
        back <= other.len(),
        s[s.len() - back] != other[other.len() - back],
    ensures
        text::trim_suffixes(s, other) == s,
{
    if other.is_suffix_of(s) {
        let tail = s.subrange(s.len() - other.len(), s.len() as int);
        assert(tail == other);
        assert(tail[other.len() - back] == s[s.len() - back]);
    }
}

/// An ending that stands there more than once goes as often, and one behind which another went
/// goes too, if its turn comes later.
pub proof fn endings_go_one_after_another(name: Seq<char>)
    requires
        !name.contains('_'),
    ensures
        without_files_suffix(name + "_files"@ + "_files"@) == name,
        without_files_suffix(name + "_3d"@ + "_files"@) == name,
        without_files_suffix(name + "_stls"@ + "_files"@) == name,
        without_files_suffix(name + "_files"@ + "_3d"@) == name + "_files"@,
{
    reveal_strlit("_model_files");
    reveal_strlit("_stl_files");
    reveal_strlit("_files");
    reveal_strlit("_stls");
    reveal_strlit("_3d");
    let (m, s, f, t, d) = ("_model_files"@, "_stl_files"@, "_files"@, "_stls"@, "_3d"@);
    text::lemma_suffix_absent(name, f);
    text::lemma_suffix_absent(name, t);
    text::lemma_suffix_absent(name, d);
    let twice = name + f + f;
    lemma_differs(twice, m, 7);
    lemma_differs(twice, s, 7);
    text::suffixes_are_taken_off(name + f, f);
    text::suffixes_are_taken_off(name, f);
    let after_d = name + d + f;
    lemma_differs(after_d, m, 7);
    lemma_differs(after_d, s, 7);
    text::suffixes_are_taken_off(name + d, f);
    lemma_differs(name + d, f, 1);
    lemma_differs(name + d, t, 1);
    text::suffixes_are_taken_off(name, d);
    let after_t = name + t + f;
    lemma_differs(after_t, m, 7);
    lemma_differs(after_t, s, 7);
    text::suffixes_are_taken_off(name + t, f);
    lemma_differs(name + t, f, 2);
    text::suffixes_are_taken_off(name, t);
    let before_d = name + f + d;
    lemma_differs(before_d, m, 1);
    lemma_differs(before_d, s, 1);
    lemma_differs(before_d, f, 1);
    lemma_differs(before_d, t, 1);
    text::suffixes_are_taken_off(name + f, d);
    lemma_differs(name + f, d, 1);
}

/// Every other word, of whatever letters, starts with the capital letters of its first character
/// and goes on with the small letters of the rest.
pub proof fn words_start_with_capitals(w: Seq<char>, i: int)
    requires
        w.len() > 0,
        0 <= i < w.len(),
        w.len() > 4 || !('A' <= w[i] <= 'Z' || '0' <= w[i] <= '9'),
    ensures
        titled(w) == unicode::uppercase(w[0]) + unicode::lowercase(w.skip(1)),
{
    assert(w.len() <= 4 ==> !all_capitals(w));
}

} // verus!
