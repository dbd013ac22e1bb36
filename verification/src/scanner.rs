//! Model files on disk and the rows they are indexed as.

use vstd::prelude::*;
use vstd::utf8;

use crate::db::{ModelRow, ModelRowView};
use crate::formats::stl::{StlMeta, StlMetaView};
use crate::formats::threemf::{ThreeMfMeta, ThreeMfMetaView};
use crate::lists;
use crate::numbers;
use crate::paths;
use crate::text;
use crate::unicode;

verus! {

/// How many files were found, indexed and failed.
pub struct ScanStats {
    pub scanned: usize,
    pub inserted: usize,
    pub errors: usize,
}

impl ScanStats {
    /// Every file that was scanned was indexed or failed.
    pub open spec fn wf(&self) -> bool {
        self.scanned == self.inserted + self.errors
    }

    /// The counts before the first file.
    pub fn new() -> (r: ScanStats)
        ensures
            r.wf(),
            r.scanned == 0,
            r.inserted == 0,
            r.errors == 0,
    {
        ScanStats { scanned: 0, inserted: 0, errors: 0 }
    }

    /// Counts one more file.
    pub fn record(&mut self, indexed: bool)
        requires
            old(self).wf(),
            old(self).scanned < usize::MAX,
        ensures
            final(self).wf(),
            final(self).scanned == old(self).scanned + 1,
            final(self).inserted == old(self).inserted + (if indexed {
                1int
            } else {
                0
            }),
            final(self).errors == old(self).errors + (if indexed {
                0int
            } else {
                1
            }),
    {
        self.scanned = self.scanned + 1;
        if indexed {
            self.inserted = self.inserted + 1;
        } else {
            self.errors = self.errors + 1;
        }
    }
}

/// The formats that are indexed.
#[derive(Clone, Copy, PartialEq, Eq, Structural, Debug)]
pub enum Format {
    ThreeMf,
    Stl,
}

/// The format of a file, by its extension.
pub open spec fn format_of(path: Seq<char>) -> Option<Format> {
    match paths::extension(path) {
        Some(e) => if unicode::lowercase(e) == "3mf"@ {
            Some(Format::ThreeMf)
        } else if unicode::lowercase(e) == "stl"@ {
            Some(Format::Stl)
        } else {
            None
        },
        None => None,
    }
}

/// Finds the format of a file with that extension in small letters.
pub fn find_format_of_extension(small: &str) -> (r: Option<Format>)
    ensures
        r == (if small@ == "3mf"@ {
            Some(Format::ThreeMf)
        } else if small@ == "stl"@ {
            Some(Format::Stl)
        } else {
            None
        }),
{
    if text::same(small, "3mf") {
        Some(Format::ThreeMf)
    } else if text::same(small, "stl") {
        Some(Format::Stl)
    } else {
        None
    }
}

/// Finds the format of a file, by its extension.
pub fn find_format(path: &str) -> (r: Option<Format>)
    ensures
        r == format_of(path@),
{
    match paths::find_extension(path) {
        Some(e) => find_format_of_extension(e.as_str().to_lowercase().as_str()),
        None => None,
    }
}

/// A file to index, by its position among the files, and its format.
#[derive(Clone, Copy, PartialEq, Eq, Structural, Debug)]
pub struct ModelFound {
    pub file: usize,
    pub format: Format,
}

/// The files among the first `n` that are indexed, and their formats.
pub open spec fn models_among(files: Seq<Seq<char>>, n: nat) -> Seq<(int, Format)>
    decreases n,
{
    if n == 0 {
        Seq::empty()
    } else {
        let rest = models_among(files, (n - 1) as nat);
        match format_of(files[n - 1]) {
            Some(f) => rest.push((n - 1, f)),
            None => rest,
        }
    }
}

/// The positions and formats behind a list.
pub open spec fn found_views(v: Seq<ModelFound>) -> Seq<(int, Format)> {
    v.map_values(|m: ModelFound| (m.file as int, m.format))
}

/// Finds the files that are indexed, and their formats.
pub fn scan(files: &[String]) -> (r: Vec<ModelFound>)
    ensures
        found_views(r@) == models_among(text::texts(files@), files@.len()),
        forall|k: int| 0 <= k < r@.len() ==> (#[trigger] r@[k]).file < files@.len(),
{
    let ghost fs = text::texts(files@);
    let mut out: Vec<ModelFound> = Vec::new();
    let mut i: usize = 0;
    assert(found_views(out@) == Seq::<(int, Format)>::empty());
    while i < files.len()
        invariant
            i <= files@.len(),
            fs == text::texts(files@),
            found_views(out@) == models_among(fs, i as nat),
            forall|k: int| 0 <= k < out@.len() ==> (#[trigger] out@[k]).file < files@.len(),
        decreases files@.len() - i,
    {
        let ghost before = out@;
        assert(fs[i as int] == files@[i as int]@);
        match find_format(files[i].as_str()) {
            Some(format) => {
                out.push(ModelFound { file: i, format });
                assert(found_views(out@) =~= found_views(before).push((i as int, format)));
            },
            None => {},
        }
        i = i + 1;
    }
    out
}

/// Tells whether to scan at the start: when asked to, or when no model is known.
pub fn should_scan(rescan: bool, existing: i64) -> (r: bool)
    ensures
        r == (rescan || existing == 0),
{
    rescan || existing == 0
}

/// The folder of a file below the root folder, with a slash before it; a file that is not
/// below it is taken to lie in it.
pub open spec fn folder_of(path: Seq<char>, root: Seq<char>) -> Seq<char> {
    match paths::parent(path) {
        Some(p) => match paths::relative(p, root) {
            Some(rel) => seq!['/'] + rel,
            None => seq!['/'],
        },
        None => seq!['/'],
    }
}

/// Finds the folder of a file below the root folder.
pub fn relative_folder(path: &str, root: &str) -> (r: String)
    ensures
        r@ == folder_of(path@, root@),
{
    let mut out: Vec<char> = Vec::new();
    out.push('/');
    match paths::find_parent(path) {
        Some(p) => match paths::strip_prefix(p.as_str(), root) {
            Some(rel) => {
                text::append_chars(&mut out, text::chars_of(rel.as_str()).as_slice());
            },
            None => {},
        },
        None => {},
    }
    assert(out@ =~= folder_of(path@, root@));
    text::string_of(out.as_slice())
}

/// The FNV-1a hash of bytes.
pub open spec fn fnv(data: Seq<u8>) -> u64
    decreases data.len(),
{
    if data.len() == 0 {
        14695981039346656037
    } else {
        (fnv(data.drop_last()) ^ (data.last() as u64)).wrapping_mul(1099511628211)
    }
}

/// Hashes bytes with FNV-1a.
pub fn fnv1a(data: &[u8]) -> (r: u64)
    ensures
        r == fnv(data@),
{
    let mut h: u64 = 14695981039346656037;
    let mut i: usize = 0;
    assert(data@.take(0) == Seq::<u8>::empty());
    while i < data.len()
        invariant
            i <= data@.len(),
            h == fnv(data@.take(i as int)),
        decreases data@.len() - i,
    {
        assert(data@.take(i + 1).drop_last() == data@.take(i as int));
        h = (h ^ (data[i] as u64)).wrapping_mul(1099511628211);
        i = i + 1;
    }
    assert(data@.take(i as int) == data@);
    h
}

/// The name of the thumbnail of a file: the hash of its path.
pub open spec fn thumb_name(path: Seq<char>) -> Seq<char> {
    numbers::notation(fnv(utf8::encode_utf8(path)) as nat, 16) + ".png"@
}

/// Makes the name of the thumbnail of a file.
pub fn make_thumb_name(path: &str) -> (r: String)
    ensures
        r@ == thumb_name(path@),
{
    let hash = numbers::hex_of_u64(fnv1a(path.as_bytes()));
    let mut out: Vec<char> = text::chars_of(hash.as_str());
    text::append_chars(&mut out, text::chars_of(".png").as_slice());
    text::string_of(out.as_slice())
}

/// Where the gallery serves a thumbnail.
pub open spec fn thumb_url(name: Seq<char>) -> Seq<char> {
    "/thumbs/"@ + name
}

/// Makes the address at which the gallery serves a thumbnail.
pub fn make_thumb_url(name: &str) -> (r: String)
    ensures
        r@ == thumb_url(name@),
{
    let mut out: Vec<char> = text::chars_of("/thumbs/");
    text::append_chars(&mut out, text::chars_of(name).as_slice());
    text::string_of(out.as_slice())
}

/// The dimensions of a model, each as the bits of a double.
#[derive(Clone, Copy, PartialEq, Eq, Structural, Debug)]
pub struct Dims {
    pub x: u64,
    pub y: u64,
    pub z: u64,
}

/// The dimension in one direction, where the dimensions are known.
pub open spec fn dim_x(d: Option<Dims>) -> Option<u64> {
    match d {
        Some(v) => Some(v.x),
        None => None,
    }
}

pub open spec fn dim_y(d: Option<Dims>) -> Option<u64> {
    match d {
        Some(v) => Some(v.y),
        None => None,
    }
}

pub open spec fn dim_z(d: Option<Dims>) -> Option<u64> {
    match d {
        Some(v) => Some(v.z),
        None => None,
    }
}

/// A count as the database keeps it.
pub open spec fn stored_count(n: Option<nat>) -> Option<i64> {
    match n {
        Some(k) => Some(k as i64),
        None => None,
    }
}

/// The row of a 3MF file.
pub open spec fn threemf_row(
    path: Seq<char>,
    root: Seq<char>,
    file_size: i64,
    meta: ThreeMfMetaView,
    dims: Option<Dims>,
) -> ModelRowView {
    ModelRowView {
        id: 0,
        path,
        filename: paths::file_name(path)->0,
        folder: folder_of(path, root),
        format: "3MF"@,
        file_size,
        title: meta.title,
        designer: meta.designer,
        description: meta.description,
        application: meta.application,
        license: meta.license,
        created_at: meta.created_at,
        object_count: stored_count(meta.object_count),
        triangle_count: stored_count(meta.triangle_count),
        dim_x: dim_x(dims),
        dim_y: dim_y(dims),
        dim_z: dim_z(dims),
        thumbnail_path: if meta.thumbnail is Some {
            Some(thumb_url(thumb_name(path)))
        } else {
            None
        },
        project_id: None,
    }
}

fn split_dims(d: Option<Dims>) -> (r: (Option<u64>, Option<u64>, Option<u64>))
    ensures
        r == (dim_x(d), dim_y(d), dim_z(d)),
{
    match d {
        Some(v) => (Some(v.x), Some(v.y), Some(v.z)),
        None => (None, None, None),
    }
}

/// The last part of a path that has one.
fn must_file_name(path: &str) -> (r: String)
    requires
        paths::file_name(path@) is Some,
    ensures
        r@ == paths::file_name(path@)->0,
{
    match paths::find_file_name(path) {
        Some(n) => n,
        None => String::new(),
    }
}

/// Makes the row of a 3MF file.
pub fn index_threemf(
    path: &str,
    root: &str,
    file_size: i64,
    meta: &ThreeMfMeta,
    dims: Option<Dims>,
) -> (r: ModelRow)
    requires
        paths::file_name(path@) is Some,
    ensures
        r@ == threemf_row(path@, root@, file_size, meta@, dims),
{
    let (x, y, z) = split_dims(dims);
    let thumbnail_path: Option<String> = match &meta.thumbnail {
        Some(_) => Some(make_thumb_url(make_thumb_name(path).as_str())),
        None => None,
    };
    let object_count: Option<i64> = match meta.object_count {
        Some(n) => Some(n as i64),
        None => None,
    };
    let triangle_count: Option<i64> = match meta.triangle_count {
        Some(n) => Some(n as i64),
        None => None,
    };
    ModelRow {
        id: 0,
        path: path.to_owned(),
        filename: must_file_name(path),
        folder: relative_folder(path, root),
        format: "3MF".to_owned(),
        file_size,
        title: text::copy_text(&meta.title),
        designer: text::copy_text(&meta.designer),
        description: text::copy_text(&meta.description),
        application: text::copy_text(&meta.application),
        license: text::copy_text(&meta.license),
        created_at: text::copy_text(&meta.created_at),
        object_count,
        triangle_count,
        dim_x: x,
        dim_y: y,
        dim_z: z,
        thumbnail_path,
        project_id: None,
    }
}

/// The row of an STL file.
pub open spec fn stl_row(
    path: Seq<char>,
    root: Seq<char>,
    file_size: i64,
    meta: StlMetaView,
    dims: Option<Dims>,
) -> ModelRowView {
    ModelRowView {
        id: 0,
        path,
        filename: paths::file_name(path)->0,
        folder: folder_of(path, root),
        format: "STL"@,
        file_size,
        title: meta.name,
        designer: None,
        description: None,
        application: meta.header,
        license: None,
        created_at: None,
        object_count: Some(1),
        triangle_count: Some(meta.triangle_count as i64),
        dim_x: dim_x(dims),
        dim_y: dim_y(dims),
        dim_z: dim_z(dims),
        thumbnail_path: None,
        project_id: None,
    }
}

/// Makes the row of an STL file.
pub fn index_stl(
    path: &str,
    root: &str,
    file_size: i64,
    meta: &StlMeta,
    dims: Option<Dims>,
) -> (r: ModelRow)
    requires
        paths::file_name(path@) is Some,
    ensures
        r@ == stl_row(path@, root@, file_size, meta@, dims),
{
    let (x, y, z) = split_dims(dims);
    ModelRow {
        id: 0,
        path: path.to_owned(),
        filename: must_file_name(path),
        folder: relative_folder(path, root),
        format: "STL".to_owned(),
        file_size,
        title: text::copy_text(&meta.name),
        designer: None,
        description: None,
        application: text::copy_text(&meta.header),
        license: None,
        created_at: None,
        object_count: Some(1),
        triangle_count: Some(meta.triangle_count as i64),
        dim_x: x,
        dim_y: y,
        dim_z: z,
        thumbnail_path: None,
        project_id: None,
    }
}

/// A folder starts with a slash, as the rules on grouping models expect.
pub proof fn folders_start_with_a_slash(path: Seq<char>, root: Seq<char>)
    ensures
        folder_of(path, root).len() > 0,
        folder_of(path, root)[0] == '/',
{
}

/// A file that lies directly in the root folder has the folder `/`.
pub proof fn files_in_the_root_have_its_folder(root: Seq<char>, name: Seq<char>)
    requires
        paths::is_tight(root),
        paths::is_file_name(name),
    ensures
        folder_of(paths::joined(root, name), root) == seq!['/'],
{
    paths::child_of_directory(root, name);
    assert(paths::is_under(root, root)) by {
        let t = paths::part_texts(root);
        assert(t.subrange(0, t.len() as int) =~= t);
    }
    assert(seq!['/'] + Seq::<char>::empty() =~= seq!['/']);
}

// ---------------------------------------------------------------------------------------
// What a scan finds
// ---------------------------------------------------------------------------------------

/// Every file with one of the two extensions is found, in the order of the files, and no other.
pub proof fn every_model_is_found(files: Seq<Seq<char>>)
    ensures
        ({
            let found = lists::positions(files.len() as int, |i: int| format_of(files[i]) is Some);
            &&& models_among(files, files.len()).len() == found.len()
            &&& forall|k: int|
                0 <= k < found.len() ==> (#[trigger] models_among(files, files.len())[k]).0
                    == found[k] && Some(models_among(files, files.len())[k].1) == format_of(
                    files[found[k]],
                )
        }),
{
    lemma_models_among(files, files.len());
    lists::positions_are_all(files.len() as int, |i: int| format_of(files[i]) is Some);
}

proof fn lemma_models_among(files: Seq<Seq<char>>, n: nat)
    requires
        n <= files.len(),
    ensures
        models_among(files, n) == lists::positions(
            n as int,
            |i: int| format_of(files[i]) is Some,
        ).map_values(|i: int| (i, format_of(files[i])->0)),
    decreases n,
{
    let p = |i: int| format_of(files[i]) is Some;
    let f = |i: int| (i, format_of(files[i])->0);
    if n > 0 {
        lemma_models_among(files, (n - 1) as nat);
        let rest = lists::positions(n - 1, p);
        assert(rest.push(n - 1).map_values(f) =~= rest.map_values(f).push(f(n - 1)));
    } else {
        assert(lists::positions(0, p).map_values(f) =~= Seq::<(int, Format)>::empty());
    }
}

/// The extension tells the format, in any case: `3mf`, `stl`, or none.
pub proof fn extensions_tell_formats(d: Seq<char>, base: Seq<char>, ext: Seq<char>)
    requires
        paths::is_tight(d),
        base.len() > 0,
        !base.contains('/'),
        !ext.contains('/'),
        !ext.contains('.'),
        base != seq!['.'] || ext.len() > 0,
    ensures
        ({
            let path = paths::joined(d, base.push('.') + ext);
            &&& format_of(path) == Some(Format::ThreeMf) <==> unicode::lowercase(ext) == "3mf"@
            &&& format_of(path) == Some(Format::Stl) <==> unicode::lowercase(ext) == "stl"@
        }),
{
    reveal_strlit("3mf");
    reveal_strlit("stl");
    assert("3mf"@[0] == '3' && "stl"@[0] == 's');
    paths::stem_and_extension_part_at_the_last_dot(d, base, ext);
}

/// Capital ASCII letters in an extension tell the same format as small ones.
pub proof fn case_does_not_change_formats(ext: Seq<char>)
    requires
        utf8::is_ascii_chars(ext),
    ensures
        unicode::lowercase(ext) == "3mf"@ <==> text::same_ignoring_ascii_case(ext, "3mf"@),
        unicode::lowercase(ext) == "stl"@ <==> text::same_ignoring_ascii_case(ext, "stl"@),
{
    reveal_strlit("3mf");
    reveal_strlit("stl");
    lemma_small(ext, "3mf"@);
    lemma_small(ext, "stl"@);
}

proof fn lemma_small(a: Seq<char>, b: Seq<char>)
    requires
        utf8::is_ascii_chars(a),
        forall|i: int| 0 <= i < b.len() ==> text::ascii_small(#[trigger] b[i]) == b[i],
    ensures
        unicode::lowercase(a) == b <==> text::same_ignoring_ascii_case(a, b),
{
    let l = unicode::ascii_lowercase(a);
    if l == b {
        assert forall|i: int| 0 <= i < a.len() implies text::ascii_small(a[i])
            == text::ascii_small(b[i]) by {
            assert(l[i] == text::ascii_small(a[i]));
        }
        assert(text::same_ignoring_ascii_case(a, b));
    }
    if text::same_ignoring_ascii_case(a, b) {
        assert(l =~= b);
    }
}

/// A file in a folder below the root, however deep, has that folder: a slash, and the path of
/// the folder below the root.
pub proof fn folders_are_told_below_the_root(root: Seq<char>, dir: Seq<char>, name: Seq<char>)
    requires
        root.len() > 0,
        dir.len() > 0,
        dir[0] != '/',
        !(dir[0] == '.' && (dir.len() == 1 || dir[1] == '/')),
        dir.last() != '/',
        !(dir.last() == '.' && (dir.len() == 1 || dir[dir.len() - 2] == '/')),
        paths::is_file_name(name),
    ensures
        folder_of(paths::joined(paths::joined(root, dir), name), root) == seq!['/'] + dir,
{
    paths::joined_path_gives_back(root, dir);
    paths::child_of_directory(paths::joined(root, dir), name);
}

/// The hash takes in one byte after another: a byte flips bits of what the bytes before gave,
/// and then that is multiplied.
pub proof fn hashes_take_in_bytes(data: Seq<u8>, b: u8)
    ensures
        fnv(Seq::empty()) == 0xcbf2_9ce4_8422_2325,
        fnv(data.push(b)) as nat == ((fnv(data) ^ (b as u64)) as nat * 0x100_0000_01b3)
            % 0x1_0000_0000_0000_0000,
{
    assert(data.push(b).drop_last() =~= data);
}

/// The picture of a model is named by the hash of its path, in hexadecimal notation, so that
/// paths with different hashes have different pictures.
pub proof fn pictures_are_named_by_hash(a: Seq<char>, b: Seq<char>)
    requires
        fnv(utf8::encode_utf8(a)) != fnv(utf8::encode_utf8(b)),
    ensures
        thumb_name(a) != thumb_name(b),
        thumb_url(thumb_name(a)) != thumb_url(thumb_name(b)),
{
    reveal_strlit(".png");
    reveal_strlit("/thumbs/");
    let m = fnv(utf8::encode_utf8(a)) as nat;
    let n = fnv(utf8::encode_utf8(b)) as nat;
    let (p, q) = (numbers::notation(m, 16), numbers::notation(n, 16));
    if thumb_name(a) == thumb_name(b) {
        assert(thumb_name(a).len() == p.len() + 4 && thumb_name(b).len() == q.len() + 4);
        assert(thumb_name(a).take(p.len() as int) =~= p);
        assert(thumb_name(b).take(q.len() as int) =~= q);
        numbers::hex_notations_differ(m, n);
    }
    let (x, y) = (thumb_url(thumb_name(a)), thumb_url(thumb_name(b)));
    assert(x.skip(8) =~= thumb_name(a));
    assert(y.skip(8) =~= thumb_name(b));
}

/// The row of a 3MF file holds what the file says of itself, each under its own column, whatever
/// else is missing.
pub proof fn threemf_rows_hold_the_metadata(
    path: Seq<char>,
    root: Seq<char>,
    file_size: i64,
    meta: ThreeMfMetaView,
    dims: Option<Dims>,
)
    requires
        paths::file_name(path) is Some,
    ensures
        ({
            let r = threemf_row(path, root, file_size, meta, dims);
            &&& r.path == path
            &&& Some(r.filename) == paths::file_name(path)
            &&& r.folder == folder_of(path, root)
            &&& r.format == "3MF"@
            &&& r.file_size == file_size
            &&& r.title == meta.title
            &&& r.designer == meta.designer
            &&& r.description == meta.description
            &&& r.application == meta.application
            &&& r.license == meta.license
            &&& r.created_at == meta.created_at
            &&& meta.object_count matches Some(n) ==> r.object_count == Some(n as i64)
            &&& meta.object_count is None ==> r.object_count is None
            &&& meta.triangle_count matches Some(n) ==> r.triangle_count == Some(n as i64)
            &&& meta.triangle_count is None ==> r.triangle_count is None
            &&& dims matches Some(d) ==> r.dim_x == Some(d.x) && r.dim_y == Some(d.y) && r.dim_z
                == Some(d.z)
            &&& dims is None ==> r.dim_x is None && r.dim_y is None && r.dim_z is None
            &&& meta.thumbnail is Some ==> r.thumbnail_path == Some(thumb_url(thumb_name(path)))
            &&& meta.thumbnail is None ==> r.thumbnail_path is None
            &&& r.project_id is None
        }),
{
}

/// The row of an STL file holds its name as the title, its header as the application, one
/// object, and its triangles and dimensions; there is nothing else to know of it.
pub proof fn stl_rows_hold_what_is_known(
    path: Seq<char>,
    root: Seq<char>,
    file_size: i64,
    meta: StlMetaView,
    dims: Option<Dims>,
)
    requires
        paths::file_name(path) is Some,
    ensures
        ({
            let r = stl_row(path, root, file_size, meta, dims);
            &&& r.path == path
            &&& Some(r.filename) == paths::file_name(path)
            &&& r.folder == folder_of(path, root)
            &&& r.format == "STL"@
            &&& r.file_size == file_size
            &&& r.title == meta.name
            &&& r.application == meta.header
            &&& r.object_count == Some(1i64)
            &&& r.triangle_count == Some(meta.triangle_count as i64)
            &&& dims matches Some(d) ==> r.dim_x == Some(d.x) && r.dim_y == Some(d.y) && r.dim_z
                == Some(d.z)
            &&& dims is None ==> r.dim_x is None && r.dim_y is None && r.dim_z is None
            &&& r.designer is None
            &&& r.description is None
            &&& r.license is None
            &&& r.created_at is None
            &&& r.thumbnail_path is None
            &&& r.project_id is None
        }),
{
}

/// A file that does not lie below the root has the folder of the root.
pub proof fn files_elsewhere_have_the_root_folder(path: Seq<char>, root: Seq<char>)
    ensures
        paths::parent(path) is None ==> folder_of(path, root) == seq!['/'],
        paths::parent(path) matches Some(p) ==> (!paths::is_under(p, root) ==> folder_of(
            path,
            root,
        ) == seq!['/']),
{
}

} // verus!
