//! 3MF files: a ZIP archive that holds XML models, metadata and pictures.

use vstd::prelude::*;
use vstd::utf8;

use crate::archive;
use crate::archive::{Entry, EntryView};
use crate::bounds;
use crate::bounds::{Bounds, Corner};
use crate::formats::binary_stl;
use crate::formats::mesh;
use crate::formats::mesh::{
    Geometry, GeometryView, ModelFile, ModelFileView, VertexText, VertexView,
};
use crate::formats::stl::Point;
use crate::lists;
use crate::text;
use crate::text::CharSet;
use crate::unicode;
use crate::xml;
use crate::xml::{XmlNode, XmlNodeView};

verus! {

/// Why a file yields no geometry or no metadata.
#[derive(Clone, Copy, PartialEq, Eq, Structural, Debug)]
pub enum ThreeMfError {
    /// The bytes are not a ZIP archive.
    NotAnArchive,
    /// The archive has no model.
    NoModel,
    /// The model cannot be read, or is not text.
    UnreadableModel,
    /// The model is not an XML document, or nests its elements too deep.
    InvalidXml,
    /// No triangle was found.
    NoGeometry,
    /// A triangle names a vertex beyond what 32 bits can number.
    IndexOverflow,
}

/// The position of the main model among names: the standard name in any case, or else the
/// first name that ends like a model's.
pub open spec fn model_position(names: Seq<Seq<char>>) -> Option<int> {
    match lists::first(
        lists::positions(
            names.len() as int,
            |i: int| text::same_ignoring_ascii_case(names[i], "3d/3dmodel.model"@),
        ),
    ) {
        Some(i) => Some(i),
        None => lists::first(
            lists::positions(names.len() as int, |i: int| ".model"@.is_suffix_of(names[i])),
        ),
    }
}

/// Finds the main model among names.
pub fn find_model(names: &[String]) -> (r: Option<usize>)
    ensures
        match r {
            Some(i) => i < names@.len() && model_position(text::texts(names@)) == Some(i as int),
            None => model_position(text::texts(names@)) is None,
        },
{
    let ghost ns = text::texts(names@);
    let ghost p = |i: int| text::same_ignoring_ascii_case(ns[i], "3d/3dmodel.model"@);
    let ghost q = |i: int| ".model"@.is_suffix_of(ns[i]);
    let mut standard: Option<usize> = None;
    let mut other: Option<usize> = None;
    let mut i: usize = 0;
    while i < names.len()
        invariant
            i <= names@.len(),
            ns == text::texts(names@),
            p == (|i: int| text::same_ignoring_ascii_case(ns[i], "3d/3dmodel.model"@)),
            q == (|i: int| ".model"@.is_suffix_of(ns[i])),
            match standard {
                Some(k) => k < names@.len() && lists::first(lists::positions(i as int, p)) == Some(
                    k as int,
                ),
                None => lists::first(lists::positions(i as int, p)) is None,
            },
            match other {
                Some(k) => k < names@.len() && lists::first(lists::positions(i as int, q)) == Some(
                    k as int,
                ),
                None => lists::first(lists::positions(i as int, q)) is None,
            },
        decreases names@.len() - i,
    {
        assert(ns[i as int] == names@[i as int]@);
        let name = text::chars_of(names[i].as_str());
        if standard.is_none() && text::eq_ignore_ascii_case(name.as_slice(), "3d/3dmodel.model") {
            standard = Some(i);
        }
        if other.is_none() && text::ends_with(name.as_slice(), ".model") {
            other = Some(i);
        }
        i = i + 1;
    }
    if standard.is_some() {
        standard
    } else {
        other
    }
}

/// The text of an entry of an archive; an entry that cannot be read, or is not UTF-8, has none.
pub open spec fn entry_text(data: Seq<u8>, name: Seq<char>) -> Option<Seq<char>> {
    match archive::zip_entry(data, name) {
        EntryView::Whole(content) => unicode::utf8_text(content),
        _ => None,
    }
}

/// Reads the text of an entry of an archive.
fn read_entry_text(data: &[u8], name: &str) -> (r: Option<String>)
    ensures
        text::text_of(r) == entry_text(data@, name@),
{
    match archive::read_entry(data, name) {
        Entry::Whole(content) => unicode::utf8_string(content.as_slice()),
        _ => None,
    }
}

/// Whether the name of an entry is that of a model file.
pub open spec fn is_model_name(name: Seq<char>) -> bool {
    ".model"@.is_suffix_of(unicode::lowercase(name))
}

/// A model file of an archive as text, and the key under which it stands.
pub struct ModelText {
    pub key: String,
    pub text: String,
}

pub struct ModelTextView {
    pub key: Seq<char>,
    pub text: Seq<char>,
}

impl View for ModelText {
    type V = ModelTextView;

    open spec fn view(&self) -> ModelTextView {
        ModelTextView { key: self.key@, text: self.text@ }
    }
}

/// The model files behind a list.
pub open spec fn text_views(v: Seq<ModelText>) -> Seq<ModelTextView> {
    v.map_values(|t: ModelText| t@)
}

/// The model files among entries of an archive: those that are named like one and hold text.
pub open spec fn model_texts(data: Seq<u8>, names: Seq<Seq<char>>) -> Seq<ModelTextView>
    decreases names.len(),
{
    if names.len() == 0 {
        Seq::empty()
    } else {
        let rest = model_texts(data, names.drop_last());
        match entry_text(data, names.last()) {
            Some(t) => if is_model_name(names.last()) {
                rest.push(ModelTextView { key: mesh::file_key(names.last()), text: t })
            } else {
                rest
            },
            None => rest,
        }
    }
}

/// Model files of which no document was read.
pub open spec fn unread_files(texts: Seq<ModelTextView>) -> Seq<ModelFileView> {
    texts.map_values(|t: ModelTextView| ModelFileView { key: t.key, doc: None })
}

/// Model files of which the documents were read that the main one asks for: its own, and those
/// of the files that its components name.
pub open spec fn read_files(
    texts: Seq<ModelTextView>,
    main: int,
    doc: Seq<XmlNodeView>,
) -> Seq<ModelFileView> {
    Seq::new(
        texts.len(),
        |i: int|
            ModelFileView {
                key: texts[i].key,
                doc: if i == main {
                    Some(doc)
                } else if mesh::named_keys(doc, doc.len()).contains(texts[i].key) {
                    xml::tree(texts[i].text)
                } else {
                    None
                },
            },
    )
}

/// The geometry of model files.
pub open spec fn texts_geometry(texts: Seq<ModelTextView>) -> Result<GeometryView, ThreeMfError> {
    match mesh::main_file(unread_files(texts)) {
        Some(main) => match xml::tree(texts[main].text) {
            Some(doc) => mesh::files_geometry(read_files(texts, main, doc)),
            None => Err(ThreeMfError::InvalidXml),
        },
        None => Err(ThreeMfError::NoModel),
    }
}

/// The geometry of a 3MF file.
pub open spec fn archive_geometry(data: Seq<u8>) -> Result<GeometryView, ThreeMfError> {
    match archive::zip_names(data) {
        Some(names) => texts_geometry(model_texts(data, names)),
        None => Err(ThreeMfError::NotAnArchive),
    }
}

/// Tests whether a key is among keys.
fn among(keys: &[String], key: &str) -> (r: bool)
    ensures
        r == text::texts(keys@).contains(key@),
{
    let mut i: usize = 0;
    while i < keys.len()
        invariant
            i <= keys@.len(),
            forall|k: int| 0 <= k < i ==> (#[trigger] keys@[k])@ != key@,
        decreases keys@.len() - i,
    {
        if text::same(keys[i].as_str(), key) {
            assert(text::texts(keys@)[i as int] == key@);
            return true;
        }
        i = i + 1;
    }
    assert(!text::texts(keys@).contains(key@)) by {
        if text::texts(keys@).contains(key@) {
            let k = choose|k: int| 0 <= k < keys@.len() && text::texts(keys@)[k] == key@;
            assert(keys@[k]@ == key@);
        }
    }
    false
}

/// Finds the main one of model files.
fn find_main_text(texts: &[ModelText]) -> (r: Option<usize>)
    ensures
        match r {
            Some(i) => i < texts@.len() && mesh::main_file(unread_files(text_views(texts@)))
                == Some(i as int),
            None => mesh::main_file(unread_files(text_views(texts@))) is None,
        },
{
    let ghost tv = text_views(texts@);
    let mut files: Vec<ModelFile> = Vec::new();
    let mut i: usize = 0;
    while i < texts.len()
        invariant
            i <= texts@.len(),
            tv == text_views(texts@),
            files@.len() == i,
            forall|k: int| 0 <= k < i ==> (#[trigger] files@[k])@ == unread_files(tv)[k],
        decreases texts@.len() - i,
    {
        let file = ModelFile { key: texts[i].key.clone(), nodes: None };
        assert(file@ == unread_files(tv)[i as int]);
        files.push(file);
        i = i + 1;
    }
    assert(mesh::file_views(files@) =~= unread_files(tv));
    mesh::find_main(files.as_slice())
}

/// Reads the geometry of model files. Only the main one is read, and those that its components
/// name.
pub fn read_models(texts: &[ModelText]) -> (r: Result<Geometry, ThreeMfError>)
    ensures
        match r {
            Ok(g) => texts_geometry(text_views(texts@)) == Ok::<GeometryView, ThreeMfError>(g@),
            Err(e) => texts_geometry(text_views(texts@)) == Err::<GeometryView, ThreeMfError>(e),
        },
{
    let ghost tv = text_views(texts@);
    let main: usize = match find_main_text(texts) {
        Some(i) => i,
        None => {
            return Err(ThreeMfError::NoModel);
        },
    };
    assert(tv[main as int] == texts@[main as int]@);
    let nodes: Vec<XmlNode> = match xml::read_xml(texts[main].text.as_str()) {
        Some(nodes) => nodes,
        None => {
            return Err(ThreeMfError::InvalidXml);
        },
    };
    let ghost doc = xml::document(nodes@);
    let named = mesh::find_named_keys(nodes.as_slice());
    let mut main_nodes: Option<Vec<XmlNode>> = Some(nodes);
    let mut files: Vec<ModelFile> = Vec::new();
    let mut i: usize = 0;
    while i < texts.len()
        invariant
            i <= texts@.len(),
            main < texts@.len(),
            tv == text_views(texts@),
            text::texts(named@) == mesh::named_keys(doc, doc.len()),
            i <= main ==> main_nodes is Some && xml::document(main_nodes->0@) == doc,
            files@.len() == i,
            forall|k: int|
                0 <= k < i ==> (#[trigger] files@[k])@ == read_files(tv, main as int, doc)[k],
        decreases texts@.len() - i,
    {
        let entry: &ModelText = &texts[i];
        assert(tv[i as int] == entry@);
        let read: Option<Vec<XmlNode>> = if i == main {
            main_nodes.take()
        } else if among(named.as_slice(), entry.key.as_str()) {
            xml::read_xml(entry.text.as_str())
        } else {
            None
        };
        let file = ModelFile { key: entry.key.clone(), nodes: read };
        assert(file@ == read_files(tv, main as int, doc)[i as int]);
        files.push(file);
        i = i + 1;
    }
    assert(mesh::file_views(files@) =~= read_files(tv, main as int, doc));
    mesh::assemble(files.as_slice())
}

/// Reads the meshes that a 3MF file places and their triangles.
///
/// Geometry that lies in further model files of the archive is found through the components
/// that name them.
pub fn geometry(data: &[u8]) -> (r: Result<Geometry, ThreeMfError>)
    ensures
        match r {
            Ok(g) => archive_geometry(data@) == Ok::<GeometryView, ThreeMfError>(g@),
            Err(e) => archive_geometry(data@) == Err::<GeometryView, ThreeMfError>(e),
        },
{
    let names = match archive::entry_names(data) {
        Some(names) => names,
        None => {
            return Err(ThreeMfError::NotAnArchive);
        },
    };
    let ghost ns = text::texts(names@);
    let mut texts: Vec<ModelText> = Vec::new();
    let mut i: usize = 0;
    assert(ns.take(0) == Seq::<Seq<char>>::empty());
    assert(text_views(texts@) == Seq::<ModelTextView>::empty());
    while i < names.len()
        invariant
            i <= names@.len(),
            ns == text::texts(names@),
            text_views(texts@) == model_texts(data@, ns.take(i as int)),
        decreases names@.len() - i,
    {
        let name: &str = names[i].as_str();
        let ghost before = texts@;
        proof {
            assert(ns.take(i + 1).drop_last() == ns.take(i as int));
            assert(ns.take(i + 1).last() == name@);
        }
        let small = name.to_lowercase();
        if text::ends_with(text::chars_of(small.as_str()).as_slice(), ".model") {
            match read_entry_text(data, name) {
                Some(t) => {
                    let entry = ModelText { key: mesh::make_key(name), text: t };
                    texts.push(entry);
                    assert(text_views(texts@) =~= text_views(before).push(entry@));
                },
                None => {},
            }
        }
        i = i + 1;
    }
    assert(ns.take(i as int) == ns);
    read_models(texts.as_slice())
}

// ---------------------------------------------------------------------------------------
// Metadata
// ---------------------------------------------------------------------------------------

/// What a 3MF file says of itself.
pub struct ThreeMfMeta {
    pub title: Option<String>,
    pub designer: Option<String>,
    pub description: Option<String>,
    pub application: Option<String>,
    pub license: Option<String>,
    pub created_at: Option<String>,
    pub object_count: Option<usize>,
    pub triangle_count: Option<u64>,
    /// The coordinates of all vertices of the model.
    pub vertices: Vec<VertexText>,
    /// The bytes of the best picture in the archive.
    pub thumbnail: Option<Vec<u8>>,
}

pub struct ThreeMfMetaView {
    pub title: Option<Seq<char>>,
    pub designer: Option<Seq<char>>,
    pub description: Option<Seq<char>>,
    pub application: Option<Seq<char>>,
    pub license: Option<Seq<char>>,
    pub created_at: Option<Seq<char>>,
    pub object_count: Option<nat>,
    pub triangle_count: Option<nat>,
    pub vertices: Seq<VertexView>,
    pub thumbnail: Option<Seq<u8>>,
}

impl View for ThreeMfMeta {
    type V = ThreeMfMetaView;

    open spec fn view(&self) -> ThreeMfMetaView {
        ThreeMfMetaView {
            title: text::text_of(self.title),
            designer: text::text_of(self.designer),
            description: text::text_of(self.description),
            application: text::text_of(self.application),
            license: text::text_of(self.license),
            created_at: text::text_of(self.created_at),
            object_count: match self.object_count {
                Some(n) => Some(n as nat),
                None => None,
            },
            triangle_count: match self.triangle_count {
                Some(n) => Some(n as nat),
                None => None,
            },
            vertices: self.vertices@.map_values(|v: VertexText| v@),
            thumbnail: lists::bytes_of(self.thumbnail),
        }
    }
}

/// The text outside of tags. A tag runs from `<` to the next `>`; `inside` tells whether the
/// text starts within one.
pub open spec fn strip_tags(s: Seq<char>, inside: bool) -> Seq<char>
    decreases s.len(),
{
    if s.len() == 0 {
        Seq::empty()
    } else if s[0] == '<' {
        strip_tags(s.skip(1), true)
    } else if s[0] == '>' {
        strip_tags(s.skip(1), false)
    } else if inside {
        strip_tags(s.skip(1), true)
    } else {
        seq![s[0]] + strip_tags(s.skip(1), false)
    }
}

/// The text with the common entities replaced by what they stand for, one kind after another.
pub open spec fn decode_entities(s: Seq<char>) -> Seq<char> {
    let a = text::replace(s, "&amp;"@, seq!['&']);
    let b = text::replace(a, "&lt;"@, seq!['<']);
    let c = text::replace(b, "&gt;"@, seq!['>']);
    let d = text::replace(c, "&quot;"@, seq!['"']);
    let e = text::replace(d, "&#39;"@, seq!['\'']);
    text::replace(e, "&nbsp;"@, seq![' '])
}

/// The text without tags, with its entities decoded and its white space made single spaces.
pub open spec fn cleaned(s: Seq<char>) -> Seq<char> {
    text::join(text::words(decode_entities(strip_tags(s, false))), ' ')
}

/// Strips tags and decodes the common entities of HTML text.
pub fn clean_html(s: &str) -> (r: String)
    ensures
        r@ == cleaned(s@),
{
    let all = text::chars_of(s);
    let mut out: Vec<char> = Vec::new();
    let mut inside: bool = false;
    let mut i: usize = 0;
    assert(all@.skip(0) == all@);
    while i < all.len()
        invariant
            i <= all@.len(),
            strip_tags(all@, false) == out@ + strip_tags(all@.skip(i as int), inside),
        decreases all@.len() - i,
    {
        let c: char = all[i];
        let ghost before = out@;
        assert(all@.skip(i as int)[0] == c);
        assert(all@.skip(i as int).skip(1) == all@.skip(i + 1));
        if c == '<' {
            inside = true;
        } else if c == '>' {
            inside = false;
        } else if !inside {
            out.push(c);
            assert(before + (seq![c] + strip_tags(all@.skip(i + 1), false)) == out@ + strip_tags(
                all@.skip(i + 1),
                false,
            ));
        }
        i = i + 1;
    }
    assert(all@.skip(i as int) == Seq::<char>::empty());
    proof {
        reveal_strlit("&amp;");
        reveal_strlit("&lt;");
        reveal_strlit("&gt;");
        reveal_strlit("&quot;");
        reveal_strlit("&#39;");
        reveal_strlit("&nbsp;");
    }
    let a = text::replace_chars(out.as_slice(), "&amp;", '&');
    let b = text::replace_chars(a.as_slice(), "&lt;", '<');
    let c = text::replace_chars(b.as_slice(), "&gt;", '>');
    let d = text::replace_chars(c.as_slice(), "&quot;", '"');
    let e = text::replace_chars(d.as_slice(), "&#39;", '\'');
    let f = text::replace_chars(e.as_slice(), "&nbsp;", ' ');
    let words = text::split_words(f.as_slice());
    text::string_of(text::join_runs(words.as_slice(), ' ').as_slice())
}

/// The fields that metadata fills.
#[derive(Clone, Copy, PartialEq, Eq, Structural, Debug)]
pub enum MetaField {
    Title,
    Designer,
    Description,
    Application,
    License,
    Created,
}

/// The field that a name in small letters stands for.
pub open spec fn field_of(name: Seq<char>) -> Option<MetaField> {
    if name == "title"@ {
        Some(MetaField::Title)
    } else if name == "designer"@ || name == "profileusername"@ {
        Some(MetaField::Designer)
    } else if name == "description"@ {
        Some(MetaField::Description)
    } else if name == "application"@ {
        Some(MetaField::Application)
    } else if name == "licenseterms"@ || name == "license"@ {
        Some(MetaField::License)
    } else if name == "creationdate"@ {
        Some(MetaField::Created)
    } else {
        None
    }
}

/// The name of a metadata node in small letters.
pub open spec fn meta_name(n: XmlNodeView) -> Seq<char> {
    match xml::attribute(n, "name"@) {
        Some(s) => unicode::lowercase(s),
        None => unicode::lowercase(""@),
    }
}

/// The value of a metadata node.
pub open spec fn meta_value(n: XmlNodeView) -> Seq<char> {
    match n.text {
        Some(t) => text::trim(t, CharSet::Space),
        None => Seq::empty(),
    }
}

/// Whether a node gives a field a value; an empty value, or an empty list, is none.
pub open spec fn gives(n: XmlNodeView, f: MetaField) -> bool {
    &&& n.name == "metadata"@
    &&& meta_value(n).len() > 0
    &&& meta_value(n) != "[]"@
    &&& field_of(meta_name(n)) == Some(f)
}

/// The values that the first `n` nodes give a field, in order.
pub open spec fn values(doc: Seq<XmlNodeView>, n: nat, f: MetaField) -> Seq<Seq<char>>
    decreases n,
{
    if n == 0 {
        Seq::empty()
    } else if gives(doc[n - 1], f) {
        values(doc, (n - 1) as nat, f).push(meta_value(doc[n - 1]))
    } else {
        values(doc, (n - 1) as nat, f)
    }
}

/// The first of the values.
pub open spec fn first_value(v: Seq<Seq<char>>) -> Option<Seq<char>> {
    if v.len() > 0 {
        Some(v[0])
    } else {
        None
    }
}

/// The last of the values.
pub open spec fn last_value(v: Seq<Seq<char>>) -> Option<Seq<char>> {
    if v.len() > 0 {
        Some(v.last())
    } else {
        None
    }
}

/// The last of the values as clean text.
pub open spec fn last_cleaned(v: Seq<Seq<char>>) -> Option<Seq<char>> {
    if v.len() > 0 {
        Some(cleaned(v.last()))
    } else {
        None
    }
}

/// A count that is not zero.
pub open spec fn counted(n: nat) -> Option<nat> {
    if n > 0 {
        Some(n)
    } else {
        None
    }
}

/// What a model says of itself: of most fields the last value counts, of the designer the
/// first.
pub open spec fn document_meta(
    doc: Seq<XmlNodeView>,
    thumbnail: Option<Seq<u8>>,
) -> ThreeMfMetaView {
    ThreeMfMetaView {
        title: last_cleaned(values(doc, doc.len(), MetaField::Title)),
        designer: first_value(values(doc, doc.len(), MetaField::Designer)),
        description: last_cleaned(values(doc, doc.len(), MetaField::Description)),
        application: last_value(values(doc, doc.len(), MetaField::Application)),
        license: last_value(values(doc, doc.len(), MetaField::License)),
        created_at: last_value(values(doc, doc.len(), MetaField::Created)),
        object_count: counted(xml::elements(doc, "object"@).len()),
        triangle_count: counted(xml::elements(doc, "triangle"@).len()),
        vertices: xml::elements(doc, "vertex"@).map_values(|i: int| mesh::vertex(doc[i])),
        thumbnail,
    }
}

fn find_field(name: &str) -> (r: Option<MetaField>)
    ensures
        r == field_of(name@),
{
    if text::same(name, "title") {
        Some(MetaField::Title)
    } else if text::same(name, "designer") || text::same(name, "profileusername") {
        Some(MetaField::Designer)
    } else if text::same(name, "description") {
        Some(MetaField::Description)
    } else if text::same(name, "application") {
        Some(MetaField::Application)
    } else if text::same(name, "licenseterms") || text::same(name, "license") {
        Some(MetaField::License)
    } else if text::same(name, "creationdate") {
        Some(MetaField::Created)
    } else {
        None
    }
}

/// The field that a node gives a value, and the value.
fn read_field(n: &XmlNode) -> (r: Option<(MetaField, String)>)
    ensures
        match r {
            Some((f, v)) => gives(n@, f) && v@ == meta_value(n@),
            None => forall|f: MetaField| !gives(n@, f),
        },
{
    if !text::same(n.name.as_str(), "metadata") {
        return None;
    }
    let value: String = match &n.text {
        Some(t) => text::string_of(
            text::trim_chars(text::chars_of(t.as_str()).as_slice(), CharSet::Space),
        ),
        None => String::new(),
    };
    assert(value@ =~= meta_value(n@));
    proof {
        reveal_strlit("");
    }
    if text::same(value.as_str(), "") || text::same(value.as_str(), "[]") {
        assert(meta_value(n@).len() == 0 || meta_value(n@) == "[]"@);
        return None;
    }
    let name: String = match xml::find_attribute(n, "name") {
        Some(s) => s.as_str().to_lowercase(),
        None => "".to_lowercase(),
    };
    assert(meta_value(n@).len() > 0) by {
        if meta_value(n@).len() == 0 {
            assert(meta_value(n@) =~= ""@);
        }
    }
    match find_field(name.as_str()) {
        Some(f) => Some((f, value)),
        None => None,
    }
}

/// Reads what a model says of itself.
pub fn read_metadata(nodes: &[XmlNode], thumbnail: Option<Vec<u8>>) -> (r: ThreeMfMeta)
    ensures
        r@ == document_meta(xml::document(nodes@), lists::bytes_of(thumbnail)),
{
    let ghost doc = xml::document(nodes@);
    let mut title: Option<String> = None;
    let mut designer: Option<String> = None;
    let mut description: Option<String> = None;
    let mut application: Option<String> = None;
    let mut license: Option<String> = None;
    let mut created_at: Option<String> = None;
    let mut i: usize = 0;
    while i < nodes.len()
        invariant
            i <= nodes@.len(),
            doc == xml::document(nodes@),
            text::text_of(title) == last_cleaned(values(doc, i as nat, MetaField::Title)),
            text::text_of(designer) == first_value(values(doc, i as nat, MetaField::Designer)),
            text::text_of(description) == last_cleaned(
                values(doc, i as nat, MetaField::Description),
            ),
            text::text_of(application) == last_value(
                values(doc, i as nat, MetaField::Application),
            ),
            text::text_of(license) == last_value(values(doc, i as nat, MetaField::License)),
            text::text_of(created_at) == last_value(values(doc, i as nat, MetaField::Created)),
        decreases nodes@.len() - i,
    {
        assert(doc[i as int] == nodes@[i as int]@);
        match read_field(&nodes[i]) {
            Some((f, value)) => match f {
                MetaField::Title => {
                    title = Some(clean_html(value.as_str()));
                },
                MetaField::Designer => if designer.is_none() {
                    designer = Some(value);
                },
                MetaField::Description => {
                    description = Some(clean_html(value.as_str()));
                },
                MetaField::Application => {
                    application = Some(value);
                },
                MetaField::License => {
                    license = Some(value);
                },
                MetaField::Created => {
                    created_at = Some(value);
                },
            },
            None => {},
        }
        i = i + 1;
    }
    let objects: usize = xml::find_elements(nodes, "object").len();
    let triangles: usize = xml::find_elements(nodes, "triangle").len();
    let vertices = mesh::read_all_vertices(nodes);
    ThreeMfMeta {
        title,
        designer,
        description,
        application,
        license,
        created_at,
        object_count: if objects > 0 {
            Some(objects)
        } else {
            None
        },
        triangle_count: if triangles > 0 {
            Some(triangles as u64)
        } else {
            None
        },
        vertices,
        thumbnail,
    }
}

// ---------------------------------------------------------------------------------------
// The picture of a file
// ---------------------------------------------------------------------------------------

/// The position of the first name that is `wanted` in any case, as a list.
pub open spec fn named(names: Seq<Seq<char>>, wanted: Seq<char>) -> Seq<int> {
    match lists::first(
        lists::positions(
            names.len() as int,
            |i: int| text::same_ignoring_ascii_case(names[i], wanted),
        ),
    ) {
        Some(i) => seq![i],
        None => Seq::empty(),
    }
}

/// Whether a name is that of any picture of the model.
pub open spec fn is_picture(name: Seq<char>) -> bool {
    let small = unicode::lowercase(name);
    &&& ".png"@.is_suffix_of(small)
    &&& text::contains(small, "metadata"@) || text::contains(small, "auxiliaries"@)
}

/// The positions of the pictures among names, the best first: the picture of the plate, the
/// thumbnails from the middle one to the small one, and any other.
pub open spec fn picture_order(names: Seq<Seq<char>>) -> Seq<int> {
    named(names, "Metadata/plate_1.png"@) + named(
        names,
        "Auxiliaries/.thumbnails/thumbnail_middle.png"@,
    ) + named(names, "Auxiliaries/.thumbnails/thumbnail_3mf.png"@) + named(
        names,
        "Auxiliaries/.thumbnails/thumbnail_small.png"@,
    ) + lists::positions(names.len() as int, |i: int| is_picture(names[i]))
}

/// Appends the position of the first name that is `wanted` in any case.
fn add_named(names: &[String], wanted: &str, out: &mut Vec<usize>)
    requires
        forall|k: int| 0 <= k < old(out)@.len() ==> #[trigger] old(out)@[k] < names@.len(),
    ensures
        forall|k: int| 0 <= k < final(out)@.len() ==> #[trigger] final(out)@[k] < names@.len(),
        lists::ints(final(out)@) == lists::ints(old(out)@) + named(text::texts(names@), wanted@),
{
    let ghost ns = text::texts(names@);
    let ghost p = |i: int| text::same_ignoring_ascii_case(ns[i], wanted@);
    let ghost start = out@;
    let mut found: Option<usize> = None;
    let mut i: usize = 0;
    while i < names.len()
        invariant
            i <= names@.len(),
            ns == text::texts(names@),
            p == (|i: int| text::same_ignoring_ascii_case(ns[i], wanted@)),
            match found {
                Some(k) => k < names@.len() && lists::first(lists::positions(i as int, p)) == Some(
                    k as int,
                ),
                None => lists::first(lists::positions(i as int, p)) is None,
            },
        decreases names@.len() - i,
    {
        assert(ns[i as int] == names@[i as int]@);
        if found.is_none() && text::eq_ignore_ascii_case(
            text::chars_of(names[i].as_str()).as_slice(),
            wanted,
        ) {
            found = Some(i);
        }
        i = i + 1;
    }
    match found {
        Some(k) => {
            out.push(k);
            assert(lists::ints(out@) =~= lists::ints(start) + seq![k as int]);
        },
        None => {
            assert(lists::ints(out@) =~= lists::ints(start) + Seq::<int>::empty());
        },
    }
}

fn check_picture(name: &str) -> (r: bool)
    ensures
        r == is_picture(name@),
{
    let small = text::chars_of(name.to_lowercase().as_str());
    text::ends_with(small.as_slice(), ".png") && (text::contains_text(
        small.as_slice(),
        "metadata",
    ) || text::contains_text(small.as_slice(), "auxiliaries"))
}

/// Orders the pictures among names, the best first.
pub fn order_pictures(names: &[String]) -> (r: Vec<usize>)
    ensures
        lists::ints(r@) == picture_order(text::texts(names@)),
        forall|k: int| 0 <= k < r@.len() ==> #[trigger] r@[k] < names@.len(),
{
    let ghost ns = text::texts(names@);
    let ghost p = |i: int| is_picture(ns[i]);
    let mut out: Vec<usize> = Vec::new();
    assert(lists::ints(out@) == Seq::<int>::empty());
    add_named(names, "Metadata/plate_1.png", &mut out);
    add_named(names, "Auxiliaries/.thumbnails/thumbnail_middle.png", &mut out);
    add_named(names, "Auxiliaries/.thumbnails/thumbnail_3mf.png", &mut out);
    add_named(names, "Auxiliaries/.thumbnails/thumbnail_small.png", &mut out);
    let ghost start = lists::ints(out@);
    let mut i: usize = 0;
    while i < names.len()
        invariant
            i <= names@.len(),
            ns == text::texts(names@),
            p == (|i: int| is_picture(ns[i])),
            lists::ints(out@) == start + lists::positions(i as int, p),
            forall|k: int| 0 <= k < out@.len() ==> #[trigger] out@[k] < names@.len(),
        decreases names@.len() - i,
    {
        assert(ns[i as int] == names@[i as int]@);
        let ghost before = out@;
        if check_picture(names[i].as_str()) {
            out.push(i);
            assert(lists::ints(out@) =~= lists::ints(before).push(i as int));
        }
        i = i + 1;
    }
    assert(lists::ints(out@) =~= picture_order(ns));
    out
}

/// The content of the first of the entries that can be read and is not empty.
pub open spec fn first_content(data: Seq<u8>, names: Seq<Seq<char>>, order: Seq<int>) -> Option<
    Seq<u8>,
>
    decreases order.len(),
{
    if order.len() == 0 {
        None
    } else {
        match archive::zip_entry(data, names[order[0]]) {
            EntryView::Whole(content) => if content.len() > 0 {
                Some(content)
            } else {
                first_content(data, names, order.skip(1))
            },
            _ => first_content(data, names, order.skip(1)),
        }
    }
}

/// Reads the best picture of an archive with those entries.
fn extract_thumbnail(data: &[u8], names: &[String]) -> (r: Option<Vec<u8>>)
    ensures
        lists::bytes_of(r) == first_content(
            data@,
            text::texts(names@),
            picture_order(text::texts(names@)),
        ),
{
    let ghost ns = text::texts(names@);
    let order = order_pictures(names);
    let ghost all = lists::ints(order@);
    let mut i: usize = 0;
    assert(all.skip(0) == all);
    while i < order.len()
        invariant
            i <= order@.len(),
            ns == text::texts(names@),
            all == lists::ints(order@),
            forall|k: int| 0 <= k < order@.len() ==> #[trigger] order@[k] < names@.len(),
            first_content(data@, ns, all) == first_content(data@, ns, all.skip(i as int)),
            all == picture_order(ns),
        decreases order@.len() - i,
    {
        proof {
            assert(all.skip(i as int)[0] == order@[i as int] as int);
            assert(all.skip(i as int).skip(1) == all.skip(i + 1));
            assert(ns[order@[i as int] as int] == names@[order@[i as int] as int]@);
        }
        match archive::read_entry(data, names[order[i]].as_str()) {
            Entry::Whole(content) => if content.len() > 0 {
                return Some(content);
            },
            _ => {},
        }
        i = i + 1;
    }
    None
}

/// What a 3MF file says of itself.
pub open spec fn archive_meta(data: Seq<u8>) -> Result<ThreeMfMetaView, ThreeMfError> {
    match archive::zip_names(data) {
        Some(names) => match model_position(names) {
            Some(i) => match entry_text(data, names[i]) {
                Some(t) => match xml::tree(t) {
                    Some(doc) => Ok(
                        document_meta(doc, first_content(data, names, picture_order(names))),
                    ),
                    None => Err(ThreeMfError::InvalidXml),
                },
                None => Err(ThreeMfError::UnreadableModel),
            },
            None => Err(ThreeMfError::NoModel),
        },
        None => Err(ThreeMfError::NotAnArchive),
    }
}

/// Reads what a 3MF file says of itself.
pub fn extract(data: &[u8]) -> (r: Result<ThreeMfMeta, ThreeMfError>)
    ensures
        match r {
            Ok(m) => archive_meta(data@) == Ok::<ThreeMfMetaView, ThreeMfError>(m@),
            Err(e) => archive_meta(data@) == Err::<ThreeMfMetaView, ThreeMfError>(e),
        },
{
    let names = match archive::entry_names(data) {
        Some(names) => names,
        None => {
            return Err(ThreeMfError::NotAnArchive);
        },
    };
    let model: usize = match find_model(names.as_slice()) {
        Some(i) => i,
        None => {
            return Err(ThreeMfError::NoModel);
        },
    };
    assert(text::texts(names@)[model as int] == names@[model as int]@);
    match read_entry_text(data, names[model].as_str()) {
        Some(t) => match xml::read_xml(t.as_str()) {
            Some(nodes) => {
                let thumbnail = extract_thumbnail(data, names.as_slice());
                Ok(read_metadata(nodes.as_slice(), thumbnail))
            },
            None => Err(ThreeMfError::InvalidXml),
        },
        None => Err(ThreeMfError::UnreadableModel),
    }
}

/// The box of the vertices of a file, which a file without vertices does not have.
pub fn extent(points: &[Corner]) -> (r: Option<Bounds>)
    ensures
        r == (if points@.len() > 0 {
            Some(bounds::bounds(points@))
        } else {
            None
        }),
{
    if points.len() > 0 {
        Some(bounds::find_bounds(points))
    } else {
        None
    }
}

/// Writes the geometry of a file as a binary STL file, given where its vertices were placed.
pub fn to_binary_stl(geometry: &Geometry, points: &[Point]) -> (r: Vec<u8>)
    ensures
        r@ == binary_stl::stl_bytes(points@, geometry@.triangles),
{
    binary_stl::write_binary_stl(points, geometry.triangles.as_slice())
}

// ---------------------------------------------------------------------------------------
// Clean text
// ---------------------------------------------------------------------------------------

/// Stripping leaves no bracket of a tag.
proof fn lemma_stripped(s: Seq<char>, inside: bool)
    ensures
        forall|i: int|
            0 <= i < strip_tags(s, inside).len() ==> s.contains(
                #[trigger] strip_tags(s, inside)[i],
            ) && strip_tags(s, inside)[i] != '<' && strip_tags(s, inside)[i] != '>',
    decreases s.len(),
{
    if s.len() > 0 {
        let rest = s.skip(1);
        let next = if s[0] == '<' {
            true
        } else if s[0] == '>' {
            false
        } else {
            inside
        };
        lemma_stripped(rest, next);
        assert forall|c: char| rest.contains(c) implies s.contains(c) by {
            let i = choose|i: int| 0 <= i < rest.len() && rest[i] == c;
            assert(s[i + 1] == c);
        }
        assert forall|i: int| 0 <= i < strip_tags(s, inside).len() implies s.contains(
            #[trigger] strip_tags(s, inside)[i],
        ) && strip_tags(s, inside)[i] != '<' && strip_tags(s, inside)[i] != '>' by {
            if s[0] != '<' && s[0] != '>' && !inside {
                if i == 0 {
                    assert(s[0] == strip_tags(s, inside)[0]);
                } else {
                    assert(strip_tags(s, inside)[i] == strip_tags(rest, next)[i - 1]);
                }
            } else {
                assert(strip_tags(s, inside)[i] == strip_tags(rest, next)[i]);
            }
        }
    }
}

/// Whether a text holds neither the bracket of a tag nor one of the common entities.
pub open spec fn is_clean(s: Seq<char>) -> bool {
    &&& !s.contains('<')
    &&& !s.contains('>')
    &&& !text::contains(s, "&amp;"@)
    &&& !text::contains(s, "&lt;"@)
    &&& !text::contains(s, "&gt;"@)
    &&& !text::contains(s, "&quot;"@)
    &&& !text::contains(s, "&#39;"@)
    &&& !text::contains(s, "&nbsp;"@)
}

/// Text without brackets is stripped to itself.
proof fn lemma_nothing_to_strip(s: Seq<char>)
    requires
        !s.contains('<'),
        !s.contains('>'),
    ensures
        strip_tags(s, false) == s,
    decreases s.len(),
{
    if s.len() > 0 {
        let rest = s.skip(1);
        assert(s.contains(s[0]));
        assert forall|c: char| rest.contains(c) implies s.contains(c) by {
            let i = choose|i: int| 0 <= i < rest.len() && rest[i] == c;
            assert(s[i + 1] == c);
        }
        lemma_nothing_to_strip(rest);
        assert(seq![s[0]] + rest == s);
    }
}

/// Text without entities is decoded to itself.
proof fn lemma_nothing_to_decode(s: Seq<char>)
    requires
        is_clean(s),
    ensures
        decode_entities(s) == s,
{
    text::lemma_replace_nowhere(s, "&amp;"@, seq!['&']);
    text::lemma_replace_nowhere(s, "&lt;"@, seq!['<']);
    text::lemma_replace_nowhere(s, "&gt;"@, seq!['>']);
    text::lemma_replace_nowhere(s, "&quot;"@, seq!['"']);
    text::lemma_replace_nowhere(s, "&#39;"@, seq!['\'']);
    text::lemma_replace_nowhere(s, "&nbsp;"@, seq![' ']);
}

/// Text without brackets and without `&` is clean.
proof fn lemma_plain_is_clean(s: Seq<char>)
    requires
        !s.contains('<'),
        !s.contains('>'),
        !s.contains('&'),
    ensures
        is_clean(s),
{
    reveal_strlit("&amp;");
    reveal_strlit("&lt;");
    reveal_strlit("&gt;");
    reveal_strlit("&quot;");
    reveal_strlit("&#39;");
    reveal_strlit("&nbsp;");
    text::lemma_contains_absent(s, "&amp;"@);
    text::lemma_contains_absent(s, "&lt;"@);
    text::lemma_contains_absent(s, "&gt;"@);
    text::lemma_contains_absent(s, "&quot;"@);
    text::lemma_contains_absent(s, "&#39;"@);
    text::lemma_contains_absent(s, "&nbsp;"@);
}

/// The tags of a text are stripped: what is left of a text without entities has neither `<`
/// nor `>`, and no entity.
pub proof fn cleaned_text_has_no_tags(s: Seq<char>)
    requires
        !s.contains('&'),
    ensures
        is_clean(cleaned(s)),
{
    let f = |c: char| c != '<' && c != '>' && c != '&';
    let t = strip_tags(s, false);
    lemma_stripped(s, false);
    assert forall|i: int| 0 <= i < t.len() implies f(#[trigger] t[i]) by {
        assert(s.contains(t[i]));
    }
    lemma_plain_is_clean(t);
    lemma_nothing_to_decode(t);
    text::lemma_words_chars(t, f);
    text::lemma_join_chars(text::words(t), ' ', f);
    let r = cleaned(s);
    assert forall|c: char| r.contains(c) implies f(c) by {
        let i = choose|i: int| 0 <= i < r.len() && r[i] == c;
        assert(f(r[i]));
    }
    lemma_plain_is_clean(r);
}

/// Cleaning clean text again changes nothing. What was decoded to a tag or to an entity is not
/// clean, and is taken for one the next time.
pub proof fn cleaning_is_done_once(s: Seq<char>)
    requires
        is_clean(cleaned(s)),
    ensures
        cleaned(cleaned(s)) == cleaned(s),
{
    let ws = text::words(decode_entities(strip_tags(s, false)));
    lemma_nothing_to_strip(cleaned(s));
    lemma_nothing_to_decode(cleaned(s));
    text::lemma_words_clean(decode_entities(strip_tags(s, false)));
    text::lemma_words_join(ws);
}

// ---------------------------------------------------------------------------------------
// What is read of a document
// ---------------------------------------------------------------------------------------

/// The metadata nodes of a document with one of those names, in any case, and a value that is
/// neither blank nor an empty list, in document order.
pub open spec fn entries_named(doc: Seq<XmlNodeView>, names: Seq<Seq<char>>) -> Seq<int> {
    lists::positions(
        doc.len() as int,
        |i: int|
            doc[i].name == "metadata"@ && xml::attribute(doc[i], "name"@) is Some && names.contains(
                unicode::lowercase(xml::attribute(doc[i], "name"@)->0),
            ) && doc[i].text is Some && text::trim(doc[i].text->0, CharSet::Space).len() > 0
                && text::trim(doc[i].text->0, CharSet::Space) != "[]"@,
    )
}

proof fn lemma_values(doc: Seq<XmlNodeView>, n: nat, f: MetaField, names: Seq<Seq<char>>)
    requires
        forall|s: Seq<char>| #[trigger] names.contains(s) <==> field_of(s) == Some(f),
        n <= doc.len(),
    ensures
        values(doc, n, f) == lists::positions(
            n as int,
            |i: int|
                doc[i].name == "metadata"@ && xml::attribute(doc[i], "name"@) is Some
                    && names.contains(unicode::lowercase(xml::attribute(doc[i], "name"@)->0))
                    && doc[i].text is Some && text::trim(doc[i].text->0, CharSet::Space).len() > 0
                    && text::trim(doc[i].text->0, CharSet::Space) != "[]"@,
        ).map_values(|i: int| text::trim(doc[i].text->0, CharSet::Space)),
    decreases n,
{
    let p = |i: int|
        doc[i].name == "metadata"@ && xml::attribute(doc[i], "name"@) is Some && names.contains(
            unicode::lowercase(xml::attribute(doc[i], "name"@)->0),
        ) && doc[i].text is Some && text::trim(doc[i].text->0, CharSet::Space).len() > 0
            && text::trim(doc[i].text->0, CharSet::Space) != "[]"@;
    let value = |i: int| text::trim(doc[i].text->0, CharSet::Space);
    if n > 0 {
        lemma_values(doc, (n - 1) as nat, f, names);
        let node = doc[n - 1];
        assert(gives(node, f) == p(n - 1)) by {
            match xml::attribute(node, "name"@) {
                Some(s) => {
                    assert(names.contains(unicode::lowercase(s)) <==> field_of(
                        unicode::lowercase(s),
                    ) == Some(f));
                },
                None => {
                    lemma_no_name();
                },
            }
        }
        let rest = lists::positions(n - 1, p);
        assert(rest.push(n - 1).map_values(value) =~= rest.map_values(value).push(value(n - 1)));
    } else {
        assert(lists::positions(0, p).map_values(value) =~= Seq::<Seq<char>>::empty());
    }
}

proof fn lemma_no_name()
    ensures
        field_of(unicode::lowercase(""@)) is None,
{
    reveal_strlit("");
    reveal_strlit("title");
    reveal_strlit("designer");
    reveal_strlit("profileusername");
    reveal_strlit("description");
    reveal_strlit("application");
    reveal_strlit("licenseterms");
    reveal_strlit("license");
    reveal_strlit("creationdate");
    assert(utf8::is_ascii_chars(""@));
    assert(unicode::lowercase(""@).len() == 0);
}

proof fn lemma_one_name(name: Seq<char>, s: Seq<char>)
    ensures
        seq![name].contains(s) <==> s == name,
{
    assert(seq![name][0] == name);
}

proof fn lemma_two_names(a: Seq<char>, b: Seq<char>, s: Seq<char>)
    ensures
        seq![a, b].contains(s) <==> s == a || s == b,
{
    assert(seq![a, b][0] == a && seq![a, b][1] == b);
}

proof fn lemma_field_names()
    ensures
        forall|s: Seq<char>| #[trigger] field_of(s) == Some(MetaField::Title) <==> s == "title"@,
        forall|s: Seq<char>| #[trigger] field_of(s) == Some(MetaField::Designer) <==> s
            == "designer"@ || s == "profileusername"@,
        forall|s: Seq<char>| #[trigger] field_of(s) == Some(MetaField::Description) <==> s
            == "description"@,
        forall|s: Seq<char>| #[trigger] field_of(s) == Some(MetaField::Application) <==> s
            == "application"@,
        forall|s: Seq<char>| #[trigger] field_of(s) == Some(MetaField::License) <==> s
            == "license"@ || s == "licenseterms"@,
        forall|s: Seq<char>| #[trigger] field_of(s) == Some(MetaField::Created) <==> s
            == "creationdate"@,
{
    reveal_strlit("title");
    reveal_strlit("designer");
    reveal_strlit("profileusername");
    reveal_strlit("description");
    reveal_strlit("application");
    reveal_strlit("licenseterms");
    reveal_strlit("license");
    reveal_strlit("creationdate");
    assert("title"@.len() == 5 && "designer"@.len() == 8 && "profileusername"@.len() == 15);
    assert("description"@.len() == 11 && "application"@.len() == 11 && "license"@.len() == 7);
    assert("licenseterms"@.len() == 12 && "creationdate"@.len() == 12);
    assert("description"@[0] == 'd' && "application"@[0] == 'a');
    assert("licenseterms"@[0] == 'l' && "creationdate"@[0] == 'c');
}

/// Whether a value is that of the last of the nodes, or absent where there is none.
pub open spec fn is_last_of(
    value: Option<Seq<char>>,
    doc: Seq<XmlNodeView>,
    nodes: Seq<int>,
) -> bool {
    if nodes.len() > 0 {
        value == Some(text::trim(doc[nodes.last()].text->0, CharSet::Space))
    } else {
        value is None
    }
}

/// Every kind of metadata is read from the nodes that have its name: the last title and
/// description, cleaned, the first designer, and the last application, license and date, each
/// as it is written but for white space around it. None of them depends on the others.
pub proof fn metadata_is_read_by_name(doc: Seq<XmlNodeView>, thumbnail: Option<Seq<u8>>)
    ensures
        ({
            let m = document_meta(doc, thumbnail);
            let titles = entries_named(doc, seq!["title"@]);
            let designers = entries_named(doc, seq!["designer"@, "profileusername"@]);
            let descriptions = entries_named(doc, seq!["description"@]);
            &&& titles.len() > 0 ==> m.title == Some(
                cleaned(text::trim(doc[titles.last()].text->0, CharSet::Space)),
            )
            &&& titles.len() == 0 ==> m.title is None
            &&& designers.len() > 0 ==> m.designer == Some(
                text::trim(doc[designers[0]].text->0, CharSet::Space),
            )
            &&& designers.len() == 0 ==> m.designer is None
            &&& descriptions.len() > 0 ==> m.description == Some(
                cleaned(text::trim(doc[descriptions.last()].text->0, CharSet::Space)),
            )
            &&& descriptions.len() == 0 ==> m.description is None
            &&& is_last_of(m.application, doc, entries_named(doc, seq!["application"@]))
            &&& is_last_of(m.license, doc, entries_named(doc, seq!["license"@, "licenseterms"@]))
            &&& is_last_of(m.created_at, doc, entries_named(doc, seq!["creationdate"@]))
            &&& m.thumbnail == thumbnail
        }),
{
    let n = doc.len();
    lemma_field_names();
    let titles = seq!["title"@];
    assert forall|s: Seq<char>| #[trigger] titles.contains(s) <==> field_of(s) == Some(
        MetaField::Title,
    ) by {
        lemma_one_name("title"@, s);
    }
    lemma_values(doc, n, MetaField::Title, titles);
    let designers = seq!["designer"@, "profileusername"@];
    assert forall|s: Seq<char>| #[trigger] designers.contains(s) <==> field_of(s) == Some(
        MetaField::Designer,
    ) by {
        lemma_two_names("designer"@, "profileusername"@, s);
    }
    lemma_values(doc, n, MetaField::Designer, designers);
    let descriptions = seq!["description"@];
    assert forall|s: Seq<char>| #[trigger] descriptions.contains(s) <==> field_of(s) == Some(
        MetaField::Description,
    ) by {
        lemma_one_name("description"@, s);
    }
    lemma_values(doc, n, MetaField::Description, descriptions);
    let applications = seq!["application"@];
    assert forall|s: Seq<char>| #[trigger] applications.contains(s) <==> field_of(s) == Some(
        MetaField::Application,
    ) by {
        lemma_one_name("application"@, s);
    }
    lemma_values(doc, n, MetaField::Application, applications);
    let licenses = seq!["license"@, "licenseterms"@];
    assert forall|s: Seq<char>| #[trigger] licenses.contains(s) <==> field_of(s) == Some(
        MetaField::License,
    ) by {
        lemma_two_names("license"@, "licenseterms"@, s);
    }
    lemma_values(doc, n, MetaField::License, licenses);
    let dates = seq!["creationdate"@];
    assert forall|s: Seq<char>| #[trigger] dates.contains(s) <==> field_of(s) == Some(
        MetaField::Created,
    ) by {
        lemma_one_name("creationdate"@, s);
    }
    lemma_values(doc, n, MetaField::Created, dates);
}

/// Objects, triangles and vertices are counted and read over the whole document, wherever they
/// stand; where there is none, there is no count.
pub proof fn elements_are_counted(doc: Seq<XmlNodeView>, thumbnail: Option<Seq<u8>>, k: int)
    ensures
        ({
            let m = document_meta(doc, thumbnail);
            let n = doc.len() as int;
            let objects = lists::positions(n, |i: int| doc[i].name == "object"@).len();
            let triangles = lists::positions(n, |i: int| doc[i].name == "triangle"@).len();
            let vertices = lists::positions(n, |i: int| doc[i].name == "vertex"@);
            &&& objects == 0 ==> m.object_count is None
            &&& objects > 0 ==> m.object_count == Some(objects)
            &&& triangles == 0 ==> m.triangle_count is None
            &&& triangles > 0 ==> m.triangle_count == Some(triangles)
            &&& m.vertices.len() == vertices.len()
            &&& 0 <= k < vertices.len() ==> m.vertices[k].x == xml::attribute(
                doc[vertices[k]],
                "x"@,
            ) && m.vertices[k].y == xml::attribute(doc[vertices[k]], "y"@) && m.vertices[k].z
                == xml::attribute(doc[vertices[k]], "z"@)
        }),
{
}

// ---------------------------------------------------------------------------------------
// What cleaning takes away
// ---------------------------------------------------------------------------------------

proof fn lemma_inside_tag(tag: Seq<char>, b: Seq<char>)
    requires
        !tag.contains('>'),
    ensures
        strip_tags(tag.push('>') + b, true) == strip_tags(b, false),
    decreases tag.len(),
{
    let s = tag.push('>') + b;
    if tag.len() == 0 {
        assert(s[0] == '>');
        assert(s.skip(1) =~= b);
    } else {
        assert(s[0] == tag[0]);
        assert(tag.contains(tag[0]));
        assert(s.skip(1) =~= tag.skip(1).push('>') + b);
        assert(!tag.skip(1).contains('>')) by {
            if tag.skip(1).contains('>') {
                let i = choose|i: int| 0 <= i < tag.skip(1).len() && tag.skip(1)[i] == '>';
                assert(tag[i + 1] == '>');
            }
        }
        lemma_inside_tag(tag.skip(1), b);
    }
}

/// A tag goes, with all that stands in it, and what stands before and behind it stays.
pub proof fn tags_go(a: Seq<char>, tag: Seq<char>, b: Seq<char>)
    requires
        !a.contains('<'),
        !a.contains('>'),
        !tag.contains('>'),
    ensures
        strip_tags(a.push('<') + tag.push('>') + b, false) == a + strip_tags(b, false),
        strip_tags(a, false) == a,
    decreases a.len(),
{
    let s = a.push('<') + tag.push('>') + b;
    lemma_nothing_to_strip(a);
    if a.len() == 0 {
        assert(s[0] == '<');
        assert(s.skip(1) =~= tag.push('>') + b);
        lemma_inside_tag(tag, b);
        assert(a + strip_tags(b, false) =~= strip_tags(b, false));
    } else {
        let rest = a.skip(1);
        assert(s[0] == a[0]);
        assert(a.contains(a[0]));
        assert(s.skip(1) =~= rest.push('<') + tag.push('>') + b);
        assert forall|c: char| c == '<' || c == '>' implies !#[trigger] rest.contains(c) by {
            if rest.contains(c) {
                let i = choose|i: int| 0 <= i < rest.len() && rest[i] == c;
                assert(a[i + 1] == c);
            }
        }
        tags_go(rest, tag, b);
        assert(seq![a[0]] + (rest + strip_tags(b, false)) =~= a + strip_tags(b, false));
    }
}

/// An entity that stands alone in a text is replaced where it stands.
proof fn lemma_entity(a: Seq<char>, e: Seq<char>, b: Seq<char>, c: char)
    requires
        !a.contains('&'),
        !b.contains('&'),
        e.len() > 1,
        e[0] == '&',
        forall|i: int| 1 <= i < e.len() ==> #[trigger] e[i] != '&',
    ensures
        text::replace(a + e + b, e, seq![c]) == a.push(c) + b,
{
    let s = a + e + b;
    assert forall|i: int| 0 <= i < a.len() implies !text::matches_at(s, e, i) by {
        if text::matches_at(s, e, i) {
            assert(s.subrange(i, i + e.len())[0] == s[i]);
            assert(a[i] == '&');
        }
    }
    text::the_first_place_is_replaced(a, e, b, seq![c]);
    text::lemma_contains_absent(b, e);
    text::lemma_replace_nowhere(b, e, seq![c]);
    assert(a + seq![c] + b =~= a.push(c) + b);
}

/// Another entity does not stand in a text with one.
proof fn lemma_other_entity(a: Seq<char>, e: Seq<char>, b: Seq<char>, other: Seq<char>, c: char)
    requires
        !a.contains('&'),
        !b.contains('&'),
        e.len() > 1,
        e[0] == '&',
        forall|i: int| 1 <= i < e.len() ==> #[trigger] e[i] != '&',
        other.len() > 1,
        other[0] == '&',
        e[1] != other[1],
    ensures
        text::replace(a + e + b, other, seq![c]) == a + e + b,
{
    let s = a + e + b;
    if text::contains(s, other) {
        let i = choose|i: int| text::matches_at(s, other, i);
        let sub = s.subrange(i, i + other.len());
        assert(sub[0] == s[i]);
        assert(s[i] == '&');
        if i < a.len() {
            assert(a[i] == '&');
        } else if i >= a.len() + e.len() {
            assert(b[i - a.len() - e.len()] == '&');
        } else {
            assert(e[i - a.len()] == '&');
            assert(i == a.len());
            assert(sub[1] == s[i + 1]);
            assert(s[i + 1] == e[1]);
        }
    }
    text::lemma_replace_nowhere(s, other, seq![c]);
}

/// Nothing is replaced in a text without an ampersand.
proof fn lemma_no_entity(s: Seq<char>, e: Seq<char>, c: char)
    requires
        !s.contains('&'),
        e.len() > 1,
        e[0] == '&',
    ensures
        text::replace(s, e, seq![c]) == s,
{
    text::lemma_contains_absent(s, e);
    text::lemma_replace_nowhere(s, e, seq![c]);
}

proof fn lemma_put(a: Seq<char>, c: char, b: Seq<char>)
    requires
        !a.contains('&'),
        !b.contains('&'),
        c != '&',
    ensures
        !(a.push(c) + b).contains('&'),
{
    let s = a.push(c) + b;
    if s.contains('&') {
        let i = choose|i: int| 0 <= i < s.len() && s[i] == '&';
        if i < a.len() {
            assert(a[i] == '&');
        } else if i > a.len() {
            assert(b[i - a.len() - 1] == '&');
        }
    }
}

/// Whether a text is an entity: an ampersand, with a semicolon at the end, and with that second
/// character.
spec fn is_entity(e: Seq<char>, second: char) -> bool {
    &&& e.len() > 1
    &&& e[0] == '&'
    &&& e[1] == second
    &&& e.last() == ';'
    &&& forall|i: int| 1 <= i < e.len() ==> #[trigger] e[i] != '&'
}

proof fn lemma_entities()
    ensures
        is_entity("&amp;"@, 'a'),
        is_entity("&lt;"@, 'l'),
        is_entity("&gt;"@, 'g'),
        is_entity("&quot;"@, 'q'),
        is_entity("&#39;"@, '#'),
        is_entity("&nbsp;"@, 'n'),
{
    reveal_strlit("&amp;");
    reveal_strlit("&lt;");
    reveal_strlit("&gt;");
    reveal_strlit("&quot;");
    reveal_strlit("&#39;");
    reveal_strlit("&nbsp;");
}

proof fn lemma_decode_lt(a: Seq<char>, b: Seq<char>)
    requires
        !a.contains('&'),
        !b.contains('&'),
    ensures
        decode_entities(a + "&lt;"@ + b) == a.push('<') + b,
{
    lemma_entities();
    lemma_put(a, '<', b);
    lemma_other_entity(a, "&lt;"@, b, "&amp;"@, '&');
    lemma_entity(a, "&lt;"@, b, '<');
    lemma_no_entity(a.push('<') + b, "&gt;"@, '>');
    lemma_no_entity(a.push('<') + b, "&quot;"@, '"');
    lemma_no_entity(a.push('<') + b, "&#39;"@, '\'');
    lemma_no_entity(a.push('<') + b, "&nbsp;"@, ' ');
}

proof fn lemma_decode_gt(a: Seq<char>, b: Seq<char>)
    requires
        !a.contains('&'),
        !b.contains('&'),
    ensures
        decode_entities(a + "&gt;"@ + b) == a.push('>') + b,
{
    lemma_entities();
    lemma_put(a, '>', b);
    lemma_other_entity(a, "&gt;"@, b, "&amp;"@, '&');
    lemma_other_entity(a, "&gt;"@, b, "&lt;"@, '<');
    lemma_entity(a, "&gt;"@, b, '>');
    lemma_no_entity(a.push('>') + b, "&quot;"@, '"');
    lemma_no_entity(a.push('>') + b, "&#39;"@, '\'');
    lemma_no_entity(a.push('>') + b, "&nbsp;"@, ' ');
}

proof fn lemma_decode_quot(a: Seq<char>, b: Seq<char>)
    requires
        !a.contains('&'),
        !b.contains('&'),
    ensures
        decode_entities(a + "&quot;"@ + b) == a.push('"') + b,
{
    lemma_entities();
    lemma_put(a, '"', b);
    lemma_other_entity(a, "&quot;"@, b, "&amp;"@, '&');
    lemma_other_entity(a, "&quot;"@, b, "&lt;"@, '<');
    lemma_other_entity(a, "&quot;"@, b, "&gt;"@, '>');
    lemma_entity(a, "&quot;"@, b, '"');
    lemma_no_entity(a.push('"') + b, "&#39;"@, '\'');
    lemma_no_entity(a.push('"') + b, "&nbsp;"@, ' ');
}

proof fn lemma_decode_apos(a: Seq<char>, b: Seq<char>)
    requires
        !a.contains('&'),
        !b.contains('&'),
    ensures
        decode_entities(a + "&#39;"@ + b) == a.push('\'') + b,
{
    lemma_entities();
    lemma_put(a, '\'', b);
    lemma_other_entity(a, "&#39;"@, b, "&amp;"@, '&');
    lemma_other_entity(a, "&#39;"@, b, "&lt;"@, '<');
    lemma_other_entity(a, "&#39;"@, b, "&gt;"@, '>');
    lemma_other_entity(a, "&#39;"@, b, "&quot;"@, '"');
    lemma_entity(a, "&#39;"@, b, '\'');
    lemma_no_entity(a.push('\'') + b, "&nbsp;"@, ' ');
}

proof fn lemma_decode_nbsp(a: Seq<char>, b: Seq<char>)
    requires
        !a.contains('&'),
        !b.contains('&'),
    ensures
        decode_entities(a + "&nbsp;"@ + b) == a.push(' ') + b,
{
    lemma_entities();
    lemma_put(a, ' ', b);
    lemma_other_entity(a, "&nbsp;"@, b, "&amp;"@, '&');
    lemma_other_entity(a, "&nbsp;"@, b, "&lt;"@, '<');
    lemma_other_entity(a, "&nbsp;"@, b, "&gt;"@, '>');
    lemma_other_entity(a, "&nbsp;"@, b, "&quot;"@, '"');
    lemma_other_entity(a, "&nbsp;"@, b, "&#39;"@, '\'');
    lemma_entity(a, "&nbsp;"@, b, ' ');
}

proof fn lemma_decode_amp(a: Seq<char>, b: Seq<char>)
    requires
        !a.contains('&'),
        !b.contains('&'),
        !b.contains(';'),
    ensures
        decode_entities(a + "&amp;"@ + b) == a.push('&') + b,
{
    lemma_entities();
    lemma_entity(a, "&amp;"@, b, '&');
    lemma_lone_ampersand(a, b, "&lt;"@, '<');
    lemma_lone_ampersand(a, b, "&gt;"@, '>');
    lemma_lone_ampersand(a, b, "&quot;"@, '"');
    lemma_lone_ampersand(a, b, "&#39;"@, '\'');
    lemma_lone_ampersand(a, b, "&nbsp;"@, ' ');
}

/// Each of the six entities becomes its character, and the text around it stays.
pub proof fn entities_become_their_characters(a: Seq<char>, b: Seq<char>)
    requires
        !a.contains('&'),
        !b.contains('&'),
    ensures
        decode_entities(a + "&lt;"@ + b) == a.push('<') + b,
        decode_entities(a + "&gt;"@ + b) == a.push('>') + b,
        decode_entities(a + "&quot;"@ + b) == a.push('"') + b,
        decode_entities(a + "&#39;"@ + b) == a.push('\'') + b,
        decode_entities(a + "&nbsp;"@ + b) == a.push(' ') + b,
        !b.contains(';') ==> decode_entities(a + "&amp;"@ + b) == a.push('&') + b,
        decode_entities(a) == a,
{
    lemma_decode_lt(a, b);
    lemma_decode_gt(a, b);
    lemma_decode_quot(a, b);
    lemma_decode_apos(a, b);
    lemma_decode_nbsp(a, b);
    if !b.contains(';') {
        lemma_decode_amp(a, b);
    }
    lemma_entities();
    lemma_no_entity(a, "&amp;"@, '&');
    lemma_no_entity(a, "&lt;"@, '<');
    lemma_no_entity(a, "&gt;"@, '>');
    lemma_no_entity(a, "&quot;"@, '"');
    lemma_no_entity(a, "&#39;"@, '\'');
    lemma_no_entity(a, "&nbsp;"@, ' ');
}

/// An ampersand without a semicolon behind it starts no entity.
proof fn lemma_lone_ampersand(a: Seq<char>, b: Seq<char>, e: Seq<char>, c: char)
    requires
        !a.contains('&'),
        !b.contains('&'),
        !b.contains(';'),
        e.len() > 1,
        e[0] == '&',
        e.last() == ';',
    ensures
        text::replace(a.push('&') + b, e, seq![c]) == a.push('&') + b,
{
    let s = a.push('&') + b;
    if text::contains(s, e) {
        let i = choose|i: int| text::matches_at(s, e, i);
        let sub = s.subrange(i, i + e.len());
        assert(sub[0] == s[i]);
        assert(sub[e.len() - 1] == s[i + e.len() - 1]);
        if i < a.len() {
            assert(a[i] == '&');
        } else {
            assert(b[i + e.len() - 1 - a.len() - 1] == ';');
        }
    }
    text::lemma_replace_nowhere(s, e, seq![c]);
}

/// Cleaning keeps every word of a text without tags and entities, with one space between them.
pub proof fn cleaning_keeps_words(s: Seq<char>)
    requires
        !s.contains('<'),
        !s.contains('>'),
        !s.contains('&'),
    ensures
        cleaned(s) == text::join(text::words(s), ' '),
{
    lemma_nothing_to_strip(s);
    lemma_plain_is_clean(s);
    lemma_nothing_to_decode(s);
}

/// Cleaning first takes the tags away, then decodes the entities, and then puts the words
/// together.
pub proof fn cleaning_takes_tags_first(a: Seq<char>, tag: Seq<char>, b: Seq<char>)
    requires
        !a.contains('<'),
        !a.contains('>'),
        !tag.contains('>'),
        !b.contains('<'),
        !b.contains('>'),
    ensures
        cleaned(a.push('<') + tag.push('>') + b) == cleaned(a + b),
{
    tags_go(a, tag, b);
    lemma_nothing_to_strip(b);
    assert forall|c: char| c == '<' || c == '>' implies !#[trigger] (a + b).contains(c) by {
        if (a + b).contains(c) {
            let i = choose|i: int| 0 <= i < (a + b).len() && (a + b)[i] == c;
            if i < a.len() {
                assert(a[i] == c);
            } else {
                assert(b[i - a.len()] == c);
            }
        }
    }
    lemma_nothing_to_strip(a + b);
}

// ---------------------------------------------------------------------------------------
// Which entries of an archive are read
// ---------------------------------------------------------------------------------------

/// The model of an archive is the first entry with the usual name, in any case; where there is
/// none, it is the first entry that ends in `.model`, and where there is none either, the
/// archive has no model.
pub proof fn the_usual_model_comes_first(names: Seq<Seq<char>>, i: int)
    requires
        0 <= i < names.len(),
    ensures
        text::same_ignoring_ascii_case(names[i], "3d/3dmodel.model"@) && (forall|j: int|
            0 <= j < i ==> !text::same_ignoring_ascii_case(
                #[trigger] names[j],
                "3d/3dmodel.model"@,
            )) ==> model_position(names) == Some(i),
        ".model"@.is_suffix_of(names[i]) && (forall|j: int|
            0 <= j < i ==> !".model"@.is_suffix_of(#[trigger] names[j])) && (forall|j: int|
            0 <= j < names.len() ==> !text::same_ignoring_ascii_case(
                #[trigger] names[j],
                "3d/3dmodel.model"@,
            )) ==> model_position(names) == Some(i),
        model_position(names) is None ==> !".model"@.is_suffix_of(names[i])
            && !text::same_ignoring_ascii_case(names[i], "3d/3dmodel.model"@),
{
    let n = names.len() as int;
    let usual = |i: int| text::same_ignoring_ascii_case(names[i], "3d/3dmodel.model"@);
    let ends = |i: int| ".model"@.is_suffix_of(names[i]);
    lists::the_first_position_is_the_least(n, usual);
    lists::the_first_position_is_the_least(n, ends);
    assert(usual(i) == text::same_ignoring_ascii_case(names[i], "3d/3dmodel.model"@));
    assert(ends(i) == ".model"@.is_suffix_of(names[i]));
    match lists::first(lists::positions(n, usual)) {
        Some(k) => {
            assert(usual(k));
            assert(text::same_ignoring_ascii_case(names[k], "3d/3dmodel.model"@));
        },
        None => {},
    }
    match lists::first(lists::positions(n, ends)) {
        Some(k) => {
            assert(ends(k));
            assert(".model"@.is_suffix_of(names[k]));
        },
        None => {},
    }
}

/// Every model entry of an archive that is text is read, under its key, in the order of the
/// archive; other entries, and those that cannot be read, are passed over.
pub proof fn every_model_entry_is_read(data: Seq<u8>, names: Seq<Seq<char>>)
    ensures
        model_texts(data, names) == lists::positions(
            names.len() as int,
            |i: int|
                ".model"@.is_suffix_of(unicode::lowercase(names[i])) && entry_text(data, names[i])
                    is Some,
        ).map_values(
            |i: int|
                ModelTextView {
                    key: mesh::file_key(names[i]),
                    text: entry_text(data, names[i])->0,
                },
        ),
{
    lemma_model_texts(data, names, names.len() as int);
    assert(names.take(names.len() as int) =~= names);
}

proof fn lemma_model_texts(data: Seq<u8>, names: Seq<Seq<char>>, n: int)
    requires
        0 <= n <= names.len(),
    ensures
        model_texts(data, names.take(n)) == lists::positions(
            n,
            |i: int|
                ".model"@.is_suffix_of(unicode::lowercase(names[i])) && entry_text(data, names[i])
                    is Some,
        ).map_values(
            |i: int|
                ModelTextView {
                    key: mesh::file_key(names[i]),
                    text: entry_text(data, names[i])->0,
                },
        ),
    decreases n,
{
    let p = |i: int|
        ".model"@.is_suffix_of(unicode::lowercase(names[i])) && entry_text(data, names[i]) is Some;
    let f = |i: int|
        ModelTextView { key: mesh::file_key(names[i]), text: entry_text(data, names[i])->0 };
    if n > 0 {
        lemma_model_texts(data, names, n - 1);
        assert(names.take(n).drop_last() =~= names.take(n - 1));
        let rest = lists::positions(n - 1, p);
        assert(rest.push(n - 1).map_values(f) =~= rest.map_values(f).push(f(n - 1)));
    } else {
        assert(lists::positions(0, p).map_values(f) =~= Seq::<ModelTextView>::empty());
    }
}

/// The picture of an archive is the first one in the order of preference that can be read whole
/// and is not empty.
pub proof fn the_first_good_picture_is_taken(
    data: Seq<u8>,
    names: Seq<Seq<char>>,
    order: Seq<int>,
    k: int,
)
    requires
        0 <= k <= order.len(),
        forall|j: int|
            0 <= j < k ==> !(archive::zip_entry(data, names[#[trigger] order[j]]) matches EntryView::Whole(
                c,
            ) && c.len() > 0),
        k < order.len() ==> (archive::zip_entry(data, names[order[k]]) matches EntryView::Whole(c)
            && c.len() > 0),
    ensures
        k < order.len() ==> (archive::zip_entry(data, names[order[k]]) matches EntryView::Whole(c)
            && first_content(data, names, order) == Some(c)),
        k == order.len() ==> first_content(data, names, order) is None,
    decreases k,
{
    if k > 0 {
        let rest = order.skip(1);
        assert(!(archive::zip_entry(data, names[order[0]]) matches EntryView::Whole(c) && c.len()
            > 0));
        assert forall|j: int| 0 <= j < k - 1 implies !(archive::zip_entry(
            data,
            names[#[trigger] rest[j]],
        ) matches EntryView::Whole(c) && c.len() > 0) by {
            assert(rest[j] == order[j + 1]);
        }
        the_first_good_picture_is_taken(data, names, rest, k - 1);
    }
}

/// The names of the pictures that are preferred, the best first.
pub open spec fn preferred_pictures() -> Seq<Seq<char>> {
    seq![
        "Metadata/plate_1.png"@,
        "Auxiliaries/.thumbnails/thumbnail_middle.png"@,
        "Auxiliaries/.thumbnails/thumbnail_3mf.png"@,
        "Auxiliaries/.thumbnails/thumbnail_small.png"@,
    ]
}

proof fn lemma_named_picture(names: Seq<Seq<char>>, wanted: Seq<char>, i: int)
    requires
        0 <= i < names.len(),
        text::same_ignoring_ascii_case(names[i], wanted),
        forall|j: int|
            0 <= j < i ==> !text::same_ignoring_ascii_case(#[trigger] names[j], wanted),
    ensures
        named(names, wanted) == seq![i],
{
    let p = |k: int| text::same_ignoring_ascii_case(names[k], wanted);
    lists::the_first_position_is_the_least(names.len() as int, p);
    assert(p(i));
    match lists::first(lists::positions(names.len() as int, p)) {
        Some(k) => {
            assert(p(k));
            assert(text::same_ignoring_ascii_case(names[k], wanted));
        },
        None => {},
    }
}

proof fn lemma_named_all(names: Seq<Seq<char>>, wanted: Seq<char>)
    ensures
        named(names, wanted).len() <= 1,
        named(names, wanted).len() == 1 ==> text::same_ignoring_ascii_case(
            names[named(names, wanted)[0]],
            wanted,
        ),
{
    let p = |k: int| text::same_ignoring_ascii_case(names[k], wanted);
    lists::the_first_position_is_the_least(names.len() as int, p);
    match lists::first(lists::positions(names.len() as int, p)) {
        Some(k) => {
            assert(p(k));
        },
        None => {},
    }
}

/// A preferred picture that is there, in any case, comes before all but the better ones.
pub proof fn better_pictures_come_first(names: Seq<Seq<char>>, r: int, i: int) -> (k: int)
    requires
        0 <= r < 4,
        0 <= i < names.len(),
        text::same_ignoring_ascii_case(names[i], preferred_pictures()[r]),
        forall|j: int|
            0 <= j < i ==> !text::same_ignoring_ascii_case(
                #[trigger] names[j],
                preferred_pictures()[r],
            ),
    ensures
        0 <= k < picture_order(names).len(),
        picture_order(names)[k] == i,
        k <= r,
        forall|j: int|
            0 <= j < k ==> exists|q: int|
                0 <= q < r && text::same_ignoring_ascii_case(
                    names[#[trigger] picture_order(names)[j]],
                    #[trigger] preferred_pictures()[q],
                ),
{
    let w = preferred_pictures();
    let a = named(names, w[0]);
    let b = named(names, w[1]);
    let c = named(names, w[2]);
    let d = named(names, w[3]);
    lemma_named_all(names, w[0]);
    lemma_named_all(names, w[1]);
    lemma_named_all(names, w[2]);
    lemma_named_all(names, w[3]);
    lemma_named_picture(names, w[r], i);
    let order = picture_order(names);
    let k: int = if r == 0 {
        0
    } else if r == 1 {
        a.len() as int
    } else if r == 2 {
        (a.len() + b.len()) as int
    } else {
        (a.len() + b.len() + c.len()) as int
    };
    assert forall|j: int| 0 <= j < k implies exists|q: int|
        0 <= q < r && text::same_ignoring_ascii_case(
            names[#[trigger] order[j]],
            #[trigger] w[q],
        ) by {
        if j < a.len() {
            assert(order[j] == a[0]);
            assert(text::same_ignoring_ascii_case(names[order[j]], w[0]));
        } else if j < a.len() + b.len() {
            assert(order[j] == b[0]);
            assert(text::same_ignoring_ascii_case(names[order[j]], w[1]));
        } else {
            assert(order[j] == c[0]);
            assert(text::same_ignoring_ascii_case(names[order[j]], w[2]));
        }
    }
    k
}

/// Behind the preferred pictures come all PNG entries of the two folders of pictures, in the
/// order of the archive.
pub proof fn other_pictures_come_last(names: Seq<Seq<char>>)
    ensures
        ({
            let others = lists::positions(
                names.len() as int,
                |i: int|
                    ".png"@.is_suffix_of(unicode::lowercase(names[i])) && (text::contains(
                        unicode::lowercase(names[i]),
                        "metadata"@,
                    ) || text::contains(unicode::lowercase(names[i]), "auxiliaries"@)),
            );
            let n = picture_order(names).len() - others.len();
            &&& 0 <= n <= 4
            &&& picture_order(names).skip(n) == others
        }),
{
    let w = preferred_pictures();
    lemma_named_all(names, w[0]);
    lemma_named_all(names, w[1]);
    lemma_named_all(names, w[2]);
    lemma_named_all(names, w[3]);
    let p = |i: int|
        ".png"@.is_suffix_of(unicode::lowercase(names[i])) && (text::contains(
            unicode::lowercase(names[i]),
            "metadata"@,
        ) || text::contains(unicode::lowercase(names[i]), "auxiliaries"@));
    let q = |i: int| is_picture(names[i]);
    lists::lemma_same_positions(names.len() as int, p, q);
    let others = lists::positions(names.len() as int, p);
    let n = picture_order(names).len() - others.len();
    assert(picture_order(names).skip(n) =~= others);
}

/// The metadata of an archive is that of the document of its model, with the first good
/// picture; what is missing on the way there is the error.
pub proof fn metadata_is_that_of_the_model(data: Seq<u8>)
    ensures
        archive::zip_names(data) is None ==> archive_meta(data) == Err::<ThreeMfMetaView, _>(
            ThreeMfError::NotAnArchive,
        ),
        archive::zip_names(data) matches Some(names) ==> match model_position(names) {
            None => archive_meta(data) == Err::<ThreeMfMetaView, _>(ThreeMfError::NoModel),
            Some(i) => {
                let t = entry_text(data, names[i]);
                &&& t is None ==> archive_meta(data) == Err::<ThreeMfMetaView, _>(
                    ThreeMfError::UnreadableModel,
                )
                &&& t is Some && xml::tree(t->0) is None ==> archive_meta(data) == Err::<
                    ThreeMfMetaView,
                    _,
                >(ThreeMfError::InvalidXml)
                &&& t is Some && xml::tree(t->0) is Some ==> archive_meta(data) == Ok::<_, ThreeMfError>(
                    document_meta(
                        xml::tree(t->0)->0,
                        first_content(data, names, picture_order(names)),
                    ),
                )
            },
        },
{
}

/// An entry is text where it can be read whole and is UTF-8, and then it is the text that was
/// encoded; one that is broken or cannot be opened is none.
pub proof fn only_whole_entries_are_text(data: Seq<u8>, name: Seq<char>, t: Seq<char>)
    ensures
        archive::zip_entry(data, name) == EntryView::Whole(utf8::encode_utf8(t)) ==> entry_text(
            data,
            name,
        ) == Some(t),
        archive::zip_entry(data, name) matches EntryView::Whole(c) ==> (entry_text(data, name)
            is Some <==> utf8::valid_utf8(c)),
        !(archive::zip_entry(data, name) is Whole) ==> entry_text(data, name) is None,
{
    utf8::encode_utf8_valid_utf8(t);
    utf8::encode_utf8_decode_utf8(t);
}

/// The files that the components of the main document name are read, and the main document
/// itself; the others are left.
pub proof fn named_files_are_read(
    texts: Seq<ModelTextView>,
    main: int,
    doc: Seq<XmlNodeView>,
    k: int,
    comp: int,
)
    requires
        0 <= k < texts.len(),
        0 <= comp < doc.len(),
        doc[comp].name == "component"@,
        xml::local_attribute(doc[comp], "path"@) is Some,
        unicode::lowercase(
            text::trim_start(xml::local_attribute(doc[comp], "path"@)->0, CharSet::Slash),
        ) == texts[k].key,
    ensures
        read_files(texts, main, doc).len() == texts.len(),
        read_files(texts, main, doc)[k].key == texts[k].key,
        k == main ==> read_files(texts, main, doc)[k].doc == Some(doc),
        k != main ==> read_files(texts, main, doc)[k].doc == xml::tree(texts[k].text),
{
    mesh::every_component_names_its_file(doc);
    let n = doc.len() as int;
    let p = |i: int| doc[i].name == "component"@ && xml::local_attribute(doc[i], "path"@) is Some;
    let f = |i: int|
        unicode::lowercase(
            text::trim_start(xml::local_attribute(doc[i], "path"@)->0, CharSet::Slash),
        );
    lists::positions_are_all(n, p);
    assert(p(comp));
    let all = lists::positions(n, p);
    assert(all.contains(comp));
    let j = choose|j: int| 0 <= j < all.len() && all[j] == comp;
    assert(all.map_values(f)[j] == texts[k].key);
}

/// The geometry of an archive is that of its model files, with the last of those that are the
/// model as the main one; what is missing on the way there is the error.
pub proof fn geometry_is_that_of_the_models(data: Seq<u8>)
    ensures
        archive::zip_names(data) is None ==> archive_geometry(data) == Err::<GeometryView, _>(
            ThreeMfError::NotAnArchive,
        ),
        archive::zip_names(data) matches Some(names) ==> {
            let texts = model_texts(data, names);
            let files = Seq::new(
                texts.len(),
                |i: int| ModelFileView { key: texts[i].key, doc: None },
            );
            match mesh::main_file(files) {
                None => archive_geometry(data) == Err::<GeometryView, _>(ThreeMfError::NoModel),
                Some(main) => match xml::tree(texts[main].text) {
                    None => archive_geometry(data) == Err::<GeometryView, _>(
                        ThreeMfError::InvalidXml,
                    ),
                    Some(doc) => archive_geometry(data) == mesh::files_geometry(
                        read_files(texts, main, doc),
                    ),
                },
            }
        },
{
    match archive::zip_names(data) {
        Some(names) => {
            let texts = model_texts(data, names);
            assert(unread_files(texts) =~= Seq::new(
                texts.len(),
                |i: int| ModelFileView { key: texts[i].key, doc: None },
            ));
        },
        None => {},
    }
}

/// Entities are decoded when the tags are gone: a bracket that an entity stood for stays, and a
/// space that one stood for parts words.
pub proof fn decoded_brackets_stay(a: Seq<char>, b: Seq<char>)
    requires
        forall|c: char| c == '<' || c == '>' || c == '&' ==> !#[trigger] a.contains(c),
        forall|c: char| c == '<' || c == '>' || c == '&' ==> !#[trigger] b.contains(c),
    ensures
        cleaned(a + "&lt;"@ + b) == text::join(text::words(a.push('<') + b), ' '),
        cleaned(a + "&gt;"@ + b) == text::join(text::words(a.push('>') + b), ' '),
        cleaned(a + "&nbsp;"@ + b) == text::join(text::words(a) + text::words(b), ' '),
{
    reveal_strlit("&lt;");
    reveal_strlit("&gt;");
    reveal_strlit("&nbsp;");
    entities_become_their_characters(a, b);
    lemma_no_brackets(a, "&lt;"@, b);
    lemma_no_brackets(a, "&gt;"@, b);
    lemma_no_brackets(a, "&nbsp;"@, b);
    lemma_nothing_to_strip(a + "&lt;"@ + b);
    lemma_nothing_to_strip(a + "&gt;"@ + b);
    lemma_nothing_to_strip(a + "&nbsp;"@ + b);
    text::white_space_parts_words(a, ' ', b);
}

proof fn lemma_no_brackets(a: Seq<char>, e: Seq<char>, b: Seq<char>)
    requires
        !a.contains('<'),
        !a.contains('>'),
        !b.contains('<'),
        !b.contains('>'),
        forall|i: int| 0 <= i < e.len() ==> #[trigger] e[i] != '<' && e[i] != '>',
    ensures
        !(a + e + b).contains('<'),
        !(a + e + b).contains('>'),
{
    let s = a + e + b;
    assert forall|i: int| 0 <= i < s.len() implies s[i] != '<' && s[i] != '>' by {
        if i < a.len() {
            assert(a.contains(a[i]));
        } else if i < a.len() + e.len() {
            assert(s[i] == e[i - a.len()]);
        } else {
            assert(b.contains(b[i - a.len() - e.len()]));
        }
    }
}

/// What stands behind a bracket that is not closed goes, and so does a bracket that closes
/// nothing.
pub proof fn open_tags_take_the_rest(a: Seq<char>, b: Seq<char>)
    requires
        !a.contains('<'),
        !a.contains('>'),
    ensures
        !b.contains('>') ==> strip_tags(a.push('<') + b, false) == a,
        strip_tags(a.push('>') + b, false) == a + strip_tags(b, false),
    decreases a.len(),
{
    let s = a.push('<') + b;
    let t = a.push('>') + b;
    if a.len() == 0 {
        assert(s[0] == '<' && t[0] == '>');
        assert(s.skip(1) =~= b);
        assert(t.skip(1) =~= b);
        if !b.contains('>') {
            lemma_never_closed(b);
        }
        assert(a + strip_tags(b, false) =~= strip_tags(b, false));
        assert(a =~= Seq::<char>::empty());
    } else {
        let rest = a.skip(1);
        assert(s[0] == a[0] && t[0] == a[0]);
        assert(a.contains(a[0]));
        assert(s.skip(1) =~= rest.push('<') + b);
        assert(t.skip(1) =~= rest.push('>') + b);
        assert forall|c: char| c == '<' || c == '>' implies !#[trigger] rest.contains(c) by {
            if rest.contains(c) {
                let i = choose|i: int| 0 <= i < rest.len() && rest[i] == c;
                assert(a[i + 1] == c);
            }
        }
        open_tags_take_the_rest(rest, b);
        assert(seq![a[0]] + rest =~= a);
        assert(seq![a[0]] + (rest + strip_tags(b, false)) =~= a + strip_tags(b, false));
    }
}

proof fn lemma_never_closed(b: Seq<char>)
    requires
        !b.contains('>'),
    ensures
        strip_tags(b, true).len() == 0,
    decreases b.len(),
{
    if b.len() > 0 {
        assert(b.contains(b[0]));
        assert(!b.skip(1).contains('>')) by {
            if b.skip(1).contains('>') {
                let i = choose|i: int| 0 <= i < b.skip(1).len() && b.skip(1)[i] == '>';
                assert(b[i + 1] == '>');
            }
        }
        lemma_never_closed(b.skip(1));
    }
}

} // verus!
