//! The meshes of 3MF models: which of them a model places, and what they hold.

use vstd::prelude::*;

use crate::formats::threemf;
use crate::formats::threemf::ThreeMfError;
use crate::lists;
use crate::numbers;
use crate::text;
use crate::text::CharSet;
use crate::unicode;
use crate::xml;
use crate::xml::{XmlNode, XmlNodeView};

verus! {

/// The coordinates of a vertex as the model writes them.
pub struct VertexText {
    pub x: Option<String>,
    pub y: Option<String>,
    pub z: Option<String>,
}

/// The corners of a triangle, as positions in the list of all vertices.
#[derive(Clone, Copy, PartialEq, Eq, Structural, Debug)]
pub struct Triangle {
    pub v1: u32,
    pub v2: u32,
    pub v3: u32,
}

/// The vertices of one mesh and the transforms that place them: the inner one is applied first.
pub struct PlacedMesh {
    pub outer: Option<String>,
    pub inner: Option<String>,
    pub vertices: Vec<VertexText>,
}

/// The meshes of a file, and the triangles over all their vertices in order.
pub struct Geometry {
    pub meshes: Vec<PlacedMesh>,
    pub triangles: Vec<Triangle>,
}

/// A model file of an archive: its name without leading slashes and in small letters, and its
/// document, where it was read and is one.
pub struct ModelFile {
    pub key: String,
    pub nodes: Option<Vec<XmlNode>>,
}

pub struct VertexView {
    pub x: Option<Seq<char>>,
    pub y: Option<Seq<char>>,
    pub z: Option<Seq<char>>,
}

pub struct PlacedMeshView {
    pub outer: Option<Seq<char>>,
    pub inner: Option<Seq<char>>,
    pub vertices: Seq<VertexView>,
}

pub struct GeometryView {
    pub meshes: Seq<PlacedMeshView>,
    pub triangles: Seq<Triangle>,
}

pub struct ModelFileView {
    pub key: Seq<char>,
    pub doc: Option<Seq<XmlNodeView>>,
}

impl View for VertexText {
    type V = VertexView;

    open spec fn view(&self) -> VertexView {
        VertexView {
            x: text::text_of(self.x),
            y: text::text_of(self.y),
            z: text::text_of(self.z),
        }
    }
}

impl View for PlacedMesh {
    type V = PlacedMeshView;

    open spec fn view(&self) -> PlacedMeshView {
        PlacedMeshView {
            outer: text::text_of(self.outer),
            inner: text::text_of(self.inner),
            vertices: self.vertices@.map_values(|v: VertexText| v@),
        }
    }
}

impl View for Geometry {
    type V = GeometryView;

    open spec fn view(&self) -> GeometryView {
        GeometryView {
            meshes: self.meshes@.map_values(|m: PlacedMesh| m@),
            triangles: self.triangles@,
        }
    }
}

impl View for ModelFile {
    type V = ModelFileView;

    open spec fn view(&self) -> ModelFileView {
        ModelFileView {
            key: self.key@,
            doc: match self.nodes {
                Some(n) => Some(xml::document(n@)),
                None => None,
            },
        }
    }
}

/// The files behind a list of model files.
pub open spec fn file_views(files: Seq<ModelFile>) -> Seq<ModelFileView> {
    files.map_values(|f: ModelFile| f@)
}

// ---------------------------------------------------------------------------------------
// Which meshes a model places, and where
// ---------------------------------------------------------------------------------------

/// A mesh that a model places: a node of a document, and the transforms of its vertices.
pub struct MeshUse {
    pub doc: Seq<XmlNodeView>,
    pub mesh: int,
    pub outer: Option<Seq<char>>,
    pub inner: Option<Seq<char>>,
}

/// Whether an object is one to print: its type is `model`, which is also the default.
pub open spec fn is_model(n: XmlNodeView) -> bool {
    match xml::attribute(n, "type"@) {
        Some(t) => t == "model"@,
        None => true,
    }
}

/// The transform that a component or a build item carries.
pub open spec fn transform(n: XmlNodeView) -> Option<Seq<char>> {
    xml::local_attribute(n, "transform"@)
}

/// The build items that place the object with that id.
pub open spec fn build_items(doc: Seq<XmlNodeView>, id: Seq<char>) -> Seq<int> {
    lists::positions(
        doc.len() as int,
        |i: int| doc[i].name == "item"@ && xml::attribute(doc[i], "objectid"@) == Some(id),
    )
}

/// The transform of the last build item that places the object.
pub open spec fn build_transform(doc: Seq<XmlNodeView>, object: int) -> Option<Seq<char>> {
    match xml::attribute(doc[object], "id"@) {
        Some(id) => if build_items(doc, id).len() > 0 {
            transform(doc[build_items(doc, id).last()])
        } else {
            None
        },
        None => None,
    }
}

/// The position of the last file with that key.
pub open spec fn file_of(files: Seq<ModelFileView>, key: Seq<char>) -> Option<int> {
    let found = lists::positions(files.len() as int, |i: int| files[i].key == key);
    if found.len() > 0 {
        Some(found.last())
    } else {
        None
    }
}

/// The key under which the file of a path stands.
pub open spec fn file_key(path: Seq<char>) -> Seq<char> {
    unicode::lowercase(text::trim_start(path, CharSet::Slash))
}

/// The mesh of an object of another file, where the component asks for that object.
pub open spec fn outside_object_use(
    doc: Seq<XmlNodeView>,
    object: int,
    wanted: Option<Seq<char>>,
    outer: Option<Seq<char>>,
    inner: Option<Seq<char>>,
) -> Seq<MeshUse> {
    let asked = wanted matches Some(w) ==> xml::attribute(doc[object], "id"@) == Some(w);
    match lists::first(xml::children(doc, object, "mesh"@)) {
        Some(mesh) => if asked && is_model(doc[object]) {
            seq![MeshUse { doc, mesh, outer, inner }]
        } else {
            Seq::empty()
        },
        None => Seq::empty(),
    }
}

/// The meshes of the first objects of another file that a component asks for.
pub open spec fn outside_uses(
    doc: Seq<XmlNodeView>,
    objects: Seq<int>,
    wanted: Option<Seq<char>>,
    outer: Option<Seq<char>>,
    inner: Option<Seq<char>>,
) -> Seq<MeshUse>
    decreases objects.len(),
{
    if objects.len() == 0 {
        Seq::empty()
    } else {
        outside_uses(doc, objects.drop_last(), wanted, outer, inner) + outside_object_use(
            doc,
            objects.last(),
            wanted,
            outer,
            inner,
        )
    }
}

/// The meshes that a component places: those of the objects it names in the file that its path
/// names. A component without a path, or whose file is absent or no document, places none.
pub open spec fn component_uses(
    files: Seq<ModelFileView>,
    comp: XmlNodeView,
    outer: Option<Seq<char>>,
) -> Seq<MeshUse> {
    match xml::local_attribute(comp, "path"@) {
        Some(path) => match file_of(files, file_key(path)) {
            Some(f) => match files[f].doc {
                Some(doc) => outside_uses(
                    doc,
                    xml::elements(doc, "object"@),
                    xml::attribute(comp, "objectid"@),
                    outer,
                    transform(comp),
                ),
                None => Seq::empty(),
            },
            None => Seq::empty(),
        },
        None => Seq::empty(),
    }
}

/// The meshes that components place, one component after another.
pub open spec fn components_uses(
    files: Seq<ModelFileView>,
    doc: Seq<XmlNodeView>,
    comps: Seq<int>,
    outer: Option<Seq<char>>,
) -> Seq<MeshUse>
    decreases comps.len(),
{
    if comps.len() == 0 {
        Seq::empty()
    } else {
        components_uses(files, doc, comps.drop_last(), outer) + component_uses(
            files,
            doc[comps.last()],
            outer,
        )
    }
}

/// The meshes that an object of the main model places: its own mesh, or else those of its
/// components.
pub open spec fn object_uses(
    files: Seq<ModelFileView>,
    doc: Seq<XmlNodeView>,
    object: int,
) -> Seq<MeshUse> {
    let outer = build_transform(doc, object);
    if !is_model(doc[object]) {
        Seq::empty()
    } else {
        match lists::first(xml::children(doc, object, "mesh"@)) {
            Some(mesh) => seq![MeshUse { doc, mesh, outer, inner: None }],
            None => match lists::first(xml::children(doc, object, "components"@)) {
                Some(c) => components_uses(files, doc, xml::children(doc, c, "component"@), outer),
                None => Seq::empty(),
            },
        }
    }
}

/// The meshes that objects of the main model place, one object after another.
pub open spec fn objects_uses(
    files: Seq<ModelFileView>,
    doc: Seq<XmlNodeView>,
    objects: Seq<int>,
) -> Seq<MeshUse>
    decreases objects.len(),
{
    if objects.len() == 0 {
        Seq::empty()
    } else {
        objects_uses(files, doc, objects.drop_last()) + object_uses(files, doc, objects.last())
    }
}

/// All meshes that a main model places.
pub open spec fn mesh_uses(files: Seq<ModelFileView>, doc: Seq<XmlNodeView>) -> Seq<MeshUse> {
    objects_uses(files, doc, xml::elements(doc, "object"@))
}

/// A mesh that a model places: a node of one of the files.
struct MeshRef {
    file: usize,
    mesh: usize,
    outer: Option<String>,
    inner: Option<String>,
}

/// What a reference to a mesh stands for.
spec fn mesh_use(files: Seq<ModelFileView>, r: MeshRef) -> MeshUse {
    MeshUse {
        doc: files[r.file as int].doc->0,
        mesh: r.mesh as int,
        outer: text::text_of(r.outer),
        inner: text::text_of(r.inner),
    }
}

/// What references to meshes stand for.
spec fn mesh_uses_of(files: Seq<ModelFileView>, refs: Seq<MeshRef>) -> Seq<MeshUse> {
    refs.map_values(|r: MeshRef| mesh_use(files, r))
}

/// Every reference leads to a node of a document.
spec fn refs_ok(files: Seq<ModelFileView>, refs: Seq<MeshRef>) -> bool {
    forall|k: int|
        0 <= k < refs.len() ==> (#[trigger] refs[k]).file < files.len() && files[refs[k].file as int].doc is Some
            && refs[k].mesh < files[refs[k].file as int].doc->0.len()
}

fn check_model(n: &XmlNode) -> (r: bool)
    ensures
        r == is_model(n@),
{
    match xml::find_attribute(n, "type") {
        Some(t) => text::same(t.as_str(), "model"),
        None => true,
    }
}

/// The transform of the last build item that places the object.
fn find_build_transform(nodes: &[XmlNode], object: usize) -> (r: Option<String>)
    requires
        object < nodes@.len(),
    ensures
        text::text_of(r) == build_transform(xml::document(nodes@), object as int),
{
    let ghost doc = xml::document(nodes@);
    assert(doc[object as int] == nodes@[object as int]@);
    let id: &String = match xml::find_attribute(&nodes[object], "id") {
        Some(id) => id,
        None => {
            return None;
        },
    };
    let ghost p = |i: int|
        doc[i].name == "item"@ && xml::attribute(doc[i], "objectid"@) == Some(id@);
    let mut found: Option<usize> = None;
    let mut i: usize = 0;
    while i < nodes.len()
        invariant
            i <= nodes@.len(),
            doc == xml::document(nodes@),
            p == (|i: int|
                doc[i].name == "item"@ && xml::attribute(doc[i], "objectid"@) == Some(id@)),
            match found {
                Some(k) => k < nodes@.len() && lists::positions(i as int, p).len() > 0
                    && lists::positions(i as int, p).last() == k,
                None => lists::positions(i as int, p).len() == 0,
            },
        decreases nodes@.len() - i,
    {
        assert(doc[i as int] == nodes@[i as int]@);
        if text::same(nodes[i].name.as_str(), "item") {
            match xml::find_attribute(&nodes[i], "objectid") {
                Some(oid) => if text::same(oid.as_str(), id.as_str()) {
                    found = Some(i);
                },
                None => {},
            }
        }
        i = i + 1;
    }
    match found {
        Some(k) => {
            assert(doc[k as int] == nodes@[k as int]@);
            text::owned_text(xml::find_local_attribute(&nodes[k], "transform"))
        },
        None => None,
    }
}

/// The position of the last file with that key.
fn find_file(files: &[ModelFile], key: &str) -> (r: Option<usize>)
    ensures
        match r {
            Some(i) => i < files@.len() && file_of(file_views(files@), key@) == Some(i as int),
            None => file_of(file_views(files@), key@) is None,
        },
{
    let ghost fv = file_views(files@);
    let ghost p = |i: int| fv[i].key == key@;
    let mut found: Option<usize> = None;
    let mut i: usize = 0;
    while i < files.len()
        invariant
            i <= files@.len(),
            fv == file_views(files@),
            p == (|i: int| fv[i].key == key@),
            match found {
                Some(k) => k < files@.len() && lists::positions(i as int, p).len() > 0
                    && lists::positions(i as int, p).last() == k,
                None => lists::positions(i as int, p).len() == 0,
            },
        decreases files@.len() - i,
    {
        assert(fv[i as int] == files@[i as int]@);
        if text::same(files[i].key.as_str(), key) {
            found = Some(i);
        }
        i = i + 1;
    }
    found
}

/// The key under which the file of a path stands.
pub fn make_key(path: &str) -> (r: String)
    ensures
        r@ == file_key(path@),
{
    let all = text::chars_of(path);
    let rest = text::trim_start_chars(all.as_slice(), CharSet::Slash);
    text::string_of(rest).as_str().to_lowercase()
}

/// Appends the meshes of another file that a component asks for.
fn add_outside_refs(
    files: &[ModelFile],
    file: usize,
    wanted: Option<&String>,
    outer: &Option<String>,
    inner: &Option<String>,
    out: &mut Vec<MeshRef>,
)
    requires
        file < files@.len(),
        file_views(files@)[file as int].doc is Some,
        refs_ok(file_views(files@), old(out)@),
    ensures
        refs_ok(file_views(files@), final(out)@),
        mesh_uses_of(file_views(files@), final(out)@) == mesh_uses_of(
            file_views(files@),
            old(out)@,
        ) + outside_uses(
            file_views(files@)[file as int].doc->0,
            xml::elements(file_views(files@)[file as int].doc->0, "object"@),
            match wanted {
                Some(w) => Some(w@),
                None => None,
            },
            text::text_of(*outer),
            text::text_of(*inner),
        ),
{
    let ghost fv = file_views(files@);
    let ghost doc = fv[file as int].doc->0;
    let ghost asked_for = match wanted {
        Some(w) => Some(w@),
        None => None,
    };
    let nodes: &Vec<XmlNode> = match &files[file].nodes {
        Some(nodes) => nodes,
        None => {
            return ;
        },
    };
    assert(doc == xml::document(nodes@));
    let objects = xml::find_elements(nodes.as_slice(), "object");
    let ghost objs = lists::ints(objects@);
    let ghost start = out@;
    let mut i: usize = 0;
    assert(objs.take(0) == Seq::<int>::empty());
    while i < objects.len()
        invariant
            i <= objects@.len(),
            fv == file_views(files@),
            file < files@.len(),
            fv[file as int].doc == Some(doc),
            doc == xml::document(nodes@),
            objs == lists::ints(objects@),
            forall|k: int| 0 <= k < objects@.len() ==> #[trigger] objects@[k] < nodes@.len(),
            asked_for == (match wanted {
                Some(w) => Some(w@),
                None => None,
            }),
            refs_ok(fv, out@),
            mesh_uses_of(fv, out@) == mesh_uses_of(fv, start) + outside_uses(
                doc,
                objs.take(i as int),
                asked_for,
                text::text_of(*outer),
                text::text_of(*inner),
            ),
        decreases objects@.len() - i,
    {
        let object: usize = objects[i];
        proof {
            assert(objs.take(i + 1).drop_last() == objs.take(i as int));
            assert(objs.take(i + 1).last() == object as int);
            assert(doc[object as int] == nodes@[object as int]@);
        }
        let asked: bool = match wanted {
            Some(w) => match xml::find_attribute(&nodes[object], "id") {
                Some(id) => text::same(id.as_str(), w.as_str()),
                None => false,
            },
            None => true,
        };
        let ghost before = out@;
        if asked && check_model(&nodes[object]) {
            match xml::find_first_child(nodes.as_slice(), object, "mesh") {
                Some(mesh) => {
                    let r = MeshRef {
                        file,
                        mesh,
                        outer: text::copy_text(outer),
                        inner: text::copy_text(inner),
                    };
                    out.push(r);
                    assert(mesh_uses_of(fv, out@) == mesh_uses_of(fv, before).push(
                        mesh_use(fv, r),
                    ));
                },
                None => {},
            }
        }
        i = i + 1;
    }
    assert(objs.take(i as int) == objs);
}

/// Appends the meshes that a component places.
fn add_component_refs(
    files: &[ModelFile],
    comp: &XmlNode,
    outer: &Option<String>,
    out: &mut Vec<MeshRef>,
)
    requires
        refs_ok(file_views(files@), old(out)@),
    ensures
        refs_ok(file_views(files@), final(out)@),
        mesh_uses_of(file_views(files@), final(out)@) == mesh_uses_of(
            file_views(files@),
            old(out)@,
        ) + component_uses(file_views(files@), comp@, text::text_of(*outer)),
{
    let ghost fv = file_views(files@);
    let inner = text::owned_text(xml::find_local_attribute(comp, "transform"));
    let wanted = xml::find_attribute(comp, "objectid");
    match xml::find_local_attribute(comp, "path") {
        Some(path) => {
            let key = make_key(path.as_str());
            match find_file(files, key.as_str()) {
                Some(f) => {
                    assert(fv[f as int] == files@[f as int]@);
                    if files[f].nodes.is_some() {
                        add_outside_refs(files, f, wanted, outer, &inner, out);
                    }
                },
                None => {},
            }
        },
        None => {},
    }
}

/// Appends the meshes that an object of the main model places.
fn add_object_refs(files: &[ModelFile], main: usize, object: usize, out: &mut Vec<MeshRef>)
    requires
        main < files@.len(),
        file_views(files@)[main as int].doc is Some,
        object < file_views(files@)[main as int].doc->0.len(),
        refs_ok(file_views(files@), old(out)@),
    ensures
        refs_ok(file_views(files@), final(out)@),
        mesh_uses_of(file_views(files@), final(out)@) == mesh_uses_of(
            file_views(files@),
            old(out)@,
        ) + object_uses(
            file_views(files@),
            file_views(files@)[main as int].doc->0,
            object as int,
        ),
{
    let ghost fv = file_views(files@);
    let ghost doc = fv[main as int].doc->0;
    let nodes: &Vec<XmlNode> = match &files[main].nodes {
        Some(nodes) => nodes,
        None => {
            return ;
        },
    };
    assert(doc == xml::document(nodes@));
    assert(doc[object as int] == nodes@[object as int]@);
    if !check_model(&nodes[object]) {
        return ;
    }
    let outer = find_build_transform(nodes.as_slice(), object);
    let ghost start = out@;
    match xml::find_first_child(nodes.as_slice(), object, "mesh") {
        Some(mesh) => {
            let r = MeshRef { file: main, mesh, outer, inner: None };
            out.push(r);
            assert(mesh_uses_of(fv, out@) == mesh_uses_of(fv, start).push(mesh_use(fv, r)));
            return ;
        },
        None => {},
    }
    let comps: usize = match xml::find_first_child(nodes.as_slice(), object, "components") {
        Some(c) => c,
        None => {
            return ;
        },
    };
    let all = xml::find_children(nodes.as_slice(), comps, "component");
    let ghost cs = lists::ints(all@);
    let mut i: usize = 0;
    assert(cs.take(0) == Seq::<int>::empty());
    while i < all.len()
        invariant
            i <= all@.len(),
            fv == file_views(files@),
            doc == xml::document(nodes@),
            cs == lists::ints(all@),
            forall|k: int| 0 <= k < all@.len() ==> #[trigger] all@[k] < nodes@.len(),
            refs_ok(fv, out@),
            mesh_uses_of(fv, out@) == mesh_uses_of(fv, start) + components_uses(
                fv,
                doc,
                cs.take(i as int),
                text::text_of(outer),
            ),
        decreases all@.len() - i,
    {
        proof {
            assert(cs.take(i + 1).drop_last() == cs.take(i as int));
            assert(cs.take(i + 1).last() == all@[i as int] as int);
            assert(doc[all@[i as int] as int] == nodes@[all@[i as int] as int]@);
        }
        add_component_refs(files, &nodes[all[i]], &outer, out);
        i = i + 1;
    }
    assert(cs.take(i as int) == cs);
}

/// The meshes that the main model places.
fn find_mesh_refs(files: &[ModelFile], main: usize) -> (r: Vec<MeshRef>)
    requires
        main < files@.len(),
        file_views(files@)[main as int].doc is Some,
    ensures
        refs_ok(file_views(files@), r@),
        mesh_uses_of(file_views(files@), r@) == mesh_uses(
            file_views(files@),
            file_views(files@)[main as int].doc->0,
        ),
{
    let ghost fv = file_views(files@);
    let ghost doc = fv[main as int].doc->0;
    let mut out: Vec<MeshRef> = Vec::new();
    let nodes: &Vec<XmlNode> = match &files[main].nodes {
        Some(nodes) => nodes,
        None => {
            return out;
        },
    };
    assert(doc == xml::document(nodes@));
    let objects = xml::find_elements(nodes.as_slice(), "object");
    let ghost objs = lists::ints(objects@);
    let mut i: usize = 0;
    assert(objs.take(0) == Seq::<int>::empty());
    while i < objects.len()
        invariant
            i <= objects@.len(),
            main < files@.len(),
            fv == file_views(files@),
            fv[main as int].doc == Some(doc),
            objs == lists::ints(objects@),
            forall|k: int| 0 <= k < objects@.len() ==> #[trigger] objects@[k] < doc.len(),
            refs_ok(fv, out@),
            mesh_uses_of(fv, out@) == objects_uses(fv, doc, objs.take(i as int)),
        decreases objects@.len() - i,
    {
        proof {
            assert(objs.take(i + 1).drop_last() == objs.take(i as int));
            assert(objs.take(i + 1).last() == objects@[i as int] as int);
        }
        add_object_refs(files, main, objects[i], &mut out);
        i = i + 1;
    }
    assert(objs.take(i as int) == objs);
    out
}

// ---------------------------------------------------------------------------------------
// The geometry of the meshes
// ---------------------------------------------------------------------------------------

/// The vertices of a mesh.
pub open spec fn mesh_vertices(doc: Seq<XmlNodeView>, mesh: int) -> Seq<VertexView> {
    match lists::first(xml::children(doc, mesh, "vertices"@)) {
        Some(v) => xml::children(doc, v, "vertex"@).map_values(|i: int| vertex(doc[i])),
        None => Seq::empty(),
    }
}

/// The coordinates that a vertex carries.
pub open spec fn vertex(n: XmlNodeView) -> VertexView {
    VertexView {
        x: xml::attribute(n, "x"@),
        y: xml::attribute(n, "y"@),
        z: xml::attribute(n, "z"@),
    }
}

/// The vertex that a corner of a triangle names; no number that fits into 32 bits is zero.
pub open spec fn corner(n: XmlNodeView, name: Seq<char>) -> nat {
    match xml::attribute(n, name) {
        Some(s) => match numbers::natural(s) {
            Some(k) => if k <= u32::MAX {
                k
            } else {
                0
            },
            None => 0,
        },
        None => 0,
    }
}

/// The corners of a triangle of a mesh whose first vertex has the number `base`.
pub open spec fn corners(n: XmlNodeView, base: nat) -> (nat, nat, nat) {
    (base + corner(n, "v1"@), base + corner(n, "v2"@), base + corner(n, "v3"@))
}

/// The triangles of a mesh whose first vertex has the number `base`.
pub open spec fn mesh_triangles(doc: Seq<XmlNodeView>, mesh: int, base: nat) -> Seq<
    (nat, nat, nat),
> {
    match lists::first(xml::children(doc, mesh, "triangles"@)) {
        Some(t) => xml::children(doc, t, "triangle"@).map_values(
            |i: int| corners(doc[i], base),
        ),
        None => Seq::empty(),
    }
}

/// How many vertices meshes have together.
pub open spec fn vertex_count(uses: Seq<MeshUse>) -> nat
    decreases uses.len(),
{
    if uses.len() == 0 {
        0
    } else {
        vertex_count(uses.drop_last()) + mesh_vertices(uses.last().doc, uses.last().mesh).len()
    }
}

/// The triangles of meshes, over the vertices of all of them in order.
pub open spec fn triangle_list(uses: Seq<MeshUse>) -> Seq<(nat, nat, nat)>
    decreases uses.len(),
{
    if uses.len() == 0 {
        Seq::empty()
    } else {
        triangle_list(uses.drop_last()) + mesh_triangles(
            uses.last().doc,
            uses.last().mesh,
            vertex_count(uses.drop_last()),
        )
    }
}

/// Whether 32 bits can number every corner.
pub open spec fn numbered(tris: Seq<(nat, nat, nat)>) -> bool {
    forall|k: int|
        0 <= k < tris.len() ==> (#[trigger] tris[k]).0 <= u32::MAX && tris[k].1 <= u32::MAX
            && tris[k].2 <= u32::MAX
}

/// The triangles in 32 bits.
pub open spec fn triangles_of(tris: Seq<(nat, nat, nat)>) -> Seq<Triangle> {
    tris.map_values(
        |t: (nat, nat, nat)| Triangle { v1: t.0 as u32, v2: t.1 as u32, v3: t.2 as u32 },
    )
}

/// The mesh with its transforms.
pub open spec fn placed(u: MeshUse) -> PlacedMeshView {
    PlacedMeshView { outer: u.outer, inner: u.inner, vertices: mesh_vertices(u.doc, u.mesh) }
}

/// The meshes with their transforms.
pub open spec fn placed_all(uses: Seq<MeshUse>) -> Seq<PlacedMeshView> {
    uses.map_values(|u: MeshUse| placed(u))
}

/// The geometry that meshes make together.
pub open spec fn geometry_of(uses: Seq<MeshUse>) -> Result<GeometryView, ThreeMfError> {
    if !numbered(triangle_list(uses)) {
        Err(ThreeMfError::IndexOverflow)
    } else if triangle_list(uses).len() == 0 {
        Err(ThreeMfError::NoGeometry)
    } else {
        Ok(
            GeometryView {
                meshes: placed_all(uses),
                triangles: triangles_of(triangle_list(uses)),
            },
        )
    }
}

/// The keys of model files.
pub open spec fn keys(files: Seq<ModelFileView>) -> Seq<Seq<char>> {
    files.map_values(|f: ModelFileView| f.key)
}

/// The position of the main model file.
pub open spec fn main_file(files: Seq<ModelFileView>) -> Option<int> {
    match threemf::model_position(keys(files)) {
        Some(i) => file_of(files, files[i].key),
        None => None,
    }
}

/// The geometry of model files.
pub open spec fn files_geometry(files: Seq<ModelFileView>) -> Result<GeometryView, ThreeMfError> {
    match main_file(files) {
        Some(i) => match files[i].doc {
            Some(doc) => geometry_of(mesh_uses(files, doc)),
            None => Err(ThreeMfError::InvalidXml),
        },
        None => Err(ThreeMfError::NoModel),
    }
}

/// The coordinates of vertex nodes.
fn vertices_at(nodes: &[XmlNode], all: &[usize]) -> (r: Vec<VertexText>)
    requires
        forall|k: int| 0 <= k < all@.len() ==> #[trigger] all@[k] < nodes@.len(),
    ensures
        r@.map_values(|v: VertexText| v@) == lists::ints(all@).map_values(
            |i: int| vertex(xml::document(nodes@)[i]),
        ),
{
    let ghost doc = xml::document(nodes@);
    let ghost vs = lists::ints(all@);
    let mut out: Vec<VertexText> = Vec::new();
    let mut i: usize = 0;
    while i < all.len()
        invariant
            i <= all@.len(),
            doc == xml::document(nodes@),
            vs == lists::ints(all@),
            forall|k: int| 0 <= k < all@.len() ==> #[trigger] all@[k] < nodes@.len(),
            out@.len() == i,
            forall|k: int| 0 <= k < i ==> (#[trigger] out@[k])@ == vertex(doc[vs[k]]),
        decreases all@.len() - i,
    {
        let n: &XmlNode = &nodes[all[i]];
        assert(doc[vs[i as int]] == n@);
        out.push(
            VertexText {
                x: text::owned_text(xml::find_attribute(n, "x")),
                y: text::owned_text(xml::find_attribute(n, "y")),
                z: text::owned_text(xml::find_attribute(n, "z")),
            },
        );
        i = i + 1;
    }
    assert(out@.map_values(|v: VertexText| v@) =~= vs.map_values(|i: int| vertex(doc[i])));
    out
}

/// The vertices of a mesh.
fn read_vertices(nodes: &[XmlNode], mesh: usize) -> (r: Vec<VertexText>)
    ensures
        r@.map_values(|v: VertexText| v@) == mesh_vertices(xml::document(nodes@), mesh as int),
{
    match xml::find_first_child(nodes, mesh, "vertices") {
        Some(v) => vertices_at(nodes, xml::find_children(nodes, v, "vertex").as_slice()),
        None => Vec::new(),
    }
}

/// The vertices of a whole document.
pub fn read_all_vertices(nodes: &[XmlNode]) -> (r: Vec<VertexText>)
    ensures
        r@.map_values(|v: VertexText| v@) == xml::elements(
            xml::document(nodes@),
            "vertex"@,
        ).map_values(|i: int| vertex(xml::document(nodes@)[i])),
{
    vertices_at(nodes, xml::find_elements(nodes, "vertex").as_slice())
}

/// The vertex that a corner of a triangle names.
fn read_corner(n: &XmlNode, name: &str) -> (r: u32)
    ensures
        r == corner(n@, name@),
{
    match xml::find_attribute(n, name) {
        Some(s) => match numbers::parse_u32(text::chars_of(s.as_str()).as_slice()) {
            Some(k) => k,
            None => 0,
        },
        None => 0,
    }
}

/// The number of a corner in the list of all vertices, where 32 bits can number it.
fn shift_corner(base: Option<u32>, corner: u32, Ghost(b): Ghost<nat>) -> (r: Option<u32>)
    requires
        match base {
            Some(k) => b == k,
            None => b > u32::MAX,
        },
    ensures
        match r {
            Some(k) => k == b + corner,
            None => b + corner > u32::MAX,
        },
{
    match base {
        Some(k) => k.checked_add(corner),
        None => None,
    }
}

/// Appends the triangles of a mesh; tells whether 32 bits can number all their corners.
fn add_triangles(
    nodes: &[XmlNode],
    mesh: usize,
    base: Option<u32>,
    Ghost(b): Ghost<nat>,
    out: &mut Vec<Triangle>,
) -> (fit: bool)
    requires
        match base {
            Some(k) => b == k,
            None => b > u32::MAX,
        },
    ensures
        fit == numbered(mesh_triangles(xml::document(nodes@), mesh as int, b)),
        fit ==> final(out)@ == old(out)@ + triangles_of(
            mesh_triangles(xml::document(nodes@), mesh as int, b),
        ),
{
    let ghost doc = xml::document(nodes@);
    let ghost start = out@;
    let list: usize = match xml::find_first_child(nodes, mesh, "triangles") {
        Some(t) => t,
        None => {
            assert(triangles_of(Seq::empty()) == Seq::<Triangle>::empty());
            return true;
        },
    };
    let all = xml::find_children(nodes, list, "triangle");
    let ghost ts = lists::ints(all@);
    let ghost tris = mesh_triangles(doc, mesh as int, b);
    let mut i: usize = 0;
    while i < all.len()
        invariant
            i <= all@.len(),
            match base {
                Some(k) => b == k,
                None => b > u32::MAX,
            },
            doc == xml::document(nodes@),
            ts == lists::ints(all@),
            tris == ts.map_values(|i: int| corners(doc[i], b)),
            tris == mesh_triangles(doc, mesh as int, b),
            forall|k: int| 0 <= k < all@.len() ==> #[trigger] all@[k] < nodes@.len(),
            numbered(tris.take(i as int)),
            out@ == start + triangles_of(tris.take(i as int)),
        decreases all@.len() - i,
    {
        let n: &XmlNode = &nodes[all[i]];
        assert(doc[ts[i as int]] == n@);
        assert(tris[i as int] == corners(n@, b));
        let c1: u32 = read_corner(n, "v1");
        let c2: u32 = read_corner(n, "v2");
        let c3: u32 = read_corner(n, "v3");
        match (
            shift_corner(base, c1, Ghost(b)),
            shift_corner(base, c2, Ghost(b)),
            shift_corner(base, c3, Ghost(b)),
        ) {
            (Some(v1), Some(v2), Some(v3)) => {
                out.push(Triangle { v1, v2, v3 });
                assert(tris.take(i + 1) == tris.take(i as int).push(tris[i as int]));
                assert(triangles_of(tris.take(i + 1)) == triangles_of(tris.take(i as int)).push(
                    Triangle { v1, v2, v3 },
                ));
            },
            _ => {
                assert(tris[i as int].0 > u32::MAX || tris[i as int].1 > u32::MAX
                    || tris[i as int].2 > u32::MAX);
                return false;
            },
        }
        i = i + 1;
    }
    assert(tris.take(i as int) == tris);
    true
}

/// What is not numbered in the first meshes is not numbered in all of them.
proof fn lemma_numbered_prefix(uses: Seq<MeshUse>, i: int)
    requires
        0 <= i <= uses.len(),
        numbered(triangle_list(uses)),
    ensures
        numbered(triangle_list(uses.take(i))),
    decreases uses.len(),
{
    if i < uses.len() {
        let rest = uses.drop_last();
        assert(numbered(triangle_list(rest))) by {
            assert forall|k: int| 0 <= k < triangle_list(rest).len() implies (
            #[trigger] triangle_list(rest)[k]).0 <= u32::MAX && triangle_list(rest)[k].1
                <= u32::MAX && triangle_list(rest)[k].2 <= u32::MAX by {
                assert(triangle_list(uses)[k] == triangle_list(rest)[k]);
            }
        }
        lemma_numbered_prefix(rest, i);
        assert(rest.take(i) == uses.take(i));
    } else {
        assert(uses.take(i) == uses);
    }
}

/// The geometry that the meshes behind references make together.
fn join_meshes(files: &[ModelFile], refs: Vec<MeshRef>) -> (r: Result<Geometry, ThreeMfError>)
    requires
        refs_ok(file_views(files@), refs@),
    ensures
        match r {
            Ok(g) => geometry_of(mesh_uses_of(file_views(files@), refs@))
                == Ok::<GeometryView, ThreeMfError>(g@),
            Err(e) => geometry_of(mesh_uses_of(file_views(files@), refs@))
                == Err::<GeometryView, ThreeMfError>(e),
        },
{
    let ghost fv = file_views(files@);
    let ghost uses = mesh_uses_of(fv, refs@);
    let mut meshes: Vec<PlacedMesh> = Vec::new();
    let mut triangles: Vec<Triangle> = Vec::new();
    let mut base: Option<u32> = Some(0);
    let mut i: usize = 0;
    assert(uses.take(0) == Seq::<MeshUse>::empty());
    assert(triangles_of(Seq::empty()) == Seq::<Triangle>::empty());
    while i < refs.len()
        invariant
            i <= refs@.len(),
            fv == file_views(files@),
            uses == mesh_uses_of(fv, refs@),
            refs_ok(fv, refs@),
            match base {
                Some(k) => vertex_count(uses.take(i as int)) == k,
                None => vertex_count(uses.take(i as int)) > u32::MAX,
            },
            numbered(triangle_list(uses.take(i as int))),
            triangles@ == triangles_of(triangle_list(uses.take(i as int))),
            meshes@.len() == i,
            forall|k: int| 0 <= k < i ==> (#[trigger] meshes@[k])@ == placed(uses[k]),
        decreases refs@.len() - i,
    {
        let file: usize = refs[i].file;
        let mesh: usize = refs[i].mesh;
        let ghost done = uses.take(i as int);
        let ghost next = uses.take(i + 1);
        let ghost b = vertex_count(done);
        assert(fv[file as int] == files@[file as int]@);
        let nodes: &Vec<XmlNode> = match &files[file].nodes {
            Some(nodes) => nodes,
            None => {
                return Err(ThreeMfError::NoModel);
            },
        };
        proof {
            assert(next.drop_last() == done);
            assert(next.last() == mesh_use(fv, refs@[i as int]));
            assert(next.last().doc == xml::document(nodes@));
        }
        let ghost tris = mesh_triangles(xml::document(nodes@), mesh as int, b);
        let vertices = read_vertices(nodes.as_slice(), mesh);
        let fit: bool = add_triangles(
            nodes.as_slice(),
            mesh,
            base,
            Ghost(b),
            &mut triangles,
        );
        proof {
            assert(triangle_list(next) == triangle_list(done) + tris);
            if fit {
                assert(triangles_of(triangle_list(next)) =~= triangles_of(triangle_list(done))
                    + triangles_of(tris));
            } else {
                let k = choose|k: int|
                    0 <= k < tris.len() && !((#[trigger] tris[k]).0 <= u32::MAX && tris[k].1
                        <= u32::MAX && tris[k].2 <= u32::MAX);
                assert(triangle_list(next)[triangle_list(done).len() + k] == tris[k]);
                assert(!numbered(triangle_list(next)));
                if numbered(triangle_list(uses)) {
                    lemma_numbered_prefix(uses, i + 1);
                }
            }
        }
        if !fit {
            return Err(ThreeMfError::IndexOverflow);
        }
        let count: usize = vertices.len();
        assert(count == mesh_vertices(xml::document(nodes@), mesh as int).len());
        base = match base {
            Some(k) => if count <= 0xffff_ffff {
                k.checked_add(count as u32)
            } else {
                None
            },
            None => None,
        };
        meshes.push(
            PlacedMesh {
                outer: text::copy_text(&refs[i].outer),
                inner: text::copy_text(&refs[i].inner),
                vertices,
            },
        );
        assert(meshes@[i as int]@ == placed(uses[i as int]));
        i = i + 1;
    }
    assert(uses.take(i as int) == uses);
    assert(meshes@.map_values(|m: PlacedMesh| m@) =~= placed_all(uses));
    if triangles.len() == 0 {
        assert(triangle_list(uses).len() == 0);
        Err(ThreeMfError::NoGeometry)
    } else {
        Ok(Geometry { meshes, triangles })
    }
}

/// Finds the main model file.
pub fn find_main(files: &[ModelFile]) -> (r: Option<usize>)
    ensures
        match r {
            Some(i) => i < files@.len() && main_file(file_views(files@)) == Some(i as int),
            None => main_file(file_views(files@)) is None,
        },
{
    let ghost fv = file_views(files@);
    let mut names: Vec<String> = Vec::new();
    let mut i: usize = 0;
    while i < files.len()
        invariant
            i <= files@.len(),
            names@.len() == i,
            forall|k: int| 0 <= k < i ==> (#[trigger] names@[k])@ == files@[k].key@,
        decreases files@.len() - i,
    {
        names.push(files[i].key.clone());
        i = i + 1;
    }
    assert(text::texts(names@) =~= keys(fv));
    match threemf::find_model(names.as_slice()) {
        Some(first) => {
            assert(fv[first as int] == files@[first as int]@);
            find_file(files, files[first].key.as_str())
        },
        None => None,
    }
}

/// The keys of the files that the components of a document name.
pub open spec fn named_keys(doc: Seq<XmlNodeView>, n: nat) -> Seq<Seq<char>>
    decreases n,
{
    if n == 0 {
        Seq::empty()
    } else {
        let rest = named_keys(doc, (n - 1) as nat);
        match xml::local_attribute(doc[n - 1], "path"@) {
            Some(path) => if doc[n - 1].name == "component"@ {
                rest.push(file_key(path))
            } else {
                rest
            },
            None => rest,
        }
    }
}

/// Finds the keys of the files that the components of a document name.
pub fn find_named_keys(nodes: &[XmlNode]) -> (r: Vec<String>)
    ensures
        text::texts(r@) == named_keys(xml::document(nodes@), nodes@.len()),
{
    let ghost doc = xml::document(nodes@);
    let mut out: Vec<String> = Vec::new();
    let mut i: usize = 0;
    assert(text::texts(out@) == Seq::<Seq<char>>::empty());
    while i < nodes.len()
        invariant
            i <= nodes@.len(),
            doc == xml::document(nodes@),
            text::texts(out@) == named_keys(doc, i as nat),
        decreases nodes@.len() - i,
    {
        let ghost before = out@;
        assert(doc[i as int] == nodes@[i as int]@);
        if text::same(nodes[i].name.as_str(), "component") {
            match xml::find_local_attribute(&nodes[i], "path") {
                Some(path) => {
                    let key = make_key(path.as_str());
                    out.push(key);
                    assert(text::texts(out@) =~= text::texts(before).push(key@));
                },
                None => {},
            }
        }
        i = i + 1;
    }
    out
}

/// The geometry of model files: the meshes that the main model places and their triangles.
pub fn assemble(files: &[ModelFile]) -> (r: Result<Geometry, ThreeMfError>)
    ensures
        match r {
            Ok(g) => files_geometry(file_views(files@)) == Ok::<GeometryView, ThreeMfError>(g@),
            Err(e) => files_geometry(file_views(files@)) == Err::<GeometryView, ThreeMfError>(e),
        },
{
    match find_main(files) {
        Some(main) => {
            assert(file_views(files@)[main as int] == files@[main as int]@);
            if files[main].nodes.is_some() {
                let refs = find_mesh_refs(files, main);
                join_meshes(files, refs)
            } else {
                Err(ThreeMfError::InvalidXml)
            }
        },
        None => Err(ThreeMfError::NoModel),
    }
}

// ---------------------------------------------------------------------------------------
// Transforms
// ---------------------------------------------------------------------------------------

/// The bits of the single 1.
pub const ONE: u32 = 0x3f80_0000;

/// The words of a transform; an absent one has none.
pub open spec fn transform_words(t: Option<Seq<char>>) -> Seq<Seq<char>> {
    match t {
        Some(s) => text::words(s),
        None => Seq::empty(),
    }
}

/// Splits a transform into words.
pub fn split_transform(t: &Option<String>) -> (r: Vec<String>)
    ensures
        text::texts(r@) == transform_words(text::text_of(*t)),
{
    match t {
        Some(s) => {
            let all = text::chars_of(s.as_str());
            text::strings_of(text::split_words(all.as_slice()).as_slice())
        },
        None => {
            let none: Vec<String> = Vec::new();
            assert(text::texts(none@) =~= Seq::<Seq<char>>::empty());
            none
        },
    }
}

/// The numbers among values, in order.
pub open spec fn only_numbers(values: Seq<Option<u32>>) -> Seq<u32>
    decreases values.len(),
{
    if values.len() == 0 {
        Seq::empty()
    } else {
        match values.last() {
            Some(b) => only_numbers(values.drop_last()).push(b),
            None => only_numbers(values.drop_last()),
        }
    }
}

/// The transform that moves nothing.
pub open spec fn identity() -> Seq<u32> {
    seq![ONE, 0, 0, 0, ONE, 0, 0, 0, ONE, 0, 0, 0]
}

/// The numbers of a transform, given the numbers that its words are, where they are any, as the
/// bits of singles: a transform with any other count than twelve moves nothing.
pub open spec fn matrix(values: Seq<Option<u32>>) -> Seq<u32> {
    if only_numbers(values).len() == 12 {
        only_numbers(values)
    } else {
        identity()
    }
}

/// Reads the numbers of a transform.
pub fn read_matrix(values: &[Option<u32>]) -> (r: Vec<u32>)
    ensures
        r@ == matrix(values@),
        r@.len() == 12,
{
    let mut n: Vec<u32> = Vec::new();
    let mut i: usize = 0;
    assert(values@.take(0) == Seq::<Option<u32>>::empty());
    while i < values.len()
        invariant
            i <= values@.len(),
            n@ == only_numbers(values@.take(i as int)),
        decreases values@.len() - i,
    {
        assert(values@.take(i + 1).drop_last() == values@.take(i as int));
        match values[i] {
            Some(b) => {
                n.push(b);
            },
            None => {},
        }
        i = i + 1;
    }
    assert(values@.take(i as int) == values@);
    if n.len() == 12 {
        n
    } else {
        let r = vec![ONE, 0, 0, 0, ONE, 0, 0, 0, ONE, 0, 0, 0];
        assert(r@ =~= identity());
        r
    }
}

// ---------------------------------------------------------------------------------------
// What holds of joined meshes
// ---------------------------------------------------------------------------------------

/// Whether every triangle of a mesh names vertices of that mesh.
pub open spec fn names_own_vertices(u: MeshUse) -> bool {
    forall|k: int|
        0 <= k < mesh_triangles(u.doc, u.mesh, 0).len() ==> {
            let t = #[trigger] mesh_triangles(u.doc, u.mesh, 0)[k];
            let n = mesh_vertices(u.doc, u.mesh).len();
            t.0 < n && t.1 < n && t.2 < n
        }
}

/// Whether every corner names one of `n` vertices.
pub open spec fn corners_below(tris: Seq<(nat, nat, nat)>, n: nat) -> bool {
    forall|k: int|
        0 <= k < tris.len() ==> (#[trigger] tris[k]).0 < n && tris[k].1 < n && tris[k].2 < n
}

/// Meshes that are joined keep their triangles: where each mesh names its own vertices, every
/// corner names one of the vertices of all of them.
pub proof fn joined_meshes_keep_their_corners(uses: Seq<MeshUse>)
    requires
        forall|i: int| 0 <= i < uses.len() ==> names_own_vertices(#[trigger] uses[i]),
    ensures
        corners_below(triangle_list(uses), vertex_count(uses)),
    decreases uses.len(),
{
    if uses.len() > 0 {
        let rest = uses.drop_last();
        let u = uses.last();
        let base = vertex_count(rest);
        let own = mesh_triangles(u.doc, u.mesh, 0);
        let moved = mesh_triangles(u.doc, u.mesh, base);
        joined_meshes_keep_their_corners(rest);
        assert(names_own_vertices(uses[uses.len() - 1]));
        assert(own.len() == moved.len());
        assert forall|k: int| 0 <= k < moved.len() implies (#[trigger] moved[k]).0 < vertex_count(
            uses,
        ) && moved[k].1 < vertex_count(uses) && moved[k].2 < vertex_count(uses) by {
            let t = own[k];
            assert(moved[k] == (base + t.0, base + t.1, base + t.2));
        }
        assert forall|k: int| 0 <= k < triangle_list(uses).len() implies (
        #[trigger] triangle_list(uses)[k]).0 < vertex_count(uses) && triangle_list(uses)[k].1
            < vertex_count(uses) && triangle_list(uses)[k].2 < vertex_count(uses) by {
            let n = triangle_list(rest).len();
            if k < n {
                assert(triangle_list(uses)[k] == triangle_list(rest)[k]);
            } else {
                assert(triangle_list(uses)[k] == moved[k - n]);
            }
        }
    }
}

// ---------------------------------------------------------------------------------------
// Where meshes are placed
// ---------------------------------------------------------------------------------------

/// Whether a node is the last build item that names the object.
pub open spec fn is_last_item(doc: Seq<XmlNodeView>, id: Seq<char>, item: int) -> bool {
    let names = |i: int| doc[i].name == "item"@ && xml::attribute(doc[i], "objectid"@) == Some(id);
    0 <= item < doc.len() && names(item) && forall|j: int|
        item < j < doc.len() ==> !#[trigger] names(j)
}

/// Whether a node is the first child of that name.
pub open spec fn is_first_child(
    doc: Seq<XmlNodeView>,
    parent: int,
    name: Seq<char>,
    child: int,
) -> bool {
    let fits = |i: int| doc[i].parent == Some(parent) && doc[i].name == name;
    0 <= child < doc.len() && fits(child) && forall|j: int| 0 <= j < child ==> !#[trigger] fits(j)
}

proof fn lemma_last_item(doc: Seq<XmlNodeView>, object: int, id: Seq<char>, item: int)
    requires
        xml::attribute(doc[object], "id"@) == Some(id),
        is_last_item(doc, id, item),
    ensures
        build_transform(doc, object) == xml::local_attribute(doc[item], "transform"@),
{
    let n = doc.len() as int;
    let names = |i: int| doc[i].name == "item"@ && xml::attribute(doc[i], "objectid"@) == Some(id);
    lists::the_last_position_is_the_greatest(n, names);
    let all = build_items(doc, id);
    assert(names(item));
    assert(all.len() > 0);
    assert(names(all.last()));
}

proof fn lemma_no_item(doc: Seq<XmlNodeView>, object: int)
    requires
        forall|i: int|
            0 <= i < doc.len() && (#[trigger] doc[i]).name == "item"@ && xml::attribute(
                doc[i],
                "objectid"@,
            ) is Some ==> xml::attribute(doc[i], "objectid"@) != xml::attribute(
                doc[object],
                "id"@,
            ),
    ensures
        build_transform(doc, object) is None,
{
    match xml::attribute(doc[object], "id"@) {
        Some(id) => {
            let names = |i: int|
                doc[i].name == "item"@ && xml::attribute(doc[i], "objectid"@) == Some(id);
            lists::positions_are_all(doc.len() as int, names);
            if build_items(doc, id).len() > 0 {
                let i = build_items(doc, id)[0];
                assert(names(i));
                assert(doc[i].name == "item"@);
            }
        },
        None => {},
    }
}

proof fn lemma_first_child(doc: Seq<XmlNodeView>, parent: int, name: Seq<char>, child: int)
    requires
        is_first_child(doc, parent, name, child),
    ensures
        lists::first(xml::children(doc, parent, name)) == Some(child),
{
    let fits = |i: int| doc[i].parent == Some(parent) && doc[i].name == name;
    lists::the_first_position_is_the_least(doc.len() as int, fits);
    assert(fits(child));
    let all = xml::children(doc, parent, name);
    assert(all.len() > 0);
    assert(fits(all[0]));
}

proof fn lemma_no_child(doc: Seq<XmlNodeView>, parent: int, name: Seq<char>)
    requires
        forall|i: int|
            0 <= i < doc.len() && (#[trigger] doc[i]).parent == Some(parent) ==> doc[i].name
                != name,
    ensures
        lists::first(xml::children(doc, parent, name)) is None,
{
    let fits = |i: int| doc[i].parent == Some(parent) && doc[i].name == name;
    lists::the_first_position_is_the_least(doc.len() as int, fits);
    let all = xml::children(doc, parent, name);
    if all.len() > 0 {
        assert(fits(all[0]));
    }
}

/// A model object with a mesh of its own places that mesh once, and nothing else. The mesh
/// carries the transform of the last build item that names the object, and no inner one.
pub proof fn own_meshes_are_placed_by_their_item(
    files: Seq<ModelFileView>,
    doc: Seq<XmlNodeView>,
    object: int,
    mesh: int,
    id: Seq<char>,
    item: int,
)
    requires
        xml::attribute(doc[object], "type"@) is None || xml::attribute(doc[object], "type"@)
            == Some("model"@),
        is_first_child(doc, object, "mesh"@, mesh),
        xml::attribute(doc[object], "id"@) == Some(id),
        is_last_item(doc, id, item),
    ensures
        object_uses(files, doc, object).len() == 1,
        object_uses(files, doc, object)[0].doc == doc,
        object_uses(files, doc, object)[0].mesh == mesh,
        object_uses(files, doc, object)[0].outer == xml::local_attribute(
            doc[item],
            "transform"@,
        ),
        object_uses(files, doc, object)[0].inner is None,
{
    lemma_last_item(doc, object, id, item);
    lemma_first_child(doc, object, "mesh"@, mesh);
}

/// A model object with a mesh of its own that no build item names places that mesh too, where
/// it stands.
pub proof fn own_meshes_without_item_stay(
    files: Seq<ModelFileView>,
    doc: Seq<XmlNodeView>,
    object: int,
    mesh: int,
)
    requires
        xml::attribute(doc[object], "type"@) is None || xml::attribute(doc[object], "type"@)
            == Some("model"@),
        is_first_child(doc, object, "mesh"@, mesh),
        forall|i: int|
            0 <= i < doc.len() && (#[trigger] doc[i]).name == "item"@ && xml::attribute(
                doc[i],
                "objectid"@,
            ) is Some ==> xml::attribute(doc[i], "objectid"@) != xml::attribute(
                doc[object],
                "id"@,
            ),
    ensures
        object_uses(files, doc, object) == seq![
            MeshUse { doc, mesh, outer: None, inner: None },
        ],
{
    lemma_no_item(doc, object);
    lemma_first_child(doc, object, "mesh"@, mesh);
}

/// An object of another type than `model` places nothing, and neither does one with neither a
/// mesh nor components.
pub proof fn other_objects_place_nothing(
    files: Seq<ModelFileView>,
    doc: Seq<XmlNodeView>,
    object: int,
)
    requires
        (xml::attribute(doc[object], "type"@) is Some && xml::attribute(doc[object], "type"@)->0
            != "model"@) || forall|i: int|
            0 <= i < doc.len() && (#[trigger] doc[i]).parent == Some(object) ==> doc[i].name
                != "mesh"@ && doc[i].name != "components"@,
    ensures
        object_uses(files, doc, object).len() == 0,
{
    if is_model(doc[object]) {
        lemma_no_child(doc, object, "mesh"@);
        lemma_no_child(doc, object, "components"@);
    }
}

/// What objects, components and objects of other files place is what each of them places, one
/// after another: none of them hides another one.
pub proof fn placed_meshes_add_up(
    files: Seq<ModelFileView>,
    doc: Seq<XmlNodeView>,
    a: Seq<int>,
    b: Seq<int>,
    wanted: Option<Seq<char>>,
    outer: Option<Seq<char>>,
    inner: Option<Seq<char>>,
)
    ensures
        objects_uses(files, doc, a + b) == objects_uses(files, doc, a) + objects_uses(
            files,
            doc,
            b,
        ),
        components_uses(files, doc, a + b, outer) == components_uses(files, doc, a, outer)
            + components_uses(files, doc, b, outer),
        outside_uses(doc, a + b, wanted, outer, inner) == outside_uses(
            doc,
            a,
            wanted,
            outer,
            inner,
        ) + outside_uses(doc, b, wanted, outer, inner),
    decreases b.len(),
{
    if b.len() == 0 {
        assert(a + b =~= a);
        assert(objects_uses(files, doc, a) + objects_uses(files, doc, b) =~= objects_uses(
            files,
            doc,
            a,
        ));
        assert(components_uses(files, doc, a, outer) + components_uses(files, doc, b, outer)
            =~= components_uses(files, doc, a, outer));
        assert(outside_uses(doc, a, wanted, outer, inner) + outside_uses(
            doc,
            b,
            wanted,
            outer,
            inner,
        ) =~= outside_uses(doc, a, wanted, outer, inner));
    } else {
        let c = b.drop_last();
        assert((a + b).drop_last() =~= a + c);
        placed_meshes_add_up(files, doc, a, c, wanted, outer, inner);
        assert(objects_uses(files, doc, a + b) =~= objects_uses(files, doc, a) + objects_uses(
            files,
            doc,
            b,
        ));
        assert(components_uses(files, doc, a + b, outer) =~= components_uses(files, doc, a, outer)
            + components_uses(files, doc, b, outer));
        assert(outside_uses(doc, a + b, wanted, outer, inner) =~= outside_uses(
            doc,
            a,
            wanted,
            outer,
            inner,
        ) + outside_uses(doc, b, wanted, outer, inner));
    }
}

proof fn lemma_object_among(
    files: Seq<ModelFileView>,
    doc: Seq<XmlNodeView>,
    all: Seq<int>,
    i: int,
    u: MeshUse,
)
    requires
        0 <= i < all.len(),
        object_uses(files, doc, all[i]).contains(u),
    ensures
        objects_uses(files, doc, all).contains(u),
    decreases all.len(),
{
    let rest = all.drop_last();
    let before = objects_uses(files, doc, rest);
    let own = object_uses(files, doc, all.last());
    if i < rest.len() {
        lemma_object_among(files, doc, rest, i, u);
        let k = choose|k: int| 0 <= k < before.len() && before[k] == u;
        assert((before + own)[k] == u);
    } else {
        let k = choose|k: int| 0 <= k < own.len() && own[k] == u;
        assert((before + own)[before.len() + k] == u);
    }
}

proof fn lemma_component_among(
    files: Seq<ModelFileView>,
    doc: Seq<XmlNodeView>,
    all: Seq<int>,
    outer: Option<Seq<char>>,
    i: int,
    u: MeshUse,
)
    requires
        0 <= i < all.len(),
        component_uses(files, doc[all[i]], outer).contains(u),
    ensures
        components_uses(files, doc, all, outer).contains(u),
    decreases all.len(),
{
    let rest = all.drop_last();
    let before = components_uses(files, doc, rest, outer);
    let own = component_uses(files, doc[all.last()], outer);
    if i < rest.len() {
        lemma_component_among(files, doc, rest, outer, i, u);
        let k = choose|k: int| 0 <= k < before.len() && before[k] == u;
        assert((before + own)[k] == u);
    } else {
        let k = choose|k: int| 0 <= k < own.len() && own[k] == u;
        assert((before + own)[before.len() + k] == u);
    }
}

proof fn lemma_outside_among(
    doc: Seq<XmlNodeView>,
    all: Seq<int>,
    wanted: Option<Seq<char>>,
    outer: Option<Seq<char>>,
    inner: Option<Seq<char>>,
    i: int,
    u: MeshUse,
)
    requires
        0 <= i < all.len(),
        outside_object_use(doc, all[i], wanted, outer, inner).contains(u),
    ensures
        outside_uses(doc, all, wanted, outer, inner).contains(u),
    decreases all.len(),
{
    let rest = all.drop_last();
    let before = outside_uses(doc, rest, wanted, outer, inner);
    let own = outside_object_use(doc, all.last(), wanted, outer, inner);
    if i < rest.len() {
        lemma_outside_among(doc, rest, wanted, outer, inner, i, u);
        let k = choose|k: int| 0 <= k < before.len() && before[k] == u;
        assert((before + own)[k] == u);
    } else {
        let k = choose|k: int| 0 <= k < own.len() && own[k] == u;
        assert((before + own)[before.len() + k] == u);
    }
}

proof fn lemma_last_file(files: Seq<ModelFileView>, key: Seq<char>, f: int)
    requires
        0 <= f < files.len(),
        files[f].key == key,
        forall|j: int| f < j < files.len() ==> (#[trigger] files[j]).key != key,
    ensures
        file_of(files, key) == Some(f),
{
    let p = |i: int| files[i].key == key;
    lists::the_last_position_is_the_greatest(files.len() as int, p);
    assert(p(f));
    let all = lists::positions(files.len() as int, p);
    assert(all.len() > 0);
    assert(p(all.last()));
    assert(files[all.last()].key == key);
}

/// A model object of components, without a mesh of its own, places every model object that a
/// component asks for in the last file of the component's path: all objects of that file, or
/// those with the id that the component names. The mesh carries the transform of the last build
/// item that names the object as its outer one, and that of the component as its inner one.
pub proof fn component_meshes_are_placed_by_their_item(
    files: Seq<ModelFileView>,
    doc: Seq<XmlNodeView>,
    object: int,
    id: Seq<char>,
    item: int,
    components: int,
    comp: int,
    f: int,
    part: int,
    mesh: int,
)
    requires
        xml::attribute(doc[object], "type"@) is None || xml::attribute(doc[object], "type"@)
            == Some("model"@),
        xml::attribute(doc[object], "id"@) == Some(id),
        is_last_item(doc, id, item),
        forall|i: int|
            0 <= i < doc.len() && (#[trigger] doc[i]).parent == Some(object) ==> doc[i].name
                != "mesh"@,
        is_first_child(doc, object, "components"@, components),
        0 <= comp < doc.len(),
        doc[comp].parent == Some(components),
        doc[comp].name == "component"@,
        xml::local_attribute(doc[comp], "path"@) is Some,
        0 <= f < files.len(),
        files[f].key == unicode::lowercase(
            text::trim_start(xml::local_attribute(doc[comp], "path"@)->0, CharSet::Slash),
        ),
        forall|j: int| f < j < files.len() ==> (#[trigger] files[j]).key != files[f].key,
        files[f].doc is Some,
        0 <= part < files[f].doc->0.len(),
        (files[f].doc->0)[part].name == "object"@,
        xml::attribute((files[f].doc->0)[part], "type"@) is None || xml::attribute(
            (files[f].doc->0)[part],
            "type"@,
        ) == Some("model"@),
        xml::attribute(doc[comp], "objectid"@) is None || xml::attribute(doc[comp], "objectid"@)
            == xml::attribute((files[f].doc->0)[part], "id"@),
        is_first_child(files[f].doc->0, part, "mesh"@, mesh),
    ensures
        object_uses(files, doc, object).contains(
            (MeshUse {
                doc: files[f].doc->0,
                mesh,
                outer: xml::local_attribute(doc[item], "transform"@),
                inner: xml::local_attribute(doc[comp], "transform"@),
            }),
        ),
{
    let other = files[f].doc->0;
    let outer = xml::local_attribute(doc[item], "transform"@);
    let inner = xml::local_attribute(doc[comp], "transform"@);
    let wanted = xml::attribute(doc[comp], "objectid"@);
    let u = MeshUse { doc: other, mesh, outer, inner };
    lemma_last_item(doc, object, id, item);
    lemma_no_child(doc, object, "mesh"@);
    lemma_first_child(doc, object, "components"@, components);
    lemma_first_child(other, part, "mesh"@, mesh);
    lemma_last_file(files, files[f].key, f);
    assert(outside_object_use(other, part, wanted, outer, inner)[0] == u);
    xml::elements_are_all_of_their_name(other, "object"@, part);
    let parts = xml::elements(other, "object"@);
    let i = choose|i: int| 0 <= i < parts.len() && parts[i] == part;
    lemma_outside_among(other, parts, wanted, outer, inner, i, u);
    assert(component_uses(files, doc[comp], outer).contains(u));
    xml::children_are_all_of_their_parent(doc, components, "component"@, comp);
    let comps = xml::children(doc, components, "component"@);
    let j = choose|j: int| 0 <= j < comps.len() && comps[j] == comp;
    lemma_component_among(files, doc, comps, outer, j, u);
}

proof fn lemma_outside_origin(
    doc: Seq<XmlNodeView>,
    all: Seq<int>,
    wanted: Option<Seq<char>>,
    outer: Option<Seq<char>>,
    inner: Option<Seq<char>>,
    k: int,
)
    requires
        0 <= k < outside_uses(doc, all, wanted, outer, inner).len(),
    ensures
        ({
            let u = outside_uses(doc, all, wanted, outer, inner)[k];
            &&& u.doc == doc
            &&& u.outer == outer
            &&& u.inner == inner
            &&& exists|i: int|
                0 <= i < all.len() && is_model(doc[#[trigger] all[i]]) && (wanted is Some
                    ==> xml::attribute(doc[all[i]], "id"@) == wanted) && lists::first(xml::children(doc, all[i], "mesh"@)) == Some(u.mesh)
        }),
    decreases all.len(),
{
    let rest = all.drop_last();
    let before = outside_uses(doc, rest, wanted, outer, inner);
    if k < before.len() {
        lemma_outside_origin(doc, rest, wanted, outer, inner, k);
        let u = before[k];
        let i = choose|i: int|
            0 <= i < rest.len() && is_model(doc[#[trigger] rest[i]]) && (wanted is Some
                ==> xml::attribute(doc[rest[i]], "id"@) == wanted) && lists::first(xml::children(doc, rest[i], "mesh"@)) == Some(u.mesh);
        assert(all[i] == rest[i]);
    } else {
        assert(all[all.len() - 1] == all.last());
    }
}

/// A component places nothing but meshes of the objects that it asks for, each with the
/// component's transform as its inner one.
pub proof fn components_place_what_they_ask_for(
    files: Seq<ModelFileView>,
    comp: XmlNodeView,
    outer: Option<Seq<char>>,
    k: int,
) -> (part: int)
    requires
        0 <= k < component_uses(files, comp, outer).len(),
    ensures
        ({
            let u = component_uses(files, comp, outer)[k];
            &&& u.outer == outer
            &&& u.inner == xml::local_attribute(comp, "transform"@)
            &&& 0 <= part < u.doc.len()
            &&& u.doc[part].name == "object"@
            &&& xml::attribute(comp, "objectid"@) is Some ==> xml::attribute(u.doc[part], "id"@)
                == xml::attribute(comp, "objectid"@)
            &&& u.doc[u.mesh].parent == Some(part)
            &&& u.doc[u.mesh].name == "mesh"@
        }),
{
    let path = xml::local_attribute(comp, "path"@)->0;
    let f = file_of(files, file_key(path))->0;
    let doc = files[f].doc->0;
    let all = xml::elements(doc, "object"@);
    let wanted = xml::attribute(comp, "objectid"@);
    let inner = transform(comp);
    let u = component_uses(files, comp, outer)[k];
    lemma_outside_origin(doc, all, wanted, outer, inner, k);
    let i = choose|i: int|
        0 <= i < all.len() && is_model(doc[#[trigger] all[i]]) && (wanted is Some
            ==> xml::attribute(doc[all[i]], "id"@) == wanted) && lists::first(xml::children(doc, all[i], "mesh"@)) == Some(u.mesh);
    let p = |j: int| doc[j].name == "object"@;
    lists::positions_are_all(doc.len() as int, p);
    assert(p(all[i]));
    let q = |j: int| doc[j].parent == Some(all[i]) && doc[j].name == "mesh"@;
    lists::positions_are_all(doc.len() as int, q);
    assert(q(xml::children(doc, all[i], "mesh"@)[0]));
    all[i]
}

proof fn lemma_components_outer(
    files: Seq<ModelFileView>,
    doc: Seq<XmlNodeView>,
    all: Seq<int>,
    outer: Option<Seq<char>>,
    k: int,
)
    requires
        0 <= k < components_uses(files, doc, all, outer).len(),
    ensures
        components_uses(files, doc, all, outer)[k].outer == outer,
    decreases all.len(),
{
    let before = components_uses(files, doc, all.drop_last(), outer);
    if k < before.len() {
        lemma_components_outer(files, doc, all.drop_last(), outer, k);
    } else {
        let part = components_place_what_they_ask_for(
            files,
            doc[all.last()],
            outer,
            k - before.len(),
        );
    }
}

/// Every mesh that an object places, its own or one of its components, carries the transform of
/// the last build item that names the object as its outer one.
pub proof fn every_mesh_carries_its_item(
    files: Seq<ModelFileView>,
    doc: Seq<XmlNodeView>,
    object: int,
    id: Seq<char>,
    item: int,
    k: int,
)
    requires
        xml::attribute(doc[object], "id"@) == Some(id),
        is_last_item(doc, id, item),
        0 <= k < object_uses(files, doc, object).len(),
    ensures
        object_uses(files, doc, object)[k].outer == xml::local_attribute(doc[item], "transform"@),
{
    lemma_last_item(doc, object, id, item);
    if lists::first(xml::children(doc, object, "mesh"@)) is None {
        let c = lists::first(xml::children(doc, object, "components"@))->0;
        lemma_components_outer(
            files,
            doc,
            xml::children(doc, c, "component"@),
            build_transform(doc, object),
            k,
        );
    }
}

/// What a model object of the main document places is in the geometry of the files: with the
/// vertices of the mesh, and with its transforms.
pub proof fn placed_meshes_are_in_the_geometry(
    files: Seq<ModelFileView>,
    doc: Seq<XmlNodeView>,
    object: int,
    u: MeshUse,
)
    requires
        files_geometry(files) is Ok,
        main_file(files) is Some,
        files[main_file(files)->0].doc == Some(doc),
        0 <= object < doc.len(),
        doc[object].name == "object"@,
        object_uses(files, doc, object).contains(u),
    ensures
        exists|k: int|
            0 <= k < (files_geometry(files)->Ok_0).meshes.len() && {
                let m = #[trigger] (files_geometry(files)->Ok_0).meshes[k];
                &&& m.outer == u.outer
                &&& m.inner == u.inner
                &&& m.vertices == mesh_vertices(u.doc, u.mesh)
            },
{
    let all = xml::elements(doc, "object"@);
    xml::elements_are_all_of_their_name(doc, "object"@, object);
    let i = choose|i: int| 0 <= i < all.len() && all[i] == object;
    lemma_object_among(files, doc, all, i, u);
    let uses = mesh_uses(files, doc);
    let k = choose|k: int| 0 <= k < uses.len() && uses[k] == u;
    assert((files_geometry(files)->Ok_0).meshes[k] == placed(u));
}

/// Moving a build item moves its object: in the geometry of the files stands every mesh of a
/// model object of the main document with a mesh of its own, under the transform of the last
/// build item that names the object.
pub proof fn items_move_own_meshes(
    files: Seq<ModelFileView>,
    doc: Seq<XmlNodeView>,
    object: int,
    mesh: int,
    id: Seq<char>,
    item: int,
)
    requires
        files_geometry(files) is Ok,
        main_file(files) is Some,
        files[main_file(files)->0].doc == Some(doc),
        0 <= object < doc.len(),
        doc[object].name == "object"@,
        xml::attribute(doc[object], "type"@) is None || xml::attribute(doc[object], "type"@)
            == Some("model"@),
        is_first_child(doc, object, "mesh"@, mesh),
        xml::attribute(doc[object], "id"@) == Some(id),
        is_last_item(doc, id, item),
    ensures
        exists|k: int|
            0 <= k < (files_geometry(files)->Ok_0).meshes.len() && {
                let m = #[trigger] (files_geometry(files)->Ok_0).meshes[k];
                &&& m.outer == xml::local_attribute(doc[item], "transform"@)
                &&& m.inner is None
                &&& m.vertices == mesh_vertices(doc, mesh)
            },
{
    own_meshes_are_placed_by_their_item(files, doc, object, mesh, id, item);
    let u = object_uses(files, doc, object)[0];
    assert(object_uses(files, doc, object).contains(u));
    placed_meshes_are_in_the_geometry(files, doc, object, u);
}

proof fn lemma_object_origin(
    files: Seq<ModelFileView>,
    doc: Seq<XmlNodeView>,
    all: Seq<int>,
    k: int,
) -> (i: int)
    requires
        0 <= k < objects_uses(files, doc, all).len(),
    ensures
        0 <= i < all.len(),
        object_uses(files, doc, all[i]).contains(objects_uses(files, doc, all)[k]),
    decreases all.len(),
{
    let before = objects_uses(files, doc, all.drop_last());
    if k < before.len() {
        lemma_object_origin(files, doc, all.drop_last(), k)
    } else {
        let own = object_uses(files, doc, all.last());
        assert(own[k - before.len()] == objects_uses(files, doc, all)[k]);
        all.len() - 1
    }
}

/// There is no mesh in the geometry of the files but those that the objects of the main document
/// place.
pub proof fn every_placed_mesh_is_of_an_object(
    files: Seq<ModelFileView>,
    doc: Seq<XmlNodeView>,
    k: int,
) -> (r: (int, MeshUse))
    requires
        files_geometry(files) is Ok,
        main_file(files) is Some,
        files[main_file(files)->0].doc == Some(doc),
        0 <= k < (files_geometry(files)->Ok_0).meshes.len(),
    ensures
        0 <= r.0 < doc.len(),
        doc[r.0].name == "object"@,
        object_uses(files, doc, r.0).contains(r.1),
        ({
            let m = (files_geometry(files)->Ok_0).meshes[k];
            &&& m.outer == r.1.outer
            &&& m.inner == r.1.inner
            &&& m.vertices == mesh_vertices(r.1.doc, r.1.mesh)
        }),
{
    let all = xml::elements(doc, "object"@);
    let i = lemma_object_origin(files, doc, all, k);
    let p = |j: int| doc[j].name == "object"@;
    lists::positions_are_all(doc.len() as int, p);
    assert(p(all[i]));
    (all[i], mesh_uses(files, doc)[k])
}

/// The geometry of the files is that of all objects of the main document, in document order.
/// Without a main file, or where it is no document, there is none.
pub proof fn objects_are_placed_in_document_order(files: Seq<ModelFileView>)
    ensures
        main_file(files) is None ==> files_geometry(files) == Err::<GeometryView, _>(
            ThreeMfError::NoModel,
        ),
        main_file(files) matches Some(i) ==> match files[i].doc {
            None => files_geometry(files) == Err::<GeometryView, _>(ThreeMfError::InvalidXml),
            Some(doc) => files_geometry(files) == geometry_of(
                objects_uses(
                    files,
                    doc,
                    lists::positions(doc.len() as int, |k: int| doc[k].name == "object"@),
                ),
            ),
        },
{
}

// ---------------------------------------------------------------------------------------
// What meshes hold
// ---------------------------------------------------------------------------------------

/// A mesh has all vertices of its first list of them, in document order, each with its own three
/// coordinates.
pub proof fn meshes_have_all_their_vertices(doc: Seq<XmlNodeView>, mesh: int, list: int, k: int)
    requires
        is_first_child(doc, mesh, "vertices"@, list),
        0 <= k < lists::positions(
            doc.len() as int,
            |i: int| doc[i].parent == Some(list) && doc[i].name == "vertex"@,
        ).len(),
    ensures
        ({
            let all = lists::positions(
                doc.len() as int,
                |i: int| doc[i].parent == Some(list) && doc[i].name == "vertex"@,
            );
            let v = mesh_vertices(doc, mesh)[k];
            &&& mesh_vertices(doc, mesh).len() == all.len()
            &&& v.x == xml::attribute(doc[all[k]], "x"@)
            &&& v.y == xml::attribute(doc[all[k]], "y"@)
            &&& v.z == xml::attribute(doc[all[k]], "z"@)
        }),
{
    lemma_first_child(doc, mesh, "vertices"@, list);
}

/// A mesh has all triangles of its first list of them, in document order. A triangle names its
/// three corners in order, counted from the mesh's first vertex.
pub proof fn meshes_have_all_their_triangles(
    doc: Seq<XmlNodeView>,
    mesh: int,
    base: nat,
    list: int,
    k: int,
)
    requires
        is_first_child(doc, mesh, "triangles"@, list),
        0 <= k < lists::positions(
            doc.len() as int,
            |i: int| doc[i].parent == Some(list) && doc[i].name == "triangle"@,
        ).len(),
    ensures
        ({
            let all = lists::positions(
                doc.len() as int,
                |i: int| doc[i].parent == Some(list) && doc[i].name == "triangle"@,
            );
            let t = mesh_triangles(doc, mesh, base)[k];
            let n = doc[all[k]];
            &&& mesh_triangles(doc, mesh, base).len() == all.len()
            &&& t.0 == base + corner(n, "v1"@)
            &&& t.1 == base + corner(n, "v2"@)
            &&& t.2 == base + corner(n, "v3"@)
        }),
{
    lemma_first_child(doc, mesh, "triangles"@, list);
}

/// A corner that is written as a number of 32 bits is that number; any other number, or none, is
/// zero.
pub proof fn corners_are_numbers(n: XmlNodeView, name: Seq<char>, k: nat)
    ensures
        xml::attribute(n, name) == Some(numbers::decimal(k as int)) && k <= u32::MAX ==> corner(n, name)
            == k,
        xml::attribute(n, name) == Some(numbers::decimal(k as int)) && k > u32::MAX ==> corner(n, name)
            == 0,
        xml::attribute(n, name) is None ==> corner(n, name) == 0,
{
    numbers::decimal_reads_back(k as int);
}

/// Meshes are numbered through: the triangles of one more mesh count its vertices from the
/// number of all vertices before, and stand behind the triangles of the meshes before.
pub proof fn one_more_mesh_is_numbered_on(uses: Seq<MeshUse>, u: MeshUse)
    ensures
        vertex_count(uses.push(u)) == vertex_count(uses) + mesh_vertices(u.doc, u.mesh).len(),
        triangle_list(uses.push(u)) == triangle_list(uses) + mesh_triangles(
            u.doc,
            u.mesh,
            vertex_count(uses),
        ),
        vertex_count(Seq::empty()) == 0,
        triangle_list(Seq::empty()).len() == 0,
{
    assert(uses.push(u).drop_last() =~= uses);
}

/// Geometry is given exactly where there is a triangle and every corner has a number of 32 bits,
/// and then each triangle has exactly its corners.
pub proof fn triangles_keep_their_corners(uses: Seq<MeshUse>)
    ensures
        ({
            let tris = triangle_list(uses);
            let small = forall|k: int|
                0 <= k < tris.len() ==> (#[trigger] tris[k]).0 < 0x1_0000_0000 && tris[k].1
                    < 0x1_0000_0000 && tris[k].2 < 0x1_0000_0000;
            &&& geometry_of(uses) is Ok <==> small && tris.len() > 0
            &&& !small ==> geometry_of(uses) == Err::<GeometryView, _>(ThreeMfError::IndexOverflow)
            &&& tris.len() == 0 ==> geometry_of(uses) == Err::<GeometryView, _>(
                ThreeMfError::NoGeometry,
            )
            &&& geometry_of(uses) matches Ok(g) ==> {
                &&& g.triangles.len() == tris.len()
                &&& g.meshes.len() == uses.len()
                &&& forall|k: int|
                    0 <= k < tris.len() ==> (#[trigger] g.triangles[k]).v1 as nat == tris[k].0
                        && g.triangles[k].v2 as nat == tris[k].1 && g.triangles[k].v3 as nat
                        == tris[k].2
            }
        }),
{
}

/// The files are read that components name: the key of each component with a path, in document
/// order.
pub proof fn every_component_names_its_file(doc: Seq<XmlNodeView>)
    ensures
        named_keys(doc, doc.len()) == lists::positions(
            doc.len() as int,
            |i: int|
                doc[i].name == "component"@ && xml::local_attribute(doc[i], "path"@) is Some,
        ).map_values(
            |i: int|
                unicode::lowercase(
                    text::trim_start(xml::local_attribute(doc[i], "path"@)->0, CharSet::Slash),
                ),
        ),
{
    lemma_named_keys(doc, doc.len());
}

proof fn lemma_named_keys(doc: Seq<XmlNodeView>, n: nat)
    ensures
        named_keys(doc, n) == lists::positions(
            n as int,
            |i: int|
                doc[i].name == "component"@ && xml::local_attribute(doc[i], "path"@) is Some,
        ).map_values(
            |i: int|
                unicode::lowercase(
                    text::trim_start(xml::local_attribute(doc[i], "path"@)->0, CharSet::Slash),
                ),
        ),
    decreases n,
{
    let p = |i: int|
        doc[i].name == "component"@ && xml::local_attribute(doc[i], "path"@) is Some;
    let f = |i: int|
        unicode::lowercase(
            text::trim_start(xml::local_attribute(doc[i], "path"@)->0, CharSet::Slash),
        );
    if n > 0 {
        lemma_named_keys(doc, (n - 1) as nat);
        let rest = lists::positions(n - 1, p);
        assert(rest.push(n - 1).map_values(f) =~= rest.map_values(f).push(f(n - 1)));
    } else {
        assert(lists::positions(0, p).map_values(f) =~= Seq::<Seq<char>>::empty());
    }
}

/// Twelve numbers are the transform, in their order, whatever stands between them that is none.
pub proof fn twelve_numbers_are_the_transform(values: Seq<Option<u32>>)
    ensures
        ({
            let there = lists::positions(values.len() as int, |i: int| values[i] is Some);
            &&& there.len() == 12 ==> matrix(values) == there.map_values(|i: int| values[i]->0)
            &&& there.len() != 12 ==> matrix(values).len() == 12 && forall|i: int|
                0 <= i < 12 ==> #[trigger] matrix(values)[i] == (if i == 0 || i == 4 || i == 8 {
                    0x3f80_0000u32
                } else {
                    0
                })
        }),
{
    lemma_only_numbers(values, values.len() as int);
    assert(values.take(values.len() as int) =~= values);
}

proof fn lemma_only_numbers(values: Seq<Option<u32>>, n: int)
    requires
        0 <= n <= values.len(),
    ensures
        only_numbers(values.take(n)) == lists::positions(
            n,
            |i: int| values[i] is Some,
        ).map_values(|i: int| values[i]->0),
    decreases n,
{
    let p = |i: int| values[i] is Some;
    let f = |i: int| values[i]->0;
    if n > 0 {
        lemma_only_numbers(values, n - 1);
        assert(values.take(n).drop_last() =~= values.take(n - 1));
        let rest = lists::positions(n - 1, p);
        assert(rest.push(n - 1).map_values(f) =~= rest.map_values(f).push(f(n - 1)));
    } else {
        assert(lists::positions(0, p).map_values(f) =~= Seq::<u32>::empty());
    }
}

/// Of files with the same key the last one counts, also for the main model.
pub proof fn the_last_of_equal_files_is_the_main_one(files: Seq<ModelFileView>, first: int, last: int)
    requires
        threemf::model_position(keys(files)) == Some(first),
        0 <= first < files.len(),
        0 <= last < files.len(),
        files[last].key == files[first].key,
        forall|j: int| last < j < files.len() ==> (#[trigger] files[j]).key != files[first].key,
    ensures
        main_file(files) == Some(last),
{
    lemma_last_file(files, files[first].key, last);
}

/// The words of a transform are those of its text, in their order, and an absent one has none.
pub proof fn transforms_are_read_word_by_word(a: Seq<char>, b: Seq<char>)
    ensures
        transform_words(Some(a.push(' ') + b)) == transform_words(Some(a)) + transform_words(
            Some(b),
        ),
        a.len() > 0 && (forall|i: int| 0 <= i < a.len() ==> !text::is_space(#[trigger] a[i]))
            ==> transform_words(Some(a)) == seq![a],
        transform_words(None).len() == 0,
{
    text::white_space_parts_words(a, ' ', b);
}

} // verus!
