use org3d::bounds::Corner;
use org3d::formats::binary_stl::write_binary_stl;
use org3d::formats::mesh::{
    assemble, read_matrix, split_transform, Geometry, ModelFile, Triangle, VertexText, ONE,
};
use org3d::formats::stl::{self, Coordinates, Point};
use org3d::formats::threemf::{
    clean_html, extent, extract, find_model, geometry, order_pictures, read_metadata, read_models,
    to_binary_stl, ModelText, ThreeMfError, ThreeMfMeta,
};
use org3d::xml::{nests_at_most, read_xml, XmlAttr, XmlNode, MAX_NESTING};
use std::io::Write as _;

fn options() -> zip::write::SimpleFileOptions {
    zip::write::SimpleFileOptions::default().compression_method(zip::CompressionMethod::Stored)
}

fn make_archive(files: &[(&str, &[u8])]) -> Vec<u8> {
    let mut zip = zip::ZipWriter::new(std::io::Cursor::new(Vec::new()));
    for (name, data) in files {
        zip.start_file(*name, options()).unwrap();
        zip.write_all(data).unwrap();
    }
    zip.finish().unwrap().into_inner()
}

const PNG: &[u8] = &[
    0x89, 0x50, 0x4e, 0x47, 0x0d, 0x0a, 0x1a, 0x0a, 0x00, 0x00, 0x00, 0x0d, 0x49, 0x48, 0x44, 0x52, 0x00,
    0x00, 0x00, 0x01, 0x00, 0x00, 0x00, 0x01, 0x08, 0x02, 0x00, 0x00, 0x00, 0x90, 0x77, 0x53, 0xde, 0x00,
    0x00, 0x00, 0x0c, 0x49, 0x44, 0x41, 0x54, 0x08, 0xd7, 0x63, 0xf8, 0xcf, 0xc0, 0x00, 0x00, 0x00, 0x02,
    0x00, 0x01, 0xe2, 0x21, 0xbc, 0x33, 0x00, 0x00, 0x00, 0x00, 0x49, 0x45, 0x4e, 0x44, 0xae, 0x42, 0x60,
    0x82,
];

fn make_3mf(metadata: &[(&str, &str)], include_thumbnail: bool) -> Vec<u8> {
    let mut xml = String::from(
        r#"<?xml version="1.0"?><model xmlns="http://schemas.microsoft.com/3dmanufacturing/core/2015/02"><resources><object id="1" type="model"><mesh><vertices><vertex x="0" y="0" z="0"/><vertex x="10" y="0" z="0"/><vertex x="0" y="20" z="0"/><vertex x="0" y="0" z="5"/></vertices><triangles><triangle v1="0" v2="1" v3="2"/><triangle v1="0" v2="1" v3="3"/></triangles></mesh></object></resources>"#,
    );
    for (name, value) in metadata {
        xml.push_str(&format!("<metadata name=\"{name}\">{value}</metadata>"));
    }
    xml.push_str("</model>");
    if include_thumbnail {
        make_archive(&[("3D/3dmodel.model", xml.as_bytes()), ("Metadata/plate_1.png", PNG)])
    } else {
        make_archive(&[("3D/3dmodel.model", xml.as_bytes())])
    }
}

fn coordinate(s: &Option<String>) -> u64 {
    s.as_deref().and_then(|v| v.parse::<f64>().ok()).unwrap_or(0.0).to_bits()
}

fn dims(meta: &ThreeMfMeta) -> Option<[f64; 3]> {
    let points: Vec<Corner> = meta
        .vertices
        .iter()
        .map(|v| Corner { x: coordinate(&v.x), y: coordinate(&v.y), z: coordinate(&v.z) })
        .collect();
    extent(&points).map(|b| {
        [
            f64::from_bits(b.high.x) - f64::from_bits(b.low.x),
            f64::from_bits(b.high.y) - f64::from_bits(b.low.y),
            f64::from_bits(b.high.z) - f64::from_bits(b.low.z),
        ]
    })
}

fn single(s: &Option<String>) -> f32 {
    s.as_deref().and_then(|v| v.parse().ok()).unwrap_or(0.0)
}

fn place(transform: &Option<String>, v: [f32; 3]) -> [f32; 3] {
    let values: Vec<Option<u32>> = split_transform(transform)
        .iter()
        .map(|w| w.parse::<f32>().ok().map(f32::to_bits))
        .collect();
    let m: Vec<f32> = read_matrix(&values).into_iter().map(f32::from_bits).collect();
    let [x, y, z] = v;
    [
        m[0] * x + m[3] * y + m[6] * z + m[9],
        m[1] * x + m[4] * y + m[7] * z + m[10],
        m[2] * x + m[5] * y + m[8] * z + m[11],
    ]
}

fn points(g: &Geometry) -> Vec<Point> {
    let mut out = Vec::new();
    for mesh in &g.meshes {
        for v in &mesh.vertices {
            let inner = place(&mesh.inner, [single(&v.x), single(&v.y), single(&v.z)]);
            let [x, y, z] = place(&mesh.outer, inner);
            out.push(Point { x: x.to_bits(), y: y.to_bits(), z: z.to_bits() });
        }
    }
    out
}

fn stl_of(data: &[u8]) -> Result<Vec<u8>, ThreeMfError> {
    let g = geometry(data)?;
    Ok(to_binary_stl(&g, &points(&g)))
}

fn triangle_count(stl: &[u8]) -> u32 {
    u32::from_le_bytes(stl[80..84].try_into().unwrap())
}

fn greatest(stl: &[u8]) -> [f32; 3] {
    let mut max = [0.0f32; 3];
    for i in 0..triangle_count(stl) as usize {
        let base = 84 + i * 50 + 12;
        for v in 0..3usize {
            for a in 0..3usize {
                let off = base + v * 12 + a * 4;
                max[a] = max[a].max(f32::from_le_bytes(stl[off..off + 4].try_into().unwrap()));
            }
        }
    }
    max
}

fn make_obj_xml_id(id: u32, v_x: f32, v_y: f32, v_z: f32) -> String {
    format!(
        r#"<?xml version="1.0"?><model xmlns="http://schemas.microsoft.com/3dmanufacturing/core/2015/02"><resources><object id="{id}" type="model"><mesh><vertices><vertex x="0" y="0" z="0"/><vertex x="{v_x}" y="0" z="0"/><vertex x="0" y="{v_y}" z="0"/><vertex x="0" y="0" z="{v_z}"/></vertices><triangles><triangle v1="0" v2="1" v3="2"/><triangle v1="0" v2="1" v3="3"/></triangles></mesh></object></resources></model>"#
    )
}

fn make_obj_xml(v_x: f32, v_y: f32, v_z: f32) -> String {
    make_obj_xml_id(1, v_x, v_y, v_z)
}

/// A file whose main model only has an assembly, with the geometry in files of its own.
fn make_bambu_3mf(components: &[(u32, &str, &str)]) -> Vec<u8> {
    let mut comp_xml = String::new();
    for (oid, xform, _) in components {
        comp_xml.push_str(&format!(
            r#"<component p:path="/3D/Objects/object_{oid}.model" objectid="{oid}" transform="{xform}"/>"#
        ));
    }
    let main = format!(
        r#"<?xml version="1.0"?><model xmlns="http://schemas.microsoft.com/3dmanufacturing/core/2015/02" xmlns:p="http://schemas.microsoft.com/3dmanufacturing/production/2015/06"><resources><object id="99" type="model"><components>{comp_xml}</components></object></resources><build><item objectid="99"/></build></model>"#
    );
    let names: Vec<String> =
        components.iter().map(|(oid, _, _)| format!("3D/Objects/object_{oid}.model")).collect();
    let mut files: Vec<(&str, &[u8])> = vec![("3D/3dmodel.model", main.as_bytes())];
    for (i, (_, _, xml)) in components.iter().enumerate() {
        files.push((names[i].as_str(), xml.as_bytes()));
    }
    make_archive(&files)
}

#[test]
fn test_metadata_extraction() {
    let data = make_3mf(
        &[
            ("Title", "Test Dragon"),
            ("Designer", "TestUser"),
            ("Application", "BambuStudio-01.10.01"),
            ("CreationDate", "2025-01-15"),
            ("LicenseTerms", "CC BY"),
        ],
        false,
    );
    let meta = extract(&data).unwrap();

    assert_eq!(meta.title.as_deref(), Some("Test Dragon"));
    assert_eq!(meta.designer.as_deref(), Some("TestUser"));
    assert_eq!(meta.application.as_deref(), Some("BambuStudio-01.10.01"));
    assert_eq!(meta.created_at.as_deref(), Some("2025-01-15"));
    assert_eq!(meta.license.as_deref(), Some("CC BY"));
}

#[test]
fn test_geometry_extraction() {
    let data = make_3mf(&[], false);
    let meta = extract(&data).unwrap();
    let d = dims(&meta).unwrap();

    assert_eq!(meta.triangle_count, Some(2));
    assert_eq!(meta.object_count, Some(1));
    assert!((d[0] - 10.0).abs() < 0.001);
    assert!((d[1] - 20.0).abs() < 0.001);
    assert!((d[2] - 5.0).abs() < 0.001);
}

#[test]
fn test_thumbnail_extracted() {
    let data = make_3mf(&[], true);
    let meta = extract(&data).unwrap();

    let thumb = meta.thumbnail.expect("thumbnail should be present");
    assert!(thumb.starts_with(&[0x89, 0x50, 0x4e, 0x47]), "should start with PNG magic");
}

#[test]
fn test_no_thumbnail_returns_none() {
    let data = make_3mf(&[], false);
    let meta = extract(&data).unwrap();

    assert!(meta.thumbnail.is_none());
}

#[test]
fn test_html_stripped_from_description() {
    let data = make_3mf(
        // the markup inside of the XML value is encoded
        &[("Description", "&lt;p&gt;Hello &lt;strong&gt;world&lt;/strong&gt;&lt;/p&gt;")],
        false,
    );
    let meta = extract(&data).unwrap();

    let desc = meta.description.unwrap();
    assert!(!desc.contains('<'), "HTML tags should be stripped");
    assert!(desc.contains("Hello"), "text content should remain");
    assert_eq!(desc, "Hello world");
}

#[test]
fn test_empty_metadata_ignored() {
    let data = make_3mf(&[("Title", ""), ("Designer", "[]")], false);
    let meta = extract(&data).unwrap();

    assert!(meta.title.is_none(), "empty title should not be stored");
    assert!(meta.designer.is_none(), "[] designer should not be stored");
}

#[test]
fn test_stl_from_simple_3mf() {
    let data = make_3mf(&[], false);
    let stl = stl_of(&data).unwrap();

    assert!(stl.len() > 84, "STL should contain geometry");
    let tri_count = u32::from_le_bytes(stl[80..84].try_into().unwrap());
    assert_eq!(tri_count, 2, "should have 2 triangles");
}

#[test]
fn test_stl_from_bambu_style_3mf() {
    let obj_xml = make_obj_xml(10.0, 20.0, 5.0);
    let data = make_bambu_3mf(&[(1, "1 0 0 0 1 0 0 0 1 0 0 0", &obj_xml)]);
    let stl = stl_of(&data).unwrap();

    let tri_count = u32::from_le_bytes(stl[80..84].try_into().unwrap());
    assert_eq!(tri_count, 2, "should have 2 triangles from external object");
}

#[test]
fn test_stl_transform_applied() {
    let obj1 = make_obj_xml_id(1, 10.0, 10.0, 10.0);
    let obj2 = make_obj_xml_id(2, 10.0, 10.0, 10.0);
    let data = make_bambu_3mf(&[
        (1, "1 0 0 0 1 0 0 0 1 0 0 0", &obj1),
        (2, "1 0 0 0 1 0 0 0 1 100 0 0", &obj2),
    ]);
    let stl = stl_of(&data).unwrap();

    let tri_count = u32::from_le_bytes(stl[80..84].try_into().unwrap());
    assert_eq!(tri_count, 4, "should have 2 triangles × 2 instances");

    let mut max_x = 0.0f32;
    for i in 0..tri_count as usize {
        let base = 84 + i * 50 + 12;
        for v in 0..3usize {
            let off = base + v * 12;
            let x = f32::from_le_bytes(stl[off..off + 4].try_into().unwrap());
            max_x = max_x.max(x);
        }
    }
    assert!(max_x > 100.0, "translated instance should have x > 100, got {max_x}");
}

#[test]
fn test_stl_no_duplicate_without_transform() {
    let obj1 = make_obj_xml_id(1, 5.0, 5.0, 5.0);
    let obj2 = make_obj_xml_id(2, 5.0, 5.0, 5.0);
    let data = make_bambu_3mf(&[
        (1, "1 0 0 0 1 0 0 0 1 0 0 0", &obj1),
        (2, "1 0 0 0 1 0 0 0 1 0 0 0", &obj2),
    ]);
    let stl = stl_of(&data).unwrap();

    let tri_count = u32::from_le_bytes(stl[80..84].try_into().unwrap());
    assert_eq!(tri_count, 4, "each component instance should add its own triangles");
}

#[test]
fn test_stl_build_transform_positions_objects() {
    let identity = "1 0 0 0 1 0 0 0 1 0 0 0";
    let translate_100 = "1 0 0 0 1 0 0 0 1 100 0 0";

    let obj1_xml = make_obj_xml_id(1, 10.0, 10.0, 10.0);
    let obj2_xml = make_obj_xml_id(2, 10.0, 10.0, 10.0);

    let main = format!(
        r#"<?xml version="1.0"?><model xmlns="http://schemas.microsoft.com/3dmanufacturing/core/2015/02" xmlns:p="http://schemas.microsoft.com/3dmanufacturing/production/2015/06"><resources><object id="2" type="model"><components><component p:path="/3D/Objects/object_1.model" objectid="1" transform="{identity}"/></components></object><object id="4" type="model"><components><component p:path="/3D/Objects/object_2.model" objectid="2" transform="{identity}"/></components></object></resources><build><item objectid="2" transform="{identity}"/><item objectid="4" transform="{translate_100}"/></build></model>"#
    );
    let data = make_archive(&[
        ("3D/3dmodel.model", main.as_bytes()),
        ("3D/Objects/object_1.model", obj1_xml.as_bytes()),
        ("3D/Objects/object_2.model", obj2_xml.as_bytes()),
    ]);
    let stl = stl_of(&data).unwrap();

    let tri_count = u32::from_le_bytes(stl[80..84].try_into().unwrap());
    assert_eq!(tri_count, 4);

    let mut max_x = 0.0f32;
    for i in 0..tri_count as usize {
        let base = 84 + i * 50 + 12;
        for v in 0..3usize {
            let off = base + v * 12;
            let x = f32::from_le_bytes(stl[off..off + 4].try_into().unwrap());
            max_x = max_x.max(x);
        }
    }
    assert!(max_x > 100.0, "build-translated object should have x > 100, got {max_x}");
}

#[test]
fn test_stl_empty_returns_error() {
    let data = make_archive(&[(
        "3D/3dmodel.model",
        b"<?xml version=\"1.0\"?><model xmlns=\"http://schemas.microsoft.com/3dmanufacturing/core/2015/02\"><resources><object id=\"1\" type=\"model\"><components/></object></resources></model>",
    )]);
    let result = stl_of(&data);

    assert!(result.is_err(), "should error when no geometry found");
    assert_eq!(result, Err(ThreeMfError::NoGeometry));
}

#[test]
fn test_stl_bounding_box() {
    let obj_xml = make_obj_xml(50.0, 30.0, 15.0);
    let data = make_bambu_3mf(&[(1, "1 0 0 0 1 0 0 0 1 0 0 0", &obj_xml)]);
    let stl = stl_of(&data).unwrap();

    let tri_count = u32::from_le_bytes(stl[80..84].try_into().unwrap()) as usize;
    let mut max_x = 0.0f32;
    let mut max_y = 0.0f32;
    let mut max_z = 0.0f32;
    for i in 0..tri_count {
        let base = 84 + i * 50 + 12;
        for v in 0..3usize {
            let off = base + v * 12;
            let x = f32::from_le_bytes(stl[off..off + 4].try_into().unwrap());
            let y = f32::from_le_bytes(stl[off + 4..off + 8].try_into().unwrap());
            let z = f32::from_le_bytes(stl[off + 8..off + 12].try_into().unwrap());
            max_x = max_x.max(x);
            max_y = max_y.max(y);
            max_z = max_z.max(z);
        }
    }
    assert!((max_x - 50.0).abs() < 0.001, "max x should be 50");
    assert!((max_y - 30.0).abs() < 0.001, "max y should be 30");
    assert!((max_z - 15.0).abs() < 0.001, "max z should be 15");
}

#[test]
fn transforms_are_composed() {
    // the component turns x into y, the build item moves the result along y
    let obj = make_obj_xml_id(1, 10.0, 0.0, 0.0);
    let main = r#"<model xmlns:p="urn:p"><resources><object id="7"><components><component p:path="3D/o.model" objectid="1" transform="0 1 0 1 0 0 0 0 1 0 0 0"/></components></object></resources><build><item objectid="7" transform="0 0 0"/><item objectid="7" transform="1 0 0 0 1 0 0 0 1 0 5 0"/></build></model>"#;
    let data = make_archive(&[("3D/3dmodel.model", main.as_bytes()), ("3D/o.model", obj.as_bytes())]);
    assert_eq!(greatest(&stl_of(&data).unwrap()), [0.0, 15.0, 0.0]);
}

#[test]
fn broken_files_are_told_apart() {
    assert_eq!(extract(b"no archive").err(), Some(ThreeMfError::NotAnArchive));
    assert_eq!(geometry(b"no archive").err(), Some(ThreeMfError::NotAnArchive));

    let none = make_archive(&[("readme.txt", b"hi")]);
    assert_eq!(extract(&none).err(), Some(ThreeMfError::NoModel));
    assert_eq!(geometry(&none).err(), Some(ThreeMfError::NoModel));

    let bytes = make_archive(&[("3D/3dmodel.model", b"\xff\xfe")]);
    assert_eq!(extract(&bytes).err(), Some(ThreeMfError::UnreadableModel));
    assert_eq!(geometry(&bytes).err(), Some(ThreeMfError::NoModel));

    let text = make_archive(&[("3D/3dmodel.model", b"<model>")]);
    assert_eq!(extract(&text).err(), Some(ThreeMfError::InvalidXml));
    assert_eq!(geometry(&text).err(), Some(ThreeMfError::InvalidXml));
}

#[test]
fn indices_beyond_32_bits_are_refused() {
    let main = r#"<model><object id="1"><mesh><vertices><vertex/></vertices><triangles><triangle v1="0"/></triangles></mesh></object><object id="2"><mesh><triangles><triangle v1="4294967295"/></triangles></mesh></object></model>"#;
    let data = make_archive(&[("3D/3dmodel.model", main.as_bytes())]);
    assert_eq!(geometry(&data).err(), Some(ThreeMfError::IndexOverflow));
}

#[test]
fn corners_that_are_no_numbers_are_zero() {
    let main = r#"<model><object id="1"><mesh><vertices><vertex x="1"/><vertex x="2" y="b"/></vertices><triangles><triangle v1="1" v2="x" v3="4294967296"/></triangles></mesh></object><object id="2" type="support"><mesh><triangles><triangle/></triangles></mesh></object><object id="3"><mesh><triangles><triangle v1="1"/></triangles></mesh></object></model>"#;
    let data = make_archive(&[("3D/3dmodel.model", main.as_bytes())]);
    let g = geometry(&data).unwrap();
    assert_eq!(g.triangles, vec![Triangle { v1: 1, v2: 0, v3: 0 }, Triangle { v1: 3, v2: 2, v3: 2 }]);
    assert_eq!(g.meshes.len(), 2);
    assert_eq!(g.meshes[0].vertices[1].x.as_deref(), Some("2"));
    assert_eq!(g.meshes[0].vertices[1].y.as_deref(), Some("b"));
    assert_eq!(g.meshes[0].vertices[1].z, None);
    assert_eq!(g.meshes[0].outer, None);
}

fn attr(name: &str, value: &str) -> XmlAttr {
    XmlAttr { namespace: None, name: name.to_string(), value: value.to_string() }
}

fn node(name: &str, parent: Option<usize>, attributes: Vec<XmlAttr>, text: Option<&str>) -> XmlNode {
    XmlNode { name: name.to_string(), parent, attributes, text: text.map(str::to_string) }
}

#[test]
fn the_last_file_of_a_key_counts() {
    let with_triangle = |v1: &str| {
        vec![
            node("object", None, vec![], None),
            node("mesh", Some(0), vec![], None),
            node("triangles", Some(1), vec![], None),
            node("triangle", Some(2), vec![attr("v1", v1)], None),
        ]
    };
    let files = [
        ModelFile { key: "a.model".to_string(), nodes: Some(with_triangle("1")) },
        ModelFile { key: "3d/3dmodel.model".to_string(), nodes: Some(with_triangle("2")) },
        ModelFile { key: "3d/3dmodel.model".to_string(), nodes: Some(with_triangle("3")) },
    ];
    assert_eq!(assemble(&files).unwrap().triangles, vec![Triangle { v1: 3, v2: 0, v3: 0 }]);
    assert_eq!(assemble(&files[..1]).unwrap().triangles[0].v1, 1);
    assert_eq!(assemble(&[]).err(), Some(ThreeMfError::NoModel));
}

#[test]
fn metadata_is_read_from_nodes() {
    let nodes = [
        node("metadata", None, vec![attr("name", "ProfileUserName")], Some(" first ")),
        node("metadata", None, vec![attr("name", "Designer")], Some("second")),
        node("metadata", None, vec![attr("name", "Title")], Some("old")),
        node("metadata", None, vec![attr("name", "title")], Some("<b>new</b>  name")),
        node("metadata", None, vec![attr("name", "License")], Some("MIT")),
        node("metadata", None, vec![], Some("nameless")),
        node("vertex", None, vec![attr("x", "1.5")], None),
    ];
    let meta = read_metadata(&nodes, Some(vec![1, 2]));
    assert_eq!(meta.designer.as_deref(), Some("first"));
    assert_eq!(meta.title.as_deref(), Some("new name"));
    assert_eq!(meta.license.as_deref(), Some("MIT"));
    assert_eq!(meta.description, None);
    assert_eq!(meta.object_count, None);
    assert_eq!(meta.triangle_count, None);
    assert_eq!(meta.vertices.len(), 1);
    assert!(matches!(&meta.vertices[0], VertexText { x: Some(x), y: None, z: None } if x == "1.5"));
    assert_eq!(meta.thumbnail, Some(vec![1, 2]));
}

#[test]
fn models_are_found_by_name() {
    let names = |v: &[&str]| -> Vec<String> { v.iter().map(|s| s.to_string()).collect() };
    assert_eq!(find_model(&names(&["x.model", "3D/3DMODEL.MODEL"])), Some(1));
    assert_eq!(find_model(&names(&["a.txt", "x.model", "y.model"])), Some(1));
    assert_eq!(find_model(&names(&["a.txt", "X.MODEL"])), None);
}

#[test]
fn pictures_are_ordered() {
    let names: Vec<String> = [
        "Auxiliaries/.thumbnails/thumbnail_small.png",
        "a.png",
        "METADATA/other.PNG",
        "auxiliaries/.thumbnails/thumbnail_middle.png",
        "Metadata/plate_1.png",
    ]
    .iter()
    .map(|s| s.to_string())
    .collect();
    assert_eq!(order_pictures(&names), vec![4, 3, 0, 0, 2, 3, 4]);
}

#[test]
fn empty_pictures_are_passed_over() {
    let model = b"<model/>";
    let data = make_archive(&[
        ("3D/3dmodel.model", model),
        ("Metadata/plate_1.png", b""),
        ("Auxiliaries/cover.png", b"picture"),
    ]);
    assert_eq!(extract(&data).unwrap().thumbnail, Some(b"picture".to_vec()));
}

#[test]
fn html_is_cleaned() {
    assert_eq!(clean_html("a <b>bold</b>\n move"), "a bold move");
    assert_eq!(clean_html("1 &lt; 2 &amp;&amp; 3 &gt; 2"), "1 < 2 && 3 > 2");
    assert_eq!(clean_html("&quot;x&quot; &#39;y&#39;&nbsp;z"), "\"x\" 'y' z");
    assert_eq!(clean_html("&amp;lt;"), "<");
    assert_eq!(clean_html("open < never closed"), "open");
    assert_eq!(clean_html("a > b"), "a b");
    assert!(!clean_html("x<y>z>w<").contains('<'));
}

#[test]
fn written_files_are_read_back() {
    let p = |n: u32| Point { x: n, y: n + 1, z: n + 2 };
    let verts = [p(1), p(20), p(300)];
    let tris = [Triangle { v1: 0, v2: 1, v3: 2 }, Triangle { v1: 2, v2: 9, v3: 0 }];
    let data = write_binary_stl(&verts, &tris);
    assert_eq!(data.len(), 84 + 2 * 50);
    assert!(stl::is_binary(&data));
    let meta = stl::extract(&data).unwrap();
    assert_eq!(meta.triangle_count, 2);
    assert_eq!(meta.header, None);
    let zero = Point { x: 0, y: 0, z: 0 };
    match meta.coordinates {
        Coordinates::Bits(b) => assert_eq!(b, vec![p(1), p(20), p(300), p(300), zero, p(1)]),
        Coordinates::Words(_) => panic!("a binary file has no words"),
    }
}

#[test]
fn joined_meshes_keep_their_own_vertices() {
    let obj1 = make_obj_xml_id(1, 1.0, 2.0, 3.0);
    let obj2 = make_obj_xml_id(2, 4.0, 5.0, 6.0);
    let data = make_bambu_3mf(&[(1, "", &obj1), (2, "", &obj2)]);
    let g = geometry(&data).unwrap();
    let count: usize = g.meshes.iter().map(|m| m.vertices.len()).sum();
    assert_eq!(count, 8);
    assert_eq!(
        g.triangles,
        vec![
            Triangle { v1: 0, v2: 1, v3: 2 },
            Triangle { v1: 0, v2: 1, v3: 3 },
            Triangle { v1: 4, v2: 5, v3: 6 },
            Triangle { v1: 4, v2: 5, v3: 7 },
        ]
    );
}

#[test]
fn transforms_need_twelve_numbers() {
    let t = Some(" 1 0\t0 x 2".to_string());
    assert_eq!(split_transform(&t), vec!["1", "0", "0", "x", "2"]);
    assert!(split_transform(&None).is_empty());
    let identity = vec![ONE, 0, 0, 0, ONE, 0, 0, 0, ONE, 0, 0, 0];
    assert_eq!(read_matrix(&[]), identity);
    assert_eq!(read_matrix(&[Some(5); 13]), identity);
    let mut twelve = vec![Some(7); 12];
    twelve.insert(3, None);
    assert_eq!(read_matrix(&twelve), vec![7; 12]);
    assert_eq!(ONE, 1.0f32.to_bits());
}

fn nested(depth: usize) -> String {
    format!("{}{}", "<a>".repeat(depth), "</a>".repeat(depth))
}

#[test]
fn nesting_is_measured() {
    assert!(nests_at_most("", 0));
    assert!(nests_at_most("<a/>", 1) && !nests_at_most("<a/>", 0));
    assert!(nests_at_most(&nested(7), 7) && !nests_at_most(&nested(7), 6));
    assert!(nests_at_most(&"<a/>".repeat(9), 1));
    assert!(nests_at_most(&"<a></a >".repeat(9), 1));
    assert!(nests_at_most("<a><!-- <b><b> - -- <b> --></a>", 1));
    assert!(nests_at_most("<a><![CDATA[<b><b>]] ]>]]]></a>", 1));
    assert!(nests_at_most("<?xml version='1.0'?><a><?x <b><b> ??></a>", 1));
    assert!(nests_at_most("<a x='<b>\"' y=\"/><b>'\"/><c></c>", 1));
    assert!(!nests_at_most("<!-- --><a><![CDATA[]]><b>", 1));
}

#[test]
fn documents_nest_within_bounds() {
    assert_eq!(read_xml(&nested(MAX_NESTING)).unwrap().len(), MAX_NESTING + 1);
    assert!(read_xml(&nested(MAX_NESTING + 1)).is_none());
    assert!(read_xml(&"<a>".repeat(100_000)).is_none());
    assert!(read_xml("<a>").is_none());
}

#[test]
fn files_that_nest_too_deep_are_refused() {
    let deep = nested(100_000);
    let data = make_archive(&[("3D/3dmodel.model", deep.as_bytes())]);
    assert!(matches!(extract(&data), Err(ThreeMfError::InvalidXml)));
    assert!(matches!(geometry(&data), Err(ThreeMfError::InvalidXml)));
}

#[test]
fn files_that_no_component_names_are_not_read() {
    let mut texts = vec![
        ModelText { key: "3d/3dmodel.model".to_string(), text: make_obj_xml(1.0, 2.0, 3.0) },
        ModelText { key: "3d/objects/deep.model".to_string(), text: nested(100_000) },
        ModelText { key: "3d/objects/broken.model".to_string(), text: "<".to_string() },
    ];
    let g = read_models(&texts).ok().unwrap();
    assert!(!g.triangles.is_empty());
    texts.remove(0);
    texts[0].text = "<model/>".to_string();
    assert!(matches!(read_models(&texts), Err(ThreeMfError::NoGeometry)));
    assert!(matches!(read_models(&[]), Err(ThreeMfError::NoModel)));
}

#[test]
fn clean_text_stays_as_it_is() {
    for s in ["<p>Hello   <b>world</b></p>", "a &amp; b", "x > y", " \n "] {
        let once = clean_html(s);
        assert_eq!(clean_html(&once), once);
    }
    // what was decoded to a tag is one
    assert_eq!(clean_html(&clean_html("&lt;b&gt;x")), "x");
}
