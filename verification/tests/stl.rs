use org3d::bounds::{Bounds, Corner};
use org3d::formats::stl::{
    extent, extract, extract_binary, is_binary, vertex_point, Coordinates, StlError, StlMeta,
};

fn make_binary_stl(header_str: &str, tris: &[[[f32; 3]; 4]]) -> Vec<u8> {
    let mut buf = vec![0u8; 80];
    let hb = header_str.as_bytes();
    buf[..hb.len().min(80)].copy_from_slice(&hb[..hb.len().min(80)]);
    buf.extend_from_slice(&(tris.len() as u32).to_le_bytes());
    for tri in tris {
        for v3 in tri {
            for &f in v3 {
                buf.extend_from_slice(&f.to_le_bytes());
            }
        }
        buf.extend_from_slice(&[0u8, 0u8]);
    }
    buf
}

fn single(bits: u32) -> u64 {
    (f32::from_bits(bits) as f64).to_bits()
}

fn corners(meta: &StlMeta) -> Vec<Corner> {
    match &meta.coordinates {
        Coordinates::Bits(points) => points
            .iter()
            .map(|p| Corner { x: single(p.x), y: single(p.y), z: single(p.z) })
            .collect(),
        Coordinates::Words(lines) => lines
            .iter()
            .filter_map(|words| {
                let numbers: Vec<Option<u64>> =
                    words.iter().map(|w| w.parse::<f64>().ok().map(f64::to_bits)).collect();
                vertex_point(&numbers)
            })
            .collect(),
    }
}

fn size(b: &Bounds) -> [f64; 3] {
    [
        f64::from_bits(b.high.x) - f64::from_bits(b.low.x),
        f64::from_bits(b.high.y) - f64::from_bits(b.low.y),
        f64::from_bits(b.high.z) - f64::from_bits(b.low.z),
    ]
}

fn dims(meta: &StlMeta) -> Option<[f64; 3]> {
    extent(meta.triangle_count, &corners(meta)).map(|b| size(&b))
}

#[test]
fn test_binary_triangle_count_and_bbox() {
    let tris = [
        [[0.0f32, 0.0, 1.0], [0.0, 0.0, 0.0], [10.0, 0.0, 0.0], [0.0, 20.0, 0.0]],
        [[0.0f32, 0.0, 1.0], [10.0, 0.0, 0.0], [10.0, 0.0, 5.0], [0.0, 20.0, 0.0]],
    ];
    let data = make_binary_stl("", &tris);
    let meta = extract(&data).unwrap();
    let d = dims(&meta).unwrap();

    assert_eq!(meta.triangle_count, 2);
    assert!((d[0] - 10.0).abs() < 0.001, "x dim should be 10");
    assert!((d[1] - 20.0).abs() < 0.001, "y dim should be 20");
    assert!((d[2] - 5.0).abs() < 0.001, "z dim should be 5");
    assert!(meta.name.is_none());
}

#[test]
fn test_binary_header_string() {
    let data = make_binary_stl("PrusaSlicer 2.7", &[[[0.0f32; 3]; 4]]);
    let meta = extract(&data).unwrap();

    assert_eq!(meta.header.as_deref(), Some("PrusaSlicer 2.7"));
}

#[test]
fn test_ascii_parse() {
    let stl = b"solid my_model\n\
        facet normal 0 0 1\n  outer loop\n\
          vertex 0 0 0\n    vertex 5 0 0\n    vertex 0 8 0\n  endloop\nendfacet\n\
        endsolid my_model\n";
    let meta = extract(stl).unwrap();
    let d = dims(&meta).unwrap();

    assert_eq!(meta.triangle_count, 1);
    assert_eq!(meta.name.as_deref(), Some("my_model"));
    assert!((d[0] - 5.0).abs() < 0.001);
    assert!((d[1] - 8.0).abs() < 0.001);
    assert!(meta.header.is_none());
}

#[test]
fn test_ascii_unnamed_solid() {
    let stl = b"solid\nfacet normal 0 0 1\n  outer loop\n\
        vertex 0 0 0\n    vertex 1 0 0\n    vertex 0 1 0\n  endloop\nendfacet\nendsolid\n";
    let meta = extract(stl).unwrap();

    assert_eq!(meta.triangle_count, 1);
    assert!(meta.name.is_none(), "empty solid name should not be stored");
}

#[test]
fn test_binary_detection_by_size() {
    // the size is that of a binary file, whatever the file starts with
    let mut header = [0u8; 80];
    header[..5].copy_from_slice(b"solid");
    let mut data = header.to_vec();
    data.extend_from_slice(&1u32.to_le_bytes());
    data.extend_from_slice(&[0u8; 50]);
    let meta = extract(&data).unwrap();

    assert_eq!(meta.triangle_count, 1);
    assert!(meta.name.is_none(), "binary STL should not have a solid name");
}

#[test]
fn short_files_are_text() {
    assert!(!is_binary(b""));
    assert!(!is_binary(&[1u8; 83]));
    assert!(is_binary(&[1u8; 84]));
    let mut text = b"solid".to_vec();
    text.extend_from_slice(&[b' '; 200]);
    assert!(!is_binary(&text));
}

#[test]
fn binary_files_have_a_least_size() {
    assert!(matches!(extract_binary(&[0u8; 83]), Err(StlError::TooShort)));
    let meta = extract_binary(&[0u8; 84]).unwrap();
    assert_eq!(meta.triangle_count, 0);
    assert!(dims(&meta).is_none());
    assert!(meta.header.is_none());
}

#[test]
fn cut_binary_files_give_what_they_hold() {
    let tri = [[0.0f32, 0.0, 1.0], [1.0, 2.0, 3.0], [4.0, 5.0, 6.0], [7.0, 8.0, 9.0]];
    let mut data = make_binary_stl("x", &[tri, tri]);
    data.truncate(84 + 50 + 20);
    let meta = extract(&data).unwrap();
    assert_eq!(meta.triangle_count, 2);
    assert_eq!(corners(&meta).len(), 3);
    assert_eq!(dims(&meta), Some([6.0, 6.0, 6.0]));
}

#[test]
fn vertex_lines_need_three_numbers() {
    let stl = b"solid a b\nfacet normal 0 0 1\nvertex 1 2\nvertex 1 2 3 4\nvertex x 1 2 3\n vertex 7 8 9\r\n";
    let meta = extract(stl).unwrap();
    assert_eq!(meta.name.as_deref(), Some("a b"));
    let c = corners(&meta);
    assert_eq!(c.len(), 2);
    assert_eq!(c[0], Corner { x: 1.0f64.to_bits(), y: 2.0f64.to_bits(), z: 3.0f64.to_bits() });
    assert_eq!(c[1], Corner { x: 7.0f64.to_bits(), y: 8.0f64.to_bits(), z: 9.0f64.to_bits() });
}

#[test]
fn only_the_first_line_names_the_solid() {
    let meta = extract(b"\nsolid late\nfacet normal 1 1 1\n").unwrap();
    assert!(meta.name.is_none());
    assert_eq!(meta.triangle_count, 1);
    // a facet without vertices has the box of no points
    assert_eq!(dims(&meta), Some([f64::NEG_INFINITY; 3]));
}

#[test]
fn bytes_that_are_no_text_have_no_triangles() {
    let meta = extract(b"solid \xff\nfacet normal 0 0 1\n").unwrap();
    assert_eq!(meta.triangle_count, 0);
    assert!(meta.name.is_none());
    assert!(dims(&meta).is_none());
}

#[test]
fn headers_are_trimmed() {
    let data = make_binary_stl("  made by hand \t", &[[[0.0f32; 3]; 4]]);
    assert_eq!(extract(&data).unwrap().header.as_deref(), Some("made by hand"));
    let mut bad = make_binary_stl("x", &[[[0.0f32; 3]; 4]]);
    bad[3] = 0xff;
    assert!(extract(&bad).unwrap().header.is_none());
}
