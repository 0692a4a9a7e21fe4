use eui_client::mesh::{decode, encode, looks_like_mesh, MeshError, Vertex, ONE_BITS};

fn header(flags: u8, vc: u32, ic: u32) -> Vec<u8> {
    let mut out = b"EUIM".to_vec();
    out.push(1);
    out.push(flags);
    out.extend_from_slice(&vc.to_le_bytes());
    out.extend_from_slice(&ic.to_le_bytes());
    out
}

fn floats(out: &mut Vec<u8>, v: &[f32]) {
    for x in v {
        out.extend_from_slice(&x.to_le_bytes());
    }
}

fn triangle(flags: u8, indices: &[u32]) -> Vec<u8> {
    let mut out = header(flags, 3, indices.len() as u32);
    floats(&mut out, &[0.0, 0.0, 0.0, 1.0, 0.0, 0.0, 0.0, 1.0, 0.0]);
    if flags & 1 != 0 {
        floats(&mut out, &[0.0, 0.0, 1.0, 0.0, 0.0, 1.0, 0.0, 0.0, 1.0]);
    }
    if flags & 2 != 0 {
        floats(&mut out, &[0.0, 0.0, 1.0, 0.0, 0.0, 1.0]);
    }
    for i in indices {
        out.extend_from_slice(&i.to_le_bytes());
    }
    out
}

#[test]
fn a_mesh_is_known_by_its_first_bytes() {
    assert!(looks_like_mesh(b"EUIM\x01"));
    assert!(!looks_like_mesh(b"EUI"));
    assert!(!looks_like_mesh(b"EUIS\x01\x00"));
}

#[test]
fn a_triangle_decodes_whole() {
    let m = decode(&triangle(3, &[0, 1, 2])).unwrap();
    assert_eq!(m.vertices.len(), 3);
    assert_eq!(m.indices, vec![0, 1, 2]);
    assert_eq!(m.vertices[1].pos, [1.0f32.to_bits(), 0, 0]);
    assert_eq!(m.vertices[2].uv, [0, 1.0f32.to_bits()]);
    // Without normals, each vertex faces the camera.
    let m = decode(&triangle(0, &[0, 1, 2])).unwrap();
    assert_eq!(m.vertices[0].normal, [0, 0, ONE_BITS]);
    assert_eq!(m.vertices[0].uv, [0, 0]);
}

#[test]
fn each_rule_refuses_with_its_own_error() {
    assert_eq!(decode(b"EUIS\x01\x00"), Err(MeshError::Magic));
    assert_eq!(decode(b"EUIM\x02\x00"), Err(MeshError::Magic));
    assert_eq!(decode(b"EUIM\x01"), Err(MeshError::Magic));
    assert_eq!(decode(&header(4, 0, 0)), Err(MeshError::Flags(4)));
    assert_eq!(decode(&header(0, 65_537, 0)), Err(MeshError::TooBig));
    assert_eq!(decode(&header(0, 0, 196_611)), Err(MeshError::TooBig));
    assert_eq!(decode(&header(0, 3, 4)), Err(MeshError::NotTriangles(4)));
    let mut short = triangle(0, &[0, 1, 2]);
    short.pop();
    assert_eq!(decode(&short), Err(MeshError::Truncated));
    let mut nan = triangle(0, &[0, 1, 2]);
    nan[14..18].copy_from_slice(&f32::NAN.to_le_bytes());
    assert_eq!(decode(&nan), Err(MeshError::NotFinite));
    let mut inf = triangle(1, &[0, 1, 2]);
    let at = 14 + 36 + 4;
    inf[at..at + 4].copy_from_slice(&f32::INFINITY.to_le_bytes());
    assert_eq!(decode(&inf), Err(MeshError::NotFinite));
}

#[test]
fn an_index_past_the_vertices_is_the_one_no_driver_catches() {
    assert_eq!(decode(&triangle(0, &[0, 1, 3])), Err(MeshError::Index { at: 3, of: 3 }));
    // The first one out of range is the one named.
    assert_eq!(decode(&triangle(2, &[0, 7, 9])), Err(MeshError::Index { at: 7, of: 3 }));
    // An empty mesh is a mesh.
    assert_eq!(decode(&header(0, 0, 0)).unwrap().vertices.len(), 0);
}

#[test]
fn a_refusal_names_its_rule() {
    assert_eq!(MeshError::Flags(4).message(), "mesh flags 0x04 are not defined");
    assert_eq!(MeshError::Index { at: 9, of: 3 }.message(), "mesh index 9 is past its 3 vertices");
    assert_eq!(MeshError::NotTriangles(10).message(), "10 indices is not whole triangles");
}

#[test]
fn what_is_written_is_what_is_read() {
    let v = |x: f32, y: f32| Vertex { pos: [x.to_bits(), y.to_bits(), 0], normal: [0, 0, ONE_BITS], uv: [x.to_bits(), y.to_bits()] };
    let vertices = vec![v(0.0, 0.0), v(1.0, 0.0), v(0.0, 1.0), v(1.0, 1.0)];
    let indices = vec![0, 1, 2, 2, 1, 3];
    let bytes = encode(&vertices, &indices);
    assert_eq!(bytes.len(), 14 + 4 * vertices.len() * 8 + 4 * indices.len());
    assert_eq!(&bytes[..6], b"EUIM\x01\x03");
    let m = decode(&bytes).unwrap();
    assert_eq!(m.vertices, vertices);
    assert_eq!(m.indices, indices);
}
