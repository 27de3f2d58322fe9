use square_wheel::triangle_model_md3::{load_md3_parts, Md3LoadError};

fn put_u32(b: &mut Vec<u8>, at: usize, v: u32) {
    b[at .. at + 4].copy_from_slice(&v.to_le_bytes());
}

fn put_i16(b: &mut Vec<u8>, at: usize, v: i16) {
    b[at .. at + 2].copy_from_slice(&v.to_le_bytes());
}

/// A model with one frame record, a mesh of one triangle over two vertices in two frames, and a
/// second mesh header without the identifier.
fn sample_md3() -> Vec<u8> {
    let mut b = vec![0u8; 508];
    b[0 .. 4].copy_from_slice(b"IDP3");
    put_u32(&mut b, 4, 15);
    put_u32(&mut b, 76, 1); // frames
    put_u32(&mut b, 80, 0); // tags
    put_u32(&mut b, 84, 2); // meshes
    put_u32(&mut b, 92, 108); // frame records
    put_u32(&mut b, 96, 164); // tags
    put_u32(&mut b, 100, 164); // meshes
    let m = 164;
    b[m .. m + 4].copy_from_slice(b"IDP3");
    put_u32(&mut b, m + 72, 2); // frames
    put_u32(&mut b, m + 76, 1); // shaders
    put_u32(&mut b, m + 80, 2); // vertices
    put_u32(&mut b, m + 84, 1); // triangles
    put_u32(&mut b, m + 88, 108);
    put_u32(&mut b, m + 92, 120);
    put_u32(&mut b, m + 96, 188);
    put_u32(&mut b, m + 100, 204);
    put_u32(&mut b, m + 104, 236);
    put_u32(&mut b, m + 108, 0);
    put_u32(&mut b, m + 112, 1);
    put_u32(&mut b, m + 116, 0x10001);
    for (k, f) in [0.5f32, 0.25, 1.0, 0.0].iter().enumerate() {
        put_u32(&mut b, m + 188 + 4 * k, f.to_bits());
    }
    for k in 0 .. 4 {
        let at = m + 204 + 8 * k;
        put_i16(&mut b, at, 64 * k as i16);
        put_i16(&mut b, at + 2, -64);
        put_i16(&mut b, at + 4, 7);
        put_i16(&mut b, at + 6, 0x0102);
    }
    let second = m + 236;
    b[second .. second + 4].copy_from_slice(b"XXXX");
    put_u32(&mut b, second + 104, 108);
    b
}

#[test]
fn md3_mesh_is_read_and_foreign_mesh_passed_over() {
    let meshes = load_md3_parts(&sample_md3()).expect("valid model");
    assert_eq!(meshes.len(), 1);
    let mesh = &meshes[0];
    assert_eq!(mesh.num_frames, 2);
    assert_eq!(mesh.triangles, vec![[0u16, 1, 1]]);
    assert_eq!(mesh.tex_coords, vec![[0.5f32.to_bits(), 0.25f32.to_bits()], [1.0f32.to_bits(), 0]]);
    assert_eq!(mesh.vertices.len(), 4);
    for (k, v) in mesh.vertices.iter().enumerate() {
        assert_eq!(v.origin, [64 * k as i16, -64, 7]);
        assert_eq!(v.normal_pitch_yaw, 0x0102);
    }
}

#[test]
fn md3_mesh_list_stops_where_no_mesh_header_is_left() {
    let mut b = sample_md3();
    put_u32(&mut b, 84, 7);
    assert_eq!(load_md3_parts(&b).expect("valid model").len(), 1);
}

#[test]
fn md3_header_refusals() {
    let b = sample_md3();
    assert!(matches!(load_md3_parts(&b[.. 107].to_vec()), Err(Md3LoadError::NoHeader)));
    let mut not_md3 = b.clone();
    not_md3[3] = b'2';
    assert!(matches!(load_md3_parts(&not_md3), Err(Md3LoadError::NotMd3)));
    let mut other_version = b.clone();
    put_u32(&mut other_version, 4, 16);
    assert!(matches!(load_md3_parts(&other_version), Err(Md3LoadError::WrongVersion(16))));
}

#[test]
fn md3_parts_past_the_end_are_read_errors() {
    let b = sample_md3();
    assert!(matches!(load_md3_parts(&b[.. 399].to_vec()), Err(Md3LoadError::UnexpectedEof)));
    let mut many_frames = b.clone();
    put_u32(&mut many_frames, 76, 100);
    assert!(matches!(load_md3_parts(&many_frames), Err(Md3LoadError::UnexpectedEof)));
    let mut tags_past_end = b.clone();
    put_u32(&mut tags_past_end, 80, 1);
    put_u32(&mut tags_past_end, 96, 500);
    assert!(matches!(load_md3_parts(&tags_past_end), Err(Md3LoadError::UnexpectedEof)));
}
