use square_wheel::triangle_model_iqm::{
    check_text_offsets, first_mesh_names, get_text_str, load_iqm_parts, model_animations, model_bones, parse_iqm_header,
    vertex_bones, IqmHeaderError, IqmLoadError, IqmReadError,
};

fn put(bytes: &mut Vec<u8>, at: usize, v: u32) {
    if bytes.len() < at + 4 {
        bytes.resize(at + 4, 0);
    }
    bytes[at .. at + 4].copy_from_slice(&v.to_le_bytes());
}

fn header_field(bytes: &mut Vec<u8>, k: usize, v: u32) {
    put(bytes, 16 + 4 * k, v);
}

fn header_only() -> Vec<u8> {
    let mut b = vec![0u8; 124];
    b[.. 16].copy_from_slice(b"INTERQUAKEMODEL\0");
    header_field(&mut b, 0, 2);
    header_field(&mut b, 5, 1);
    b
}

/// A small model: one mesh of two vertices and one triangle, positions and blend indexes, one
/// joint, one pose and one looped animation.
fn sample_model() -> Vec<u8> {
    let mut b = header_only();
    b.extend_from_slice(b"\0mesh\0mat\0bone\0walk\0");
    header_field(&mut b, 3, 20);
    header_field(&mut b, 4, 124);
    header_field(&mut b, 6, 144);
    for (k, v) in [1u32, 6, 0, 2, 0, 1].iter().enumerate() {
        put(&mut b, 144 + 4 * k, *v);
    }
    header_field(&mut b, 10, 1);
    header_field(&mut b, 11, 168);
    for (k, v) in [0u32, 1, 70000].iter().enumerate() {
        put(&mut b, 168 + 4 * k, *v);
    }
    header_field(&mut b, 7, 2);
    header_field(&mut b, 8, 2);
    header_field(&mut b, 9, 180);
    for (k, v) in [0u32, 0, 7, 3, 220, 4, 0, 1, 4, 244].iter().enumerate() {
        put(&mut b, 180 + 4 * k, *v);
    }
    for k in 0 .. 6 {
        put(&mut b, 220 + 4 * k, k as u32 + 1);
    }
    b.resize(252, 0);
    b[244 .. 252].copy_from_slice(&[1, 2, 3, 4, 5, 6, 7, 8]);
    header_field(&mut b, 13, 1);
    header_field(&mut b, 14, 252);
    put(&mut b, 252, 10);
    put(&mut b, 256, u32::MAX);
    b.resize(300, 0);
    header_field(&mut b, 15, 1);
    header_field(&mut b, 16, 300);
    b.resize(388, 0);
    header_field(&mut b, 17, 1);
    header_field(&mut b, 18, 388);
    for (k, v) in [15u32, 0, 3, 0x41F0_0000, 1].iter().enumerate() {
        put(&mut b, 388 + 4 * k, *v);
    }
    b
}

#[test]
fn header_errors_come_in_order() {
    assert!(matches!(parse_iqm_header(&vec![0u8; 100]), Err(IqmHeaderError::NoHeader)));
    let mut b = header_only();
    b[0] = b'X';
    assert!(matches!(parse_iqm_header(&b), Err(IqmHeaderError::NotIqm)));
    let mut b = header_only();
    header_field(&mut b, 0, 1);
    assert!(matches!(parse_iqm_header(&b), Err(IqmHeaderError::WrongVersion(1))));
    let mut b = header_only();
    header_field(&mut b, 5, 0);
    assert!(matches!(parse_iqm_header(&b), Err(IqmHeaderError::NoMeshes)));
    let mut b = header_only();
    header_field(&mut b, 13, 1);
    assert!(matches!(parse_iqm_header(&b), Err(IqmHeaderError::JointsPosesMismatch(1, 0))));
    let h = parse_iqm_header(&header_only()).ok().unwrap();
    assert_eq!(h.version, 2);
    assert_eq!(h.num_meshes, 1);
}

#[test]
fn model_parts_are_read() {
    let p = load_iqm_parts(&sample_model()).ok().unwrap();
    assert_eq!(p.texts.len(), 20);
    assert_eq!(p.meshes.len(), 1);
    assert_eq!(p.meshes[0].num_vertexes, 2);
    assert_eq!(p.triangles, vec![[0u16, 1, 4464]]);
    assert_eq!(p.positions, vec![1, 2, 3, 4, 5, 6]);
    assert_eq!(p.tex_coords, vec![0, 0, 0, 0]);
    assert_eq!(p.normals, vec![0; 6]);
    assert_eq!(p.blend_indexes, vec![1, 2, 3, 4, 5, 6, 7, 8]);
    assert_eq!(p.blend_weights, vec![0; 8]);
    assert_eq!(p.joints.len(), 12);
    assert_eq!(p.poses.len(), 22);
    assert_eq!(p.anims, vec![15, 0, 3, 0x41F0_0000, 1]);
    assert!(p.bounds.is_empty());
}

#[test]
fn model_names_bones_and_animations() {
    let p = load_iqm_parts(&sample_model()).ok().unwrap();
    assert!(check_text_offsets(&p));
    let (mesh, material) = first_mesh_names(&p);
    assert_eq!(mesh, "mesh");
    assert_eq!(material, "mat");
    let bones = model_bones(&p);
    assert_eq!(bones.len(), 1);
    assert_eq!(bones[0].name, "bone");
    assert_eq!(bones[0].parent, u32::MAX);
    let anims = model_animations(&p);
    assert_eq!(anims.len(), 1);
    assert_eq!(anims[0].name, "walk");
    assert_eq!(anims[0].num_frames, 3);
    assert!(anims[0].looped);
    assert_eq!(f32::from_bits(anims[0].framerate_word), 30.0);
    let vb = vertex_bones(&p);
    assert_eq!(vb[1][2].bone_index, 7);
    assert_eq!(vb[1][2].weight, 0);
}

#[test]
fn part_past_end_of_file_is_refused() {
    let mut b = sample_model();
    header_field(&mut b, 11, 400);
    assert!(matches!(load_iqm_parts(&b), Err(IqmLoadError::Read(IqmReadError::UnexpectedEof))));
    let mut b = sample_model();
    put(&mut b, 180 + 16, 404);
    assert!(matches!(load_iqm_parts(&b), Err(IqmLoadError::Read(IqmReadError::UnexpectedEof))));
    let mut b = header_only();
    header_field(&mut b, 0, 3);
    assert!(matches!(load_iqm_parts(&b), Err(IqmLoadError::Header(IqmHeaderError::WrongVersion(3)))));
}

#[test]
fn text_lookup_stops_at_terminator_and_refuses_bad_utf8() {
    let texts = b"\0abc\0\xff\xfe\0tail".to_vec();
    assert_eq!(get_text_str(&texts, 1), "abc");
    assert_eq!(get_text_str(&texts, 0), "");
    assert_eq!(get_text_str(&texts, 5), "");
    assert_eq!(get_text_str(&texts, 8), "tail");
    assert_eq!(get_text_str(&texts, texts.len() as u32), "");
}

#[test]
fn name_offset_past_texts_is_detected() {
    let mut b = sample_model();
    put(&mut b, 252, 100);
    let p = load_iqm_parts(&b).ok().unwrap();
    assert!(!check_text_offsets(&p));
}
