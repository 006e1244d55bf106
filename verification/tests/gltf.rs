//! Binary glTF files.

use brush_mesh::bounds::bbox;
use brush_mesh::float::F32;
use brush_mesh::gltf::document::find_views;
use brush_mesh::gltf::{pad4, read_glb, write_glb, GlbError, Texture};
use brush_mesh::mesh::{Mesh, Vec3};

fn f(x: f32) -> F32 {
    F32::from_bits(x.to_bits())
}

fn vec3(x: f32, y: f32, z: f32) -> Vec3 {
    Vec3 { x: f(x), y: f(y), z: f(z) }
}

fn number(x: F32) -> serde_json::Value {
    serde_json::Value::from(f32::from_bits(x.bits))
}

fn parse(text: &[u8]) -> serde_json::Value {
    match serde_json::from_slice(text) {
        Ok(v) => v,
        Err(e) => panic!("{e:?}"),
    }
}

fn triangle() -> Mesh {
    Mesh {
        vertices: vec![vec3(0.0, 0.0, 0.0), vec3(1.0, 0.0, 0.0), vec3(0.0, 1.0, 0.0)],
        faces: vec![[0, 1, 2]],
    }
}

fn texture() -> Texture {
    Texture {
        width: 2,
        height: 2,
        rgba: vec![255; 16],
        uvs: vec![[f(0.0), f(0.0)], [f(1.0), f(0.0)], [f(0.0), f(1.0)]],
    }
}

fn bits(v: &Vec3) -> [u32; 3] {
    [v.x.bits, v.y.bits, v.z.bits]
}

#[test]
fn glb_roundtrip() {
    let mesh = triangle();
    let tex = texture();
    let file = match write_glb(&mesh, &tex, number) {
        Ok(file) => file,
        Err(e) => panic!("{e:?}"),
    };
    let (back, btex) = match read_glb(&file) {
        Ok(r) => r,
        Err(e) => panic!("{e:?}"),
    };
    let want: Vec<[u32; 3]> = mesh.vertices.iter().map(bits).collect();
    let got: Vec<[u32; 3]> = back.vertices.iter().map(bits).collect();
    assert_eq!(got, want);
    assert_eq!(back.faces, mesh.faces);
    let uv = |t: &Texture| -> Vec<[u32; 2]> {
        t.uvs.iter().map(|u| [u[0].bits, u[1].bits]).collect()
    };
    assert_eq!(uv(&btex), uv(&tex));
    assert_eq!((btex.width, btex.height), (2, 2));
    assert_eq!(btex.rgba, tex.rgba);
}

#[test]
fn files_begin_with_their_header() {
    let file = match write_glb(&triangle(), &texture(), number) {
        Ok(file) => file,
        Err(e) => panic!("{e:?}"),
    };
    assert_eq!(&file[0..4], b"glTF");
    assert_eq!(&file[4..8], &[2, 0, 0, 0]);
    let total = u32::from_le_bytes([file[8], file[9], file[10], file[11]]) as usize;
    assert_eq!(total, file.len());
    let json_len = u32::from_le_bytes([file[12], file[13], file[14], file[15]]) as usize;
    assert_eq!(&file[16..20], b"JSON");
    assert_eq!(json_len % 4, 0);
    let at = 20 + json_len;
    assert_eq!(&file[at + 4..at + 8], b"BIN\0");
    // The indices of the one face come first in the binary chunk.
    assert_eq!(&file[at + 8..at + 20], &[0, 0, 0, 0, 1, 0, 0, 0, 2, 0, 0, 0]);
    // The image is a PNG, not the raw texels.
    assert!(file.windows(4).any(|w| w == b"\x89PNG"));
}

#[test]
fn documents_describe_the_scene() {
    let file = match write_glb(&triangle(), &texture(), number) {
        Ok(file) => file,
        Err(e) => panic!("{e:?}"),
    };
    let json_len = u32::from_le_bytes([file[12], file[13], file[14], file[15]]) as usize;
    let total = file.len() - 28 - json_len;
    let png = total - 72 - (total - 72) % 4;
    let doc = parse(&file[20..20 + json_len]);
    let png_len = match doc["bufferViews"][3]["byteLength"].as_u64() {
        Some(n) => n as usize,
        None => panic!("no image"),
    };
    assert!(png_len <= png && png_len + 3 >= total - 72);
    let want = format!(
        "{{\"asset\":{{\"version\":\"2.0\",\"generator\":\"brush\"}},\
         \"extensionsUsed\":[\"KHR_materials_unlit\"],\"scene\":0,\
         \"scenes\":[{{\"nodes\":[0]}}],\"nodes\":[{{\"mesh\":0}}],\
         \"meshes\":[{{\"primitives\":[{{\"attributes\":{{\"POSITION\":1,\"TEXCOORD_0\":2}},\
         \"indices\":0,\"material\":0}}]}}],\
         \"materials\":[{{\"pbrMetallicRoughness\":{{\"baseColorTexture\":{{\"index\":0}},\
         \"metallicFactor\":0.0,\"roughnessFactor\":1.0}},\
         \"extensions\":{{\"KHR_materials_unlit\":{{}}}},\"doubleSided\":true}}],\
         \"textures\":[{{\"source\":0,\"sampler\":0}}],\
         \"samplers\":[{{\"magFilter\":9729,\"minFilter\":9987,\"wrapS\":33071,\"wrapT\":33071}}],\
         \"images\":[{{\"bufferView\":3,\"mimeType\":\"image/png\"}}],\
         \"buffers\":[{{\"byteLength\":{total}}}],\
         \"bufferViews\":[{{\"buffer\":0,\"byteOffset\":0,\"byteLength\":12,\"target\":34963}},\
         {{\"buffer\":0,\"byteOffset\":12,\"byteLength\":36,\"target\":34962}},\
         {{\"buffer\":0,\"byteOffset\":48,\"byteLength\":24,\"target\":34962}},\
         {{\"buffer\":0,\"byteOffset\":72,\"byteLength\":{png_len}}}],\
         \"accessors\":[{{\"bufferView\":0,\"componentType\":5125,\"count\":3,\"type\":\"SCALAR\"}},\
         {{\"bufferView\":1,\"componentType\":5126,\"count\":3,\"type\":\"VEC3\",\
         \"min\":[0.0,0.0,0.0],\"max\":[1.0,1.0,0.0]}},\
         {{\"bufferView\":2,\"componentType\":5126,\"count\":3,\"type\":\"VEC2\"}}]}}"
    );
    assert_eq!(doc, parse(want.as_bytes()));
}

#[test]
fn views_are_found_in_documents() {
    let doc = parse(b"{\"bufferViews\":[{\"byteOffset\":3,\"byteLength\":4},{\"byteLength\":-1},7]}");
    assert_eq!(
        find_views(&doc),
        Some(vec![(Some(3), Some(4)), (None, None), (None, None)])
    );
    assert_eq!(find_views(&parse(b"{\"bufferViews\":{}}")), None);
    assert_eq!(find_views(&parse(b"[1]")), None);
}

/// Without vertices the bounding box is empty, which JSON has no numbers for.
#[test]
fn empty_meshes_come_back() {
    let mesh = Mesh { vertices: vec![], faces: vec![] };
    let tex = Texture { width: 1, height: 1, rgba: vec![1, 2, 3, 4], uvs: vec![] };
    let back = match write_glb(&mesh, &tex, number) {
        Ok(file) => read_glb(&file),
        Err(e) => panic!("{e:?}"),
    };
    match back {
        Ok((m, t)) => {
            assert!(m.vertices.is_empty() && m.faces.is_empty());
            assert_eq!(t.rgba, vec![1, 2, 3, 4]);
        }
        Err(e) => panic!("{e:?}"),
    }
}

#[test]
fn short_atlases_are_refused() {
    let mut tex = texture();
    tex.rgba.pop();
    assert!(matches!(write_glb(&triangle(), &tex, number), Err(GlbError::AtlasSize)));
}

#[test]
fn empty_atlases_cannot_be_encoded() {
    let tex = Texture { width: 0, height: 0, rgba: vec![], uvs: vec![] };
    assert!(matches!(write_glb(&triangle(), &tex, number), Err(GlbError::Encode)));
}

#[test]
fn other_files_are_malformed() {
    assert!(matches!(read_glb(b"glTF"), Err(GlbError::Malformed)));
    assert!(matches!(read_glb(&[0u8; 64]), Err(GlbError::Malformed)));
}

fn framed(json: &[u8], bin: &[u8]) -> Vec<u8> {
    let mut file = b"glTF\x02\0\0\0".to_vec();
    file.extend_from_slice(&((28 + json.len() + bin.len()) as u32).to_le_bytes());
    file.extend_from_slice(&(json.len() as u32).to_le_bytes());
    file.extend_from_slice(b"JSON");
    file.extend_from_slice(json);
    file.extend_from_slice(&(bin.len() as u32).to_le_bytes());
    file.extend_from_slice(b"BIN\0");
    file.extend_from_slice(bin);
    file
}

#[test]
fn broken_json_is_reported() {
    assert!(matches!(read_glb(&framed(b"{{{{", b"")), Err(GlbError::Json)));
    assert!(matches!(read_glb(&framed(b"{}  ", b"")), Err(GlbError::Malformed)));
}

#[test]
fn missing_views_are_malformed() {
    let short = b"{\"bufferViews\":[{\"byteLength\":12}]}";
    assert!(matches!(read_glb(&framed(short, &[0; 16])), Err(GlbError::Malformed)));
    let outside = b"{\"bufferViews\":[{\"byteLength\":12},{\"byteLength\":99},{\"byteLength\":0},{\"byteLength\":0}]}";
    assert!(matches!(read_glb(&framed(outside, &[0; 16])), Err(GlbError::Malformed)));
}

#[test]
fn broken_images_are_reported() {
    let views = b"{\"bufferViews\":[{\"byteLength\":12},{\"byteLength\":0},{\"byteLength\":0},{\"byteLength\":4}]}";
    assert!(matches!(read_glb(&framed(views, &[0; 16])), Err(GlbError::Decode)));
}

#[test]
fn padding_fills_to_four() {
    let mut v = vec![1u8, 2, 3, 4, 5];
    pad4(&mut v, 9);
    assert_eq!(v, vec![1, 2, 3, 4, 5, 9, 9, 9]);
    pad4(&mut v, 7);
    assert_eq!(v.len(), 8);
}

#[test]
fn position_bounds_leave_nan_out() {
    let points = vec![vec3(1.0, -2.0, 0.5), vec3(f32::NAN, 3.0, -0.5), vec3(-1.0, 0.0, 0.0)];
    let (lo, hi) = bbox(&points);
    assert_eq!(bits(&lo), bits(&vec3(-1.0, -2.0, -0.5)));
    assert_eq!(bits(&hi), bits(&vec3(1.0, 3.0, 0.5)));
    let (lo, hi) = bbox(&vec![]);
    assert_eq!(lo.x.bits, f32::INFINITY.to_bits());
    assert_eq!(hi.x.bits, f32::NEG_INFINITY.to_bits());
}
