//! Self-contained binary glTF (GLB): positions, UVs and indices, one embedded PNG
//! atlas, one unlit material.
//!
//! The file is a header and two chunks: a JSON document that says where in the second
//! chunk each part lies, and the parts themselves.

use crate::bounds;
use crate::bytes;
use crate::float::F32;
use crate::json::{self, Json};
use crate::mesh::{self, Mesh, Vec3};
use document::Counts;
use serde_json::Value;
use vstd::prelude::*;

pub mod document;

verus! {

/// A baked texture atlas: RGBA pixels, and one UV per mesh vertex.
#[derive(Debug)]
pub struct Texture {
    pub width: u32,
    pub height: u32,
    pub rgba: Vec<u8>,
    pub uvs: Vec<[F32; 2]>,
}

/// Why a GLB could not be written or read.
#[derive(Clone, Copy, Debug, PartialEq, Eq, Structural)]
pub enum GlbError {
    /// The atlas has fewer bytes than its size asks for.
    AtlasSize,
    /// The atlas could not be encoded.
    Encode,
    /// The file does not have the expected shape.
    Malformed,
    /// The JSON document could not be written or read.
    Json,
    /// The image could not be decoded.
    Decode,
    /// The file would not fit the 32-bit sizes of the format.
    TooLarge,
}

/// A part of the binary chunk.
#[derive(Clone, Copy, Debug, PartialEq, Eq, Structural)]
pub struct BufferView {
    pub offset: usize,
    pub length: usize,
}

/// Where the parts of the binary chunk lie, and how long it is.
#[derive(Clone, Copy, Debug, PartialEq, Eq, Structural)]
pub struct GlbLayout {
    pub indices: BufferView,
    pub positions: BufferView,
    pub uvs: BufferView,
    pub image: BufferView,
    pub total: usize,
}

/// The size of the images that the decoder takes by default, in bytes.
pub const DECODE_LIMIT: u64 = 0x2000_0000;

/// `n` rounded up to a multiple of four.
pub open spec fn padded_len(n: int) -> int {
    (n + 3) / 4 * 4
}

/// `s` filled up with `fill` to a multiple of four bytes.
pub open spec fn padded(s: Seq<u8>, fill: u8) -> Seq<u8> {
    s + Seq::new((padded_len(s.len() as int) - s.len()) as nat, |i: int| fill)
}

/// Fill `v` up with `fill` to a multiple of four bytes.
pub fn pad4(v: &mut Vec<u8>, fill: u8)
    ensures
        final(v)@ == padded(old(v)@, fill),
{
    let ghost before = v@;
    while v.len() % 4 != 0
        invariant
            v@.len() >= before.len(),
            v@.len() <= padded_len(before.len() as int),
            v@ == before + Seq::new((v@.len() - before.len()) as nat, |i: int| fill),
        decreases padded_len(before.len() as int) - v@.len(),
    {
        v.push(fill);
        assert(v@ =~= before + Seq::new((v@.len() - before.len()) as nat, |i: int| fill));
    }
}

/// The corners of the faces, one after the other.
pub open spec fn index_words(faces: Seq<[u32; 3]>) -> Seq<u32> {
    Seq::new(3 * faces.len(), |i: int| faces[i / 3][i % 3])
}

pub open spec fn coordinate(v: Vec3, k: int) -> F32 {
    if k == 0 {
        v.x
    } else if k == 1 {
        v.y
    } else {
        v.z
    }
}

/// The coordinates of the vertices, one after the other.
pub open spec fn position_words(vertices: Seq<Vec3>) -> Seq<u32> {
    Seq::new(3 * vertices.len(), |i: int| coordinate(vertices[i / 3], i % 3).bits)
}

/// The UV coordinates, one after the other.
pub open spec fn uv_words(uvs: Seq<[F32; 2]>) -> Seq<u32> {
    Seq::new(2 * uvs.len(), |i: int| uvs[i / 2][i % 2].bits)
}

/// The binary chunk.
pub open spec fn bin_chunk(
    vertices: Seq<Vec3>,
    faces: Seq<[u32; 3]>,
    uvs: Seq<[F32; 2]>,
    image: Seq<u8>,
) -> Seq<u8> {
    padded(
        bytes::to_bytes(index_words(faces)) + bytes::to_bytes(position_words(vertices))
            + bytes::to_bytes(uv_words(uvs)) + image,
        0,
    )
}

/// The layout of the binary chunk of a mesh of `nv` vertices, `nf` faces and `nu` UVs with
/// an image of `ni` bytes.
pub open spec fn layout_of(nv: int, nf: int, nu: int, ni: int) -> GlbLayout {
    GlbLayout {
        indices: BufferView { offset: 0, length: (12 * nf) as usize },
        positions: BufferView { offset: (12 * nf) as usize, length: (12 * nv) as usize },
        uvs: BufferView { offset: (12 * nf + 12 * nv) as usize, length: (8 * nu) as usize },
        image: BufferView { offset: (12 * nf + 12 * nv + 8 * nu) as usize, length: ni as usize },
        total: padded_len(12 * nf + 12 * nv + 8 * nu + ni) as usize,
    }
}

pub open spec fn chunk_size(nv: int, nf: int, nu: int, ni: int) -> int {
    padded_len(12 * nf + 12 * nv + 8 * nu + ni)
}

/// "glTF" as a word.
pub const MAGIC: u32 = 0x4654_6c67;

/// "JSON" as a word.
pub const JSON_CHUNK: u32 = 0x4e4f_534a;

/// "BIN\\0" as a word.
pub const BIN_CHUNK: u32 = 0x004e_4942;

/// The file: header, JSON chunk, binary chunk.
pub open spec fn glb_file(json: Seq<u8>, bin: Seq<u8>) -> Seq<u8> {
    bytes::to_bytes(
        seq![
            MAGIC,
            2u32,
            (28 + json.len() + bin.len()) as u32,
            json.len() as u32,
            JSON_CHUNK,
        ],
    ) + json + bytes::to_bytes(seq![bin.len() as u32, BIN_CHUNK]) + bin
}

/// Write the parts of the binary chunk one after the other.
pub fn pack_bin(mesh: &Mesh, uvs: &Vec<[F32; 2]>, image: &Vec<u8>) -> (r: (Vec<u8>, GlbLayout))
    requires
        chunk_size(
            mesh.vertices@.len() as int,
            mesh.faces@.len() as int,
            uvs@.len() as int,
            image@.len() as int,
        ) <= u32::MAX,
    ensures
        r.0@ == bin_chunk(mesh.vertices@, mesh.faces@, uvs@, image@),
        r.1 == layout_of(
            mesh.vertices@.len() as int,
            mesh.faces@.len() as int,
            uvs@.len() as int,
            image@.len() as int,
        ),
{
    let ghost faces = mesh.faces@;
    let ghost vertices = mesh.vertices@;
    let mut bin: Vec<u8> = Vec::new();
    let ghost mut words: Seq<u32> = Seq::empty();
    assert(bin@ =~= bytes::to_bytes(words));
    for i in 0..mesh.faces.len()
        invariant
            faces == mesh.faces@,
            words == index_words(faces.take(i as int)),
            bin@ == bytes::to_bytes(words),
    {
        let f = mesh.faces[i];
        bytes::push_word(&mut bin, f[0]);
        bytes::push_word(&mut bin, f[1]);
        bytes::push_word(&mut bin, f[2]);
        proof {
            bytes::to_bytes_append(words, f[0]);
            bytes::to_bytes_append(words.push(f[0]), f[1]);
            bytes::to_bytes_append(words.push(f[0]).push(f[1]), f[2]);
            words = words.push(f[0]).push(f[1]).push(f[2]);
            assert(words =~= index_words(faces.take(i + 1)));
        }
    }
    assert(faces.take(faces.len() as int) =~= faces);
    let ghost part1 = bin@;
    let pos_off: usize = bin.len();
    proof {
        words = Seq::empty();
        assert(bin@ =~= part1 + bytes::to_bytes(words));
    }
    for i in 0..mesh.vertices.len()
        invariant
            vertices == mesh.vertices@,
            words == position_words(vertices.take(i as int)),
            bin@ == part1 + bytes::to_bytes(words),
    {
        let v = mesh.vertices[i];
        let ghost before = bin@;
        bytes::push_word(&mut bin, v.x.bits);
        bytes::push_word(&mut bin, v.y.bits);
        bytes::push_word(&mut bin, v.z.bits);
        proof {
            let (a, b, c) = (v.x.bits, v.y.bits, v.z.bits);
            bytes::to_bytes_append(words, a);
            bytes::to_bytes_append(words.push(a), b);
            bytes::to_bytes_append(words.push(a).push(b), c);
            let more = words.push(a).push(b).push(c);
            assert(bin@ =~= part1 + bytes::to_bytes(more));
            words = more;
            assert(words =~= position_words(vertices.take(i + 1)));
        }
    }
    assert(vertices.take(vertices.len() as int) =~= vertices);
    let ghost part2 = bin@;
    let uv_off: usize = bin.len();
    proof {
        words = Seq::empty();
        assert(bin@ =~= part2 + bytes::to_bytes(words));
    }
    for i in 0..uvs.len()
        invariant
            words == uv_words(uvs@.take(i as int)),
            bin@ == part2 + bytes::to_bytes(words),
    {
        let uv = uvs[i];
        bytes::push_word(&mut bin, uv[0].bits);
        bytes::push_word(&mut bin, uv[1].bits);
        proof {
            let (a, b) = (uv[0].bits, uv[1].bits);
            bytes::to_bytes_append(words, a);
            bytes::to_bytes_append(words.push(a), b);
            let more = words.push(a).push(b);
            assert(bin@ =~= part2 + bytes::to_bytes(more));
            words = more;
            assert(words =~= uv_words(uvs@.take(i + 1)));
        }
    }
    assert(uvs@.take(uvs@.len() as int) =~= uvs@);
    let ghost part3 = bin@;
    let png_off: usize = bin.len();
    for i in 0..image.len()
        invariant
            bin@ == part3 + image@.take(i as int),
    {
        bin.push(image[i]);
        assert(bin@ =~= part3 + image@.take(i + 1));
    }
    assert(image@.take(image@.len() as int) =~= image@);
    pad4(&mut bin, 0);
    assert(bin@.len() == chunk_size(
        vertices.len() as int,
        faces.len() as int,
        uvs@.len() as int,
        image@.len() as int,
    ));
    let layout = GlbLayout {
        indices: BufferView { offset: 0, length: pos_off },
        positions: BufferView { offset: pos_off, length: uv_off - pos_off },
        uvs: BufferView { offset: uv_off, length: png_off - uv_off },
        image: BufferView { offset: png_off, length: image.len() },
        total: bin.len(),
    };
    (bin, layout)
}

/// Put the two chunks into a file. The JSON document is filled up with blanks.
pub fn frame_glb(json: Vec<u8>, bin: &Vec<u8>) -> (file: Vec<u8>)
    requires
        28 + padded_len(json@.len() as int) + bin@.len() <= u32::MAX,
    ensures
        file@ == glb_file(padded(json@, 0x20), bin@),
{
    let mut json: Vec<u8> = json;
    pad4(&mut json, 0x20);
    let mut file: Vec<u8> = Vec::new();
    let total: usize = 28 + json.len() + bin.len();
    bytes::push_word(&mut file, MAGIC);
    bytes::push_word(&mut file, 2);
    bytes::push_word(&mut file, total as u32);
    bytes::push_word(&mut file, json.len() as u32);
    bytes::push_word(&mut file, JSON_CHUNK);
    let ghost head = file@;
    proof {
        let (a, b, c, d, e) = (MAGIC, 2u32, total as u32, json@.len() as u32, JSON_CHUNK);
        assert(head =~= bytes::to_bytes(seq![a, b, c, d, e]));
    }
    for i in 0..json.len()
        invariant
            file@ == head + json@.take(i as int),
    {
        file.push(json[i]);
        assert(file@ =~= head + json@.take(i + 1));
    }
    assert(json@.take(json@.len() as int) =~= json@);
    let ghost middle = file@;
    bytes::push_word(&mut file, bin.len() as u32);
    bytes::push_word(&mut file, BIN_CHUNK);
    proof {
        assert(file@ =~= middle + bytes::to_bytes(seq![bin@.len() as u32, BIN_CHUNK]));
    }
    let ghost head2 = file@;
    for i in 0..bin.len()
        invariant
            file@ == head2 + bin@.take(i as int),
    {
        file.push(bin[i]);
        assert(file@ =~= head2 + bin@.take(i + 1));
    }
    assert(bin@.take(bin@.len() as int) =~= bin@);
    file
}

/// The error of `image`, seen from outside only.
#[verifier::external_type_specification]
#[verifier::external_body]
pub struct ExImageError(image::ImageError);

/// The PNG file that `image` writes for an RGBA image, if it can write one.
pub uninterp spec fn png_encoded(width: u32, height: u32, rgba: Seq<u8>) -> Option<Seq<u8>>;

/// The width, height and RGBA pixels that `image` reads from a file, if it can read it.
pub uninterp spec fn image_decoded(file: Seq<u8>) -> Option<(u32, u32, Seq<u8>)>;

/// Number of bytes of an RGBA image.
pub open spec fn image_size(width: u32, height: u32) -> int {
    4 * (width * height)
}

/// Calls `image::RgbaImage::from_raw` and `write_to` with `image::ImageFormat::Png`. A file
/// that is written decodes to the pixels that went in, as long as the decoder's default
/// limit takes an image of that size; bytes beyond the size of the image are not written.
#[verifier::external_body]
fn encode_png(width: u32, height: u32, rgba: &Vec<u8>) -> (r: Result<Vec<u8>, image::ImageError>)
    requires
        image_size(width, height) <= rgba@.len(),
    ensures
        match r {
            Ok(file) => png_encoded(width, height, rgba@) == Some(file@) && (image_size(width, height)
                <= DECODE_LIMIT ==> image_decoded(file@) == Some(
                (width, height, rgba@.take(image_size(width, height))),
            )),
            Err(_) => png_encoded(width, height, rgba@) is None,
        },
{
    let pixels = image::RgbaImage::from_raw(width, height, rgba.clone()).unwrap();
    let mut file = Vec::new();
    pixels.write_to(&mut std::io::Cursor::new(&mut file), image::ImageFormat::Png)?;
    Ok(file)
}

/// Calls `image::load_from_memory` and `into_rgba8`.
#[verifier::external_body]
fn decode_image(file: &Vec<u8>) -> (r: Result<(u32, u32, Vec<u8>), image::ImageError>)
    ensures
        match r {
            Ok((width, height, rgba)) => image_decoded(file@) == Some((width, height, rgba@)),
            Err(_) => image_decoded(file@) is None,
        },
{
    let img = image::load_from_memory(file)?.into_rgba8();
    Ok((img.width(), img.height(), img.into_raw()))
}

/// The bytes of a buffer view: the offset is 0 if it is not given, and there is no part
/// without a length or beyond the end of the chunk.
pub open spec fn view_bytes(bin: Seq<u8>, view: (Option<u64>, Option<u64>)) -> Option<Seq<u8>> {
    let off = match view.0 {
        Some(off) => off as int,
        None => 0,
    };
    match view.1 {
        Some(len) => if off + len <= bin.len() {
            Some(bin.subrange(off, off + len))
        } else {
            None
        },
        None => None,
    }
}

/// The bytes of buffer view `i`.
pub open spec fn part_bytes(
    bin: Seq<u8>,
    views: Seq<(Option<u64>, Option<u64>)>,
    i: int,
) -> Option<Seq<u8>> {
    if i < views.len() {
        view_bytes(bin, views[i])
    } else {
        None
    }
}

/// The vertices that the words hold; up to two words at the end are left over.
pub open spec fn vertices_of(words: Seq<u32>) -> Seq<Vec3> {
    Seq::new(
        words.len() / 3,
        |i: int|
            Vec3 {
                x: F32 { bits: words[3 * i] },
                y: F32 { bits: words[3 * i + 1] },
                z: F32 { bits: words[3 * i + 2] },
            },
    )
}

/// The faces that the words hold.
pub open spec fn faces_of(words: Seq<u32>) -> Seq<[u32; 3]> {
    Seq::new(words.len() / 3, |i: int| [words[3 * i], words[3 * i + 1], words[3 * i + 2]])
}

/// The UVs that the words hold.
pub open spec fn uvs_of(words: Seq<u32>) -> Seq<[F32; 2]> {
    Seq::new(words.len() / 2, |i: int| [F32 { bits: words[2 * i] }, F32 { bits: words[2 * i + 1] }])
}

/// What the binary chunk holds, before the image is decoded.
pub struct GlbParts {
    pub mesh: Mesh,
    pub uvs: Vec<[F32; 2]>,
    pub image: Vec<u8>,
}

/// The bytes of `part`, if it lies within `bin`.
fn take_part(bin: &Vec<u8>, views: &Vec<(Option<u64>, Option<u64>)>, i: usize) -> (r: Option<Vec<u8>>)
    ensures
        match r {
            Some(b) => part_bytes(bin@, views@, i as int) == Some(b@),
            None => part_bytes(bin@, views@, i as int) is None,
        },
{
    if i >= views.len() {
        return None;
    }
    let (offset, length) = views[i];
    let off: u64 = match offset {
        Some(off) => off,
        None => 0,
    };
    let len: u64 = match length {
        Some(len) => len,
        None => {
            return None;
        },
    };
    if off as u128 + len as u128 > bin.len() as u128 {
        return None;
    }
    let mut out: Vec<u8> = Vec::new();
    let from: usize = off as usize;
    let count: usize = len as usize;
    for k in 0..count
        invariant
            from + count <= bin.len(),
            out@ == bin@.subrange(from as int, from + k),
    {
        out.push(bin[from + k]);
        assert(out@ =~= bin@.subrange(from as int, from + k + 1));
    }
    Some(out)
}

/// Read the parts of the binary chunk that `views` points out: indices, positions, UVs and
/// the image, in this order.
pub fn unpack_bin(bin: &Vec<u8>, views: &Vec<(Option<u64>, Option<u64>)>) -> (r: Option<GlbParts>)
    ensures
        r is Some <==> {
            &&& part_bytes(bin@, views@, 0) is Some
            &&& part_bytes(bin@, views@, 1) is Some
            &&& part_bytes(bin@, views@, 2) is Some
            &&& part_bytes(bin@, views@, 3) is Some
        },
        r matches Some(p) ==> {
            &&& p.mesh.faces@ == faces_of(bytes::to_words(part_bytes(bin@, views@, 0)->0))
            &&& p.mesh.vertices@ == vertices_of(bytes::to_words(part_bytes(bin@, views@, 1)->0))
            &&& p.uvs@ == uvs_of(bytes::to_words(part_bytes(bin@, views@, 2)->0))
            &&& p.image@ == part_bytes(bin@, views@, 3)->0
        },
{
    let idx = match take_part(bin, views, 0) {
        Some(b) => bytes::read_words(&b),
        None => {
            return None;
        },
    };
    let pos = match take_part(bin, views, 1) {
        Some(b) => bytes::read_words(&b),
        None => {
            return None;
        },
    };
    let uv = match take_part(bin, views, 2) {
        Some(b) => bytes::read_words(&b),
        None => {
            return None;
        },
    };
    let image = match take_part(bin, views, 3) {
        Some(b) => b,
        None => {
            return None;
        },
    };
    let nf: usize = idx.len() / 3;
    let mut faces: Vec<[u32; 3]> = Vec::new();
    for i in 0..nf
        invariant
            nf == idx.len() / 3,
            faces@ == faces_of(idx@).take(i as int),
    {
        faces.push([idx[3 * i], idx[3 * i + 1], idx[3 * i + 2]]);
        assert(faces@ =~= faces_of(idx@).take(i + 1));
    }
    assert(faces@ =~= faces_of(idx@));
    let nv: usize = pos.len() / 3;
    let mut vertices: Vec<Vec3> = Vec::new();
    for i in 0..nv
        invariant
            nv == pos.len() / 3,
            vertices@ == vertices_of(pos@).take(i as int),
    {
        vertices.push(
            Vec3 {
                x: F32 { bits: pos[3 * i] },
                y: F32 { bits: pos[3 * i + 1] },
                z: F32 { bits: pos[3 * i + 2] },
            },
        );
        assert(vertices@ =~= vertices_of(pos@).take(i + 1));
    }
    assert(vertices@ =~= vertices_of(pos@));
    let nu: usize = uv.len() / 2;
    let mut uvs: Vec<[F32; 2]> = Vec::new();
    for i in 0..nu
        invariant
            nu == uv.len() / 2,
            uvs@ == uvs_of(uv@).take(i as int),
    {
        uvs.push([F32 { bits: uv[2 * i] }, F32 { bits: uv[2 * i + 1] }]);
        assert(uvs@ =~= uvs_of(uv@).take(i + 1));
    }
    assert(uvs@ =~= uvs_of(uv@));
    Some(GlbParts { mesh: Mesh { vertices, faces }, uvs, image })
}

/// The file starts as a GLB does.
pub open spec fn has_header(data: Seq<u8>) -> bool {
    data.len() >= 20 && bytes::le_word(data, 0) == MAGIC
}

/// Length of the JSON chunk.
pub open spec fn json_length(data: Seq<u8>) -> int {
    bytes::le_word(data, 12) as int
}

/// The contents of the JSON chunk.
pub open spec fn json_part(data: Seq<u8>) -> Seq<u8> {
    data.subrange(20, 20 + json_length(data))
}

/// The contents of the binary chunk.
pub open spec fn bin_part(data: Seq<u8>) -> Seq<u8> {
    data.subrange(28 + json_length(data), data.len() as int)
}

/// The contents of a GLB: vertices, faces, and the atlas as width, height, pixels and UVs.
pub ghost struct GlbContents {
    pub vertices: Seq<Vec3>,
    pub faces: Seq<[u32; 3]>,
    pub width: u32,
    pub height: u32,
    pub rgba: Seq<u8>,
    pub uvs: Seq<[F32; 2]>,
}

/// What reading `data` gives.
pub open spec fn glb_contents(data: Seq<u8>) -> Result<GlbContents, GlbError> {
    if !has_header(data) {
        Err(GlbError::Malformed)
    } else {
        match json::json_parsed(json_part(data)) {
            None => Err(GlbError::Json),
            Some(doc) => match document::buffer_views(doc) {
                None => Err(GlbError::Malformed),
                Some(views) => parts_contents(bin_part(data), views),
            },
        }
    }
}

/// What the binary chunk gives with these buffer views.
pub open spec fn parts_contents(
    bin: Seq<u8>,
    views: Seq<(Option<u64>, Option<u64>)>,
) -> Result<GlbContents, GlbError> {
    match (
        part_bytes(bin, views, 0),
        part_bytes(bin, views, 1),
        part_bytes(bin, views, 2),
        part_bytes(bin, views, 3),
    ) {
        (Some(idx), Some(pos), Some(uv), Some(image)) => match image_decoded(image) {
            None => Err(GlbError::Decode),
            Some((width, height, rgba)) => Ok(
                GlbContents {
                    vertices: vertices_of(bytes::to_words(pos)),
                    faces: faces_of(bytes::to_words(idx)),
                    width,
                    height,
                    rgba,
                    uvs: uvs_of(bytes::to_words(uv)),
                },
            ),
        },
        _ => Err(GlbError::Malformed),
    }
}

/// Read a GLB back into a mesh, UVs and atlas.
pub fn read_glb(data: &[u8]) -> (r: Result<(Mesh, Texture), GlbError>)
    requires
        has_header(data@) ==> 28 + json_length(data@) <= data@.len(),
    ensures
        match r {
            Ok((mesh, tex)) => glb_contents(data@) == Ok::<GlbContents, GlbError>(
                GlbContents {
                    vertices: mesh.vertices@,
                    faces: mesh.faces@,
                    width: tex.width,
                    height: tex.height,
                    rgba: tex.rgba@,
                    uvs: tex.uvs@,
                },
            ),
            Err(e) => glb_contents(data@) == Err::<GlbContents, GlbError>(e),
        },
{
    if data.len() < 20 {
        return Err(GlbError::Malformed);
    }
    if bytes::read_word(data, 0) != MAGIC {
        return Err(GlbError::Malformed);
    }
    let json_len: usize = bytes::read_word(data, 12) as usize;
    let mut json: Vec<u8> = Vec::new();
    for i in 0..json_len
        invariant
            28 + json_len <= data.len(),
            json@ == data@.subrange(20, 20 + i),
    {
        json.push(data[20 + i]);
        assert(json@ =~= data@.subrange(20, 20 + i + 1));
    }
    let bin_start: usize = 28 + json_len;
    let mut bin: Vec<u8> = Vec::new();
    for i in bin_start..data.len()
        invariant
            bin_start <= i,
            bin@ == data@.subrange(bin_start as int, i as int),
    {
        bin.push(data[i]);
        assert(bin@ =~= data@.subrange(bin_start as int, i + 1));
    }
    let doc = match json::json_read(&json) {
        Ok(doc) => doc,
        Err(_) => {
            return Err(GlbError::Json);
        },
    };
    let views = match document::find_views(&doc) {
        Some(views) => views,
        None => {
            return Err(GlbError::Malformed);
        },
    };
    match unpack_bin(&bin, &views) {
        None => Err(GlbError::Malformed),
        Some(parts) => match decode_image(&parts.image) {
            Err(_) => Err(GlbError::Decode),
            Ok((width, height, rgba)) => Ok(
                (parts.mesh, Texture { width, height, rgba, uvs: parts.uvs }),
            ),
        },
    }
}

/// Four pieces one after the other can be told apart by their lengths.
proof fn pieces(a: Seq<u8>, b: Seq<u8>, c: Seq<u8>, d: Seq<u8>)
    ensures
        (a + b + c + d).len() == a.len() + b.len() + c.len() + d.len(),
        (a + b + c + d).take(a.len() as int) == a,
        (a + b + c + d).subrange(a.len() as int, (a.len() + b.len()) as int) == b,
        (a + b + c + d).subrange(
            (a.len() + b.len()) as int,
            (a.len() + b.len() + c.len()) as int,
        ) == c,
        (a + b + c + d).subrange(
            (a.len() + b.len() + c.len()) as int,
            (a + b + c + d).len() as int,
        ) == d,
{
    let s = a + b + c + d;
    assert(s.take(a.len() as int) =~= a);
    assert(s.subrange(a.len() as int, (a.len() + b.len()) as int) =~= b);
    assert(s.subrange((a.len() + b.len()) as int, (a.len() + b.len() + c.len()) as int) =~= c);
    assert(s.subrange((a.len() + b.len() + c.len()) as int, s.len() as int) =~= d);
}

proof fn header_of_file(json: Seq<u8>, bin: Seq<u8>)
    requires
        28 + json.len() + bin.len() <= u32::MAX,
    ensures
        has_header(glb_file(json, bin)),
        json_length(glb_file(json, bin)) == json.len(),
        json_part(glb_file(json, bin)) == json,
        bin_part(glb_file(json, bin)) == bin,
{
    let words = seq![
        MAGIC,
        2u32,
        (28 + json.len() + bin.len()) as u32,
        json.len() as u32,
        JSON_CHUNK,
    ];
    let head = bytes::to_bytes(words);
    let mid = bytes::to_bytes(seq![bin.len() as u32, BIN_CHUNK]);
    let file = glb_file(json, bin);
    pieces(head, json, mid, bin);
    bytes::word_in_prefix(words, file, 0);
    bytes::word_in_prefix(words, file, 3);
}

proof fn mesh_survives(vertices: Seq<Vec3>, faces: Seq<[u32; 3]>, uvs: Seq<[F32; 2]>)
    ensures
        vertices_of(position_words(vertices)) == vertices,
        faces_of(index_words(faces)) == faces,
        uvs_of(uv_words(uvs)) == uvs,
{
    assert(vertices_of(position_words(vertices)) =~= vertices);
    assert forall|i: int| 0 <= i < faces.len() implies faces_of(index_words(faces))[i]
        == faces[i] by {
        let w = index_words(faces);
        assert(w[3 * i] == faces[i][0] && w[3 * i + 1] == faces[i][1] && w[3 * i + 2] == faces[i][2]);
        mesh::same_corners(faces_of(w)[i], faces[i]);
    }
    assert(faces_of(index_words(faces)) =~= faces);
    assert forall|i: int| 0 <= i < uvs.len() implies uvs_of(uv_words(uvs))[i] == uvs[i] by {
        let w = uv_words(uvs);
        assert(w[2 * i] == uvs[i][0].bits && w[2 * i + 1] == uvs[i][1].bits);
        let a = uvs_of(w)[i];
        assert(a@ =~= uvs[i]@);
        assert(a =~= uvs[i]);
    }
    assert(uvs_of(uv_words(uvs)) =~= uvs);
}

proof fn parts_of_chunk(a: Seq<u8>, b: Seq<u8>, c: Seq<u8>, d: Seq<u8>, tail: Seq<u8>)
    ensures
        ({
            let s = (a + b + c + d) + tail;
            let n1 = (a.len() + b.len()) as int;
            let n2 = (a.len() + b.len() + c.len()) as int;
            let n3 = (a.len() + b.len() + c.len() + d.len()) as int;
            &&& n3 <= s.len()
            &&& s.subrange(0, a.len() as int) == a
            &&& s.subrange(a.len() as int, n1) == b
            &&& s.subrange(n1, n2) == c
            &&& s.subrange(n2, n3) == d
        }),
{
    let s = (a + b + c + d) + tail;
    let n1 = (a.len() + b.len()) as int;
    let n2 = (a.len() + b.len() + c.len()) as int;
    let n3 = (a.len() + b.len() + c.len() + d.len()) as int;
    assert(s.subrange(0, a.len() as int) =~= a);
    assert(s.subrange(a.len() as int, n1) =~= b);
    assert(s.subrange(n1, n2) =~= c);
    assert(s.subrange(n2, n3) =~= d);
}

/// The layout points the parts of the binary chunk out.
proof fn chunk_parts(
    vertices: Seq<Vec3>,
    faces: Seq<[u32; 3]>,
    uvs: Seq<[F32; 2]>,
    image: Seq<u8>,
)
    requires
        chunk_size(
            vertices.len() as int,
            faces.len() as int,
            uvs.len() as int,
            image.len() as int,
        ) <= u32::MAX,
    ensures
        ({
            let bin = bin_chunk(vertices, faces, uvs, image);
            let views = document::layout_views(
                layout_of(
                    vertices.len() as int,
                    faces.len() as int,
                    uvs.len() as int,
                    image.len() as int,
                ),
            );
            &&& part_bytes(bin, views, 0) == Some(bytes::to_bytes(index_words(faces)))
            &&& part_bytes(bin, views, 1) == Some(bytes::to_bytes(position_words(vertices)))
            &&& part_bytes(bin, views, 2) == Some(bytes::to_bytes(uv_words(uvs)))
            &&& part_bytes(bin, views, 3) == Some(image)
        }),
{
    let p0 = bytes::to_bytes(index_words(faces));
    let p1 = bytes::to_bytes(position_words(vertices));
    let p2 = bytes::to_bytes(uv_words(uvs));
    let whole = p0 + p1 + p2 + image;
    let tail = Seq::new((padded_len(whole.len() as int) - whole.len()) as nat, |i: int| 0u8);
    assert(p0.len() == 12 * faces.len());
    assert(p1.len() == 12 * vertices.len());
    assert(p2.len() == 8 * uvs.len());
    parts_of_chunk(p0, p1, p2, image, tail);
}

/// Reading a file gives back the mesh, the UVs and the atlas that were written to it, as
/// long as its JSON document points the parts out.
pub proof fn read_gives_back_write(
    vertices: Seq<Vec3>,
    faces: Seq<[u32; 3]>,
    uvs: Seq<[F32; 2]>,
    image: Seq<u8>,
    text: Seq<u8>,
    doc: Json,
    atlas: (u32, u32, Seq<u8>),
)
    requires
        28 + text.len() + chunk_size(
            vertices.len() as int,
            faces.len() as int,
            uvs.len() as int,
            image.len() as int,
        ) <= u32::MAX,
        json::json_parsed(text) == Some(doc),
        document::buffer_views(doc) == Some(
            document::layout_views(
                layout_of(
                    vertices.len() as int,
                    faces.len() as int,
                    uvs.len() as int,
                    image.len() as int,
                ),
            ),
        ),
        image_decoded(image) == Some(atlas),
    ensures
        glb_contents(glb_file(text, bin_chunk(vertices, faces, uvs, image))) == Ok::<
            GlbContents,
            GlbError,
        >(
            GlbContents {
                vertices,
                faces,
                width: atlas.0,
                height: atlas.1,
                rgba: atlas.2,
                uvs,
            },
        ),
{
    let bin = bin_chunk(vertices, faces, uvs, image);
    header_of_file(text, bin);
    chunk_parts(vertices, faces, uvs, image);
    bytes::words_survive(index_words(faces));
    bytes::words_survive(position_words(vertices));
    bytes::words_survive(uv_words(uvs));
    mesh_survives(vertices, faces, uvs);
}

/// The bits of the number one.
pub const ONE_BITS: u32 = 0x3F80_0000;

/// `number` gives `lo` and `hi` for the corners of the bounding box of the mesh, and `zero` and
/// `one` for these two numbers.
pub open spec fn are_numbers<N: Fn(F32) -> Value>(
    number: N,
    mesh: &Mesh,
    zero: Value,
    one: Value,
    lo: Seq<Value>,
    hi: Seq<Value>,
) -> bool {
    &&& number.ensures((F32 { bits: 0 },), zero)
    &&& number.ensures((F32 { bits: ONE_BITS },), one)
    &&& lo.len() == 3
    &&& hi.len() == 3
    &&& forall|axis: int|
        0 <= axis < 3 ==> number.ensures(
            (bounds::lowest(mesh.vertices@, axis, mesh.vertices@.len() as int),),
            #[trigger] lo[axis],
        )
    &&& forall|axis: int|
        0 <= axis < 3 ==> number.ensures(
            (bounds::highest(mesh.vertices@, axis, mesh.vertices@.len() as int),),
            #[trigger] hi[axis],
        )
}

/// `doc` is the document of the mesh, with the numbers that `number` gives.
pub open spec fn is_document<N: Fn(F32) -> Value>(
    number: N,
    mesh: &Mesh,
    tex: &Texture,
    doc: Json,
) -> bool {
    exists|zero: Value, one: Value, lo: Seq<Value>, hi: Seq<Value>|
        {
            &&& #[trigger] are_numbers(number, mesh, zero, one, lo, hi)
            &&& doc == json::object(
                document::document(
                    packed_layout(mesh, tex),
                    counts(mesh, tex),
                    json::json_value(zero),
                    json::json_value(one),
                    json::values_of(lo),
                    json::values_of(hi),
                ),
            )
        }
}

/// The numbers that `number` gives can be read again.
pub open spec fn gives_numbers<N: Fn(F32) -> Value>(number: N) -> bool {
    forall|x: F32, v: Value| #[trigger]
        number.ensures((x,), v) ==> document::is_leaf(json::json_value(v))
}

/// A document can be read if its numbers can, and tells the layout of the file.
proof fn document_comes_back<N: Fn(F32) -> Value>(
    number: N,
    mesh: &Mesh,
    tex: &Texture,
    doc: Json,
    text: Seq<u8>,
)
    requires
        is_document(number, mesh, tex, doc),
        gives_numbers(number),
        json::readable(doc, json::MAX_DEPTH as nat) ==> json::reads_as(text, doc),
    ensures
        json::json_parsed(text) matches Some(back) && document::buffer_views(back) == Some(
            document::layout_views(packed_layout(mesh, tex)),
        ),
{
    let (zero, one, lo, hi) = choose|zero: Value, one: Value, lo: Seq<Value>, hi: Seq<Value>|
        {
            &&& #[trigger] are_numbers(number, mesh, zero, one, lo, hi)
            &&& doc == json::object(
                document::document(
                    packed_layout(mesh, tex),
                    counts(mesh, tex),
                    json::json_value(zero),
                    json::json_value(one),
                    json::values_of(lo),
                    json::values_of(hi),
                ),
            )
        };
    let l = packed_layout(mesh, tex);
    let n = counts(mesh, tex);
    let (z, o) = (json::json_value(zero), json::json_value(one));
    let (low, high) = (json::values_of(lo), json::values_of(hi));
    document::document_is_readable(l, n, z, o, low, high, json::MAX_DEPTH as nat);
    document::document_tells_the_layout(l, n, z, o, low, high);
    document::views_agree(doc, json::json_parsed(text)->0, json::MAX_DEPTH as nat);
}

/// The GLB file of `mesh` with its atlas. `number` makes a JSON number, or null where JSON has
/// none. As long as such a number can be read again, and the atlas is not beyond the limit of
/// the decoder, reading the file gives back the mesh and the atlas.
pub fn write_glb<N: Fn(F32) -> Value>(mesh: &Mesh, tex: &Texture, number: N) -> (r: Result<
    Vec<u8>,
    GlbError,
>)
    requires
        forall|x: F32| #[trigger] number.requires((x,)),
    ensures
        r matches Err(e) ==> e == GlbError::AtlasSize || e == GlbError::Encode || e
            == GlbError::TooLarge || e == GlbError::Json,
        r == Err::<Vec<u8>, GlbError>(GlbError::AtlasSize) <==> image_size(tex.width, tex.height)
            > tex.rgba@.len(),
        r == Err::<Vec<u8>, GlbError>(GlbError::Encode) <==> image_size(tex.width, tex.height)
            <= tex.rgba@.len() && png_encoded(tex.width, tex.height, tex.rgba@) is None,
        r == Err::<Vec<u8>, GlbError>(GlbError::TooLarge) ==> {
            &&& png_encoded(tex.width, tex.height, tex.rgba@) is Some
            &&& 28 + packed_size(mesh, tex) > u32::MAX || exists|doc: Json| #[trigger]
                is_document(number, mesh, tex, doc) && json::json_written(doc) is Some && 28
                    + padded_len(json::json_written(doc)->0.len() as int) + packed_size(mesh, tex)
                    > u32::MAX
        },
        r == Err::<Vec<u8>, GlbError>(GlbError::Json) ==> {
            &&& png_encoded(tex.width, tex.height, tex.rgba@) is Some
            &&& 28 + packed_size(mesh, tex) <= u32::MAX
            &&& exists|doc: Json| #[trigger]
                is_document(number, mesh, tex, doc) && json::json_written(doc) is None
        },
        r matches Ok(file) ==> {
            &&& 28 + packed_size(mesh, tex) <= u32::MAX
            &&& exists|doc: Json|
                {
                    &&& #[trigger] is_document(number, mesh, tex, doc)
                    &&& json::json_written(doc) is Some
                    &&& file@ == glb_file(
                        padded(json::json_written(doc)->0, 0x20),
                        bin_chunk(mesh.vertices@, mesh.faces@, tex.uvs@, packed_image(tex)),
                    )
                    &&& 28 + padded_len(json::json_written(doc)->0.len() as int) + packed_size(
                        mesh,
                        tex,
                    ) <= u32::MAX
                }
            &&& gives_numbers(number) && image_size(tex.width, tex.height) <= DECODE_LIMIT
                ==> glb_contents(file@) == Ok::<GlbContents, GlbError>(
                GlbContents {
                    vertices: mesh.vertices@,
                    faces: mesh.faces@,
                    width: tex.width,
                    height: tex.height,
                    rgba: tex.rgba@.take(image_size(tex.width, tex.height)),
                    uvs: tex.uvs@,
                },
            )
        },
{
    proof {
        assert(tex.width * tex.height <= 0xffff_ffff * 0xffff_ffff) by (nonlinear_arith)
            requires
                0 <= tex.width <= 0xffff_ffff,
                0 <= tex.height <= 0xffff_ffff,
        ;
    }
    if 4 * (tex.width as u128 * tex.height as u128) > tex.rgba.len() as u128 {
        return Err(GlbError::AtlasSize);
    }
    let image = match encode_png(tex.width, tex.height, &tex.rgba) {
        Ok(image) => image,
        Err(_) => {
            return Err(GlbError::Encode);
        },
    };
    let parts: u128 = 12 * mesh.faces.len() as u128 + 12 * mesh.vertices.len() as u128 + 8
        * tex.uvs.len() as u128 + image.len() as u128;
    let size: u128 = (parts + 3) / 4 * 4;
    assert(size == packed_size(mesh, tex));
    if 28 + size > 0xffff_ffff {
        return Err(GlbError::TooLarge);
    }
    let (bin, layout) = pack_bin(mesh, &tex.uvs, &image);
    assert(layout == packed_layout(mesh, tex));

    let (low, high) = bounds::bbox(&mesh.vertices);
    assert(bounds::coordinate(low, 0) == low.x && bounds::coordinate(high, 0) == high.x);
    assert(bounds::coordinate(low, 1) == low.y && bounds::coordinate(high, 1) == high.y);
    assert(bounds::coordinate(low, 2) == low.z && bounds::coordinate(high, 2) == high.z);
    let zero = number(F32::from_bits(0));
    let one = number(F32::from_bits(ONE_BITS));
    let lo: Vec<Value> = vec![number(low.x), number(low.y), number(low.z)];
    let hi: Vec<Value> = vec![number(high.x), number(high.y), number(high.z)];
    let n = Counts {
        faces: mesh.faces.len(),
        vertices: mesh.vertices.len(),
        uvs: tex.uvs.len(),
    };
    assert(are_numbers(number, mesh, zero, one, lo@, hi@));
    let doc = document::scene_document(layout, n, zero, one, lo, hi);
    let ghost said = json::json_value(doc);
    assert(is_document(number, mesh, tex, said));
    let text = match json::json_write(&doc) {
        Ok(text) => text,
        Err(_) => {
            return Err(GlbError::Json);
        },
    };
    if 28 + (text.len() as u128 + 3) / 4 * 4 + size > 0xffff_ffff {
        return Err(GlbError::TooLarge);
    }
    proof {
        let filled = padded(text@, 0x20);
        assert(filled =~= text@ + json::blanks(
            (padded_len(text@.len() as int) - text@.len()) as nat,
        ));
        if gives_numbers(number) && image_size(tex.width, tex.height) <= DECODE_LIMIT {
            document_comes_back(number, mesh, tex, said, filled);
            read_gives_back_write(
                mesh.vertices@,
                mesh.faces@,
                tex.uvs@,
                image@,
                filled,
                json::json_parsed(filled)->0,
                (
                    tex.width,
                    tex.height,
                    tex.rgba@.take(image_size(tex.width, tex.height)),
                ),
            );
        }
    }
    Ok(frame_glb(text, &bin))
}

/// The sizes of a mesh with its texture.
pub open spec fn counts(mesh: &Mesh, tex: &Texture) -> Counts {
    Counts {
        faces: mesh.faces@.len() as usize,
        vertices: mesh.vertices@.len() as usize,
        uvs: tex.uvs@.len() as usize,
    }
}

/// The atlas as it is stored in the file.
pub open spec fn packed_image(tex: &Texture) -> Seq<u8> {
    png_encoded(tex.width, tex.height, tex.rgba@)->0
}

/// Size of the binary chunk.
pub open spec fn packed_size(mesh: &Mesh, tex: &Texture) -> int {
    chunk_size(
        mesh.vertices@.len() as int,
        mesh.faces@.len() as int,
        tex.uvs@.len() as int,
        packed_image(tex).len() as int,
    )
}

/// Layout of the binary chunk.
pub open spec fn packed_layout(mesh: &Mesh, tex: &Texture) -> GlbLayout {
    layout_of(
        mesh.vertices@.len() as int,
        mesh.faces@.len() as int,
        tex.uvs@.len() as int,
        packed_image(tex).len() as int,
    )
}

/// The number whose digits in base 256 are the four bytes from `at` on, lowest first.
pub open spec fn number_at(b: Seq<u8>, at: int) -> int {
    b[at] + 256 * (b[at + 1] + 256 * (b[at + 2] + 256 * b[at + 3]))
}

proof fn words_stand_at(b: Seq<u8>, words: Seq<u32>, start: int, i: int)
    requires
        0 <= start,
        start + 4 * words.len() <= b.len(),
        b.subrange(start, start + 4 * words.len()) == bytes::to_bytes(words),
        0 <= i < words.len(),
    ensures
        number_at(b, start + 4 * i) == words[i],
{
    bytes::bytes_are_digits(words, i);
    let part = b.subrange(start, start + 4 * words.len());
    assert(part[4 * i] == b[start + 4 * i]);
    assert(part[4 * i + 1] == b[start + 4 * i + 1]);
    assert(part[4 * i + 2] == b[start + 4 * i + 2]);
    assert(part[4 * i + 3] == b[start + 4 * i + 3]);
}

/// A file begins with `glTF`, the version and its length. Each chunk follows its length and its
/// name.
#[verifier::spinoff_prover]
pub proof fn files_hold_their_chunks(json: Seq<u8>, bin: Seq<u8>)
    requires
        28 + json.len() + bin.len() <= u32::MAX,
    ensures
        ({
            let file = glb_file(json, bin);
            let j = json.len() as int;
            &&& file.len() == 28 + j + bin.len()
            &&& file[0] == 0x67 && file[1] == 0x6c && file[2] == 0x54 && file[3] == 0x46
            &&& number_at(file, 4) == 2
            &&& number_at(file, 8) == file.len()
            &&& number_at(file, 12) == j
            &&& file[16] == 0x4a && file[17] == 0x53 && file[18] == 0x4f && file[19] == 0x4e
            &&& forall|i: int| 0 <= i < j ==> file[20 + i] == #[trigger] json[i]
            &&& number_at(file, 20 + j) == bin.len()
            &&& file[24 + j] == 0x42 && file[25 + j] == 0x49 && file[26 + j] == 0x4e && file[27 + j]
                == 0
            &&& forall|i: int| 0 <= i < bin.len() ==> file[28 + j + i] == #[trigger] bin[i]
        }),
{
    let file = glb_file(json, bin);
    let j = json.len() as int;
    let head = seq![
        MAGIC,
        2u32,
        (28 + json.len() + bin.len()) as u32,
        json.len() as u32,
        JSON_CHUNK,
    ];
    let mid = seq![bin.len() as u32, BIN_CHUNK];
    let (h, m) = (bytes::to_bytes(head), bytes::to_bytes(mid));
    assert(h.len() == 20 && m.len() == 8);
    assert(file == h + json + m + bin);
    assert(file.subrange(0, 20) =~= h);
    assert(file.subrange(20 + j, 28 + j) =~= m);
    words_stand_at(file, head, 0, 0);
    words_stand_at(file, head, 0, 1);
    words_stand_at(file, head, 0, 2);
    words_stand_at(file, head, 0, 3);
    words_stand_at(file, head, 0, 4);
    words_stand_at(file, mid, 20 + j, 0);
    words_stand_at(file, mid, 20 + j, 1);
    assert forall|i: int| 0 <= i < j implies file[20 + i] == #[trigger] json[i] by {}
    assert forall|i: int| 0 <= i < bin.len() implies file[28 + j + i] == #[trigger] bin[i] by {}
}

proof fn thirds(f: int)
    ensures
        (3 * f) / 3 == f && (3 * f) % 3 == 0,
        (3 * f + 1) / 3 == f && (3 * f + 1) % 3 == 1,
        (3 * f + 2) / 3 == f && (3 * f + 2) % 3 == 2,
{
}

proof fn faces_stand_at(bin: Seq<u8>, faces: Seq<[u32; 3]>, f: int)
    requires
        12 * faces.len() <= bin.len(),
        bin.subrange(0, 12 * faces.len() as int) == bytes::to_bytes(index_words(faces)),
        0 <= f < faces.len(),
    ensures
        number_at(bin, 12 * f) == faces[f][0],
        number_at(bin, 12 * f + 4) == faces[f][1],
        number_at(bin, 12 * f + 8) == faces[f][2],
{
    let words = index_words(faces);
    thirds(f);
    words_stand_at(bin, words, 0, 3 * f);
    words_stand_at(bin, words, 0, 3 * f + 1);
    words_stand_at(bin, words, 0, 3 * f + 2);
}

proof fn vertices_stand_at(bin: Seq<u8>, vertices: Seq<Vec3>, at: int, v: int)
    requires
        0 <= at,
        at + 12 * vertices.len() <= bin.len(),
        bin.subrange(at, at + 12 * vertices.len()) == bytes::to_bytes(position_words(vertices)),
        0 <= v < vertices.len(),
    ensures
        number_at(bin, at + 12 * v) == vertices[v].x.bits,
        number_at(bin, at + 12 * v + 4) == vertices[v].y.bits,
        number_at(bin, at + 12 * v + 8) == vertices[v].z.bits,
{
    let words = position_words(vertices);
    thirds(v);
    words_stand_at(bin, words, at, 3 * v);
    words_stand_at(bin, words, at, 3 * v + 1);
    words_stand_at(bin, words, at, 3 * v + 2);
}

proof fn uvs_stand_at(bin: Seq<u8>, uvs: Seq<[F32; 2]>, at: int, u: int)
    requires
        0 <= at,
        at + 8 * uvs.len() <= bin.len(),
        bin.subrange(at, at + 8 * uvs.len()) == bytes::to_bytes(uv_words(uvs)),
        0 <= u < uvs.len(),
    ensures
        number_at(bin, at + 8 * u) == uvs[u][0].bits,
        number_at(bin, at + 8 * u + 4) == uvs[u][1].bits,
{
    let words = uv_words(uvs);
    assert((2 * u) / 2 == u && (2 * u) % 2 == 0);
    assert((2 * u + 1) / 2 == u && (2 * u + 1) % 2 == 1);
    words_stand_at(bin, words, at, 2 * u);
    words_stand_at(bin, words, at, 2 * u + 1);
}

/// The binary chunk begins with the corners of the faces in their order, four bytes each.
pub proof fn chunks_hold_the_faces(
    vertices: Seq<Vec3>,
    faces: Seq<[u32; 3]>,
    uvs: Seq<[F32; 2]>,
    image: Seq<u8>,
    f: int,
)
    requires
        0 <= f < faces.len(),
    ensures
        ({
            let bin = bin_chunk(vertices, faces, uvs, image);
            &&& number_at(bin, 12 * f) == faces[f][0]
            &&& number_at(bin, 12 * f + 4) == faces[f][1]
            &&& number_at(bin, 12 * f + 8) == faces[f][2]
        }),
{
    chunk_ranges(vertices, faces, uvs, image);
    faces_stand_at(bin_chunk(vertices, faces, uvs, image), faces, f);
}

/// The coordinates of the vertices follow, four bytes each.
pub proof fn chunks_hold_the_vertices(
    vertices: Seq<Vec3>,
    faces: Seq<[u32; 3]>,
    uvs: Seq<[F32; 2]>,
    image: Seq<u8>,
    v: int,
)
    requires
        0 <= v < vertices.len(),
    ensures
        ({
            let bin = bin_chunk(vertices, faces, uvs, image);
            let at = 12 * faces.len() + 12 * v;
            &&& number_at(bin, at) == vertices[v].x.bits
            &&& number_at(bin, at + 4) == vertices[v].y.bits
            &&& number_at(bin, at + 8) == vertices[v].z.bits
        }),
{
    chunk_ranges(vertices, faces, uvs, image);
    let at = 12 * faces.len() as int;
    vertices_stand_at(bin_chunk(vertices, faces, uvs, image), vertices, at, v);
}

/// Then come the UVs, four bytes for each of the two.
pub proof fn chunks_hold_the_uvs(
    vertices: Seq<Vec3>,
    faces: Seq<[u32; 3]>,
    uvs: Seq<[F32; 2]>,
    image: Seq<u8>,
    u: int,
)
    requires
        0 <= u < uvs.len(),
    ensures
        ({
            let bin = bin_chunk(vertices, faces, uvs, image);
            let at = 12 * faces.len() + 12 * vertices.len() + 8 * u;
            &&& number_at(bin, at) == uvs[u][0].bits
            &&& number_at(bin, at + 4) == uvs[u][1].bits
        }),
{
    chunk_ranges(vertices, faces, uvs, image);
    let at = 12 * faces.len() + 12 * vertices.len() as int;
    uvs_stand_at(bin_chunk(vertices, faces, uvs, image), uvs, at, u);
}

/// The image is last, up to the next multiple of four bytes.
pub proof fn chunks_end_with_the_image(
    vertices: Seq<Vec3>,
    faces: Seq<[u32; 3]>,
    uvs: Seq<[F32; 2]>,
    image: Seq<u8>,
)
    ensures
        ({
            let bin = bin_chunk(vertices, faces, uvs, image);
            let end = 12 * faces.len() + 12 * vertices.len() + 8 * uvs.len();
            &&& bin.len() % 4 == 0
            &&& end + image.len() <= bin.len() < end + image.len() + 4
            &&& forall|i: int| 0 <= i < image.len() ==> bin[end + i] == #[trigger] image[i]
        }),
{
    chunk_ranges(vertices, faces, uvs, image);
}

/// The parts of the binary chunk, one behind the other.
proof fn chunk_ranges(
    vertices: Seq<Vec3>,
    faces: Seq<[u32; 3]>,
    uvs: Seq<[F32; 2]>,
    image: Seq<u8>,
)
    ensures
        ({
            let bin = bin_chunk(vertices, faces, uvs, image);
            let at = 12 * faces.len() as int;
            let mid = at + 12 * vertices.len();
            let end = mid + 8 * uvs.len();
            &&& end + image.len() <= bin.len()
            &&& bin.len() == padded_len(end + image.len())
            &&& bin.subrange(0, at) == bytes::to_bytes(index_words(faces))
            &&& bin.subrange(at, mid) == bytes::to_bytes(position_words(vertices))
            &&& bin.subrange(mid, end) == bytes::to_bytes(uv_words(uvs))
            &&& forall|i: int| 0 <= i < image.len() ==> bin[end + i] == #[trigger] image[i]
        }),
{
    let bin = bin_chunk(vertices, faces, uvs, image);
    let at = 12 * faces.len() as int;
    let mid = at + 12 * vertices.len();
    let end = mid + 8 * uvs.len();
    let x = bytes::to_bytes(index_words(faces));
    let y = bytes::to_bytes(position_words(vertices));
    let z = bytes::to_bytes(uv_words(uvs));
    let all = x + y + z + image;
    assert(x.len() == at && y.len() == mid - at && z.len() == end - mid);
    assert(all.len() == end + image.len());
    assert(bin == padded(all, 0));
    assert(bin.len() == padded_len(end + image.len()));
    assert(bin.subrange(0, at) =~= x);
    assert(bin.subrange(at, mid) =~= y);
    assert(bin.subrange(mid, end) =~= z);
    assert forall|i: int| 0 <= i < image.len() implies bin[end + i] == #[trigger] image[i] by {
        assert(all[end + i] == image[i]);
    }
}

/// The parts are said to be where they are: one behind the other, in the order of the chunk.
pub proof fn layouts_tell_the_parts(nv: int, nf: int, nu: int, ni: int)
    requires
        0 <= nv,
        0 <= nf,
        0 <= nu,
        0 <= ni,
        12 * nf + 12 * nv + 8 * nu + ni + 4 <= u32::MAX,
    ensures
        ({
            let l = layout_of(nv, nf, nu, ni);
            &&& l.indices.offset == 0 && l.indices.length == 3 * 4 * nf
            &&& l.positions.offset == l.indices.length && l.positions.length == 3 * 4 * nv
            &&& l.uvs.offset == l.positions.offset + l.positions.length && l.uvs.length == 2 * 4 * nu
            &&& l.image.offset == l.uvs.offset + l.uvs.length && l.image.length == ni
            &&& l.total >= l.image.offset + ni && l.total < l.image.offset + ni + 4 && l.total % 4
                == 0
        }),
{
}

} // verus!
