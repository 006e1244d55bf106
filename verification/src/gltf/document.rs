//! The JSON document of a GLB: one scene with one unlit, textured mesh.

use super::{BufferView, GlbLayout};
use crate::json::{self, Json};
use serde_json::Value;
use vstd::prelude::*;

verus! {

/// Indices, in a buffer view.
pub const ELEMENT_ARRAY: u64 = 34963;

/// Vertex attributes, in a buffer view.
pub const ARRAY: u64 = 34962;

/// 32-bit words, in an accessor.
pub const UNSIGNED_INT: u64 = 5125;

/// Single-precision numbers, in an accessor.
pub const FLOAT: u64 = 5126;

/// Smooth magnification, in a sampler.
pub const LINEAR: u64 = 9729;

/// Smooth minification between mips, in a sampler.
pub const LINEAR_MIPMAP_LINEAR: u64 = 9987;

/// No repetition, in a sampler.
pub const CLAMP_TO_EDGE: u64 = 33071;

/// An entry of `bufferViews`.
pub open spec fn view(v: BufferView, target: Option<u64>) -> Seq<(Seq<char>, Json)> {
    let start = match target {
        Some(t) => seq![("target"@, Json::Count(t))],
        None => seq![],
    };
    start.push(("buffer"@, Json::Count(0))).push(("byteOffset"@, Json::Count(v.offset as u64))).push(
        ("byteLength"@, Json::Count(v.length as u64)),
    )
}

/// An entry of `accessors`.
pub open spec fn accessor(view: u64, component: u64, n: u64, kind: Seq<char>) -> Seq<
    (Seq<char>, Json),
> {
    seq![
        ("bufferView"@, Json::Count(view)),
        ("componentType"@, Json::Count(component)),
        ("count"@, Json::Count(n)),
        ("type"@, Json::Text(kind)),
    ]
}

/// The sizes of a mesh.
#[derive(Clone, Copy, Debug)]
pub struct Counts {
    pub faces: usize,
    pub vertices: usize,
    pub uvs: usize,
}

/// The entry of `accessors` for positions, with the corners of their bounding box.
pub open spec fn positions(n: u64, lo: Seq<Json>, hi: Seq<Json>) -> Seq<(Seq<char>, Json)> {
    accessor(1, FLOAT, n, "VEC3"@).push(("min"@, Json::List(lo))).push(("max"@, Json::List(hi)))
}

/// Which accessors are the attributes of the mesh.
pub open spec fn attributes() -> Seq<(Seq<char>, Json)> {
    seq![("POSITION"@, Json::Count(1)), ("TEXCOORD_0"@, Json::Count(2))]
}

/// The entry of `primitives`.
pub open spec fn primitive() -> Seq<(Seq<char>, Json)> {
    seq![
        ("attributes"@, json::object(attributes())),
        ("indices"@, Json::Count(0)),
        ("material"@, Json::Count(0)),
    ]
}

/// How the surface reflects, where a viewer does not know unlit materials.
pub open spec fn surface(zero: Json, one: Json) -> Seq<(Seq<char>, Json)> {
    seq![
        ("baseColorTexture"@, json::object(seq![("index"@, Json::Count(0))])),
        ("metallicFactor"@, zero),
        ("roughnessFactor"@, one),
    ]
}

/// The entry of `materials`: the texture as it is, seen from both sides.
pub open spec fn material(zero: Json, one: Json) -> Seq<(Seq<char>, Json)> {
    seq![
        ("pbrMetallicRoughness"@, json::object(surface(zero, one))),
        ("extensions"@, json::object(seq![("KHR_materials_unlit"@, json::object(seq![]))])),
        ("doubleSided"@, Json::Bool(true)),
    ]
}

/// The entry of `samplers`.
pub open spec fn sampler() -> Seq<(Seq<char>, Json)> {
    seq![
        ("magFilter"@, Json::Count(LINEAR)),
        ("minFilter"@, Json::Count(LINEAR_MIPMAP_LINEAR)),
        ("wrapS"@, Json::Count(CLAMP_TO_EDGE)),
        ("wrapT"@, Json::Count(CLAMP_TO_EDGE)),
    ]
}

/// What wrote the file.
pub open spec fn asset() -> Seq<(Seq<char>, Json)> {
    seq![("version"@, Json::Text("2.0"@)), ("generator"@, Json::Text("brush"@))]
}

/// The entry of `textures`.
pub open spec fn texture() -> Seq<(Seq<char>, Json)> {
    seq![("source"@, Json::Count(0)), ("sampler"@, Json::Count(0))]
}

/// The entry of `images`.
pub open spec fn image() -> Seq<(Seq<char>, Json)> {
    seq![("bufferView"@, Json::Count(3)), ("mimeType"@, Json::Text("image/png"@))]
}

/// The list `accessors`: indices, positions and UVs.
pub open spec fn accessors(n: Counts, lo: Seq<Json>, hi: Seq<Json>) -> Seq<Json> {
    seq![
        json::object(accessor(0, UNSIGNED_INT, (3 * n.faces) as u64, "SCALAR"@)),
        json::object(positions(n.vertices as u64, lo, hi)),
        json::object(accessor(2, FLOAT, n.uvs as u64, "VEC2"@)),
    ]
}

/// The list `bufferViews`: indices, positions, UVs and the image.
pub open spec fn views(l: GlbLayout) -> Seq<Json> {
    seq![
        json::object(view(l.indices, Some(ELEMENT_ARRAY))),
        json::object(view(l.positions, Some(ARRAY))),
        json::object(view(l.uvs, Some(ARRAY))),
        json::object(view(l.image, None)),
    ]
}

/// The document of a mesh of this size with its parts at these places. `lo` and `hi` are the
/// corners of its bounding box.
pub open spec fn document(
    l: GlbLayout,
    n: Counts,
    zero: Json,
    one: Json,
    lo: Seq<Json>,
    hi: Seq<Json>,
) -> Seq<(Seq<char>, Json)> {
    seq![
        ("asset"@, json::object(asset())),
        ("extensionsUsed"@, Json::List(seq![Json::Text("KHR_materials_unlit"@)])),
        ("scene"@, Json::Count(0)),
        (
            "scenes"@,
            Json::List(seq![json::object(seq![("nodes"@, Json::List(seq![Json::Count(0)]))])]),
        ),
        ("nodes"@, Json::List(seq![json::object(seq![("mesh"@, Json::Count(0))])])),
        (
            "meshes"@,
            Json::List(
                seq![
                    json::object(
                        seq![("primitives"@, Json::List(seq![json::object(primitive())]))],
                    ),
                ],
            ),
        ),
        ("materials"@, Json::List(seq![json::object(material(zero, one))])),
        ("textures"@, Json::List(seq![json::object(texture())])),
        ("samplers"@, Json::List(seq![json::object(sampler())])),
        ("images"@, Json::List(seq![json::object(image())])),
        (
            "buffers"@,
            Json::List(seq![json::object(seq![("byteLength"@, Json::Count(l.total as u64))])]),
        ),
        ("accessors"@, Json::List(accessors(n, lo, hi))),
        ("bufferViews"@, Json::List(views(l))),
    ]
}

fn no_members() -> (r: Vec<(String, Value)>)
    ensures
        json::entries_of(r@) == Seq::<(Seq<char>, Json)>::empty(),
        json::names_differ(json::entries_of(r@)),
{
    let r: Vec<(String, Value)> = Vec::new();
    assert(json::entries_of(r@) =~= Seq::<(Seq<char>, Json)>::empty());
    r
}

fn no_items() -> (r: Vec<Value>)
    ensures
        json::values_of(r@) == Seq::<Json>::empty(),
{
    let r: Vec<Value> = Vec::new();
    assert(json::values_of(r@) =~= Seq::<Json>::empty());
    r
}

fn make_view(v: BufferView, target: Option<u64>) -> (r: Value)
    ensures
        json::json_value(r) == json::object(view(v, target)),
{
    proof {
        reveal_strlit("target");
        reveal_strlit("buffer");
        reveal_strlit("byteOffset");
        reveal_strlit("byteLength");
        assert("target"@[0] != "buffer"@[0]);
        assert("byteOffset"@[4] != "byteLength"@[4]);
    }
    let mut m = no_members();
    if let Some(t) = target {
        json::put(&mut m, "target", json::json_count(t));
    }
    json::put(&mut m, "buffer", json::json_count(0));
    json::put(&mut m, "byteOffset", json::json_count(v.offset as u64));
    json::put(&mut m, "byteLength", json::json_count(v.length as u64));
    json::json_object(m)
}

fn accessor_members(view: u64, component: u64, n: u64, kind: &str) -> (m: Vec<(String, Value)>)
    ensures
        json::entries_of(m@) == accessor(view, component, n, kind@),
        json::names_differ(json::entries_of(m@)),
{
    proof {
        part_names();
    }
    let mut m = no_members();
    json::put(&mut m, "bufferView", json::json_count(view));
    json::put(&mut m, "componentType", json::json_count(component));
    json::put(&mut m, "count", json::json_count(n));
    json::put(&mut m, "type", json::json_text(kind));
    m
}

fn make_primitive() -> (r: Value)
    ensures
        json::json_value(r) == json::object(primitive()),
{
    proof {
        reveal_strlit("POSITION");
        reveal_strlit("TEXCOORD_0");
        reveal_strlit("attributes");
        reveal_strlit("indices");
        reveal_strlit("material");
        assert("POSITION"@.len() == 8);
        assert("TEXCOORD_0"@.len() == 10);
        assert("attributes"@.len() == 10);
        assert("indices"@.len() == 7);
        assert("material"@.len() == 8);
    }
    let mut attributes = no_members();
    json::put(&mut attributes, "POSITION", json::json_count(1));
    json::put(&mut attributes, "TEXCOORD_0", json::json_count(2));
    assert(json::entries_of(attributes@) =~= self::attributes());
    let mut m = no_members();
    json::put(&mut m, "attributes", json::json_object(attributes));
    json::put(&mut m, "indices", json::json_count(0));
    json::put(&mut m, "material", json::json_count(0));
    assert(json::entries_of(m@) =~= primitive());
    json::json_object(m)
}

fn make_material(zero: Value, one: Value) -> (r: Value)
    ensures
        json::json_value(r) == json::object(
            material(json::json_value(zero), json::json_value(one)),
        ),
{
    proof {
        reveal_strlit("baseColorTexture");
        reveal_strlit("metallicFactor");
        reveal_strlit("roughnessFactor");
        reveal_strlit("pbrMetallicRoughness");
        reveal_strlit("extensions");
        reveal_strlit("doubleSided");
        assert("baseColorTexture"@.len() == 16);
        assert("metallicFactor"@.len() == 14);
        assert("roughnessFactor"@.len() == 15);
        assert("pbrMetallicRoughness"@.len() == 20);
        assert("extensions"@.len() == 10);
        assert("doubleSided"@.len() == 11);
    }
    let ghost (z, o) = (json::json_value(zero), json::json_value(one));
    let mut texture = no_members();
    json::put(&mut texture, "index", json::json_count(0));
    let mut surface = no_members();
    json::put(&mut surface, "baseColorTexture", json::json_object(texture));
    json::put(&mut surface, "metallicFactor", zero);
    json::put(&mut surface, "roughnessFactor", one);
    assert(json::entries_of(surface@) =~= self::surface(z, o));
    let mut extensions = no_members();
    json::put(&mut extensions, "KHR_materials_unlit", json::json_object(no_members()));
    let mut m = no_members();
    json::put(&mut m, "pbrMetallicRoughness", json::json_object(surface));
    json::put(&mut m, "extensions", json::json_object(extensions));
    json::put(&mut m, "doubleSided", json::json_bool(true));
    assert(json::entries_of(m@) =~= material(z, o));
    json::json_object(m)
}

fn make_sampler() -> (r: Value)
    ensures
        json::json_value(r) == json::object(sampler()),
{
    proof {
        reveal_strlit("magFilter");
        reveal_strlit("minFilter");
        reveal_strlit("wrapS");
        reveal_strlit("wrapT");
        assert("magFilter"@[1] != "minFilter"@[1]);
        assert("wrapS"@[4] != "wrapT"@[4]);
    }
    let mut m = no_members();
    json::put(&mut m, "magFilter", json::json_count(LINEAR));
    json::put(&mut m, "minFilter", json::json_count(LINEAR_MIPMAP_LINEAR));
    json::put(&mut m, "wrapS", json::json_count(CLAMP_TO_EDGE));
    json::put(&mut m, "wrapT", json::json_count(CLAMP_TO_EDGE));
    assert(json::entries_of(m@) =~= sampler());
    json::json_object(m)
}

/// An object with one member that is a natural number.
fn one_count(name: &str, n: u64) -> (r: Value)
    ensures
        json::json_value(r) == json::object(seq![(name@, Json::Count(n))]),
{
    let mut m = no_members();
    json::put(&mut m, name, json::json_count(n));
    json::json_object(m)
}

/// An object with one member that is a list of one item.
fn one_list(name: &str, item: Value) -> (r: Value)
    ensures
        json::json_value(r) == json::object(
            seq![(name@, Json::List(seq![json::json_value(item)]))],
        ),
{
    let mut m = no_members();
    json::put(&mut m, name, json::list_of_one(item));
    json::json_object(m)
}

/// The names in the document tell themselves apart by length and first letter.
proof fn document_names()
    ensures
        "asset"@.len() == 5 && "asset"@[0] == 'a',
        "extensionsUsed"@.len() == 14 && "extensionsUsed"@[0] == 'e',
        "scene"@.len() == 5 && "scene"@[0] == 's',
        "scenes"@.len() == 6 && "scenes"@[0] == 's',
        "nodes"@.len() == 5 && "nodes"@[0] == 'n',
        "meshes"@.len() == 6 && "meshes"@[0] == 'm',
        "materials"@.len() == 9 && "materials"@[0] == 'm',
        "textures"@.len() == 8 && "textures"@[0] == 't',
        "samplers"@.len() == 8 && "samplers"@[0] == 's',
        "images"@.len() == 6 && "images"@[0] == 'i',
        "buffers"@.len() == 7 && "buffers"@[0] == 'b',
        "accessors"@.len() == 9 && "accessors"@[0] == 'a',
        "bufferViews"@.len() == 11 && "bufferViews"@[0] == 'b',
{
    reveal_strlit("asset");
    reveal_strlit("extensionsUsed");
    reveal_strlit("scene");
    reveal_strlit("scenes");
    reveal_strlit("nodes");
    reveal_strlit("meshes");
    reveal_strlit("materials");
    reveal_strlit("textures");
    reveal_strlit("samplers");
    reveal_strlit("images");
    reveal_strlit("buffers");
    reveal_strlit("accessors");
    reveal_strlit("bufferViews");
}

/// The names in one part of the document tell themselves apart by length, but for two.
proof fn part_names()
    ensures
        "version"@.len() == 7,
        "generator"@.len() == 9,
        "source"@.len() == 6,
        "sampler"@.len() == 7,
        "bufferView"@.len() == 10,
        "componentType"@.len() == 13,
        "count"@.len() == 5,
        "type"@.len() == 4,
        "min"@.len() == 3,
        "max"@.len() == 3,
        "mimeType"@.len() == 8,
        "min"@[1] == 'i' && "max"@[1] == 'a',
{
    reveal_strlit("version");
    reveal_strlit("generator");
    reveal_strlit("source");
    reveal_strlit("sampler");
    reveal_strlit("bufferView");
    reveal_strlit("componentType");
    reveal_strlit("count");
    reveal_strlit("type");
    reveal_strlit("min");
    reveal_strlit("max");
    reveal_strlit("mimeType");
}

/// Write the document of a mesh. `lo` and `hi` are the corners of its bounding box.
pub fn scene_document(
    l: GlbLayout,
    n: Counts,
    zero: Value,
    one: Value,
    lo: Vec<Value>,
    hi: Vec<Value>,
) -> (r: Value)
    requires
        3 * n.faces <= u32::MAX,
    ensures
        json::json_value(r) == json::object(
            document(
                l,
                n,
                json::json_value(zero),
                json::json_value(one),
                json::values_of(lo@),
                json::values_of(hi@),
            ),
        ),
{
    let ghost (z, o) = (json::json_value(zero), json::json_value(one));
    let ghost (low, high) = (json::values_of(lo@), json::values_of(hi@));
    proof {
        part_names();
    }
    let mut asset = no_members();
    json::put(&mut asset, "version", json::json_text("2.0"));
    json::put(&mut asset, "generator", json::json_text("brush"));
    assert(json::entries_of(asset@) =~= self::asset());
    let mut texture = no_members();
    json::put(&mut texture, "source", json::json_count(0));
    json::put(&mut texture, "sampler", json::json_count(0));
    assert(json::entries_of(texture@) =~= self::texture());
    let mut image = no_members();
    json::put(&mut image, "bufferView", json::json_count(3));
    json::put(&mut image, "mimeType", json::json_text("image/png"));
    assert(json::entries_of(image@) =~= self::image());
    let mut positions = accessor_members(1, FLOAT, n.vertices as u64, "VEC3");
    json::put(&mut positions, "min", json::json_list(lo));
    json::put(&mut positions, "max", json::json_list(hi));
    let mut accessors = no_items();
    let indices = accessor_members(0, UNSIGNED_INT, (3 * n.faces) as u64, "SCALAR");
    json::add_item(&mut accessors, json::json_object(indices));
    json::add_item(&mut accessors, json::json_object(positions));
    let uvs = accessor_members(2, FLOAT, n.uvs as u64, "VEC2");
    json::add_item(&mut accessors, json::json_object(uvs));
    assert(json::values_of(accessors@) =~= self::accessors(n, low, high));
    let mut views = no_items();
    json::add_item(&mut views, make_view(l.indices, Some(ELEMENT_ARRAY)));
    json::add_item(&mut views, make_view(l.positions, Some(ARRAY)));
    json::add_item(&mut views, make_view(l.uvs, Some(ARRAY)));
    json::add_item(&mut views, make_view(l.image, None));
    assert(json::values_of(views@) =~= self::views(l));

    proof {
        document_names();
    }
    let mut m = no_members();
    json::put(&mut m, "asset", json::json_object(asset));
    json::put(
        &mut m,
        "extensionsUsed",
        json::list_of_one(json::json_text("KHR_materials_unlit")),
    );
    json::put(&mut m, "scene", json::json_count(0));
    json::put(&mut m, "scenes", json::list_of_one(one_list("nodes", json::json_count(0))));
    json::put(&mut m, "nodes", json::list_of_one(one_count("mesh", 0)));
    json::put(&mut m, "meshes", json::list_of_one(one_list("primitives", make_primitive())));
    json::put(&mut m, "materials", json::list_of_one(make_material(zero, one)));
    json::put(&mut m, "textures", json::list_of_one(json::json_object(texture)));
    json::put(&mut m, "samplers", json::list_of_one(make_sampler()));
    json::put(&mut m, "images", json::list_of_one(json::json_object(image)));
    json::put(&mut m, "buffers", json::list_of_one(one_count("byteLength", l.total as u64)));
    json::put(&mut m, "accessors", json::json_list(accessors));
    json::put(&mut m, "bufferViews", json::json_list(views));
    assert(json::entries_of(m@) =~= document(l, n, z, o, low, high));
    json::json_object(m)
}

/// Where an entry of `bufferViews` begins and how long it is, each if it says so.
pub open spec fn view_of(entry: Json) -> (Option<u64>, Option<u64>) {
    (
        json::count_of(json::member(entry, "byteOffset"@)),
        json::count_of(json::member(entry, "byteLength"@)),
    )
}

/// The entries of `bufferViews`; nothing if there is no such list.
pub open spec fn buffer_views(doc: Json) -> Option<Seq<(Option<u64>, Option<u64>)>> {
    match json::member(doc, "bufferViews"@) {
        Json::List(entries) => Some(Seq::new(entries.len(), |i: int| view_of(entries[i]))),
        _ => None,
    }
}

/// Find the parts that a document tells of.
pub fn find_views(doc: &Value) -> (r: Option<Vec<(Option<u64>, Option<u64>)>>)
    ensures
        match r {
            Some(views) => buffer_views(json::json_value(*doc)) == Some(views@),
            None => buffer_views(json::json_value(*doc)) is None,
        },
{
    let entries = match json::json_items(json::json_member(doc, "bufferViews")) {
        Some(entries) => entries,
        None => {
            return None;
        },
    };
    let ghost all = json::values_of(entries@);
    let mut r: Vec<(Option<u64>, Option<u64>)> = Vec::new();
    for i in 0..entries.len()
        invariant
            all == json::values_of(entries@),
            r@ =~= Seq::new(i as nat, |k: int| view_of(all[k])),
    {
        let entry = &entries[i];
        assert(all[i as int] == json::json_value(*entry));
        let offset = json::json_as_count(json::json_member(entry, "byteOffset"));
        let length = json::json_as_count(json::json_member(entry, "byteLength"));
        r.push((offset, length));
    }
    Some(r)
}

/// What a document has to say of the parts of the binary chunk.
pub open spec fn layout_views(l: GlbLayout) -> Seq<(Option<u64>, Option<u64>)> {
    seq![
        (Some(l.indices.offset as u64), Some(l.indices.length as u64)),
        (Some(l.positions.offset as u64), Some(l.positions.length as u64)),
        (Some(l.uvs.offset as u64), Some(l.uvs.length as u64)),
        (Some(l.image.offset as u64), Some(l.image.length as u64)),
    ]
}

proof fn view_is_told(v: BufferView, target: Option<u64>)
    ensures
        view_of(json::object(view(v, target))) == (
            Some(v.offset as u64),
            Some(v.length as u64),
        ),
{
    reveal_strlit("byteOffset");
    reveal_strlit("byteLength");
    let all = view(v, target);
    let front = all.drop_last();
    assert(front.last() == ("byteOffset"@, Json::Count(v.offset as u64)));
    assert(json::object_of(front).contains_key("byteOffset"@));
    assert("byteOffset"@[4] != "byteLength"@[4]);
}

/// The document of a mesh tells where its parts are.
pub proof fn document_tells_the_layout(
    l: GlbLayout,
    n: Counts,
    zero: Json,
    one: Json,
    lo: Seq<Json>,
    hi: Seq<Json>,
)
    ensures
        buffer_views(json::object(document(l, n, zero, one, lo, hi))) == Some(layout_views(l)),
{
    let all = document(l, n, zero, one, lo, hi);
    assert(all.last() == ("bufferViews"@, Json::List(views(l))));
    view_is_told(l.indices, Some(ELEMENT_ARRAY));
    view_is_told(l.positions, Some(ARRAY));
    view_is_told(l.uvs, Some(ARRAY));
    view_is_told(l.image, None);
    assert(Seq::new(views(l).len(), |i: int| view_of(views(l)[i])) =~= layout_views(l));
}

/// Documents that agree tell of the same parts.
pub proof fn views_agree(a: Json, b: Json, depth: nat)
    requires
        json::same_json(a, b, depth),
        depth >= 3,
    ensures
        buffer_views(a) == buffer_views(b),
{
    json::members_agree(a, b, "bufferViews"@, depth);
    let x = json::member(a, "bufferViews"@);
    let y = json::member(b, "bufferViews"@);
    if let (Json::List(p), Json::List(q)) = (x, y) {
        assert forall|i: int| 0 <= i < p.len() implies view_of(p[i]) == view_of(q[i]) by {
            let d = (depth - 2) as nat;
            assert(json::same_json(x->List_0[i], y->List_0[i], d));
            json::members_agree(p[i], q[i], "byteOffset"@, d);
            json::members_agree(p[i], q[i], "byteLength"@, d);
        }
        assert(Seq::new(p.len(), |i: int| view_of(p[i])) =~= Seq::new(
            q.len(),
            |i: int| view_of(q[i]),
        ));
    }
}

/// A number of a document: the parser takes it, and it holds nothing else.
pub open spec fn is_leaf(number: Json) -> bool {
    json::readable(number, 0)
}

proof fn leaves_are_readable(leaf: Json, depth: nat)
    requires
        is_leaf(leaf),
    ensures
        json::readable(leaf, depth),
{
}

/// The document of a mesh can be read, if its numbers can.
pub proof fn document_is_readable(
    l: GlbLayout,
    n: Counts,
    zero: Json,
    one: Json,
    lo: Seq<Json>,
    hi: Seq<Json>,
    depth: nat,
)
    requires
        depth >= 8,
        is_leaf(zero),
        is_leaf(one),
        forall|i: int| 0 <= i < lo.len() ==> is_leaf(#[trigger] lo[i]),
        forall|i: int| 0 <= i < hi.len() ==> is_leaf(#[trigger] hi[i]),
    ensures
        json::readable(json::object(document(l, n, zero, one, lo, hi)), depth),
{
    let d = (depth - 1) as nat;
    let e = (depth - 2) as nat;
    let f = (depth - 3) as nat;
    let g = (depth - 4) as nat;
    let h = (depth - 5) as nat;
    json::objects_are_readable(asset(), d);
    json::lists_are_readable(seq![Json::Text("KHR_materials_unlit"@)], d);
    json::lists_are_readable(seq![Json::Count(0)], f);
    let nodes = seq![("nodes"@, Json::List(seq![Json::Count(0)]))];
    json::objects_are_readable(nodes, e);
    json::lists_are_readable(seq![json::object(nodes)], d);
    json::objects_are_readable(seq![("mesh"@, Json::Count(0))], e);
    json::lists_are_readable(seq![json::object(seq![("mesh"@, Json::Count(0))])], d);
    json::objects_are_readable(attributes(), h);
    json::objects_are_readable(primitive(), g);
    json::lists_are_readable(seq![json::object(primitive())], f);
    let primitives = seq![("primitives"@, Json::List(seq![json::object(primitive())]))];
    json::objects_are_readable(primitives, e);
    json::lists_are_readable(seq![json::object(primitives)], d);
    leaves_are_readable(zero, g);
    leaves_are_readable(one, g);
    json::objects_are_readable(seq![("index"@, Json::Count(0))], g);
    json::objects_are_readable(surface(zero, one), f);
    json::objects_are_readable(seq![], g);
    json::objects_are_readable(seq![("KHR_materials_unlit"@, json::object(seq![]))], f);
    json::objects_are_readable(material(zero, one), e);
    json::lists_are_readable(seq![json::object(material(zero, one))], d);
    json::objects_are_readable(texture(), e);
    json::lists_are_readable(seq![json::object(texture())], d);
    json::objects_are_readable(sampler(), e);
    json::lists_are_readable(seq![json::object(sampler())], d);
    json::objects_are_readable(image(), e);
    json::lists_are_readable(seq![json::object(image())], d);
    let buffer = seq![("byteLength"@, Json::Count(l.total as u64))];
    json::objects_are_readable(buffer, e);
    json::lists_are_readable(seq![json::object(buffer)], d);
    assert forall|i: int| 0 <= i < lo.len() implies json::readable(#[trigger] lo[i], g) by {
        leaves_are_readable(lo[i], g);
    }
    assert forall|i: int| 0 <= i < hi.len() implies json::readable(#[trigger] hi[i], g) by {
        leaves_are_readable(hi[i], g);
    }
    json::lists_are_readable(lo, f);
    json::lists_are_readable(hi, f);
    json::objects_are_readable(accessor(0, UNSIGNED_INT, (3 * n.faces) as u64, "SCALAR"@), e);
    json::objects_are_readable(positions(n.vertices as u64, lo, hi), e);
    json::objects_are_readable(accessor(2, FLOAT, n.uvs as u64, "VEC2"@), e);
    json::lists_are_readable(accessors(n, lo, hi), d);
    json::objects_are_readable(view(l.indices, Some(ELEMENT_ARRAY)), e);
    json::objects_are_readable(view(l.positions, Some(ARRAY)), e);
    json::objects_are_readable(view(l.uvs, Some(ARRAY)), e);
    json::objects_are_readable(view(l.image, None), e);
    json::lists_are_readable(views(l), d);
    json::objects_are_readable(document(l, n, zero, one, lo, hi), depth);
}

/// Entry `i` of a list; null if there is none.
pub open spec fn entry(list: Json, i: Json) -> Json {
    match (list, i) {
        (Json::List(items), Json::Count(k)) => if k < items.len() {
            items[k as int]
        } else {
            Json::Null
        },
        _ => Json::Null,
    }
}

/// The member with a name that no later member has is found by it.
proof fn member_is_found(entries: Seq<(Seq<char>, Json)>, i: int)
    requires
        0 <= i < entries.len(),
        forall|j: int| i < j < entries.len() ==> (#[trigger] entries[j]).0 != entries[i].0,
    ensures
        json::member(json::object(entries), entries[i].0) == entries[i].1,
    decreases entries.len(),
{
    let rest = entries.drop_last();
    if i < entries.len() - 1 {
        assert(rest[i] == entries[i]);
        assert forall|j: int| i < j < rest.len() implies (#[trigger] rest[j]).0 != rest[i].0 by {
            assert(rest[j] == entries[j]);
        }
        member_is_found(rest, i);
        assert(entries.last().0 != entries[i].0);
    }
}

/// The top-level members are found by their names.
proof fn document_is_told(
    l: GlbLayout,
    n: Counts,
    zero: Json,
    one: Json,
    lo: Seq<Json>,
    hi: Seq<Json>,
)
    ensures
        ({
            let doc = json::object(document(l, n, zero, one, lo, hi));
            let all = document(l, n, zero, one, lo, hi);
            &&& json::member(doc, "scene"@) == all[2].1
            &&& json::member(doc, "scenes"@) == all[3].1
            &&& json::member(doc, "nodes"@) == all[4].1
            &&& json::member(doc, "meshes"@) == all[5].1
            &&& json::member(doc, "materials"@) == all[6].1
            &&& json::member(doc, "textures"@) == all[7].1
            &&& json::member(doc, "images"@) == all[9].1
            &&& json::member(doc, "accessors"@) == all[11].1
            &&& json::member(doc, "bufferViews"@) == all[12].1
        }),
{
    let all = document(l, n, zero, one, lo, hi);
    reveal_strlit("scene");
    assert("scene"@.len() == 5);
    reveal_strlit("scenes");
    assert("scenes"@.len() == 6);
    reveal_strlit("nodes");
    assert("nodes"@.len() == 5);
    reveal_strlit("meshes");
    assert("meshes"@.len() == 6);
    reveal_strlit("materials");
    assert("materials"@.len() == 9);
    reveal_strlit("textures");
    assert("textures"@.len() == 8);
    reveal_strlit("samplers");
    assert("samplers"@.len() == 8);
    reveal_strlit("images");
    assert("images"@.len() == 6);
    reveal_strlit("buffers");
    assert("buffers"@.len() == 7);
    reveal_strlit("accessors");
    assert("accessors"@.len() == 9);
    reveal_strlit("bufferViews");
    assert("bufferViews"@.len() == 11);
    assert("meshes"@[0] != "images"@[0]);
    assert("materials"@[0] != "accessors"@[0]);
    assert("textures"@[0] != "samplers"@[0]);
    assert("scenes"@[0] != "meshes"@[0] && "scenes"@[0] != "images"@[0]);
    assert("scene"@[0] != "nodes"@[0]);
    member_is_found(all, 2);
    member_is_found(all, 3);
    member_is_found(all, 4);
    member_is_found(all, 5);
    member_is_found(all, 6);
    member_is_found(all, 7);
    member_is_found(all, 9);
    member_is_found(all, 11);
    member_is_found(all, 12);
}

/// A buffer view says where the part is, how long it is and what it is for.
proof fn view_is_told_in_full(v: BufferView, target: Option<u64>)
    ensures
        json::member(json::object(view(v, target)), "byteOffset"@) == Json::Count(v.offset as u64),
        json::member(json::object(view(v, target)), "byteLength"@) == Json::Count(v.length as u64),
        json::member(json::object(view(v, target)), "buffer"@) == Json::Count(0),
        target matches Some(t) ==> json::member(json::object(view(v, target)), "target"@)
            == Json::Count(t),
{
    reveal_strlit("target");
    assert("target"@.len() == 6);
    reveal_strlit("buffer");
    assert("buffer"@.len() == 6);
    reveal_strlit("byteOffset");
    assert("byteOffset"@.len() == 10);
    reveal_strlit("byteLength");
    assert("byteLength"@.len() == 10);
    assert("target"@[0] != "buffer"@[0]);
    assert("byteOffset"@[4] != "byteLength"@[4]);
    let all = view(v, target);
    let k = all.len() - 3;
    member_is_found(all, k);
    member_is_found(all, k + 1);
    member_is_found(all, k + 2);
    if target is Some {
        member_is_found(all, 0);
    }
}

/// An accessor says which buffer view it reads, and what it reads there.
proof fn accessor_is_told(view: u64, component: u64, n: u64, kind: Seq<char>)
    ensures
        ({
            let a = json::object(accessor(view, component, n, kind));
            &&& json::member(a, "bufferView"@) == Json::Count(view)
            &&& json::member(a, "componentType"@) == Json::Count(component)
            &&& json::member(a, "count"@) == Json::Count(n)
            &&& json::member(a, "type"@) == Json::Text(kind)
        }),
{
    reveal_strlit("bufferView");
    assert("bufferView"@.len() == 10);
    reveal_strlit("componentType");
    assert("componentType"@.len() == 13);
    reveal_strlit("count");
    assert("count"@.len() == 5);
    reveal_strlit("type");
    assert("type"@.len() == 4);
    let all = accessor(view, component, n, kind);
    member_is_found(all, 0);
    member_is_found(all, 1);
    member_is_found(all, 2);
    member_is_found(all, 3);
}

proof fn positions_are_told(n: u64, lo: Seq<Json>, hi: Seq<Json>)
    ensures
        ({
            let a = json::object(positions(n, lo, hi));
            &&& json::member(a, "bufferView"@) == Json::Count(1)
            &&& json::member(a, "componentType"@) == Json::Count(FLOAT)
            &&& json::member(a, "count"@) == Json::Count(n)
            &&& json::member(a, "type"@) == Json::Text("VEC3"@)
            &&& json::member(a, "min"@) == Json::List(lo)
            &&& json::member(a, "max"@) == Json::List(hi)
        }),
{
    reveal_strlit("bufferView");
    assert("bufferView"@.len() == 10);
    reveal_strlit("componentType");
    assert("componentType"@.len() == 13);
    reveal_strlit("count");
    assert("count"@.len() == 5);
    reveal_strlit("type");
    assert("type"@.len() == 4);
    reveal_strlit("min");
    assert("min"@.len() == 3);
    reveal_strlit("max");
    assert("max"@.len() == 3);
    assert("min"@[1] != "max"@[1]);
    let all = positions(n, lo, hi);
    member_is_found(all, 0);
    member_is_found(all, 1);
    member_is_found(all, 2);
    member_is_found(all, 3);
    member_is_found(all, 4);
    member_is_found(all, 5);
}

proof fn primitive_is_told()
    ensures
        ({
            let p = json::object(primitive());
            &&& json::member(p, "indices"@) == Json::Count(0)
            &&& json::member(p, "material"@) == Json::Count(0)
            &&& json::member(json::member(p, "attributes"@), "POSITION"@) == Json::Count(1)
            &&& json::member(json::member(p, "attributes"@), "TEXCOORD_0"@) == Json::Count(2)
        }),
{
    reveal_strlit("attributes");
    assert("attributes"@.len() == 10);
    reveal_strlit("indices");
    assert("indices"@.len() == 7);
    reveal_strlit("material");
    assert("material"@.len() == 8);
    reveal_strlit("POSITION");
    assert("POSITION"@.len() == 8);
    reveal_strlit("TEXCOORD_0");
    assert("TEXCOORD_0"@.len() == 10);
    member_is_found(primitive(), 0);
    member_is_found(primitive(), 1);
    member_is_found(primitive(), 2);
    member_is_found(attributes(), 0);
    member_is_found(attributes(), 1);
}

proof fn material_is_told(zero: Json, one: Json)
    ensures
        ({
            let m = json::object(material(zero, one));
            let s = json::member(m, "pbrMetallicRoughness"@);
            &&& json::member(json::member(s, "baseColorTexture"@), "index"@) == Json::Count(0)
            &&& json::member(m, "doubleSided"@) == Json::Bool(true)
        }),
        json::member(json::object(texture()), "source"@) == Json::Count(0),
        json::member(json::object(image()), "bufferView"@) == Json::Count(3),
        json::member(json::object(image()), "mimeType"@) == Json::Text("image/png"@),
{
    reveal_strlit("pbrMetallicRoughness");
    assert("pbrMetallicRoughness"@.len() == 20);
    reveal_strlit("extensions");
    assert("extensions"@.len() == 10);
    reveal_strlit("doubleSided");
    assert("doubleSided"@.len() == 11);
    reveal_strlit("baseColorTexture");
    assert("baseColorTexture"@.len() == 16);
    reveal_strlit("metallicFactor");
    assert("metallicFactor"@.len() == 14);
    reveal_strlit("roughnessFactor");
    assert("roughnessFactor"@.len() == 15);
    reveal_strlit("index");
    assert("index"@.len() == 5);
    reveal_strlit("source");
    assert("source"@.len() == 6);
    reveal_strlit("sampler");
    assert("sampler"@.len() == 7);
    reveal_strlit("bufferView");
    assert("bufferView"@.len() == 10);
    reveal_strlit("mimeType");
    assert("mimeType"@.len() == 8);
    member_is_found(material(zero, one), 0);
    member_is_found(material(zero, one), 2);
    member_is_found(surface(zero, one), 0);
    member_is_found(seq![("index"@, Json::Count(0))], 0);
    member_is_found(texture(), 0);
    member_is_found(image(), 0);
    member_is_found(image(), 1);
}

/// The first part of the first mesh of a document.
pub open spec fn first_part(doc: Json) -> Json {
    let mesh = entry(json::member(doc, "meshes"@), Json::Count(0));
    entry(json::member(mesh, "primitives"@), Json::Count(0))
}

/// An accessor reads `count` values of this kind from the part of the binary chunk at `place`.
pub open spec fn reads_part(
    doc: Json,
    which: Json,
    place: BufferView,
    count: int,
    component: u64,
    kind: Seq<char>,
) -> bool {
    let a = entry(json::member(doc, "accessors"@), which);
    let v = entry(json::member(doc, "bufferViews"@), json::member(a, "bufferView"@));
    &&& json::member(a, "componentType"@) == Json::Count(component)
    &&& json::member(a, "type"@) == Json::Text(kind)
    &&& json::member(a, "count"@) == Json::Count(count as u64)
    &&& json::member(v, "buffer"@) == Json::Count(0)
    &&& json::member(v, "byteOffset"@) == Json::Count(place.offset as u64)
    &&& json::member(v, "byteLength"@) == Json::Count(place.length as u64)
}

/// Who follows the references of the document finds the parts of the mesh: the corners of the
/// faces, three for each, as 32-bit words; the vertices as three single-precision numbers each,
/// with their bounding box; and the UVs as two such numbers each.
pub proof fn references_lead_to_the_mesh(
    l: GlbLayout,
    n: Counts,
    zero: Json,
    one: Json,
    lo: Seq<Json>,
    hi: Seq<Json>,
)
    requires
        3 * n.faces <= u32::MAX,
    ensures
        ({
            let doc = json::object(document(l, n, zero, one, lo, hi));
            let part = first_part(doc);
            let attributes = json::member(part, "attributes"@);
            let at = json::member(attributes, "POSITION"@);
            let place = entry(json::member(doc, "accessors"@), at);
            &&& reads_part(
                doc,
                json::member(part, "indices"@),
                l.indices,
                3 * n.faces,
                5125,
                "SCALAR"@,
            )
            &&& reads_part(doc, at, l.positions, n.vertices as int, 5126, "VEC3"@)
            &&& reads_part(
                doc,
                json::member(attributes, "TEXCOORD_0"@),
                l.uvs,
                n.uvs as int,
                5126,
                "VEC2"@,
            )
            &&& json::member(place, "min"@) == Json::List(lo)
            &&& json::member(place, "max"@) == Json::List(hi)
        }),
{
    document_is_told(l, n, zero, one, lo, hi);
    let part = seq![("primitives"@, Json::List(seq![json::object(primitive())]))];
    member_is_found(part, 0);
    primitive_is_told();
    accessor_is_told(0, UNSIGNED_INT, (3 * n.faces) as u64, "SCALAR"@);
    accessor_is_told(2, FLOAT, n.uvs as u64, "VEC2"@);
    positions_are_told(n.vertices as u64, lo, hi);
    view_is_told_in_full(l.indices, Some(ELEMENT_ARRAY));
    view_is_told_in_full(l.positions, Some(ARRAY));
    view_is_told_in_full(l.uvs, Some(ARRAY));
    let doc = json::object(document(l, n, zero, one, lo, hi));
    assert(first_part(doc) == json::object(primitive()));
}

/// The material of the mesh is seen from both sides, and its colour is the image of the file.
pub proof fn references_lead_to_the_image(
    l: GlbLayout,
    n: Counts,
    zero: Json,
    one: Json,
    lo: Seq<Json>,
    hi: Seq<Json>,
)
    ensures
        ({
            let doc = json::object(document(l, n, zero, one, lo, hi));
            let m = entry(
                json::member(doc, "materials"@),
                json::member(first_part(doc), "material"@),
            );
            let colour = json::member(
                json::member(json::member(m, "pbrMetallicRoughness"@), "baseColorTexture"@),
                "index"@,
            );
            let source = json::member(entry(json::member(doc, "textures"@), colour), "source"@);
            let picture = entry(json::member(doc, "images"@), source);
            let v = entry(
                json::member(doc, "bufferViews"@),
                json::member(picture, "bufferView"@),
            );
            &&& json::member(m, "doubleSided"@) == Json::Bool(true)
            &&& json::member(picture, "mimeType"@) == Json::Text("image/png"@)
            &&& json::member(v, "byteOffset"@) == Json::Count(l.image.offset as u64)
            &&& json::member(v, "byteLength"@) == Json::Count(l.image.length as u64)
        }),
{
    document_is_told(l, n, zero, one, lo, hi);
    let part = seq![("primitives"@, Json::List(seq![json::object(primitive())]))];
    member_is_found(part, 0);
    primitive_is_told();
    material_is_told(zero, one);
    view_is_told_in_full(l.image, None);
    let doc = json::object(document(l, n, zero, one, lo, hi));
    assert(first_part(doc) == json::object(primitive()));
}

} // verus!
