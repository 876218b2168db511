//! The resolved TMX map model: tilesets, layers, objects, typed properties,
//! and the packed-tile-reference codec.

use vstd::prelude::*;

use crate::tree::Tree;

verus! {

/// A numeric identifier as the TMX format uses it (object ids, property
/// object references, local tile ids).
pub type ID = u32;

pub type PairU32 = (u32, u32);

/// A signed decimal number kept exact: `mantissa / 10^scale`, negated when
/// `neg` holds.  It stands for the fractional attribute values of the TMX
/// format (positions, opacity, rotation, parallax factors).
#[derive(Debug, Clone, Copy, PartialEq, Eq, Structural)]
pub struct Decimal {
    pub neg: bool,
    pub mantissa: u64,
    pub scale: u32,
}

/// A pair of decimal coordinates.
pub type PairDec = (Decimal, Decimal);

/// A global tile identifier, unique across all tilesets of a document.
/// `0` is the reserved "no tile" sentinel.
#[derive(Debug, Clone, Copy, PartialEq, Eq, PartialOrd, Ord, Structural)]
pub struct Gid(pub u32);

/// Bit 31 of a packed tile reference: the tile is flipped horizontally.
pub const FLIPPED_HORIZONTALLY_FLAG: u32 = 0x8000_0000;

/// Bit 30 of a packed tile reference: the tile is flipped vertically.
pub const FLIPPED_VERTICALLY_FLAG: u32 = 0x4000_0000;

/// Bit 29 of a packed tile reference: the tile is flipped along its diagonal.
pub const FLIPPED_DIAGONALLY_FLAG: u32 = 0x2000_0000;

/// All three flip bits together; the remaining 29 bits are the base id.
pub const ALL_FLIP_FLAGS: u32 = FLIPPED_HORIZONTALLY_FLAG | FLIPPED_VERTICALLY_FLAG
    | FLIPPED_DIAGONALLY_FLAG;

/// One cell of a tile layer: the base global id (flip bits already stripped)
/// and the three flip flags.
#[derive(Debug, Clone, Copy, PartialEq, Eq, Structural)]
pub struct LayerTile {
    pub tile: Gid,
    pub flip_h: bool,
    pub flip_v: bool,
    pub flip_d: bool,
}

/// What a packed 32-bit tile reference decodes to: nothing when the base id
/// (the reference with its three flag bits masked off) is `0`, otherwise the
/// base id and one flag per reserved bit.  Total: defined for every `bits`.
pub open spec fn spec_decode_tile(bits: u32) -> Option<LayerTile> {
    if bits & !ALL_FLIP_FLAGS == 0 {
        None
    } else {
        Some(
            LayerTile {
                tile: Gid(bits & !ALL_FLIP_FLAGS),
                flip_h: bits & FLIPPED_HORIZONTALLY_FLAG == FLIPPED_HORIZONTALLY_FLAG,
                flip_v: bits & FLIPPED_VERTICALLY_FLAG == FLIPPED_VERTICALLY_FLAG,
                flip_d: bits & FLIPPED_DIAGONALLY_FLAG == FLIPPED_DIAGONALLY_FLAG,
            },
        )
    }
}

/// The packed reference for a base id and three flip flags.
pub open spec fn spec_encode_tile(id: u32, flip_h: bool, flip_v: bool, flip_d: bool) -> u32 {
    id | (if flip_h {
        FLIPPED_HORIZONTALLY_FLAG
    } else {
        0
    }) | (if flip_v {
        FLIPPED_VERTICALLY_FLAG
    } else {
        0
    }) | (if flip_d {
        FLIPPED_DIAGONALLY_FLAG
    } else {
        0
    })
}

/// Unpacks a 32-bit tile reference: the three high bits become the flip
/// flags, the rest the base id; a base id of `0` means "no tile here" and
/// yields `None` whatever the flag bits say.
pub fn decode_tile(bits: u32) -> (r: Option<LayerTile>)
    ensures
        r == spec_decode_tile(bits),
{
    let flags: u32 = bits & ALL_FLIP_FLAGS;
    let gid: u32 = bits & !ALL_FLIP_FLAGS;
    let flip_d: bool = flags & FLIPPED_DIAGONALLY_FLAG == FLIPPED_DIAGONALLY_FLAG;
    let flip_h: bool = flags & FLIPPED_HORIZONTALLY_FLAG == FLIPPED_HORIZONTALLY_FLAG;
    let flip_v: bool = flags & FLIPPED_VERTICALLY_FLAG == FLIPPED_VERTICALLY_FLAG;
    proof {
        assert((bits & 0xe000_0000u32) & 0x2000_0000u32 == bits & 0x2000_0000u32)
            by (bit_vector);
        assert((bits & 0xe000_0000u32) & 0x8000_0000u32 == bits & 0x8000_0000u32)
            by (bit_vector);
        assert((bits & 0xe000_0000u32) & 0x4000_0000u32 == bits & 0x4000_0000u32)
            by (bit_vector);
        assert(ALL_FLIP_FLAGS == 0xe000_0000u32) by (bit_vector);
    }
    if gid == 0 {
        None
    } else {
        Some(LayerTile { tile: Gid(gid), flip_h, flip_v, flip_d })
    }
}

/// Packs a base id and three flip flags back into a 32-bit reference; the
/// inverse of [`decode_tile`] for ids below 2^29.
pub fn encode_tile(id: u32, flip_h: bool, flip_v: bool, flip_d: bool) -> (r: u32)
    ensures
        r == spec_encode_tile(id, flip_h, flip_v, flip_d),
{
    let h: u32 = if flip_h {
        FLIPPED_HORIZONTALLY_FLAG
    } else {
        0
    };
    let v: u32 = if flip_v {
        FLIPPED_VERTICALLY_FLAG
    } else {
        0
    };
    let d: u32 = if flip_d {
        FLIPPED_DIAGONALLY_FLAG
    } else {
        0
    };
    id | h | v | d
}

/// Decoding is the inverse of encoding: for every base id below 2^29 other
/// than the empty sentinel `0`, packing `(id, h, v, d)` and unpacking again
/// yields exactly `(id, h, v, d)`.  (For id `0` the decoder yields `None`:
/// flags on an empty cell carry no information.)
pub proof fn lemma_tile_codec_round_trip(id: u32, flip_h: bool, flip_v: bool, flip_d: bool)
    requires
        id < 0x2000_0000,
    ensures
        id != 0 ==> spec_decode_tile(spec_encode_tile(id, flip_h, flip_v, flip_d)) == Some(
            LayerTile { tile: Gid(id), flip_h, flip_v, flip_d },
        ),
        id == 0 ==> spec_decode_tile(spec_encode_tile(id, flip_h, flip_v, flip_d)) is None,
{
    let h: u32 = if flip_h { 0x8000_0000u32 } else { 0u32 };
    let v: u32 = if flip_v { 0x4000_0000u32 } else { 0u32 };
    let d: u32 = if flip_d { 0x2000_0000u32 } else { 0u32 };
    let bits = spec_encode_tile(id, flip_h, flip_v, flip_d);
    assert(ALL_FLIP_FLAGS == 0xe000_0000u32) by (bit_vector);
    assert(bits == id | h | v | d);
    assert(id < 0x2000_0000u32 ==> (id | h | v | d) & !0xe000_0000u32 == id) by (bit_vector)
        requires
            h == 0x8000_0000u32 || h == 0u32,
            v == 0x4000_0000u32 || v == 0u32,
            d == 0x2000_0000u32 || d == 0u32,
    {
    }
    assert(id < 0x2000_0000u32 ==> ((id | h | v | d) & 0x8000_0000u32 == 0x8000_0000u32 <==> h
        == 0x8000_0000u32)) by (bit_vector)
        requires
            h == 0x8000_0000u32 || h == 0u32,
            v == 0x4000_0000u32 || v == 0u32,
            d == 0x2000_0000u32 || d == 0u32,
    {
    }
    assert(id < 0x2000_0000u32 ==> ((id | h | v | d) & 0x4000_0000u32 == 0x4000_0000u32 <==> v
        == 0x4000_0000u32)) by (bit_vector)
        requires
            h == 0x8000_0000u32 || h == 0u32,
            v == 0x4000_0000u32 || v == 0u32,
            d == 0x2000_0000u32 || d == 0u32,
    {
    }
    assert(id < 0x2000_0000u32 ==> ((id | h | v | d) & 0x2000_0000u32 == 0x2000_0000u32 <==> d
        == 0x2000_0000u32)) by (bit_vector)
        requires
            h == 0x8000_0000u32 || h == 0u32,
            v == 0x4000_0000u32 || v == 0u32,
            d == 0x2000_0000u32 || d == 0u32,
    {
    }
}

/// Why a parse was rejected.  The first fatal condition aborts the whole
/// parse: no partial document is ever returned.
#[derive(Debug, Clone, PartialEq)]
pub enum TmxError {
    /// The input is not shaped like a map document (the root is not a `map`
    /// element, or a required child element is missing or malformed).
    Malformed,
    /// A required attribute is absent; carries the attribute name.
    MissingAttribute(String),
    /// An attribute or property value does not parse as its expected type,
    /// or a property declares an unknown type; carries the offending text.
    TypeCoercion(String),
    /// A construct the parser deliberately rejects (image layers, non-CSV
    /// tile data encodings); carries the construct's name.
    Unsupported(String),
    /// A tile grid cell's base id falls in no tileset's range; carries it.
    BadReference(u32),
    /// The CSV cell count does not divide evenly into rows, the data text is
    /// empty, or a grid's size disagrees with the map's declared size.
    BadShape,
}

/// The mathematical shape of a [`TmxError`]: the carried text abstracted to
/// a character sequence.
pub enum TmxErrorModel {
    Malformed,
    MissingAttribute(Seq<char>),
    TypeCoercion(Seq<char>),
    Unsupported(Seq<char>),
    BadReference(u32),
    BadShape,
}

impl View for TmxError {
    type V = TmxErrorModel;

    open spec fn view(&self) -> TmxErrorModel {
        match self {
            TmxError::Malformed => TmxErrorModel::Malformed,
            TmxError::MissingAttribute(s) => TmxErrorModel::MissingAttribute(s@),
            TmxError::TypeCoercion(s) => TmxErrorModel::TypeCoercion(s@),
            TmxError::Unsupported(s) => TmxErrorModel::Unsupported(s@),
            TmxError::BadReference(g) => TmxErrorModel::BadReference(*g),
            TmxError::BadShape => TmxErrorModel::BadShape,
        }
    }
}

/// A typed property value attached to a map element.
#[derive(Debug, Clone, PartialEq)]
pub enum TiledPropertyType {
    String(String),
    Int(i32),
    Float(Decimal),
    Bool(bool),
    /// A path, kept as the raw attribute text.
    File(String),
    /// The id of a referenced object (`0` when none is referenced).
    Object(ID),
}

/// Typed key/value metadata in document order; a later entry with the same
/// name shadows an earlier one, as in a map built by repeated insertion.
pub type Properties = Vec<(String, TiledPropertyType)>;

/// The index of the entry a name resolves to: the last entry with that name.
pub open spec fn spec_property_index(props: Seq<(String, TiledPropertyType)>, name: Seq<char>) -> int
    decreases props.len(),
{
    if props.len() == 0 {
        -1
    } else if props.last().0@ == name {
        props.len() - 1
    } else {
        spec_property_index(props.drop_last(), name)
    }
}

/// Looks a property up by name; the last entry with that name wins, and
/// `None` comes back exactly when no entry has that name.
pub fn property_lookup<'a>(props: &'a Properties, name: &str) -> (r: Option<
    &'a TiledPropertyType,
>)
    ensures
        match r {
            Some(v) => spec_property_index(props@, name@) >= 0 && *v == props@[spec_property_index(
                props@,
                name@,
            )].1,
            None => spec_property_index(props@, name@) == -1,
        },
{
    let n = props.len();
    proof {
        assert(props@.subrange(0, props@.len() as int) =~= props@);
    }
    let mut i = n;
    while i > 0
        invariant
            i <= n,
            n == props@.len(),
            spec_property_index(props@, name@) == spec_property_index(
                props@.subrange(0, i as int),
                name@,
            ),
        decreases i,
    {
        i = i - 1;
        let entry = &props[i];
        if crate::util::str_eq(entry.0.as_str(), name) {
            proof {
                assert(props@.subrange(0, i as int + 1).last() == props@[i as int]);
                assert(spec_property_index(props@.subrange(0, i as int + 1), name@) == i);
            }
            return Some(&entry.1);
        }
        proof {
            assert(props@.subrange(0, i as int + 1).drop_last() =~= props@.subrange(0, i as int));
            assert(props@.subrange(0, i as int + 1).last() == props@[i as int]);
            assert(spec_property_index(props@.subrange(0, i as int + 1), name@)
                == spec_property_index(props@.subrange(0, i as int), name@));
        }
    }
    proof {
        assert(props@.subrange(0, 0) =~= Seq::<(String, TiledPropertyType)>::empty());
    }
    None
}

/// The geometric kind of a map object; `Rectangle` is the default when no
/// shape child is present.
#[derive(Debug, Clone, PartialEq)]
pub enum ObjectType {
    /// The object's own position and size give the rectangle.
    Rectangle,
    /// The object's own position and size bound the ellipse.
    Ellipse,
    /// The object's own position locates the point.
    Point,
    /// Vertices relative to the object's position.
    Polygon(Vec<PairDec>),
    /// Vertices relative to the object's position, not closed.
    Polyline(Vec<PairDec>),
}

/// A colour with alpha, as `#AARRGGBB` text encodes it.
#[derive(Debug, Clone, Copy, PartialEq, Eq, Structural)]
pub struct Color {
    pub alpha: u8,
    pub red: u8,
    pub green: u8,
    pub blue: u8,
}

/// A placed object of an object layer or of a tile's collision data.
#[derive(Debug, PartialEq)]
pub struct Object {
    pub id: ID,
    pub position: PairDec,
    pub size: Option<PairDec>,
    /// In degrees.
    pub rotation: Decimal,
    /// Set when the object is attached to a tile.
    pub tile_global_id: Option<Gid>,
    pub visible: bool,
    pub otype: ObjectType,
    pub properties: Properties,
}

/// The data every layer kind shares, plus its `content` payload.
#[derive(Debug, PartialEq)]
pub struct Layer<T> {
    pub id: ID,
    pub name: String,
    pub content: T,
    pub visible: bool,
    pub opacity: Decimal,
    pub parallax: PairDec,
}

/// A tileset's source image: where it lives, its size in tiles, its format.
#[derive(Debug, PartialEq)]
pub struct Image {
    /// A path relative to the document's own location, kept as raw text.
    pub source: String,
    /// Columns and rows of tiles, derived from the pixel size.
    pub dimensions: PairU32,
    pub format: String,
}

/// The payload of an image layer.
#[derive(Debug, PartialEq)]
pub struct ImageStuff {
    pub repeatx: bool,
    pub repeaty: bool,
    pub image: Image,
}

/// Per-tile metadata inside a tileset: typed properties and the collision
/// objects of the tile's embedded object group.
#[derive(Debug, PartialEq)]
pub struct TileAuxInfo {
    pub properties: Properties,
    pub objects: Vec<Object>,
}

/// A named collection of tiles sharing one source image.  It owns the
/// contiguous global-id range starting at `first_gid`.
#[derive(Debug, PartialEq)]
pub struct TileSet {
    /// One tile's width and height in pixels.
    pub tile_size: PairU32,
    pub first_gid: ID,
    pub name: String,
    pub spacing: u8,
    pub margin: u8,
    pub image: Image,
    /// Per-tile metadata keyed by tileset-local id, in document order; a
    /// later entry with the same id shadows an earlier one.
    pub tile_stuff: Vec<(u32, TileAuxInfo)>,
}

/// A layer whose content is the two-dimensional grid of decoded tile cells.
pub type TileLayer = Layer<crate::grid::TileGrid>;

/// A layer whose content is its ordered list of objects.
pub type ObjectLayer = Layer<Vec<Object>>;

/// A layer whose content is a single repeatable image.
pub type ImageLayer = Layer<ImageStuff>;

/// One layer of the map: exactly one of the four kinds is active.  A group
/// carries no payload of its own; it owns children in the layer hierarchy.
#[derive(Debug)]
pub enum TiledLayer {
    Tile(TileLayer),
    Object(ObjectLayer),
    Image(ImageLayer),
    Group(Layer<()>),
}

/// The index of the per-tile entry a local id resolves to: the last entry
/// with that id.
pub open spec fn spec_tile_aux_index(stuff: Seq<(u32, TileAuxInfo)>, local_id: u32) -> int
    decreases stuff.len(),
{
    if stuff.len() == 0 {
        -1
    } else if stuff.last().0 == local_id {
        stuff.len() - 1
    } else {
        spec_tile_aux_index(stuff.drop_last(), local_id)
    }
}

impl TileSet {
    /// Looks the per-tile metadata of a tileset-local id up; the last entry
    /// with that id wins, and `None` comes back exactly when no entry has it.
    pub fn tile_aux(&self, local_id: u32) -> (r: Option<&TileAuxInfo>)
        ensures
            match r {
                Some(v) => spec_tile_aux_index(self.tile_stuff@, local_id) >= 0 && *v
                    == self.tile_stuff@[spec_tile_aux_index(self.tile_stuff@, local_id)].1,
                None => spec_tile_aux_index(self.tile_stuff@, local_id) == -1,
            },
    {
        let n = self.tile_stuff.len();
        proof {
            assert(self.tile_stuff@.subrange(0, self.tile_stuff@.len() as int)
                =~= self.tile_stuff@);
        }
        let mut i = n;
        while i > 0
            invariant
                i <= n,
                n == self.tile_stuff@.len(),
                spec_tile_aux_index(self.tile_stuff@, local_id) == spec_tile_aux_index(
                    self.tile_stuff@.subrange(0, i as int),
                    local_id,
                ),
            decreases i,
        {
            i = i - 1;
            let entry = &self.tile_stuff[i];
            proof {
                assert(self.tile_stuff@.subrange(0, i as int + 1).drop_last()
                    =~= self.tile_stuff@.subrange(0, i as int));
                assert(self.tile_stuff@.subrange(0, i as int + 1).last()
                    == self.tile_stuff@[i as int]);
            }
            if entry.0 == local_id {
                return Some(&entry.1);
            }
        }
        proof {
            assert(self.tile_stuff@.subrange(0, 0) =~= Seq::<(u32, TileAuxInfo)>::empty());
        }
        None
    }
}

/// The nested grouping of layers: groups (and the synthetic map root) are
/// tree nodes, terminal layers are leaves.
pub type LayerHierarchy = Tree<TiledLayer>;

/// The fully resolved map: the layer hierarchy, the map's size in tiles, one
/// tile's size in pixels, and the tilesets in document order.  Built once by
/// a single parse call; never mutated afterwards.
#[derive(Debug)]
pub struct TiledMap {
    pub layers: LayerHierarchy,
    /// Measured in tiles.
    pub grid_size: PairU32,
    /// Measured in pixels.
    pub tile_size: PairU32,
    pub tile_sets: Vec<TileSet>,
}

} // verus!
