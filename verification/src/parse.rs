//! The TMX document parser: walks a generic element tree and builds the
//! resolved map model.  Fail-fast: the first fatal condition aborts the whole
//! parse; optional attributes fall back to their documented defaults.

use vstd::prelude::*;

use crate::data_types::{
    Decimal, Gid, Image, Object, ObjectType, PairDec, Properties, TileAuxInfo, TileSet,
    TiledPropertyType, TmxError,
    TmxErrorModel,
};
use crate::util::{
    bool_parse, decimal_parse, i32_parse, parse_spaced_f32_pairs, spec_parse_bool,
    spec_parse_decimal, spec_parse_i32, spec_parse_pair, spec_parse_u32, spec_parse_u8, str_eq,
    u32_parse, u8_parse, ws_tokens,
};
use crate::data_types::{spec_decode_tile, Layer, LayerHierarchy, LayerTile, PairU32, TiledLayer, TiledMap};
use crate::tree::Tree;
use crate::grid::{grid_cells, grid_dim, TileGrid};
use crate::util::{csv_fields, csv_rows, row_fields};
use crate::xml::{spec_attr, Tag, Xml};

verus! {

/// The outcome of reading a required attribute: missing means
/// `MissingAttribute`, present but not an unsigned 32-bit number means
/// `TypeCoercion` carrying the raw text.
pub open spec fn spec_req_u32(attrs: Seq<(String, String)>, name: Seq<char>) -> Result<
    u32,
    TmxErrorModel,
> {
    match spec_attr(attrs, name) {
        Option::None => Err(TmxErrorModel::MissingAttribute(name)),
        Option::Some(v) => match spec_parse_u32(v) {
            Option::Some(x) => Ok(x),
            Option::None => Err(TmxErrorModel::TypeCoercion(v)),
        },
    }
}

fn req_attr_u32(t: &Tag, name: &str) -> (r: Result<u32, TmxError>)
    ensures
        match r {
            Ok(v) => spec_req_u32(t.attributes@, name@) == Ok::<u32, TmxErrorModel>(v),
            Err(e) => spec_req_u32(t.attributes@, name@) == Err::<u32, TmxErrorModel>(e@),
        },
{
    match t.get_attr(name) {
        Option::None => Err(TmxError::MissingAttribute(name.to_owned())),
        Option::Some(v) => match u32_parse(v.as_str()) {
            Option::Some(x) => Ok(x),
            Option::None => Err(TmxError::TypeCoercion(v.clone())),
        },
    }
}

/// The outcome of reading a required string attribute.
pub open spec fn spec_req_string(attrs: Seq<(String, String)>, name: Seq<char>) -> Result<
    Seq<char>,
    TmxErrorModel,
> {
    match spec_attr(attrs, name) {
        Option::None => Err(TmxErrorModel::MissingAttribute(name)),
        Option::Some(v) => Ok(v),
    }
}

fn req_attr_string(t: &Tag, name: &str) -> (r: Result<String, TmxError>)
    ensures
        match r {
            Ok(v) => spec_req_string(t.attributes@, name@) == Ok::<Seq<char>, TmxErrorModel>(v@),
            Err(e) => spec_req_string(t.attributes@, name@) == Err::<Seq<char>, TmxErrorModel>(e@),
        },
{
    match t.get_attr(name) {
        Option::None => Err(TmxError::MissingAttribute(name.to_owned())),
        Option::Some(v) => Ok(v.clone()),
    }
}

/// The outcome of reading an optional attribute of unsigned 8-bit type:
/// absent is fine (the caller applies its default), present but unparsable
/// is a coercion failure carrying the raw text.
pub open spec fn spec_opt_u8(attrs: Seq<(String, String)>, name: Seq<char>) -> Result<
    Option<u8>,
    TmxErrorModel,
> {
    match spec_attr(attrs, name) {
        Option::None => Ok(Option::None),
        Option::Some(v) => match spec_parse_u8(v) {
            Option::Some(x) => Ok(Option::Some(x)),
            Option::None => Err(TmxErrorModel::TypeCoercion(v)),
        },
    }
}

fn opt_attr_u8(t: &Tag, name: &str) -> (r: Result<Option<u8>, TmxError>)
    ensures
        match r {
            Ok(v) => spec_opt_u8(t.attributes@, name@) == Ok::<Option<u8>, TmxErrorModel>(v),
            Err(e) => spec_opt_u8(t.attributes@, name@) == Err::<Option<u8>, TmxErrorModel>(e@),
        },
{
    match t.get_attr(name) {
        Option::None => Ok(Option::None),
        Option::Some(v) => match u8_parse(v.as_str()) {
            Option::Some(x) => Ok(Option::Some(x)),
            Option::None => Err(TmxError::TypeCoercion(v.clone())),
        },
    }
}

/// The outcome of reading an optional attribute of unsigned 32-bit type.
pub open spec fn spec_opt_u32(attrs: Seq<(String, String)>, name: Seq<char>) -> Result<
    Option<u32>,
    TmxErrorModel,
> {
    match spec_attr(attrs, name) {
        Option::None => Ok(Option::None),
        Option::Some(v) => match spec_parse_u32(v) {
            Option::Some(x) => Ok(Option::Some(x)),
            Option::None => Err(TmxErrorModel::TypeCoercion(v)),
        },
    }
}

fn opt_attr_u32(t: &Tag, name: &str) -> (r: Result<Option<u32>, TmxError>)
    ensures
        match r {
            Ok(v) => spec_opt_u32(t.attributes@, name@) == Ok::<Option<u32>, TmxErrorModel>(v),
            Err(e) => spec_opt_u32(t.attributes@, name@) == Err::<Option<u32>, TmxErrorModel>(e@),
        },
{
    match t.get_attr(name) {
        Option::None => Ok(Option::None),
        Option::Some(v) => match u32_parse(v.as_str()) {
            Option::Some(x) => Ok(Option::Some(x)),
            Option::None => Err(TmxError::TypeCoercion(v.clone())),
        },
    }
}

/// The outcome of reading an optional attribute of decimal type.
pub open spec fn spec_opt_decimal(attrs: Seq<(String, String)>, name: Seq<char>) -> Result<
    Option<Decimal>,
    TmxErrorModel,
> {
    match spec_attr(attrs, name) {
        Option::None => Ok(Option::None),
        Option::Some(v) => match spec_parse_decimal(v) {
            Option::Some(x) => Ok(Option::Some(x)),
            Option::None => Err(TmxErrorModel::TypeCoercion(v)),
        },
    }
}

fn opt_attr_decimal(t: &Tag, name: &str) -> (r: Result<Option<Decimal>, TmxError>)
    ensures
        match r {
            Ok(v) => spec_opt_decimal(t.attributes@, name@) == Ok::<
                Option<Decimal>,
                TmxErrorModel,
            >(v),
            Err(e) => spec_opt_decimal(t.attributes@, name@) == Err::<
                Option<Decimal>,
                TmxErrorModel,
            >(e@),
        },
{
    match t.get_attr(name) {
        Option::None => Ok(Option::None),
        Option::Some(v) => match decimal_parse(v.as_str()) {
            Option::Some(x) => Ok(Option::Some(x)),
            Option::None => Err(TmxError::TypeCoercion(v.clone())),
        },
    }
}

/// The outcome of reading a required decimal attribute.
pub open spec fn spec_req_decimal(attrs: Seq<(String, String)>, name: Seq<char>) -> Result<
    Decimal,
    TmxErrorModel,
> {
    match spec_attr(attrs, name) {
        Option::None => Err(TmxErrorModel::MissingAttribute(name)),
        Option::Some(v) => match spec_parse_decimal(v) {
            Option::Some(x) => Ok(x),
            Option::None => Err(TmxErrorModel::TypeCoercion(v)),
        },
    }
}

fn req_attr_decimal(t: &Tag, name: &str) -> (r: Result<Decimal, TmxError>)
    ensures
        match r {
            Ok(v) => spec_req_decimal(t.attributes@, name@) == Ok::<Decimal, TmxErrorModel>(v),
            Err(e) => spec_req_decimal(t.attributes@, name@) == Err::<Decimal, TmxErrorModel>(e@),
        },
{
    match t.get_attr(name) {
        Option::None => Err(TmxError::MissingAttribute(name.to_owned())),
        Option::Some(v) => match decimal_parse(v.as_str()) {
            Option::Some(x) => Ok(x),
            Option::None => Err(TmxError::TypeCoercion(v.clone())),
        },
    }
}

/// The error a `property` element produces, if any: it must carry `name`,
/// `type` and `value` attributes; `type` must be one of the six known words,
/// else the coercion error carries the unknown word; the value must parse as
/// the declared type, else the coercion error carries the raw value.
pub open spec fn spec_property_err(x: Xml) -> Option<TmxErrorModel> {
    match x {
        Xml::Text(_) => Option::Some(TmxErrorModel::Malformed),
        Xml::Element(t, _) => {
            let a = t.attributes@;
            if spec_attr(a, "name"@) is None {
                Option::Some(TmxErrorModel::MissingAttribute("name"@))
            } else if spec_attr(a, "type"@) is None {
                Option::Some(TmxErrorModel::MissingAttribute("type"@))
            } else if spec_attr(a, "value"@) is None {
                Option::Some(TmxErrorModel::MissingAttribute("value"@))
            } else {
                let ty = spec_attr(a, "type"@)->Some_0;
                let v = spec_attr(a, "value"@)->Some_0;
                if ty == "string"@ || ty == "file"@ {
                    Option::None
                } else if ty == "int"@ {
                    if spec_parse_i32(v) is Some {
                        Option::None
                    } else {
                        Option::Some(TmxErrorModel::TypeCoercion(v))
                    }
                } else if ty == "float"@ {
                    if spec_parse_decimal(v) is Some {
                        Option::None
                    } else {
                        Option::Some(TmxErrorModel::TypeCoercion(v))
                    }
                } else if ty == "bool"@ {
                    if spec_parse_bool(v) is Some {
                        Option::None
                    } else {
                        Option::Some(TmxErrorModel::TypeCoercion(v))
                    }
                } else if ty == "object"@ {
                    if spec_parse_u32(v) is Some {
                        Option::None
                    } else {
                        Option::Some(TmxErrorModel::TypeCoercion(v))
                    }
                } else {
                    Option::Some(TmxErrorModel::TypeCoercion(ty))
                }
            }
        },
    }
}

/// The decoded pair a `property` element denotes: its name, and its value
/// read as the declared type.
pub open spec fn property_matches(x: Xml, p: (String, TiledPropertyType)) -> bool {
    match x {
        Xml::Element(t, _) => {
            let a = t.attributes@;
            &&& spec_attr(a, "name"@) == Option::Some(p.0@)
            &&& match p.1 {
                TiledPropertyType::String(s) => spec_attr(a, "type"@) == Option::Some("string"@)
                    && spec_attr(a, "value"@) == Option::Some(s@),
                TiledPropertyType::Int(v) => spec_attr(a, "type"@) == Option::Some("int"@)
                    && spec_parse_i32(spec_attr(a, "value"@)->Some_0) == Option::Some(v),
                TiledPropertyType::Float(d) => spec_attr(a, "type"@) == Option::Some("float"@)
                    && spec_parse_decimal(spec_attr(a, "value"@)->Some_0) == Option::Some(d),
                TiledPropertyType::Bool(b) => spec_attr(a, "type"@) == Option::Some("bool"@)
                    && spec_parse_bool(spec_attr(a, "value"@)->Some_0) == Option::Some(b),
                TiledPropertyType::File(s) => spec_attr(a, "type"@) == Option::Some("file"@)
                    && spec_attr(a, "value"@) == Option::Some(s@),
                TiledPropertyType::Object(id) => spec_attr(a, "type"@) == Option::Some("object"@)
                    && spec_parse_u32(spec_attr(a, "value"@)->Some_0) == Option::Some(id),
            }
        },
        Xml::Text(_) => false,
    }
}

/// Decodes one `property` element into its name and typed value.
pub fn parse_tmx_property(x: &Xml) -> (r: Result<(String, TiledPropertyType), TmxError>)
    ensures
        match r {
            Ok(p) => spec_property_err(*x) is None && property_matches(*x, p),
            Err(e) => spec_property_err(*x) == Option::Some(e@),
        },
{
    let t = match x {
        Xml::Element(t, _) => t,
        Xml::Text(_) => {
            return Err(TmxError::Malformed);
        },
    };
    let name = match req_attr_string(t, "name") {
        Ok(n) => n,
        Err(e) => {
            return Err(e);
        },
    };
    let ty = match req_attr_string(t, "type") {
        Ok(v) => v,
        Err(e) => {
            return Err(e);
        },
    };
    let value = match req_attr_string(t, "value") {
        Ok(v) => v,
        Err(e) => {
            return Err(e);
        },
    };
    if str_eq(ty.as_str(), "string") {
        Ok((name, TiledPropertyType::String(value)))
    } else if str_eq(ty.as_str(), "file") {
        Ok((name, TiledPropertyType::File(value)))
    } else if str_eq(ty.as_str(), "int") {
        match i32_parse(value.as_str()) {
            Option::Some(v) => Ok((name, TiledPropertyType::Int(v))),
            Option::None => Err(TmxError::TypeCoercion(value)),
        }
    } else if str_eq(ty.as_str(), "float") {
        match decimal_parse(value.as_str()) {
            Option::Some(v) => Ok((name, TiledPropertyType::Float(v))),
            Option::None => Err(TmxError::TypeCoercion(value)),
        }
    } else if str_eq(ty.as_str(), "bool") {
        match bool_parse(value.as_str()) {
            Option::Some(v) => Ok((name, TiledPropertyType::Bool(v))),
            Option::None => Err(TmxError::TypeCoercion(value)),
        }
    } else if str_eq(ty.as_str(), "object") {
        match u32_parse(value.as_str()) {
            Option::Some(v) => Ok((name, TiledPropertyType::Object(v))),
            Option::None => Err(TmxError::TypeCoercion(value)),
        }
    } else {
        Err(TmxError::TypeCoercion(ty))
    }
}

/// The index of the first child that is an element with the given tag name,
/// or the length when none is.
pub open spec fn first_tagged(cs: Seq<Xml>, name: Seq<char>) -> int
    decreases cs.len(),
{
    if cs.len() == 0 {
        0
    } else if cs[0].spec_tag_has_name(name) {
        0
    } else {
        1 + first_tagged(cs.skip(1), name)
    }
}

proof fn lemma_first_tagged_is(cs: Seq<Xml>, name: Seq<char>, k: int)
    requires
        0 <= k <= cs.len(),
        k < cs.len() ==> cs[k].spec_tag_has_name(name),
        forall|j: int| 0 <= j < k ==> !(#[trigger] cs[j]).spec_tag_has_name(name),
    ensures
        first_tagged(cs, name) == k,
    decreases cs.len(),
{
    if cs.len() == 0 {
    } else if cs[0].spec_tag_has_name(name) {
        assert(k == 0);
    } else {
        assert(k >= 1);
        assert forall|j: int| 0 <= j < k - 1 implies !(#[trigger] cs.skip(1)[j]).spec_tag_has_name(
            name,
        ) by {
            assert(cs.skip(1)[j] == cs[j + 1]);
        }
        assert(k - 1 < cs.skip(1).len() ==> cs.skip(1)[k - 1] == cs[k]);
        lemma_first_tagged_is(cs.skip(1), name, k - 1);
    }
}

/// Finds the first child element with the given tag name.
fn find_tagged<'a>(cs: &'a Vec<Xml>, name: &str) -> (r: Option<&'a Xml>)
    ensures
        match r {
            Some(v) => first_tagged(cs@, name@) < cs@.len() && *v == cs@[first_tagged(cs@, name@)]
                && v.spec_tag_has_name(name@),
            None => first_tagged(cs@, name@) == cs@.len(),
        },
{
    let n = cs.len();
    let mut i: usize = 0;
    while i < n
        invariant
            i <= n,
            n == cs@.len(),
            forall|j: int| 0 <= j < i ==> !(#[trigger] cs@[j]).spec_tag_has_name(name@),
        decreases n - i,
    {
        let c = &cs[i];
        if c.tag_has_name(name) {
            proof {
                lemma_first_tagged_is(cs@, name@, i as int);
            }
            return Some(c);
        }
        i += 1;
    }
    proof {
        lemma_first_tagged_is(cs@, name@, n as int);
    }
    None
}

/// The first error among a properties element's children, if any.
pub open spec fn spec_props_list_err(cs: Seq<Xml>) -> Option<TmxErrorModel>
    decreases cs.len(),
{
    if cs.len() == 0 {
        Option::None
    } else if spec_property_err(cs[0]) is Some {
        spec_property_err(cs[0])
    } else {
        spec_props_list_err(cs.skip(1))
    }
}

/// The error the `properties` child of `x` produces, if any: each child of
/// the first child element tagged `properties` must be a sound property
/// element; a `properties` element without a child list is malformed; an
/// absent `properties` child is fine (no properties).
pub open spec fn spec_properties_err(x: Xml) -> Option<TmxErrorModel> {
    match x {
        Xml::Element(_, Option::Some(v)) => {
            let pi = first_tagged(v@, "properties"@);
            if pi == v@.len() {
                Option::None
            } else {
                match v@[pi] {
                    Xml::Element(_, Option::Some(props)) => spec_props_list_err(props@),
                    _ => Option::Some(TmxErrorModel::Malformed),
                }
            }
        },
        _ => Option::None,
    }
}

/// The decoded properties of `x`: one entry per child of `x`'s `properties`
/// child element, in document order; empty when `x` has no children or no
/// `properties` child.
pub open spec fn properties_match(x: Xml, props: Seq<(String, TiledPropertyType)>) -> bool {
    match x {
        Xml::Element(_, Option::Some(v)) => {
            let pi = first_tagged(v@, "properties"@);
            if pi == v@.len() {
                props.len() == 0
            } else {
                match v@[pi] {
                    Xml::Element(_, Option::Some(cs)) => props.len() == cs@.len() && forall|k: int|
                        0 <= k < cs@.len() ==> property_matches(cs@[k], #[trigger] props[k]),
                    _ => false,
                }
            }
        },
        _ => props.len() == 0,
    }
}

/// `x` has a `properties` child element whose child list is `cs`.
pub open spec fn has_properties_list(x: Xml, cs: Seq<Xml>) -> bool {
    match x {
        Xml::Element(_, Option::Some(v)) => {
            let pi = first_tagged(v@, "properties"@);
            &&& pi < v@.len()
            &&& match v@[pi] {
                Xml::Element(_, Option::Some(ps)) => ps@ == cs,
                _ => false,
            }
        },
        _ => false,
    }
}

/// Decodes the typed properties attached to an element: the children of its
/// `properties` child, in document order; none is an empty list.
pub fn parse_tmx_properties(x: &Xml) -> (r: Result<Properties, TmxError>)
    ensures
        match r {
            Ok(props) => spec_properties_err(*x) is None && properties_match(*x, props@),
            Err(e) => spec_properties_err(*x) == Option::Some(e@),
        },
{
    let children = match x {
        Xml::Element(_, Option::Some(v)) => v,
        _ => {
            return Ok(Vec::new());
        },
    };
    let pelem = match find_tagged(children, "properties") {
        Option::Some(p) => p,
        Option::None => {
            return Ok(Vec::new());
        },
    };
    let pcs = match pelem {
        Xml::Element(_, Option::Some(cs)) => cs,
        _ => {
            return Err(TmxError::Malformed);
        },
    };
    let m = pcs.len();
    let mut out: Properties = Vec::new();
    proof {
        assert(pcs@.skip(0) =~= pcs@);
        assert(has_properties_list(*x, pcs@));
        assert(spec_properties_err(*x) == spec_props_list_err(pcs@));
    }
    let mut k: usize = 0;
    while k < m
        invariant
            k <= m,
            m == pcs@.len(),
            has_properties_list(*x, pcs@),
            spec_properties_err(*x) == spec_props_list_err(pcs@),
            spec_props_list_err(pcs@) == spec_props_list_err(pcs@.skip(k as int)),
            out@.len() == k,
            forall|j: int|
                0 <= j < k ==> property_matches(pcs@[j], #[trigger] out@[j]),
        decreases m - k,
    {
        proof {
            assert(pcs@.skip(k as int)[0] == pcs@[k as int]);
            assert(pcs@.skip(k as int).skip(1) =~= pcs@.skip(k as int + 1));
        }
        match parse_tmx_property(&pcs[k]) {
            Ok(p) => {
                out.push(p);
            },
            Err(e) => {
                return Err(e);
            },
        }
        k += 1;
    }
    proof {
        assert(pcs@.skip(m as int) =~= Seq::<Xml>::empty());
        assert(properties_match(*x, out@));
    }
    Ok(out)
}

/// The node is an element that declares an object's shape.
pub open spec fn spec_is_shape(x: Xml) -> bool {
    ||| x.spec_tag_has_name("ellipse"@)
    ||| x.spec_tag_has_name("point"@)
    ||| x.spec_tag_has_name("polygon"@)
    ||| x.spec_tag_has_name("polyline"@)
}

/// The index of the first shape child, or the length when none is.
pub open spec fn first_shape(cs: Seq<Xml>) -> int
    decreases cs.len(),
{
    if cs.len() == 0 {
        0
    } else if spec_is_shape(cs[0]) {
        0
    } else {
        1 + first_shape(cs.skip(1))
    }
}

proof fn lemma_first_shape_is(cs: Seq<Xml>, k: int)
    requires
        0 <= k <= cs.len(),
        k < cs.len() ==> spec_is_shape(cs[k]),
        forall|j: int| 0 <= j < k ==> !spec_is_shape(#[trigger] cs[j]),
    ensures
        first_shape(cs) == k,
    decreases cs.len(),
{
    if cs.len() == 0 {
    } else if spec_is_shape(cs[0]) {
        assert(k == 0);
    } else {
        assert(k >= 1);
        assert forall|j: int| 0 <= j < k - 1 implies !spec_is_shape(#[trigger] cs.skip(1)[j]) by {
            assert(cs.skip(1)[j] == cs[j + 1]);
        }
        assert(k - 1 < cs.skip(1).len() ==> cs.skip(1)[k - 1] == cs[k]);
        lemma_first_shape_is(cs.skip(1), k - 1);
    }
}

fn is_shape_elem(x: &Xml) -> (r: bool)
    ensures
        r == spec_is_shape(*x),
{
    x.tag_has_name("ellipse") || x.tag_has_name("point") || x.tag_has_name("polygon")
        || x.tag_has_name("polyline")
}

/// The first word of a `points` list that is no coordinate pair, as an
/// error, if any.
pub open spec fn spec_pairs_list_err(toks: Seq<Seq<char>>) -> Option<TmxErrorModel>
    decreases toks.len(),
{
    if toks.len() == 0 {
        Option::None
    } else if spec_parse_pair(toks[0]) is None {
        Option::Some(TmxErrorModel::TypeCoercion(toks[0]))
    } else {
        spec_pairs_list_err(toks.skip(1))
    }
}

proof fn lemma_pairs_list_err_at(toks: Seq<Seq<char>>, k: int)
    requires
        0 <= k < toks.len(),
        spec_parse_pair(toks[k]) is None,
        forall|j: int| 0 <= j < k ==> spec_parse_pair(#[trigger] toks[j]) is Some,
    ensures
        spec_pairs_list_err(toks) == Option::Some(TmxErrorModel::TypeCoercion(toks[k])),
    decreases toks.len(),
{
    if k > 0 {
        assert forall|j: int| 0 <= j < k - 1 implies spec_parse_pair(
            #[trigger] toks.skip(1)[j],
        ) is Some by {
            assert(toks.skip(1)[j] == toks[j + 1]);
        }
        assert(toks.skip(1)[k - 1] == toks[k]);
        assert(spec_parse_pair(toks[0]) is Some);
        lemma_pairs_list_err_at(toks.skip(1), k - 1);
    }
}

proof fn lemma_pairs_list_err_none(toks: Seq<Seq<char>>)
    requires
        forall|j: int| 0 <= j < toks.len() ==> spec_parse_pair(#[trigger] toks[j]) is Some,
    ensures
        spec_pairs_list_err(toks) is None,
    decreases toks.len(),
{
    if toks.len() > 0 {
        assert forall|j: int| 0 <= j < toks.skip(1).len() implies spec_parse_pair(
            #[trigger] toks.skip(1)[j],
        ) is Some by {
            assert(toks.skip(1)[j] == toks[j + 1]);
        }
        lemma_pairs_list_err_none(toks.skip(1));
    }
}

/// The error a `points` attribute text produces, if any: it must hold at
/// least one word, and every word must be a coordinate pair.
pub open spec fn spec_points_err(pv: Seq<char>) -> Option<TmxErrorModel> {
    if ws_tokens(pv).len() == 0 {
        Option::Some(TmxErrorModel::Malformed)
    } else {
        spec_pairs_list_err(ws_tokens(pv))
    }
}

/// The decoded vertex list a `points` attribute text denotes.
pub open spec fn points_match(pv: Seq<char>, ps: Seq<PairDec>) -> bool {
    &&& ps.len() == ws_tokens(pv).len()
    &&& forall|k: int|
        0 <= k < ps.len() ==> spec_parse_pair(#[trigger] ws_tokens(pv)[k]) == Option::Some(ps[k])
}

/// The error an object's shape children produce, if any: the first shape
/// child decides; a polygon or polyline must carry a sound `points`
/// attribute.
pub open spec fn spec_shape_err(c: Option<Vec<Xml>>) -> Option<TmxErrorModel> {
    match c {
        Option::None => Option::None,
        Option::Some(v) => {
            let si = first_shape(v@);
            if si == v@.len() {
                Option::None
            } else {
                match v@[si] {
                    Xml::Element(t, _) => {
                        if t.value@ == "polygon"@ || t.value@ == "polyline"@ {
                            match spec_attr(t.attributes@, "points"@) {
                                Option::None => Option::Some(
                                    TmxErrorModel::MissingAttribute("points"@),
                                ),
                                Option::Some(pv) => spec_points_err(pv),
                            }
                        } else {
                            Option::None
                        }
                    },
                    Xml::Text(_) => Option::None,
                }
            }
        },
    }
}

/// The shape the object's children declare: the first shape child decides;
/// none means a rectangle.
pub open spec fn shape_matches(c: Option<Vec<Xml>>, otype: ObjectType) -> bool {
    match c {
        Option::None => otype is Rectangle,
        Option::Some(v) => {
            let si = first_shape(v@);
            if si == v@.len() {
                otype is Rectangle
            } else {
                match v@[si] {
                    Xml::Element(t, _) => {
                        if t.value@ == "ellipse"@ {
                            otype is Ellipse
                        } else if t.value@ == "point"@ {
                            otype is Point
                        } else if t.value@ == "polygon"@ {
                            match otype {
                                ObjectType::Polygon(ps) => points_match(
                                    spec_attr(t.attributes@, "points"@)->Some_0,
                                    ps@,
                                ),
                                _ => false,
                            }
                        } else {
                            match otype {
                                ObjectType::Polyline(ps) => points_match(
                                    spec_attr(t.attributes@, "points"@)->Some_0,
                                    ps@,
                                ),
                                _ => false,
                            }
                        }
                    },
                    Xml::Text(_) => false,
                }
            }
        },
    }
}

/// Parses the shape children of an object element.
fn parse_shape(c: &Option<Vec<Xml>>) -> (r: Result<ObjectType, TmxError>)
    ensures
        match r {
            Ok(o) => spec_shape_err(*c) is None && shape_matches(*c, o),
            Err(e) => spec_shape_err(*c) == Option::Some(e@),
        },
{
    let v = match c {
        Option::None => {
            return Ok(ObjectType::Rectangle);
        },
        Option::Some(v) => v,
    };
    let n = v.len();
    let mut i: usize = 0;
    while i < n
        invariant
            i <= n,
            n == v@.len(),
            *c == Option::Some(*v),
            forall|j: int| 0 <= j < i ==> !spec_is_shape(#[trigger] v@[j]),
        decreases n - i,
    {
        let child = &v[i];
        if is_shape_elem(child) {
            proof {
                lemma_first_shape_is(v@, i as int);
                reveal_strlit("ellipse");
                reveal_strlit("point");
                reveal_strlit("polygon");
                reveal_strlit("polyline");
                assert("ellipse"@[0] != "polygon"@[0]);
                assert("ellipse"@.len() != "polyline"@.len());
                assert("point"@.len() != "polygon"@.len());
                assert("point"@.len() != "polyline"@.len());
                assert("ellipse"@ != "polygon"@ && "ellipse"@ != "polyline"@);
                assert("point"@ != "polygon"@ && "point"@ != "polyline"@);
            }
            let t = match child {
                Xml::Element(t, _) => t,
                Xml::Text(_) => {
                    proof {
                        assert(false);
                    }
                    return Ok(ObjectType::Rectangle);
                },
            };
            if str_eq(t.value.as_str(), "ellipse") {
                return Ok(ObjectType::Ellipse);
            } else if str_eq(t.value.as_str(), "point") {
                return Ok(ObjectType::Point);
            } else {
                let pv = match t.get_attr("points") {
                    Option::None => {
                        return Err(TmxError::MissingAttribute("points".to_owned()));
                    },
                    Option::Some(pv) => pv,
                };
                match parse_spaced_f32_pairs(pv.as_str()) {
                    Ok(ps) => {
                        proof {
                            lemma_pairs_list_err_none(ws_tokens(pv@));
                        }
                        if str_eq(t.value.as_str(), "polygon") {
                            return Ok(ObjectType::Polygon(ps));
                        } else {
                            proof {
                                assert(t.value@ == "polyline"@);
                            }
                            return Ok(ObjectType::Polyline(ps));
                        }
                    },
                    Err(e) => {
                        proof {
                            match e@ {
                                TmxErrorModel::TypeCoercion(tv) => {
                                    let bad = choose|k: int|
                                        0 <= k < ws_tokens(pv@).len() && spec_parse_pair(
                                            #[trigger] ws_tokens(pv@)[k],
                                        ) is None && (forall|j: int|
                                            0 <= j < k ==> spec_parse_pair(
                                                #[trigger] ws_tokens(pv@)[j],
                                            ) is Some) && tv == ws_tokens(pv@)[k];
                                    lemma_pairs_list_err_at(ws_tokens(pv@), bad);
                                },
                                _ => {},
                            }
                        }
                        return Err(e);
                    },
                }
            }
        }
        i += 1;
    }
    proof {
        lemma_first_shape_is(v@, n as int);
    }
    Ok(ObjectType::Rectangle)
}

/// The error an `object` element produces, if any, checked in the order the
/// fields are built: identity, placement, size, rotation, tile attachment,
/// visibility, shape, properties.  A node that is no `object` element is
/// skipped and produces no error.
pub open spec fn spec_object_err(x: Xml) -> Option<TmxErrorModel> {
    if !x.spec_tag_has_name("object"@) {
        Option::None
    } else {
        match x {
            Xml::Element(t, c) => {
                let a = t.attributes@;
                if spec_req_u32(a, "id"@) is Err {
                    Option::Some(spec_req_u32(a, "id"@)->Err_0)
                } else if spec_req_decimal(a, "x"@) is Err {
                    Option::Some(spec_req_decimal(a, "x"@)->Err_0)
                } else if spec_req_decimal(a, "y"@) is Err {
                    Option::Some(spec_req_decimal(a, "y"@)->Err_0)
                } else if spec_opt_decimal(a, "width"@) is Err {
                    Option::Some(spec_opt_decimal(a, "width"@)->Err_0)
                } else if spec_opt_decimal(a, "width"@)->Ok_0 is Some && spec_opt_decimal(
                    a,
                    "height"@,
                ) is Err {
                    Option::Some(spec_opt_decimal(a, "height"@)->Err_0)
                } else if spec_opt_decimal(a, "rotation"@) is Err {
                    Option::Some(spec_opt_decimal(a, "rotation"@)->Err_0)
                } else if spec_opt_u32(a, "gid"@) is Err {
                    Option::Some(spec_opt_u32(a, "gid"@)->Err_0)
                } else if spec_opt_u8(a, "visible"@) is Err {
                    Option::Some(spec_opt_u8(a, "visible"@)->Err_0)
                } else if spec_shape_err(c) is Some {
                    spec_shape_err(c)
                } else {
                    spec_properties_err(x)
                }
            },
            Xml::Text(_) => Option::None,
        }
    }
}

/// The decoded object an `object` element denotes: required id and position,
/// a size only when both extents are present, rotation defaulting to zero,
/// an optional tile attachment, visibility defaulting to shown, the shape of
/// the first shape child (a rectangle when there is none), its properties.
pub open spec fn object_matches(x: Xml, o: Object) -> bool {
    match x {
        Xml::Element(t, c) => {
            let a = t.attributes@;
            &&& x.spec_tag_has_name("object"@)
            &&& spec_req_u32(a, "id"@) == Ok::<u32, TmxErrorModel>(o.id)
            &&& spec_req_decimal(a, "x"@) == Ok::<Decimal, TmxErrorModel>(o.position.0)
            &&& spec_req_decimal(a, "y"@) == Ok::<Decimal, TmxErrorModel>(o.position.1)
            &&& o.size == (match spec_opt_decimal(a, "width"@)->Ok_0 {
                Option::Some(w) => match spec_opt_decimal(a, "height"@)->Ok_0 {
                    Option::Some(h) => Option::Some((w, h)),
                    Option::None => Option::None,
                },
                Option::None => Option::None::<PairDec>,
            })
            &&& o.rotation == (match spec_opt_decimal(a, "rotation"@)->Ok_0 {
                Option::Some(d) => d,
                Option::None => Decimal { neg: false, mantissa: 0, scale: 0 },
            })
            &&& o.tile_global_id == (match spec_opt_u32(a, "gid"@)->Ok_0 {
                Option::Some(g) => Option::Some(Gid(g)),
                Option::None => Option::None::<Gid>,
            })
            &&& o.visible == ((match spec_opt_u8(a, "visible"@)->Ok_0 {
                Option::Some(u) => u,
                Option::None => 1u8,
            }) == 1)
            &&& shape_matches(c, o.otype)
            &&& properties_match(x, o.properties@)
        },
        Xml::Text(_) => false,
    }
}

/// Decodes one `object` element; a node that is no `object` element yields
/// `None` and is skipped by callers.
pub fn object_parse(x: &Xml) -> (r: Result<Option<Object>, TmxError>)
    ensures
        match r {
            Ok(o) => match o {
                Option::Some(obj) => spec_object_err(*x) is None && object_matches(*x, obj),
                Option::None => !x.spec_tag_has_name("object"@),
            },
            Err(e) => spec_object_err(*x) == Option::Some(e@),
        },
{
    if !x.tag_has_name("object") {
        return Ok(Option::None);
    }
    let (t, c) = match x {
        Xml::Element(t, c) => (t, c),
        Xml::Text(_) => {
            proof {
                assert(false);
            }
            return Ok(Option::None);
        },
    };
    let id = match req_attr_u32(t, "id") {
        Ok(v) => v,
        Err(e) => {
            return Err(e);
        },
    };
    let px = match req_attr_decimal(t, "x") {
        Ok(v) => v,
        Err(e) => {
            return Err(e);
        },
    };
    let py = match req_attr_decimal(t, "y") {
        Ok(v) => v,
        Err(e) => {
            return Err(e);
        },
    };
    let width = match opt_attr_decimal(t, "width") {
        Ok(v) => v,
        Err(e) => {
            return Err(e);
        },
    };
    let size = match width {
        Option::Some(w) => match opt_attr_decimal(t, "height") {
            Ok(Option::Some(h)) => Option::Some((w, h)),
            Ok(Option::None) => Option::None,
            Err(e) => {
                return Err(e);
            },
        },
        Option::None => Option::None,
    };
    let rotation = match opt_attr_decimal(t, "rotation") {
        Ok(Option::Some(d)) => d,
        Ok(Option::None) => Decimal { neg: false, mantissa: 0, scale: 0 },
        Err(e) => {
            return Err(e);
        },
    };
    let gid = match opt_attr_u32(t, "gid") {
        Ok(Option::Some(g)) => Option::Some(Gid(g)),
        Ok(Option::None) => Option::None,
        Err(e) => {
            return Err(e);
        },
    };
    let visible = match opt_attr_u8(t, "visible") {
        Ok(Option::Some(u)) => u == 1,
        Ok(Option::None) => true,
        Err(e) => {
            return Err(e);
        },
    };
    let otype = match parse_shape(c) {
        Ok(o) => o,
        Err(e) => {
            return Err(e);
        },
    };
    let properties = match parse_tmx_properties(x) {
        Ok(p) => p,
        Err(e) => {
            return Err(e);
        },
    };
    Ok(
        Option::Some(
            Object {
                id,
                position: (px, py),
                size,
                rotation,
                tile_global_id: gid,
                visible,
                otype,
                properties,
            },
        ),
    )
}

/// The first error among the `object` children of a list, if any; nodes
/// that are no object elements are skipped.
pub open spec fn spec_objects_err(cs: Seq<Xml>) -> Option<TmxErrorModel>
    decreases cs.len(),
{
    if cs.len() == 0 {
        Option::None
    } else if spec_object_err(cs[0]) is Some {
        spec_object_err(cs[0])
    } else {
        spec_objects_err(cs.skip(1))
    }
}

/// The decoded objects of a child list: exactly the `object` children, in
/// document order, each decoded; other nodes leave no trace.
pub open spec fn objects_match(cs: Seq<Xml>, objs: Seq<Object>) -> bool
    decreases cs.len(),
{
    if cs.len() == 0 {
        objs.len() == 0
    } else if cs.last().spec_tag_has_name("object"@) {
        &&& objs.len() > 0
        &&& object_matches(cs.last(), objs.last())
        &&& objects_match(cs.drop_last(), objs.drop_last())
    } else {
        objects_match(cs.drop_last(), objs)
    }
}

/// Decodes every `object` child of a list, in order, skipping other nodes.
fn parse_objects(cs: &Vec<Xml>) -> (r: Result<Vec<Object>, TmxError>)
    ensures
        match r {
            Ok(objs) => spec_objects_err(cs@) is None && objects_match(cs@, objs@),
            Err(e) => spec_objects_err(cs@) == Option::Some(e@),
        },
{
    let n = cs.len();
    let mut out: Vec<Object> = Vec::new();
    proof {
        assert(cs@.skip(0) =~= cs@);
        assert(cs@.take(0) =~= Seq::<Xml>::empty());
    }
    let mut i: usize = 0;
    while i < n
        invariant
            i <= n,
            n == cs@.len(),
            spec_objects_err(cs@) == spec_objects_err(cs@.skip(i as int)),
            objects_match(cs@.take(i as int), out@),
        decreases n - i,
    {
        let ghost iq = i as int;
        proof {
            assert(cs@.skip(iq)[0] == cs@[iq]);
            assert(cs@.skip(iq).skip(1) =~= cs@.skip(iq + 1));
            assert(cs@.take(iq + 1).drop_last() =~= cs@.take(iq));
            assert(cs@.take(iq + 1).last() == cs@[iq]);
        }
        let ghost prev_out = out@;
        match object_parse(&cs[i]) {
            Ok(Option::Some(o)) => {
                out.push(o);
                proof {
                    assert(out@.drop_last() =~= prev_out);
                }
            },
            Ok(Option::None) => {
            },
            Err(e) => {
                return Err(e);
            },
        }
        i += 1;
        proof {
            assert(cs@.take(i as int) =~= cs@.take(iq + 1));
        }
    }
    proof {
        assert(cs@.take(n as int) =~= cs@);
        assert(cs@.skip(n as int) =~= Seq::<Xml>::empty());
    }
    Ok(out)
}

/// A child the tileset scan treats as a per-tile entry: an element tagged
/// `tile` that carries a child list.
pub open spec fn is_tile_entry(x: Xml) -> bool {
    &&& x.spec_tag_has_name("tile"@)
    &&& x matches Xml::Element(_, Option::Some(_))
}

/// The objects recorded for one tile: those of its first `objectgroup`
/// child; none, or an `objectgroup` without a child list, means no objects.
pub open spec fn tile_objects_match(elems: Seq<Xml>, objs: Seq<Object>) -> bool {
    let oi = first_tagged(elems, "objectgroup"@);
    if oi == elems.len() {
        objs.len() == 0
    } else {
        match elems[oi] {
            Xml::Element(_, Option::Some(ogs)) => objects_match(ogs@, objs),
            Xml::Element(_, Option::None) => objs.len() == 0,
            Xml::Text(_) => false,
        }
    }
}

/// The error a tile's embedded object group produces, if any.
pub open spec fn spec_tile_objects_err(elems: Seq<Xml>) -> Option<TmxErrorModel> {
    let oi = first_tagged(elems, "objectgroup"@);
    if oi == elems.len() {
        Option::None
    } else {
        match elems[oi] {
            Xml::Element(_, Option::Some(ogs)) => spec_objects_err(ogs@),
            _ => Option::None,
        }
    }
}

/// The error a per-tile entry produces, if any: it must carry a sound `id`,
/// sound properties and a sound embedded object group.  Other nodes are
/// skipped and produce no error.
pub open spec fn spec_tile_entry_err(x: Xml) -> Option<TmxErrorModel> {
    if !is_tile_entry(x) {
        Option::None
    } else {
        match x {
            Xml::Element(t, Option::Some(elems)) => {
                if spec_req_u32(t.attributes@, "id"@) is Err {
                    Option::Some(spec_req_u32(t.attributes@, "id"@)->Err_0)
                } else if spec_properties_err(x) is Some {
                    spec_properties_err(x)
                } else {
                    spec_tile_objects_err(elems@)
                }
            },
            _ => Option::None,
        }
    }
}

/// The decoded entry a per-tile element denotes: its local id with its
/// properties and collision objects.
pub open spec fn tile_entry_matches(x: Xml, entry: (u32, TileAuxInfo)) -> bool {
    match x {
        Xml::Element(t, Option::Some(elems)) => {
            &&& is_tile_entry(x)
            &&& spec_req_u32(t.attributes@, "id"@) == Ok::<u32, TmxErrorModel>(entry.0)
            &&& properties_match(x, entry.1.properties@)
            &&& tile_objects_match(elems@, entry.1.objects@)
        },
        _ => false,
    }
}

/// The first error among a tileset's per-tile entries, if any.
pub open spec fn spec_tiles_err(cs: Seq<Xml>) -> Option<TmxErrorModel>
    decreases cs.len(),
{
    if cs.len() == 0 {
        Option::None
    } else if spec_tile_entry_err(cs[0]) is Some {
        spec_tile_entry_err(cs[0])
    } else {
        spec_tiles_err(cs.skip(1))
    }
}

/// The decoded per-tile entries of a tileset's child list, in document
/// order; nodes that are no per-tile entries leave no trace.
pub open spec fn tiles_match(cs: Seq<Xml>, stuff: Seq<(u32, TileAuxInfo)>) -> bool
    decreases cs.len(),
{
    if cs.len() == 0 {
        stuff.len() == 0
    } else if is_tile_entry(cs.last()) {
        &&& stuff.len() > 0
        &&& tile_entry_matches(cs.last(), stuff.last())
        &&& tiles_match(cs.drop_last(), stuff.drop_last())
    } else {
        tiles_match(cs.drop_last(), stuff)
    }
}

/// Decodes one per-tile entry; a node that is no such entry yields `None`.
fn parse_tile_entry(x: &Xml) -> (r: Result<Option<(u32, TileAuxInfo)>, TmxError>)
    ensures
        match r {
            Ok(o) => match o {
                Option::Some(entry) => spec_tile_entry_err(*x) is None && tile_entry_matches(
                    *x,
                    entry,
                ),
                Option::None => !is_tile_entry(*x),
            },
            Err(e) => spec_tile_entry_err(*x) == Option::Some(e@),
        },
{
    if !x.tag_has_name("tile") {
        return Ok(Option::None);
    }
    let (t, elems) = match x {
        Xml::Element(t, Option::Some(elems)) => (t, elems),
        _ => {
            return Ok(Option::None);
        },
    };
    let id = match req_attr_u32(t, "id") {
        Ok(v) => v,
        Err(e) => {
            return Err(e);
        },
    };
    let properties = match parse_tmx_properties(x) {
        Ok(p) => p,
        Err(e) => {
            return Err(e);
        },
    };
    let objects = match find_tagged(elems, "objectgroup") {
        Option::None => Vec::new(),
        Option::Some(og) => match og {
            Xml::Element(_, Option::Some(ogs)) => match parse_objects(ogs) {
                Ok(objs) => objs,
                Err(e) => {
                    return Err(e);
                },
            },
            _ => Vec::new(),
        },
    };
    Ok(Option::Some((id, TileAuxInfo { properties, objects })))
}

/// Decodes every per-tile entry of a tileset's child list, in order.
fn parse_tiles(cs: &Vec<Xml>) -> (r: Result<Vec<(u32, TileAuxInfo)>, TmxError>)
    ensures
        match r {
            Ok(stuff) => spec_tiles_err(cs@) is None && tiles_match(cs@, stuff@),
            Err(e) => spec_tiles_err(cs@) == Option::Some(e@),
        },
{
    let n = cs.len();
    let mut out: Vec<(u32, TileAuxInfo)> = Vec::new();
    proof {
        assert(cs@.skip(0) =~= cs@);
        assert(cs@.take(0) =~= Seq::<Xml>::empty());
    }
    let mut i: usize = 0;
    while i < n
        invariant
            i <= n,
            n == cs@.len(),
            spec_tiles_err(cs@) == spec_tiles_err(cs@.skip(i as int)),
            tiles_match(cs@.take(i as int), out@),
        decreases n - i,
    {
        let ghost iq = i as int;
        proof {
            assert(cs@.skip(iq)[0] == cs@[iq]);
            assert(cs@.skip(iq).skip(1) =~= cs@.skip(iq + 1));
            assert(cs@.take(iq + 1).drop_last() =~= cs@.take(iq));
            assert(cs@.take(iq + 1).last() == cs@[iq]);
        }
        let ghost prev_out = out@;
        match parse_tile_entry(&cs[i]) {
            Ok(Option::Some(entry)) => {
                out.push(entry);
                proof {
                    assert(out@.drop_last() =~= prev_out);
                }
            },
            Ok(Option::None) => {
            },
            Err(e) => {
                return Err(e);
            },
        }
        i += 1;
        proof {
            assert(cs@.take(i as int) =~= cs@.take(iq + 1));
        }
    }
    proof {
        assert(cs@.take(n as int) =~= cs@);
        assert(cs@.skip(n as int) =~= Seq::<Xml>::empty());
    }
    Ok(out)
}

/// The error a `tileset` element produces, if any, checked in field order:
/// the gid range start, the tile size, the name, margin and spacing, then
/// the required `image` child (its source and its pixel size), a tile size
/// of zero (the image could not be divided into tiles), and finally the
/// per-tile entries.  A node that is no `tileset` element is skipped; one
/// without a child list cannot hold its required image child.
pub open spec fn spec_tileset_err(x: Xml) -> Option<TmxErrorModel> {
    if !x.spec_tag_has_name("tileset"@) {
        Option::None
    } else {
        match x {
            Xml::Element(t, Option::None) => Option::Some(TmxErrorModel::Malformed),
            Xml::Element(t, Option::Some(e)) => {
                let a = t.attributes@;
                if spec_req_u32(a, "firstgid"@) is Err {
                    Option::Some(spec_req_u32(a, "firstgid"@)->Err_0)
                } else if spec_req_u32(a, "tilewidth"@) is Err {
                    Option::Some(spec_req_u32(a, "tilewidth"@)->Err_0)
                } else if spec_req_u32(a, "tileheight"@) is Err {
                    Option::Some(spec_req_u32(a, "tileheight"@)->Err_0)
                } else if spec_req_string(a, "name"@) is Err {
                    Option::Some(spec_req_string(a, "name"@)->Err_0)
                } else if spec_opt_u8(a, "margin"@) is Err {
                    Option::Some(spec_opt_u8(a, "margin"@)->Err_0)
                } else if spec_opt_u8(a, "spacing"@) is Err {
                    Option::Some(spec_opt_u8(a, "spacing"@)->Err_0)
                } else {
                    let ii = first_tagged(e@, "image"@);
                    if ii == e@.len() {
                        Option::Some(TmxErrorModel::Malformed)
                    } else {
                        match e@[ii] {
                            Xml::Element(it, _) => {
                                let ia = it.attributes@;
                                if spec_req_string(ia, "source"@) is Err {
                                    Option::Some(spec_req_string(ia, "source"@)->Err_0)
                                } else if spec_req_u32(ia, "width"@) is Err {
                                    Option::Some(spec_req_u32(ia, "width"@)->Err_0)
                                } else if spec_req_u32(ia, "height"@) is Err {
                                    Option::Some(spec_req_u32(ia, "height"@)->Err_0)
                                } else if spec_req_u32(a, "tilewidth"@)->Ok_0 == 0 || spec_req_u32(
                                    a,
                                    "tileheight"@,
                                )->Ok_0 == 0 {
                                    Option::Some(TmxErrorModel::BadShape)
                                } else {
                                    spec_tiles_err(e@)
                                }
                            },
                            Xml::Text(_) => Option::None,
                        }
                    }
                }
            },
            Xml::Text(_) => Option::None,
        }
    }
}

/// The decoded tileset a `tileset` element denotes: its gid range start,
/// tile size, name, margin and spacing (defaulting to zero), its source
/// image with the pixel size divided down to tiles and the format
/// defaulting to `png`, and its per-tile entries in document order.
pub open spec fn tileset_matches(x: Xml, ts: TileSet) -> bool {
    match x {
        Xml::Element(t, Option::Some(e)) => {
            let a = t.attributes@;
            &&& x.spec_tag_has_name("tileset"@)
            &&& spec_req_u32(a, "firstgid"@) == Ok::<u32, TmxErrorModel>(ts.first_gid)
            &&& spec_req_u32(a, "tilewidth"@) == Ok::<u32, TmxErrorModel>(ts.tile_size.0)
            &&& spec_req_u32(a, "tileheight"@) == Ok::<u32, TmxErrorModel>(ts.tile_size.1)
            &&& ts.tile_size.0 > 0 && ts.tile_size.1 > 0
            &&& spec_req_string(a, "name"@) == Ok::<Seq<char>, TmxErrorModel>(ts.name@)
            &&& ts.margin == (match spec_opt_u8(a, "margin"@)->Ok_0 {
                Option::Some(m) => m,
                Option::None => 0u8,
            })
            &&& ts.spacing == (match spec_opt_u8(a, "spacing"@)->Ok_0 {
                Option::Some(sp) => sp,
                Option::None => 0u8,
            })
            &&& {
                let ii = first_tagged(e@, "image"@);
                &&& ii < e@.len()
                &&& match e@[ii] {
                    Xml::Element(it, _) => {
                        let ia = it.attributes@;
                        &&& ts.image.source@ == spec_req_string(ia, "source"@)->Ok_0
                        &&& ts.image.dimensions.0 == spec_req_u32(ia, "width"@)->Ok_0
                            / ts.tile_size.0
                        &&& ts.image.dimensions.1 == spec_req_u32(ia, "height"@)->Ok_0
                            / ts.tile_size.1
                        &&& ts.image.format@ == (match spec_attr(ia, "format"@) {
                            Option::Some(f) => f,
                            Option::None => "png"@,
                        })
                    },
                    Xml::Text(_) => false,
                }
            }
            &&& tiles_match(e@, ts.tile_stuff@)
        },
        _ => false,
    }
}

/// Decodes one `tileset` element; a node that is no `tileset` element
/// yields `None` and is skipped by callers.
pub fn tile_set_element(x: &Xml) -> (r: Result<Option<TileSet>, TmxError>)
    ensures
        match r {
            Ok(o) => match o {
                Option::Some(ts) => spec_tileset_err(*x) is None && tileset_matches(*x, ts),
                Option::None => !x.spec_tag_has_name("tileset"@),
            },
            Err(e) => spec_tileset_err(*x) == Option::Some(e@),
        },
{
    if !x.tag_has_name("tileset") {
        return Ok(Option::None);
    }
    let (t, e) = match x {
        Xml::Element(t, Option::Some(e)) => (t, e),
        Xml::Element(_, Option::None) => {
            return Err(TmxError::Malformed);
        },
        Xml::Text(_) => {
            proof {
                assert(false);
            }
            return Ok(Option::None);
        },
    };
    let first_gid = match req_attr_u32(t, "firstgid") {
        Ok(v) => v,
        Err(er) => {
            return Err(er);
        },
    };
    let tile_w = match req_attr_u32(t, "tilewidth") {
        Ok(v) => v,
        Err(er) => {
            return Err(er);
        },
    };
    let tile_h = match req_attr_u32(t, "tileheight") {
        Ok(v) => v,
        Err(er) => {
            return Err(er);
        },
    };
    let name = match req_attr_string(t, "name") {
        Ok(v) => v,
        Err(er) => {
            return Err(er);
        },
    };
    let margin = match opt_attr_u8(t, "margin") {
        Ok(Option::Some(m)) => m,
        Ok(Option::None) => 0,
        Err(er) => {
            return Err(er);
        },
    };
    let spacing = match opt_attr_u8(t, "spacing") {
        Ok(Option::Some(sp)) => sp,
        Ok(Option::None) => 0,
        Err(er) => {
            return Err(er);
        },
    };
    let img_elem = match find_tagged(e, "image") {
        Option::Some(img) => img,
        Option::None => {
            return Err(TmxError::Malformed);
        },
    };
    let it = match img_elem {
        Xml::Element(it, _) => it,
        Xml::Text(_) => {
            proof {
                assert(false);
            }
            return Err(TmxError::Malformed);
        },
    };
    let source = match req_attr_string(it, "source") {
        Ok(v) => v,
        Err(er) => {
            return Err(er);
        },
    };
    let img_w = match req_attr_u32(it, "width") {
        Ok(v) => v,
        Err(er) => {
            return Err(er);
        },
    };
    let img_h = match req_attr_u32(it, "height") {
        Ok(v) => v,
        Err(er) => {
            return Err(er);
        },
    };
    if tile_w == 0 || tile_h == 0 {
        return Err(TmxError::BadShape);
    }
    let format = match it.get_attr("format") {
        Option::Some(f) => f.clone(),
        Option::None => "png".to_owned(),
    };
    let tile_stuff = match parse_tiles(e) {
        Ok(stuff) => stuff,
        Err(er) => {
            return Err(er);
        },
    };
    Ok(
        Option::Some(
            TileSet {
                tile_size: (tile_w, tile_h),
                first_gid,
                name,
                spacing,
                margin,
                image: Image {
                    source,
                    dimensions: (img_w / tile_w, img_h / tile_h),
                    format,
                },
                tile_stuff,
            },
        ),
    )
}

/// The first error among the `tileset` children of a map element, if any.
pub open spec fn spec_tilesets_err(cs: Seq<Xml>) -> Option<TmxErrorModel>
    decreases cs.len(),
{
    if cs.len() == 0 {
        Option::None
    } else if spec_tileset_err(cs[0]) is Some {
        spec_tileset_err(cs[0])
    } else {
        spec_tilesets_err(cs.skip(1))
    }
}

/// The decoded tilesets of a map's child list: exactly the `tileset`
/// children, in document order, each decoded.
pub open spec fn tilesets_match(cs: Seq<Xml>, tss: Seq<TileSet>) -> bool
    decreases cs.len(),
{
    if cs.len() == 0 {
        tss.len() == 0
    } else if cs.last().spec_tag_has_name("tileset"@) {
        &&& tss.len() > 0
        &&& tileset_matches(cs.last(), tss.last())
        &&& tilesets_match(cs.drop_last(), tss.drop_last())
    } else {
        tilesets_match(cs.drop_last(), tss)
    }
}

/// Extracts every tileset of a map's child list, in document order.
pub fn get_tile_sets(elements: &Vec<Xml>) -> (r: Result<Vec<TileSet>, TmxError>)
    ensures
        match r {
            Ok(tss) => spec_tilesets_err(elements@) is None && tilesets_match(elements@, tss@),
            Err(e) => spec_tilesets_err(elements@) == Option::Some(e@),
        },
{
    let n = elements.len();
    let mut out: Vec<TileSet> = Vec::new();
    proof {
        assert(elements@.skip(0) =~= elements@);
        assert(elements@.take(0) =~= Seq::<Xml>::empty());
    }
    let mut i: usize = 0;
    while i < n
        invariant
            i <= n,
            n == elements@.len(),
            spec_tilesets_err(elements@) == spec_tilesets_err(elements@.skip(i as int)),
            tilesets_match(elements@.take(i as int), out@),
        decreases n - i,
    {
        let ghost iq = i as int;
        proof {
            assert(elements@.skip(iq)[0] == elements@[iq]);
            assert(elements@.skip(iq).skip(1) =~= elements@.skip(iq + 1));
            assert(elements@.take(iq + 1).drop_last() =~= elements@.take(iq));
            assert(elements@.take(iq + 1).last() == elements@[iq]);
        }
        let ghost prev_out = out@;
        match tile_set_element(&elements[i]) {
            Ok(Option::Some(ts)) => {
                out.push(ts);
                proof {
                    assert(out@.drop_last() =~= prev_out);
                }
            },
            Ok(Option::None) => {
            },
            Err(e) => {
                return Err(e);
            },
        }
        i += 1;
        proof {
            assert(elements@.take(i as int) =~= elements@.take(iq + 1));
        }
    }
    proof {
        assert(elements@.take(n as int) =~= elements@);
        assert(elements@.skip(n as int) =~= Seq::<Xml>::empty());
    }
    Ok(out)
}

/// The `first_gid` of each tileset, in order.
pub open spec fn first_gids_of(tss: Seq<TileSet>) -> Seq<u32> {
    Seq::new(tss.len(), |i: int| tss[i].first_gid)
}

/// What one packed cell reference decodes to, with the referential check
/// against the tilesets' range starts: nothing for the empty sentinel; a
/// decoded cell when some tileset's range starts at or below the base id;
/// otherwise the bad-reference error carrying that id.
pub open spec fn spec_cell(gids: Seq<u32>, bits: u32) -> Result<Option<LayerTile>, TmxErrorModel> {
    match spec_decode_tile(bits) {
        Option::None => Ok(Option::None),
        Option::Some(lt) => {
            if exists|j: int| 0 <= j < gids.len() && #[trigger] gids[j] <= lt.tile.0 {
                Ok(Option::Some(lt))
            } else {
                Err(TmxErrorModel::BadReference(lt.tile.0))
            }
        },
    }
}

/// Decodes one packed cell reference and checks that a non-empty cell
/// resolves to some tileset.
pub fn parse_tile_from_gid(tilesets: &Vec<TileSet>, bits: &u32) -> (r: Result<
    Option<LayerTile>,
    TmxError,
>)
    ensures
        match r {
            Ok(c) => spec_cell(first_gids_of(tilesets@), *bits) == Ok::<
                Option<LayerTile>,
                TmxErrorModel,
            >(c),
            Err(e) => spec_cell(first_gids_of(tilesets@), *bits) == Err::<
                Option<LayerTile>,
                TmxErrorModel,
            >(e@),
        },
{
    match crate::data_types::decode_tile(*bits) {
        Option::None => Ok(Option::None),
        Option::Some(lt) => {
            match crate::relations::get_tileset_for_gid(tilesets.as_slice(), lt.tile) {
                Option::Some(_) => {
                    proof {
                        let k = choose|k: int|
                            0 <= k < tilesets@.len() && (#[trigger] tilesets@[k]).first_gid
                                <= lt.tile.0;
                        assert(first_gids_of(tilesets@)[k] <= lt.tile.0);
                    }
                    Ok(Option::Some(lt))
                },
                Option::None => {
                    proof {
                        assert forall|j: int|
                            0 <= j < first_gids_of(tilesets@).len() implies !(#[trigger]
                        first_gids_of(tilesets@)[j] <= lt.tile.0) by {
                            assert(tilesets@[j].first_gid > lt.tile.0);
                        }
                    }
                    Err(TmxError::BadReference(lt.tile.0))
                },
            }
        },
    }
}

/// The index of the first raw-text child, or the length when none is.
pub open spec fn first_text(cs: Seq<Xml>) -> int
    decreases cs.len(),
{
    if cs.len() == 0 {
        0
    } else if cs[0] is Text {
        0
    } else {
        1 + first_text(cs.skip(1))
    }
}

proof fn lemma_first_text_is(cs: Seq<Xml>, k: int)
    requires
        0 <= k <= cs.len(),
        k < cs.len() ==> cs[k] is Text,
        forall|j: int| 0 <= j < k ==> !((#[trigger] cs[j]) is Text),
    ensures
        first_text(cs) == k,
    decreases cs.len(),
{
    if cs.len() == 0 {
    } else if cs[0] is Text {
        assert(k == 0);
    } else {
        assert(k >= 1);
        assert forall|j: int| 0 <= j < k - 1 implies !((#[trigger] cs.skip(1)[j]) is Text) by {
            assert(cs.skip(1)[j] == cs[j + 1]);
        }
        assert(k - 1 < cs.skip(1).len() ==> cs.skip(1)[k - 1] == cs[k]);
        lemma_first_text_is(cs.skip(1), k - 1);
    }
}

/// The first CSV field that is no unsigned 32-bit number, as an error.
pub open spec fn spec_fields_list_err(fields: Seq<Seq<char>>) -> Option<TmxErrorModel>
    decreases fields.len(),
{
    if fields.len() == 0 {
        Option::None
    } else if spec_parse_u32(fields[0]) is None {
        Option::Some(TmxErrorModel::TypeCoercion(fields[0]))
    } else {
        spec_fields_list_err(fields.skip(1))
    }
}

proof fn lemma_fields_list_err_at(fields: Seq<Seq<char>>, k: int)
    requires
        0 <= k < fields.len(),
        spec_parse_u32(fields[k]) is None,
        forall|j: int| 0 <= j < k ==> spec_parse_u32(#[trigger] fields[j]) is Some,
    ensures
        spec_fields_list_err(fields) == Option::Some(TmxErrorModel::TypeCoercion(fields[k])),
    decreases fields.len(),
{
    if k > 0 {
        assert forall|j: int| 0 <= j < k - 1 implies spec_parse_u32(
            #[trigger] fields.skip(1)[j],
        ) is Some by {
            assert(fields.skip(1)[j] == fields[j + 1]);
        }
        assert(fields.skip(1)[k - 1] == fields[k]);
        assert(spec_parse_u32(fields[0]) is Some);
        lemma_fields_list_err_at(fields.skip(1), k - 1);
    }
}

proof fn lemma_fields_list_err_none(fields: Seq<Seq<char>>)
    requires
        forall|j: int| 0 <= j < fields.len() ==> spec_parse_u32(#[trigger] fields[j]) is Some,
    ensures
        spec_fields_list_err(fields) is None,
    decreases fields.len(),
{
    if fields.len() > 0 {
        assert forall|j: int| 0 <= j < fields.skip(1).len() implies spec_parse_u32(
            #[trigger] fields.skip(1)[j],
        ) is Some by {
            assert(fields.skip(1)[j] == fields[j + 1]);
        }
        lemma_fields_list_err_none(fields.skip(1));
    }
}

/// The error a CSV tile text produces, if any: no usable row, a field that
/// is no number, or a total that does not divide by the first row's width.
pub open spec fn spec_csv_err(s: Seq<char>) -> Option<TmxErrorModel> {
    if csv_rows(s).len() == 0 {
        Option::Some(TmxErrorModel::BadShape)
    } else if spec_fields_list_err(csv_fields(s)) is Some {
        spec_fields_list_err(csv_fields(s))
    } else if csv_fields(s).len() % row_fields(csv_rows(s)[0]).len() != 0 {
        Option::Some(TmxErrorModel::BadShape)
    } else {
        Option::None
    }
}

/// The first decoded CSV value whose base id resolves to no tileset, as an
/// error.
pub open spec fn spec_cells_err(gids: Seq<u32>, vals: Seq<u32>) -> Option<TmxErrorModel>
    decreases vals.len(),
{
    if vals.len() == 0 {
        Option::None
    } else if spec_cell(gids, vals[0]) is Err {
        Option::Some(spec_cell(gids, vals[0])->Err_0)
    } else {
        spec_cells_err(gids, vals.skip(1))
    }
}

/// The error a `data` element produces, if any: a declared encoding other
/// than `csv` is unsupported; the element must carry raw text; the text must
/// be sound CSV whose shape equals the map's declared size in tiles; and
/// every non-empty cell must resolve to a tileset.
pub open spec fn spec_grid_err(gids: Seq<u32>, x: Xml, gs: PairU32) -> Option<TmxErrorModel> {
    match x {
        Xml::Element(t, Option::Some(c)) => {
            if (match spec_attr(t.attributes@, "encoding"@) {
                Option::Some(enc) => enc != "csv"@,
                Option::None => false,
            }) {
                Option::Some(
                    TmxErrorModel::Unsupported(spec_attr(t.attributes@, "encoding"@)->Some_0),
                )
            } else {
                let ti = first_text(c@);
                if ti == c@.len() {
                    Option::Some(TmxErrorModel::Malformed)
                } else {
                    match c@[ti] {
                        Xml::Text(s) => {
                            if spec_csv_err(s@) is Some {
                                spec_csv_err(s@)
                            } else {
                                let cols = row_fields(csv_rows(s@)[0]).len();
                                let total = csv_fields(s@).len();
                                if cols != gs.0 || total / cols != gs.1 {
                                    Option::Some(TmxErrorModel::BadShape)
                                } else {
                                    spec_cells_err(
                                        gids,
                                        Seq::new(
                                            total,
                                            |k: int| spec_parse_u32(csv_fields(s@)[k])->Some_0,
                                        ),
                                    )
                                }
                            }
                        },
                        _ => Option::Some(TmxErrorModel::Malformed),
                    }
                }
            }
        },
        _ => Option::Some(TmxErrorModel::Malformed),
    }
}

/// The decoded cell grid a `data` element denotes: the CSV fields decoded
/// in row-major order, each resolved against the tilesets, shaped exactly
/// as the map's declared size in tiles.
pub open spec fn grid_matches(gids: Seq<u32>, x: Xml, gs: PairU32, g: TileGrid) -> bool {
    match x {
        Xml::Element(_, Option::Some(c)) => {
            let ti = first_text(c@);
            &&& ti < c@.len()
            &&& match c@[ti] {
                Xml::Text(s) => {
                    let fields = csv_fields(s@);
                    &&& grid_dim(&g) == (gs.1 as int, gs.0 as int)
                    &&& grid_cells(&g).len() == fields.len()
                    &&& forall|k: int|
                        0 <= k < fields.len() ==> Ok::<Option<LayerTile>, TmxErrorModel>(
                            #[trigger] grid_cells(&g)[k],
                        ) == spec_cell(gids, spec_parse_u32(fields[k])->Some_0)
                },
                _ => false,
            }
        },
        _ => false,
    }
}

/// The `data` element `x` holds raw text `s` at its first text child.
pub open spec fn grid_text_ctx(x: Xml, s: Seq<char>) -> bool {
    match x {
        Xml::Element(_, Option::Some(c)) => {
            let ti = first_text(c@);
            &&& ti < c@.len()
            &&& match c@[ti] {
                Xml::Text(txt) => txt@ == s,
                _ => false,
            }
        },
        _ => false,
    }
}

/// Decodes the CSV text of a `data` element into the tile grid of one
/// layer, checking each cell against the tilesets and the grid's shape
/// against the map's declared size in tiles.
#[verifier::rlimit(60)]
pub fn grid_parse(tilesets: &Vec<TileSet>, x: &Xml, grid_size: PairU32) -> (r: Result<
    TileGrid,
    TmxError,
>)
    ensures
        match r {
            Ok(g) => spec_grid_err(first_gids_of(tilesets@), *x, grid_size) is None
                && grid_matches(first_gids_of(tilesets@), *x, grid_size, g),
            Err(e) => spec_grid_err(first_gids_of(tilesets@), *x, grid_size) == Option::Some(e@),
        },
{
    let (t, c) = match x {
        Xml::Element(t, Option::Some(c)) => (t, c),
        _ => {
            return Err(TmxError::Malformed);
        },
    };
    match t.get_attr("encoding") {
        Option::Some(enc) => {
            if !str_eq(enc.as_str(), "csv") {
                return Err(TmxError::Unsupported(enc.clone()));
            }
        },
        Option::None => {
        },
    }
    let n = c.len();
    let mut ti: usize = 0;
    while ti < n && c[ti].is_element()
        invariant
            ti <= n,
            n == c@.len(),
            forall|j: int| 0 <= j < ti ==> !((#[trigger] c@[j]) is Text),
        decreases n - ti,
    {
        ti += 1;
    }
    proof {
        lemma_first_text_is(c@, ti as int);
    }
    if ti == n {
        return Err(TmxError::Malformed);
    }
    let s = match &c[ti] {
        Xml::Text(s) => s,
        Xml::Element(_, _) => {
            proof {
                assert(false);
            }
            return Err(TmxError::Malformed);
        },
    };
    let grid = match crate::util::parse_tiles_csv(s.as_str()) {
        Ok(g) => g,
        Err(e) => {
            proof {
                match e@ {
                    TmxErrorModel::TypeCoercion(tv) => {
                        let bad = choose|k: int|
                            0 <= k < csv_fields(s@).len() && spec_parse_u32(
                                #[trigger] csv_fields(s@)[k],
                            ) is None && (forall|j: int|
                                0 <= j < k ==> spec_parse_u32(
                                    #[trigger] csv_fields(s@)[j],
                                ) is Some) && tv == csv_fields(s@)[k];
                        if csv_rows(s@).len() == 0 {
                            assert(csv_fields(s@) =~= Seq::<Seq<char>>::empty());
                        }
                        lemma_fields_list_err_at(csv_fields(s@), bad);
                    },
                    TmxErrorModel::BadShape => {
                        if csv_rows(s@).len() > 0 {
                            lemma_fields_list_err_none(csv_fields(s@));
                        }
                    },
                    _ => {},
                }
            }
            return Err(e);
        },
    };
    proof {
        lemma_fields_list_err_none(csv_fields(s@));
    }
    if grid.cols != grid_size.0 as usize || grid.rows != grid_size.1 as usize {
        proof {
            assert(csv_fields(s@).len() / row_fields(csv_rows(s@)[0]).len() == grid.rows as int)
                by (nonlinear_arith)
                requires
                    grid.cols > 0,
                    grid.rows * grid.cols == csv_fields(s@).len(),
                    grid.cols == row_fields(csv_rows(s@)[0]).len(),
            {
            }
        }
        return Err(TmxError::BadShape);
    }
    proof {
        assert(csv_fields(s@).len() / row_fields(csv_rows(s@)[0]).len() == grid.rows as int)
            by (nonlinear_arith)
            requires
                grid.cols > 0,
                grid.rows * grid.cols == csv_fields(s@).len(),
                grid.cols == row_fields(csv_rows(s@)[0]).len(),
        {
        }
    }
    let ghost gids = first_gids_of(tilesets@);
    let ghost vals = Seq::new(
        csv_fields(s@).len(),
        |k: int| spec_parse_u32(csv_fields(s@)[k])->Some_0,
    );
    proof {
        assert(grid.cells@ =~= vals);
        assert(grid_text_ctx(*x, s@));
        assert(csv_fields(s@).len() % row_fields(csv_rows(s@)[0]).len() == 0)
            by (nonlinear_arith)
            requires
                grid.cols > 0,
                grid.rows * grid.cols == csv_fields(s@).len(),
                grid.cols == row_fields(csv_rows(s@)[0]).len(),
        {
        }
        assert(spec_csv_err(s@) is None);
        assert(vals =~= Seq::new(
            csv_fields(s@).len(),
            |k: int| spec_parse_u32(csv_fields(s@)[k])->Some_0,
        ));
        assert(spec_grid_err(gids, *x, grid_size) == spec_cells_err(gids, vals));
        assert(vals.skip(0) =~= vals);
    }
    let total = grid.cells.len();
    let mut cells: Vec<Option<LayerTile>> = Vec::new();
    let mut k: usize = 0;
    while k < total
        invariant
            k <= total,
            total == grid.cells@.len(),
            grid.cells@ == vals,
            gids == first_gids_of(tilesets@),
            grid_text_ctx(*x, s@),
            vals.len() == csv_fields(s@).len(),
            forall|j: int|
                0 <= j < vals.len() ==> #[trigger] vals[j] == spec_parse_u32(
                    csv_fields(s@)[j],
                )->Some_0,
            grid.cols == grid_size.0 && grid.rows == grid_size.1,
            grid.rows * grid.cols == total,
            spec_grid_err(gids, *x, grid_size) == spec_cells_err(gids, vals),
            spec_cells_err(gids, vals) == spec_cells_err(gids, vals.skip(k as int)),
            cells@.len() == k,
            forall|j: int|
                0 <= j < k ==> Ok::<Option<LayerTile>, TmxErrorModel>(#[trigger] cells@[j])
                    == spec_cell(gids, vals[j]),
        decreases total - k,
    {
        let ghost kq = k as int;
        proof {
            assert(vals.skip(kq)[0] == vals[kq]);
            assert(vals.skip(kq).skip(1) =~= vals.skip(kq + 1));
        }
        match parse_tile_from_gid(tilesets, &grid.cells[k]) {
            Ok(cell) => {
                cells.push(cell);
            },
            Err(e) => {
                return Err(e);
            },
        }
        k += 1;
    }
    proof {
        assert(vals.skip(total as int) =~= Seq::<u32>::empty());
    }
    let g = TileGrid::from_row_major(grid.rows, grid.cols, cells);
    proof {
        assert(grid_matches(gids, *x, grid_size, g));
    }
    Ok(g)
}

/// The error a layer's shared attributes produce, if any, in field order:
/// id, name, visibility, opacity, the two parallax factors.
pub open spec fn spec_layer_attrs_err(a: Seq<(String, String)>) -> Option<TmxErrorModel> {
    if spec_req_u32(a, "id"@) is Err {
        Option::Some(spec_req_u32(a, "id"@)->Err_0)
    } else if spec_req_string(a, "name"@) is Err {
        Option::Some(spec_req_string(a, "name"@)->Err_0)
    } else if spec_opt_u8(a, "visible"@) is Err {
        Option::Some(spec_opt_u8(a, "visible"@)->Err_0)
    } else if spec_opt_decimal(a, "opacity"@) is Err {
        Option::Some(spec_opt_decimal(a, "opacity"@)->Err_0)
    } else if spec_opt_decimal(a, "parallaxx"@) is Err {
        Option::Some(spec_opt_decimal(a, "parallaxx"@)->Err_0)
    } else if spec_opt_decimal(a, "parallaxy"@) is Err {
        Option::Some(spec_opt_decimal(a, "parallaxy"@)->Err_0)
    } else {
        Option::None
    }
}

/// The shared layer data a tag denotes: required id and name, visibility
/// defaulting to shown, opacity and both parallax factors defaulting to one.
pub open spec fn layer_attrs_match<T>(a: Seq<(String, String)>, l: Layer<T>) -> bool {
    &&& spec_req_u32(a, "id"@) == Ok::<u32, TmxErrorModel>(l.id)
    &&& spec_req_string(a, "name"@) == Ok::<Seq<char>, TmxErrorModel>(l.name@)
    &&& l.visible == ((match spec_opt_u8(a, "visible"@)->Ok_0 {
        Option::Some(u) => u,
        Option::None => 1u8,
    }) == 1)
    &&& l.opacity == (match spec_opt_decimal(a, "opacity"@)->Ok_0 {
        Option::Some(d) => d,
        Option::None => Decimal { neg: false, mantissa: 1, scale: 0 },
    })
    &&& l.parallax.0 == (match spec_opt_decimal(a, "parallaxx"@)->Ok_0 {
        Option::Some(d) => d,
        Option::None => Decimal { neg: false, mantissa: 1, scale: 0 },
    })
    &&& l.parallax.1 == (match spec_opt_decimal(a, "parallaxy"@)->Ok_0 {
        Option::Some(d) => d,
        Option::None => Decimal { neg: false, mantissa: 1, scale: 0 },
    })
}

/// Reads the attributes every layer kind shares and wraps the given content.
pub fn parse_layer<T>(t: &Tag, content: T) -> (r: Result<Layer<T>, TmxError>)
    ensures
        match r {
            Ok(l) => spec_layer_attrs_err(t.attributes@) is None && layer_attrs_match(
                t.attributes@,
                l,
            ) && l.content == content,
            Err(e) => spec_layer_attrs_err(t.attributes@) == Option::Some(e@),
        },
{
    let id = match req_attr_u32(t, "id") {
        Ok(v) => v,
        Err(e) => {
            return Err(e);
        },
    };
    let name = match req_attr_string(t, "name") {
        Ok(v) => v,
        Err(e) => {
            return Err(e);
        },
    };
    let visible = match opt_attr_u8(t, "visible") {
        Ok(Option::Some(u)) => u == 1,
        Ok(Option::None) => true,
        Err(e) => {
            return Err(e);
        },
    };
    let opacity = match opt_attr_decimal(t, "opacity") {
        Ok(Option::Some(d)) => d,
        Ok(Option::None) => Decimal { neg: false, mantissa: 1, scale: 0 },
        Err(e) => {
            return Err(e);
        },
    };
    let px = match opt_attr_decimal(t, "parallaxx") {
        Ok(Option::Some(d)) => d,
        Ok(Option::None) => Decimal { neg: false, mantissa: 1, scale: 0 },
        Err(e) => {
            return Err(e);
        },
    };
    let py = match opt_attr_decimal(t, "parallaxy") {
        Ok(Option::Some(d)) => d,
        Ok(Option::None) => Decimal { neg: false, mantissa: 1, scale: 0 },
        Err(e) => {
            return Err(e);
        },
    };
    Ok(Layer { id, name, content, visible, opacity, parallax: (px, py) })
}

/// The node produces a layer of the hierarchy rather than being skipped: an
/// element whose tag is one of the layer-producing words; one without a
/// child list counts as one with no children.
pub open spec fn produces_layer(x: Xml) -> bool {
    match x {
        Xml::Element(t, _) => {
            ||| t.value@ == "group"@
            ||| t.value@ == "map"@
            ||| t.value@ == "objectgroup"@
            ||| t.value@ == "layer"@
            ||| t.value@ == "imagelayer"@
        },
        Xml::Text(_) => false,
    }
}

/// The error a layer-producing node yields, if any: a group checks its own
/// attributes and then its children; a synthetic map root only its
/// children; an object layer its objects and then its attributes; a tile
/// layer its required `data` child, that child's grid, then its attributes;
/// an image layer is unsupported.  Other nodes are skipped.
pub open spec fn spec_layers_err(gids: Seq<u32>, x: Xml, gs: PairU32) -> Option<TmxErrorModel>
    decreases x,
{
    match x {
        Xml::Element(t, Option::Some(c)) => {
            if t.value@ == "group"@ {
                if spec_layer_attrs_err(t.attributes@) is Some {
                    spec_layer_attrs_err(t.attributes@)
                } else {
                    spec_children_err(gids, c@, gs)
                }
            } else if t.value@ == "map"@ {
                spec_children_err(gids, c@, gs)
            } else if t.value@ == "objectgroup"@ {
                if spec_objects_err(c@) is Some {
                    spec_objects_err(c@)
                } else {
                    spec_layer_attrs_err(t.attributes@)
                }
            } else if t.value@ == "layer"@ {
                let di = first_tagged(c@, "data"@);
                if di == c@.len() {
                    Option::Some(TmxErrorModel::Malformed)
                } else if spec_grid_err(gids, c@[di], gs) is Some {
                    spec_grid_err(gids, c@[di], gs)
                } else {
                    spec_layer_attrs_err(t.attributes@)
                }
            } else if t.value@ == "imagelayer"@ {
                Option::Some(TmxErrorModel::Unsupported("imagelayer"@))
            } else {
                Option::None
            }
        },
        Xml::Element(t, Option::None) => {
            if t.value@ == "group"@ {
                spec_layer_attrs_err(t.attributes@)
            } else if t.value@ == "map"@ {
                Option::None
            } else if t.value@ == "objectgroup"@ {
                spec_layer_attrs_err(t.attributes@)
            } else if t.value@ == "layer"@ {
                Option::Some(TmxErrorModel::Malformed)
            } else if t.value@ == "imagelayer"@ {
                Option::Some(TmxErrorModel::Unsupported("imagelayer"@))
            } else {
                Option::None
            }
        },
        Xml::Text(_) => Option::None,
    }
}

/// The first error among a node's layer-producing children, if any.
pub open spec fn spec_children_err(gids: Seq<u32>, cs: Seq<Xml>, gs: PairU32) -> Option<
    TmxErrorModel,
>
    decreases cs,
{
    if cs.len() == 0 {
        Option::None
    } else if spec_layers_err(gids, cs[0], gs) is Some {
        spec_layers_err(gids, cs[0], gs)
    } else {
        spec_children_err(gids, cs.skip(1), gs)
    }
}

/// The subtree a layer-producing node denotes: a group (or the synthetic
/// map root with its fixed base layer) becomes a node over its children's
/// subtrees; an object layer and a tile layer become leaves.
pub open spec fn layers_match(
    gids: Seq<u32>,
    x: Xml,
    gs: PairU32,
    tree: Tree<TiledLayer>,
) -> bool
    decreases x,
{
    match x {
        Xml::Element(t, Option::Some(c)) => {
            if t.value@ == "group"@ {
                &&& tree is Node
                &&& match tree.value() {
                    TiledLayer::Group(l) => layer_attrs_match(t.attributes@, l),
                    _ => false,
                }
                &&& children_match(gids, c@, gs, tree.children())
            } else if t.value@ == "map"@ {
                &&& tree is Node
                &&& match tree.value() {
                    TiledLayer::Group(l) => {
                        &&& l.id == 0
                        &&& l.name@ == "base"@
                        &&& l.visible == true
                        &&& l.opacity == (Decimal { neg: false, mantissa: 1, scale: 0 })
                        &&& l.parallax == (
                            Decimal { neg: false, mantissa: 0, scale: 0 },
                            Decimal { neg: false, mantissa: 0, scale: 0 },
                        )
                    },
                    _ => false,
                }
                &&& children_match(gids, c@, gs, tree.children())
            } else if t.value@ == "objectgroup"@ {
                &&& tree is Leaf
                &&& match tree.value() {
                    TiledLayer::Object(l) => layer_attrs_match(t.attributes@, l)
                        && objects_match(c@, l.content@),
                    _ => false,
                }
            } else if t.value@ == "layer"@ {
                &&& tree is Leaf
                &&& {
                    let di = first_tagged(c@, "data"@);
                    &&& di < c@.len()
                    &&& match tree.value() {
                        TiledLayer::Tile(l) => layer_attrs_match(t.attributes@, l)
                            && grid_matches(gids, c@[di], gs, l.content),
                        _ => false,
                    }
                }
            } else {
                false
            }
        },
        Xml::Element(t, Option::None) => {
            if t.value@ == "group"@ {
                &&& tree is Node
                &&& match tree.value() {
                    TiledLayer::Group(l) => layer_attrs_match(t.attributes@, l),
                    _ => false,
                }
                &&& tree.children().len() == 0
            } else if t.value@ == "map"@ {
                &&& tree is Node
                &&& match tree.value() {
                    TiledLayer::Group(l) => {
                        &&& l.id == 0
                        &&& l.name@ == "base"@
                        &&& l.visible == true
                        &&& l.opacity == (Decimal { neg: false, mantissa: 1, scale: 0 })
                        &&& l.parallax == (
                            Decimal { neg: false, mantissa: 0, scale: 0 },
                            Decimal { neg: false, mantissa: 0, scale: 0 },
                        )
                    },
                    _ => false,
                }
                &&& tree.children().len() == 0
            } else if t.value@ == "objectgroup"@ {
                &&& tree is Leaf
                &&& match tree.value() {
                    TiledLayer::Object(l) => layer_attrs_match(t.attributes@, l)
                        && l.content@.len() == 0,
                    _ => false,
                }
            } else {
                false
            }
        },
        Xml::Text(_) => false,
    }
}

/// The subtrees a child list denotes: one per layer-producing child, in
/// document order; skipped children leave no trace.
pub open spec fn children_match(
    gids: Seq<u32>,
    cs: Seq<Xml>,
    gs: PairU32,
    subtrees: Seq<Tree<TiledLayer>>,
) -> bool
    decreases cs,
{
    if cs.len() == 0 {
        subtrees.len() == 0
    } else if produces_layer(cs.last()) {
        &&& subtrees.len() > 0
        &&& layers_match(gids, cs.last(), gs, subtrees.last())
        &&& children_match(gids, cs.drop_last(), gs, subtrees.drop_last())
    } else {
        children_match(gids, cs.drop_last(), gs, subtrees)
    }
}

/// Builds the subtrees of a node's layer-producing children, in order.
fn parse_layer_children(tilesets: &Vec<TileSet>, cs: &Vec<Xml>, grid_size: PairU32) -> (r: Result<
    Vec<Tree<TiledLayer>>,
    TmxError,
>)
    ensures
        match r {
            Ok(subtrees) => spec_children_err(first_gids_of(tilesets@), cs@, grid_size) is None
                && children_match(first_gids_of(tilesets@), cs@, grid_size, subtrees@),
            Err(e) => spec_children_err(first_gids_of(tilesets@), cs@, grid_size) == Option::Some(
                e@,
            ),
        },
    decreases *cs,
{
    let n = cs.len();
    let mut out: Vec<Tree<TiledLayer>> = Vec::new();
    proof {
        assert(cs@.skip(0) =~= cs@);
        assert(cs@.take(0) =~= Seq::<Xml>::empty());
    }
    let ghost gids = first_gids_of(tilesets@);
    let mut i: usize = 0;
    while i < n
        invariant
            i <= n,
            n == cs@.len(),
            gids == first_gids_of(tilesets@),
            spec_children_err(gids, cs@, grid_size) == spec_children_err(
                gids,
                cs@.skip(i as int),
                grid_size,
            ),
            children_match(gids, cs@.take(i as int), grid_size, out@),
        decreases n - i,
    {
        let ghost iq = i as int;
        proof {
            assert(cs@.skip(iq)[0] == cs@[iq]);
            assert(cs@.skip(iq).skip(1) =~= cs@.skip(iq + 1));
            assert(cs@.take(iq + 1).drop_last() =~= cs@.take(iq));
            assert(cs@.take(iq + 1).last() == cs@[iq]);
        }
        let ghost prev_out = out@;
        match parse_layers(tilesets, &cs[i], grid_size) {
            Ok(Option::Some(tree)) => {
                out.push(tree);
                proof {
                    assert(out@.drop_last() =~= prev_out);
                }
            },
            Ok(Option::None) => {
            },
            Err(e) => {
                return Err(e);
            },
        }
        i += 1;
        proof {
            assert(cs@.take(i as int) =~= cs@.take(iq + 1));
        }
    }
    proof {
        assert(cs@.take(n as int) =~= cs@);
        assert(cs@.skip(n as int) =~= Seq::<Xml>::empty());
    }
    Ok(out)
}

/// Builds the layer subtree of an element that carries no child list at
/// all: it counts as one with no children, so a group becomes a childless
/// node, an object layer an empty leaf, a tile layer lacks its required
/// `data` child, and an image layer stays unsupported.
fn parse_childless_layer(t: &Tag, gids: Ghost<Seq<u32>>, gs: Ghost<PairU32>) -> (r: Result<
    Option<LayerHierarchy>,
    TmxError,
>)
    ensures
        match r {
            Ok(o) => match o {
                Option::Some(tree) => spec_layers_err(gids@, Xml::Element(*t, Option::None), gs@)
                    is None && produces_layer(Xml::Element(*t, Option::None)) && layers_match(
                    gids@,
                    Xml::Element(*t, Option::None),
                    gs@,
                    tree,
                ),
                Option::None => !produces_layer(Xml::Element(*t, Option::None)),
            },
            Err(e) => spec_layers_err(gids@, Xml::Element(*t, Option::None), gs@) == Option::Some(
                e@,
            ),
        },
{
    if str_eq(t.value.as_str(), "group") {
        let l = match parse_layer(t, ()) {
            Ok(l) => l,
            Err(e) => {
                return Err(e);
            },
        };
        Ok(Option::Some(Tree::Node(TiledLayer::Group(l), Vec::new())))
    } else if str_eq(t.value.as_str(), "map") {
        let base = Layer {
            id: 0,
            name: "base".to_owned(),
            visible: true,
            opacity: Decimal { neg: false, mantissa: 1, scale: 0 },
            parallax: (
                Decimal { neg: false, mantissa: 0, scale: 0 },
                Decimal { neg: false, mantissa: 0, scale: 0 },
            ),
            content: (),
        };
        Ok(Option::Some(Tree::Node(TiledLayer::Group(base), Vec::new())))
    } else if str_eq(t.value.as_str(), "objectgroup") {
        let l = match parse_layer(t, Vec::new()) {
            Ok(l) => l,
            Err(e) => {
                return Err(e);
            },
        };
        Ok(Option::Some(Tree::Leaf(TiledLayer::Object(l))))
    } else if str_eq(t.value.as_str(), "layer") {
        Err(TmxError::Malformed)
    } else if str_eq(t.value.as_str(), "imagelayer") {
        Err(TmxError::Unsupported("imagelayer".to_owned()))
    } else {
        Ok(Option::None)
    }
}

/// Builds the layer subtree a node denotes, dispatching on its tag name;
/// nodes with no layer-producing tag yield `None` and are skipped.
pub fn parse_layers(tilesets: &Vec<TileSet>, x: &Xml, grid_size: PairU32) -> (r: Result<
    Option<LayerHierarchy>,
    TmxError,
>)
    ensures
        match r {
            Ok(o) => match o {
                Option::Some(tree) => spec_layers_err(first_gids_of(tilesets@), *x, grid_size)
                    is None && produces_layer(*x) && layers_match(
                    first_gids_of(tilesets@),
                    *x,
                    grid_size,
                    tree,
                ),
                Option::None => !produces_layer(*x),
            },
            Err(e) => spec_layers_err(first_gids_of(tilesets@), *x, grid_size) == Option::Some(e@),
        },
    decreases *x,
{
    let (t, c) = match x {
        Xml::Element(t, Option::Some(c)) => (t, c),
        Xml::Element(t, Option::None) => {
            return parse_childless_layer(t, Ghost(first_gids_of(tilesets@)), Ghost(grid_size));
        },
        Xml::Text(_) => {
            return Ok(Option::None);
        },
    };
    if str_eq(t.value.as_str(), "group") {
        let l = match parse_layer(t, ()) {
            Ok(l) => l,
            Err(e) => {
                return Err(e);
            },
        };
        let children = match parse_layer_children(tilesets, c, grid_size) {
            Ok(v) => v,
            Err(e) => {
                return Err(e);
            },
        };
        Ok(Option::Some(Tree::Node(TiledLayer::Group(l), children)))
    } else if str_eq(t.value.as_str(), "map") {
        let base = Layer {
            id: 0,
            name: "base".to_owned(),
            visible: true,
            opacity: Decimal { neg: false, mantissa: 1, scale: 0 },
            parallax: (
                Decimal { neg: false, mantissa: 0, scale: 0 },
                Decimal { neg: false, mantissa: 0, scale: 0 },
            ),
            content: (),
        };
        let children = match parse_layer_children(tilesets, c, grid_size) {
            Ok(v) => v,
            Err(e) => {
                return Err(e);
            },
        };
        Ok(Option::Some(Tree::Node(TiledLayer::Group(base), children)))
    } else if str_eq(t.value.as_str(), "objectgroup") {
        let objects = match parse_objects(c) {
            Ok(v) => v,
            Err(e) => {
                return Err(e);
            },
        };
        let l = match parse_layer(t, objects) {
            Ok(l) => l,
            Err(e) => {
                return Err(e);
            },
        };
        Ok(Option::Some(Tree::Leaf(TiledLayer::Object(l))))
    } else if str_eq(t.value.as_str(), "layer") {
        let data_elem = match find_tagged(c, "data") {
            Option::Some(d) => d,
            Option::None => {
                return Err(TmxError::Malformed);
            },
        };
        let grid = match grid_parse(tilesets, data_elem, grid_size) {
            Ok(g) => g,
            Err(e) => {
                return Err(e);
            },
        };
        let l = match parse_layer(t, grid) {
            Ok(l) => l,
            Err(e) => {
                return Err(e);
            },
        };
        Ok(Option::Some(Tree::Leaf(TiledLayer::Tile(l))))
    } else if str_eq(t.value.as_str(), "imagelayer") {
        Err(TmxError::Unsupported("imagelayer".to_owned()))
    } else {
        Ok(Option::None)
    }
}

/// The gid range starts declared by the tileset children, in document
/// order; what the referential check of the tile grids goes by.
pub open spec fn spec_first_gids(cs: Seq<Xml>) -> Seq<u32>
    decreases cs,
{
    if cs.len() == 0 {
        Seq::empty()
    } else if cs.last().spec_tag_has_name("tileset"@) {
        spec_first_gids(cs.drop_last()).push(
            match cs.last() {
                Xml::Element(t, _) => spec_req_u32(t.attributes@, "firstgid"@)->Ok_0,
                Xml::Text(_) => 0,
            },
        )
    } else {
        spec_first_gids(cs.drop_last())
    }
}

/// Decoded tilesets carry exactly the gid range starts their elements
/// declare.
proof fn lemma_first_gids(cs: Seq<Xml>, tss: Seq<TileSet>)
    requires
        tilesets_match(cs, tss),
    ensures
        first_gids_of(tss) == spec_first_gids(cs),
    decreases cs.len(),
{
    if cs.len() == 0 {
        assert(first_gids_of(tss) =~= spec_first_gids(cs));
    } else if cs.last().spec_tag_has_name("tileset"@) {
        lemma_first_gids(cs.drop_last(), tss.drop_last());
        assert(first_gids_of(tss.drop_last()) =~= first_gids_of(tss).drop_last());
        assert(first_gids_of(tss) =~= spec_first_gids(cs));
    } else {
        lemma_first_gids(cs.drop_last(), tss);
    }
}

/// The error a whole document produces, if any: the root must be a `map`
/// element with a child list; the tilesets are read first, then the map's
/// size in tiles and one tile's size in pixels, then the layer hierarchy.
pub open spec fn spec_document_err(root: Xml) -> Option<TmxErrorModel> {
    match root {
        Xml::Element(t, Option::Some(c)) => {
            let a = t.attributes@;
            if t.value@ != "map"@ {
                Option::Some(TmxErrorModel::Malformed)
            } else if spec_tilesets_err(c@) is Some {
                spec_tilesets_err(c@)
            } else if spec_req_u32(a, "width"@) is Err {
                Option::Some(spec_req_u32(a, "width"@)->Err_0)
            } else if spec_req_u32(a, "height"@) is Err {
                Option::Some(spec_req_u32(a, "height"@)->Err_0)
            } else if spec_req_u32(a, "tilewidth"@) is Err {
                Option::Some(spec_req_u32(a, "tilewidth"@)->Err_0)
            } else if spec_req_u32(a, "tileheight"@) is Err {
                Option::Some(spec_req_u32(a, "tileheight"@)->Err_0)
            } else {
                spec_layers_err(
                    spec_first_gids(c@),
                    root,
                    (spec_req_u32(a, "width"@)->Ok_0, spec_req_u32(a, "height"@)->Ok_0),
                )
            }
        },
        _ => Option::Some(TmxErrorModel::Malformed),
    }
}

/// The resolved map a document denotes: its tilesets in document order, its
/// size in tiles and one tile's size in pixels from the root's attributes,
/// and the layer hierarchy rooted at the synthetic base group.
pub open spec fn document_matches(root: Xml, m: TiledMap) -> bool {
    match root {
        Xml::Element(t, Option::Some(c)) => {
            let a = t.attributes@;
            &&& t.value@ == "map"@
            &&& tilesets_match(c@, m.tile_sets@)
            &&& spec_req_u32(a, "width"@) == Ok::<u32, TmxErrorModel>(m.grid_size.0)
            &&& spec_req_u32(a, "height"@) == Ok::<u32, TmxErrorModel>(m.grid_size.1)
            &&& spec_req_u32(a, "tilewidth"@) == Ok::<u32, TmxErrorModel>(m.tile_size.0)
            &&& spec_req_u32(a, "tileheight"@) == Ok::<u32, TmxErrorModel>(m.tile_size.1)
            &&& layers_match(spec_first_gids(c@), root, m.grid_size, m.layers)
        },
        _ => false,
    }
}

/// Parses a whole document: the root element of the tree an XML library
/// produced from the map's text, into the fully resolved, immutable map.
/// Fail-fast: the first fatal condition aborts with a single error.
pub fn parse_document(root: &Xml) -> (r: Result<TiledMap, TmxError>)
    ensures
        match r {
            Ok(m) => spec_document_err(*root) is None && document_matches(*root, m),
            Err(e) => spec_document_err(*root) == Option::Some(e@),
        },
{
    let (t, c) = match root {
        Xml::Element(t, Option::Some(c)) => (t, c),
        _ => {
            return Err(TmxError::Malformed);
        },
    };
    if !str_eq(t.value.as_str(), "map") {
        return Err(TmxError::Malformed);
    }
    let tile_sets = match get_tile_sets(c) {
        Ok(v) => v,
        Err(e) => {
            return Err(e);
        },
    };
    let width = match req_attr_u32(t, "width") {
        Ok(v) => v,
        Err(e) => {
            return Err(e);
        },
    };
    let height = match req_attr_u32(t, "height") {
        Ok(v) => v,
        Err(e) => {
            return Err(e);
        },
    };
    let tile_w = match req_attr_u32(t, "tilewidth") {
        Ok(v) => v,
        Err(e) => {
            return Err(e);
        },
    };
    let tile_h = match req_attr_u32(t, "tileheight") {
        Ok(v) => v,
        Err(e) => {
            return Err(e);
        },
    };
    proof {
        lemma_first_gids(c@, tile_sets@);
    }
    let layers = match parse_layers(&tile_sets, root, (width, height)) {
        Ok(Option::Some(tree)) => tree,
        Ok(Option::None) => {
            proof {
                assert(false);
            }
            return Err(TmxError::Malformed);
        },
        Err(e) => {
            return Err(e);
        },
    };
    Ok(TiledMap { layers, grid_size: (width, height), tile_size: (tile_w, tile_h), tile_sets })
}

} // verus!
