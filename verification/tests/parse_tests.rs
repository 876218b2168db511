use tiled_parse::data_types::{
    Decimal, Gid, Image, LayerTile, ObjectType, TileSet, TiledLayer, TiledPropertyType, TmxError,
};
use tiled_parse::parse::{
    grid_parse, object_parse, parse_document, parse_layers, parse_tmx_properties,
    parse_tmx_property, tile_set_element,
};
use tiled_parse::relations::{get_tile_id, get_tileset_for_gid};
use tiled_parse::tree::Tree;
use tiled_parse::xml::{Tag, Xml};

fn tag(name: &str, attrs: &[(&str, &str)]) -> Tag {
    Tag {
        value: name.to_string(),
        attributes: attrs
            .iter()
            .map(|(k, v)| (k.to_string(), v.to_string()))
            .collect(),
    }
}

fn elem(name: &str, attrs: &[(&str, &str)], children: Vec<Xml>) -> Xml {
    Xml::Element(tag(name, attrs), Some(children))
}

fn text(s: &str) -> Xml {
    Xml::Text(s.to_string())
}

fn simple_tileset(first_gid: u32) -> TileSet {
    TileSet {
        tile_size: (16, 16),
        first_gid,
        name: "t".to_string(),
        spacing: 0,
        margin: 0,
        image: Image {
            source: "t.png".to_string(),
            dimensions: (4, 4),
            format: "png".to_string(),
        },
        tile_stuff: Vec::new(),
    }
}

#[test]
fn resolver_picks_the_largest_range_start_not_above_the_gid() {
    let tilesets = vec![simple_tileset(1), simple_tileset(50)];
    let ts = get_tileset_for_gid(&tilesets, Gid(49)).expect("gid 49 resolves");
    assert_eq!(ts.first_gid, 1);
    assert_eq!(get_tile_id(ts, Gid(49)), 48);
    let ts2 = get_tileset_for_gid(&tilesets, Gid(50)).expect("gid 50 resolves");
    assert_eq!(ts2.first_gid, 50);
    assert_eq!(get_tile_id(ts2, Gid(50)), 0);
}

#[test]
fn resolver_returns_nothing_below_every_range() {
    let tilesets = vec![simple_tileset(10)];
    assert!(get_tileset_for_gid(&tilesets, Gid(9)).is_none());
    assert!(get_tileset_for_gid(&[], Gid(1)).is_none());
}

#[test]
fn bool_property_decodes_to_bool_true() {
    let p = elem(
        "property",
        &[("name", "solid"), ("type", "bool"), ("value", "true")],
        vec![],
    );
    assert_eq!(
        parse_tmx_property(&p),
        Ok(("solid".to_string(), TiledPropertyType::Bool(true)))
    );
}

#[test]
fn int_property_with_nonnumeric_value_is_a_coercion_error() {
    let p = elem(
        "property",
        &[("name", "count"), ("type", "int"), ("value", "abc")],
        vec![],
    );
    assert_eq!(
        parse_tmx_property(&p),
        Err(TmxError::TypeCoercion("abc".to_string()))
    );
}

#[test]
fn unknown_property_type_is_fatal() {
    let p = elem(
        "property",
        &[("name", "c"), ("type", "color"), ("value", "#ff0000ff")],
        vec![],
    );
    assert_eq!(
        parse_tmx_property(&p),
        Err(TmxError::TypeCoercion("color".to_string()))
    );
}

#[test]
fn property_without_value_is_missing_attribute() {
    let p = elem("property", &[("name", "c"), ("type", "int")], vec![]);
    assert_eq!(
        parse_tmx_property(&p),
        Err(TmxError::MissingAttribute("value".to_string()))
    );
}

#[test]
fn properties_of_an_element_decode_in_order() {
    let holder = elem(
        "object",
        &[],
        vec![elem(
            "properties",
            &[],
            vec![
                elem(
                    "property",
                    &[("name", "a"), ("type", "int"), ("value", "-3")],
                    vec![],
                ),
                elem(
                    "property",
                    &[("name", "b"), ("type", "float"), ("value", "0.5")],
                    vec![],
                ),
                elem(
                    "property",
                    &[("name", "f"), ("type", "file"), ("value", "a/b.png")],
                    vec![],
                ),
                elem(
                    "property",
                    &[("name", "o"), ("type", "object"), ("value", "9")],
                    vec![],
                ),
                elem(
                    "property",
                    &[("name", "s"), ("type", "string"), ("value", "hi")],
                    vec![],
                ),
            ],
        )],
    );
    let props = parse_tmx_properties(&holder).expect("five properties");
    assert_eq!(props.len(), 5);
    assert_eq!(props[0], ("a".to_string(), TiledPropertyType::Int(-3)));
    assert_eq!(
        props[1],
        (
            "b".to_string(),
            TiledPropertyType::Float(Decimal { neg: false, mantissa: 5, scale: 1 })
        )
    );
    assert_eq!(
        props[2],
        ("f".to_string(), TiledPropertyType::File("a/b.png".to_string()))
    );
    assert_eq!(props[3], ("o".to_string(), TiledPropertyType::Object(9)));
    assert_eq!(
        props[4],
        ("s".to_string(), TiledPropertyType::String("hi".to_string()))
    );
}

#[test]
fn object_decodes_placement_shape_and_attachment() {
    let o = elem(
        "object",
        &[
            ("id", "7"),
            ("x", "1.5"),
            ("y", "2"),
            ("width", "8"),
            ("height", "4"),
            ("rotation", "90"),
            ("gid", "3"),
            ("visible", "0"),
        ],
        vec![elem("polygon", &[("points", "0,0 1,1")], vec![])],
    );
    let obj = object_parse(&o).expect("sound object").expect("an object");
    assert_eq!(obj.id, 7);
    assert_eq!(
        obj.position,
        (
            Decimal { neg: false, mantissa: 15, scale: 1 },
            Decimal { neg: false, mantissa: 2, scale: 0 }
        )
    );
    assert_eq!(
        obj.size,
        Some((
            Decimal { neg: false, mantissa: 8, scale: 0 },
            Decimal { neg: false, mantissa: 4, scale: 0 }
        ))
    );
    assert_eq!(obj.rotation, Decimal { neg: false, mantissa: 90, scale: 0 });
    assert_eq!(obj.tile_global_id, Some(Gid(3)));
    assert!(!obj.visible);
    match &obj.otype {
        ObjectType::Polygon(ps) => assert_eq!(ps.len(), 2),
        other => panic!("expected a polygon, got {:?}", other),
    }
}

#[test]
fn nodes_that_are_no_objects_are_skipped() {
    let o = elem("ellipse", &[], vec![]);
    assert_eq!(object_parse(&o), Ok(None));
}

#[test]
fn tileset_element_decodes_image_and_per_tile_data() {
    let x = elem(
        "tileset",
        &[
            ("firstgid", "1"),
            ("tilewidth", "16"),
            ("tileheight", "8"),
            ("name", "terrain"),
            ("spacing", "2"),
        ],
        vec![
            elem(
                "image",
                &[("source", "terrain.png"), ("width", "64"), ("height", "32")],
                vec![],
            ),
            elem(
                "tile",
                &[("id", "3")],
                vec![elem(
                    "objectgroup",
                    &[],
                    vec![elem("object", &[("id", "1"), ("x", "0"), ("y", "0")], vec![])],
                )],
            ),
        ],
    );
    let ts = tile_set_element(&x).expect("sound tileset").expect("a tileset");
    assert_eq!(ts.first_gid, 1);
    assert_eq!(ts.tile_size, (16, 8));
    assert_eq!(ts.name, "terrain");
    assert_eq!(ts.spacing, 2);
    assert_eq!(ts.margin, 0);
    assert_eq!(ts.image.source, "terrain.png");
    assert_eq!(ts.image.dimensions, (4, 4));
    assert_eq!(ts.image.format, "png");
    assert_eq!(ts.tile_stuff.len(), 1);
    assert_eq!(ts.tile_stuff[0].0, 3);
    assert_eq!(ts.tile_stuff[0].1.objects.len(), 1);
}

#[test]
fn tile_aux_lookup_is_last_wins() {
    let mut ts = simple_tileset(1);
    ts.tile_stuff = vec![
        (
            2,
            tiled_parse::data_types::TileAuxInfo { properties: Vec::new(), objects: Vec::new() },
        ),
        (
            5,
            tiled_parse::data_types::TileAuxInfo {
                properties: vec![("k".to_string(), TiledPropertyType::Int(1))],
                objects: Vec::new(),
            },
        ),
        (
            2,
            tiled_parse::data_types::TileAuxInfo {
                properties: vec![("k".to_string(), TiledPropertyType::Int(9))],
                objects: Vec::new(),
            },
        ),
    ];
    let aux = ts.tile_aux(2).expect("id 2 has an entry");
    assert_eq!(
        aux.properties,
        vec![("k".to_string(), TiledPropertyType::Int(9))]
    );
    assert!(ts.tile_aux(5).is_some());
    assert!(ts.tile_aux(7).is_none());
}

#[test]
fn tileset_without_firstgid_is_missing_attribute() {
    let x = elem("tileset", &[("tilewidth", "16"), ("tileheight", "16")], vec![]);
    assert_eq!(
        tile_set_element(&x),
        Err(TmxError::MissingAttribute("firstgid".to_string()))
    );
}

#[test]
fn tileset_without_image_is_malformed() {
    let x = elem(
        "tileset",
        &[
            ("firstgid", "1"),
            ("tilewidth", "16"),
            ("tileheight", "16"),
            ("name", "t"),
        ],
        vec![],
    );
    assert_eq!(tile_set_element(&x), Err(TmxError::Malformed));
}

fn data_elem(csv: &str) -> Xml {
    elem("data", &[("encoding", "csv")], vec![text(csv)])
}

#[test]
fn grid_places_cells_row_major_from_the_top_left() {
    // The golden two-by-two fixture: "1,0\n0,2" with one tileset starting
    // at gid 1.
    let tilesets = vec![simple_tileset(1)];
    let g = grid_parse(&tilesets, &data_elem("1,0\n0,2"), (2, 2)).expect("sound grid");
    assert_eq!(g.dim(), (2, 2));
    assert_eq!(
        g.get(0, 0),
        Some(&Some(LayerTile { tile: Gid(1), flip_h: false, flip_v: false, flip_d: false }))
    );
    assert_eq!(g.get(0, 1), Some(&None));
    assert_eq!(g.get(1, 0), Some(&None));
    assert_eq!(
        g.get(1, 1),
        Some(&Some(LayerTile { tile: Gid(2), flip_h: false, flip_v: false, flip_d: false }))
    );
    assert_eq!(g.get(2, 0), None);
    assert_eq!(g.get(0, 2), None);
}

#[test]
fn grid_cell_outside_every_tileset_is_a_bad_reference() {
    let tilesets = vec![simple_tileset(10)];
    match grid_parse(&tilesets, &data_elem("5"), (1, 1)) {
        Err(e) => assert_eq!(e, TmxError::BadReference(5)),
        Ok(_) => panic!("expected an error"),
    }
}

#[test]
fn grid_shape_must_match_the_declared_size() {
    let tilesets = vec![simple_tileset(1)];
    match grid_parse(&tilesets, &data_elem("1,0\n0,2"), (2, 3)) {
        Err(e) => assert_eq!(e, TmxError::BadShape),
        Ok(_) => panic!("expected an error"),
    }
}

#[test]
fn non_csv_encodings_are_unsupported() {
    let tilesets = vec![simple_tileset(1)];
    let d = elem("data", &[("encoding", "base64")], vec![text("AAAA")]);
    match grid_parse(&tilesets, &d, (1, 1)) {
        Err(e) => assert_eq!(e, TmxError::Unsupported("base64".to_string())),
        Ok(_) => panic!("expected an error"),
    }
}

#[test]
fn group_nesting_parses_into_the_matching_tree() {
    // A group holding one tile layer and one nested group holding one
    // object layer: the root keeps exactly two children, the second of
    // which has exactly one child.
    let tilesets: Vec<TileSet> = Vec::new();
    let x = elem(
        "group",
        &[("id", "1"), ("name", "g")],
        vec![
            elem(
                "layer",
                &[("id", "2"), ("name", "floor")],
                vec![data_elem("0")],
            ),
            elem(
                "group",
                &[("id", "3"), ("name", "inner")],
                vec![elem("objectgroup", &[("id", "4"), ("name", "objs")], vec![])],
            ),
        ],
    );
    let tree = parse_layers(&tilesets, &x, (1, 1))
        .expect("sound layers")
        .expect("a group node");
    match tree {
        Tree::Node(TiledLayer::Group(l), children) => {
            assert_eq!(l.name, "g");
            assert_eq!(children.len(), 2);
            match &children[0] {
                Tree::Leaf(TiledLayer::Tile(tl)) => assert_eq!(tl.name, "floor"),
                other => panic!("expected a tile layer leaf, got {:?}", other),
            }
            match &children[1] {
                Tree::Node(TiledLayer::Group(gl), inner) => {
                    assert_eq!(gl.name, "inner");
                    assert_eq!(inner.len(), 1);
                    match &inner[0] {
                        Tree::Leaf(TiledLayer::Object(ol)) => assert_eq!(ol.name, "objs"),
                        other => panic!("expected an object layer leaf, got {:?}", other),
                    }
                }
                other => panic!("expected the nested group, got {:?}", other),
            }
        }
        other => panic!("expected a group node, got {:?}", other),
    }
}

#[test]
fn image_layers_are_unsupported() {
    let tilesets: Vec<TileSet> = Vec::new();
    let x = elem("imagelayer", &[("id", "1"), ("name", "bg")], vec![]);
    match parse_layers(&tilesets, &x, (1, 1)) {
        Err(e) => assert_eq!(e, TmxError::Unsupported("imagelayer".to_string())),
        Ok(_) => panic!("expected an error"),
    }
}

#[test]
fn childless_image_layer_is_still_unsupported() {
    // An imagelayer element that carries no child list at all is rejected
    // the same way as one with children.
    let tilesets: Vec<TileSet> = Vec::new();
    let x = Xml::Element(tag("imagelayer", &[("id", "1"), ("name", "bg")]), None);
    match parse_layers(&tilesets, &x, (1, 1)) {
        Err(e) => assert_eq!(e, TmxError::Unsupported("imagelayer".to_string())),
        Ok(_) => panic!("expected an error"),
    }
}

#[test]
fn childless_group_is_an_empty_node() {
    let tilesets: Vec<TileSet> = Vec::new();
    let x = Xml::Element(tag("group", &[("id", "1"), ("name", "g")]), None);
    let tree = parse_layers(&tilesets, &x, (1, 1))
        .expect("sound layers")
        .expect("a group node");
    match tree {
        Tree::Node(TiledLayer::Group(l), children) => {
            assert_eq!(l.name, "g");
            assert_eq!(children.len(), 0);
        }
        other => panic!("expected an empty group node, got {:?}", other),
    }
}

#[test]
fn childless_tile_layer_is_malformed() {
    // A tile layer without a child list cannot hold its required data child.
    let tilesets: Vec<TileSet> = Vec::new();
    let x = Xml::Element(tag("layer", &[("id", "1"), ("name", "l")]), None);
    match parse_layers(&tilesets, &x, (1, 1)) {
        Err(e) => assert_eq!(e, TmxError::Malformed),
        Ok(_) => panic!("expected an error"),
    }
}

#[test]
fn tile_layer_without_data_is_malformed() {
    let tilesets: Vec<TileSet> = Vec::new();
    let x = elem("layer", &[("id", "1"), ("name", "l")], vec![]);
    match parse_layers(&tilesets, &x, (1, 1)) {
        Err(e) => assert_eq!(e, TmxError::Malformed),
        Ok(_) => panic!("expected an error"),
    }
}

#[test]
fn layer_without_id_is_missing_attribute() {
    let tilesets: Vec<TileSet> = Vec::new();
    let x = elem("objectgroup", &[("name", "objs")], vec![]);
    match parse_layers(&tilesets, &x, (1, 1)) {
        Err(e) => assert_eq!(e, TmxError::MissingAttribute("id".to_string())),
        Ok(_) => panic!("expected an error"),
    }
}

#[test]
fn whole_document_parses_into_the_resolved_map() {
    let root = elem(
        "map",
        &[
            ("width", "2"),
            ("height", "2"),
            ("tilewidth", "16"),
            ("tileheight", "16"),
        ],
        vec![
            elem(
                "tileset",
                &[
                    ("firstgid", "1"),
                    ("tilewidth", "16"),
                    ("tileheight", "16"),
                    ("name", "t"),
                ],
                vec![elem(
                    "image",
                    &[("source", "t.png"), ("width", "64"), ("height", "64")],
                    vec![],
                )],
            ),
            elem(
                "layer",
                &[("id", "1"), ("name", "floor")],
                vec![data_elem("1,0\n0,2")],
            ),
        ],
    );
    let map = parse_document(&root).expect("sound document");
    assert_eq!(map.grid_size, (2, 2));
    assert_eq!(map.tile_size, (16, 16));
    assert_eq!(map.tile_sets.len(), 1);
    assert_eq!(map.tile_sets[0].first_gid, 1);
    match &map.layers {
        Tree::Node(TiledLayer::Group(base), children) => {
            assert_eq!(base.name, "base");
            assert_eq!(base.id, 0);
            assert!(base.visible);
            assert_eq!(children.len(), 1);
            match &children[0] {
                Tree::Leaf(TiledLayer::Tile(tl)) => {
                    assert_eq!(tl.name, "floor");
                    assert_eq!(tl.content.dim(), (2, 2));
                    assert_eq!(
                        tl.content.get(1, 1),
                        Some(&Some(LayerTile {
                            tile: Gid(2),
                            flip_h: false,
                            flip_v: false,
                            flip_d: false
                        }))
                    );
                }
                other => panic!("expected the tile layer, got {:?}", other),
            }
        }
        other => panic!("expected the synthetic base group, got {:?}", other),
    }
}

#[test]
fn a_root_that_is_no_map_is_malformed() {
    let root = elem("html", &[], vec![]);
    match parse_document(&root) {
        Err(e) => assert_eq!(e, TmxError::Malformed),
        Ok(_) => panic!("expected an error"),
    }
}

#[test]
fn a_grid_referencing_a_foreign_gid_aborts_the_whole_parse() {
    let root = elem(
        "map",
        &[
            ("width", "1"),
            ("height", "1"),
            ("tilewidth", "16"),
            ("tileheight", "16"),
        ],
        vec![
            elem(
                "tileset",
                &[
                    ("firstgid", "7"),
                    ("tilewidth", "16"),
                    ("tileheight", "16"),
                    ("name", "t"),
                ],
                vec![elem(
                    "image",
                    &[("source", "t.png"), ("width", "64"), ("height", "64")],
                    vec![],
                )],
            ),
            elem("layer", &[("id", "1"), ("name", "l")], vec![data_elem("3")]),
        ],
    );
    match parse_document(&root) {
        Err(e) => assert_eq!(e, TmxError::BadReference(3)),
        Ok(_) => panic!("expected an error"),
    }
}
