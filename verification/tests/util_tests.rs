use tiled_parse::data_types::{Decimal, TiledPropertyType, TmxError};
use tiled_parse::data_types::{decode_tile, encode_tile, property_lookup, Gid, LayerTile};
use tiled_parse::util::{
    bool_parse, decimal_parse, i32_parse, parse_spaced_f32_pairs, parse_tiles_csv, trim, u32_parse,
    u8_parse,
};

#[test]
fn u32_parse_reads_digits_exactly() {
    assert_eq!(u32_parse("123"), Some(123));
    assert_eq!(u32_parse("0"), Some(0));
    assert_eq!(u32_parse("4294967295"), Some(u32::MAX));
    assert_eq!(u32_parse("4294967296"), None);
    assert_eq!(u32_parse(""), None);
    assert_eq!(u32_parse("12a"), None);
    assert_eq!(u32_parse("-1"), None);
}

#[test]
fn u8_parse_respects_the_byte_range() {
    assert_eq!(u8_parse("255"), Some(255));
    assert_eq!(u8_parse("256"), None);
}

#[test]
fn i32_parse_reads_signs() {
    assert_eq!(i32_parse("-5"), Some(-5));
    assert_eq!(i32_parse("+7"), Some(7));
    assert_eq!(i32_parse("2147483647"), Some(i32::MAX));
    assert_eq!(i32_parse("2147483648"), None);
    assert_eq!(i32_parse("-2147483648"), Some(i32::MIN));
    assert_eq!(i32_parse("-2147483649"), None);
    assert_eq!(i32_parse("abc"), None);
    assert_eq!(i32_parse("-"), None);
}

#[test]
fn bool_parse_accepts_exactly_the_two_words() {
    assert_eq!(bool_parse("true"), Some(true));
    assert_eq!(bool_parse("false"), Some(false));
    assert_eq!(bool_parse("True"), None);
    assert_eq!(bool_parse("1"), None);
}

#[test]
fn decimal_parse_keeps_values_exact() {
    assert_eq!(
        decimal_parse("1.5"),
        Some(Decimal { neg: false, mantissa: 15, scale: 1 })
    );
    assert_eq!(
        decimal_parse("-0.25"),
        Some(Decimal { neg: true, mantissa: 25, scale: 2 })
    );
    assert_eq!(
        decimal_parse(".5"),
        Some(Decimal { neg: false, mantissa: 5, scale: 1 })
    );
    assert_eq!(
        decimal_parse("3."),
        Some(Decimal { neg: false, mantissa: 3, scale: 0 })
    );
    assert_eq!(
        decimal_parse("42"),
        Some(Decimal { neg: false, mantissa: 42, scale: 0 })
    );
    assert_eq!(decimal_parse("abc"), None);
    assert_eq!(decimal_parse("1e5"), None);
    assert_eq!(decimal_parse("1.2.3"), None);
    assert_eq!(decimal_parse(""), None);
}

#[test]
fn trim_strips_surrounding_whitespace_only() {
    assert_eq!(trim("  x \t"), "x");
    assert_eq!(trim("\n 1, 2 \r\n"), "1, 2");
    assert_eq!(trim("   "), "");
    assert_eq!(trim("y"), "y");
}

#[test]
fn csv_decodes_a_two_by_two_grid_row_major() {
    let g = parse_tiles_csv("1,0\n0,2").expect("well-formed grid");
    assert_eq!(g.cols, 2);
    assert_eq!(g.rows, 2);
    assert_eq!(g.cells, vec![1, 0, 0, 2]);
}

#[test]
fn csv_tolerates_whitespace_and_blank_lines() {
    let g = parse_tiles_csv("\n 1 , 2 \n 3,4 \n\n").expect("well-formed grid");
    assert_eq!(g.cols, 2);
    assert_eq!(g.rows, 2);
    assert_eq!(g.cells, vec![1, 2, 3, 4]);
}

#[test]
fn csv_rejects_uneven_totals() {
    assert_eq!(parse_tiles_csv("1,0\n2"), Err(TmxError::BadShape));
}

#[test]
fn csv_rejects_empty_text() {
    assert_eq!(parse_tiles_csv("  \n "), Err(TmxError::BadShape));
}

#[test]
fn csv_rejects_the_first_bad_field() {
    assert_eq!(
        parse_tiles_csv("1,x\n2,3"),
        Err(TmxError::TypeCoercion("x".to_string()))
    );
}

#[test]
fn points_lists_decode_pairwise() {
    let ps = parse_spaced_f32_pairs("0,0 10.5,-3").expect("two pairs");
    assert_eq!(ps.len(), 2);
    assert_eq!(
        ps[0],
        (
            Decimal { neg: false, mantissa: 0, scale: 0 },
            Decimal { neg: false, mantissa: 0, scale: 0 }
        )
    );
    assert_eq!(
        ps[1],
        (
            Decimal { neg: false, mantissa: 105, scale: 1 },
            Decimal { neg: true, mantissa: 3, scale: 0 }
        )
    );
}

#[test]
fn points_lists_reject_stray_words() {
    assert_eq!(
        parse_spaced_f32_pairs("0,0 oops"),
        Err(TmxError::TypeCoercion("oops".to_string()))
    );
    assert_eq!(parse_spaced_f32_pairs("   "), Err(TmxError::Malformed));
}

#[test]
fn tile_codec_unpacks_flags_and_base_id() {
    let bits = encode_tile(5, true, false, true);
    assert_eq!(bits, 5 | 0x8000_0000 | 0x2000_0000);
    assert_eq!(
        decode_tile(bits),
        Some(LayerTile { tile: Gid(5), flip_h: true, flip_v: false, flip_d: true })
    );
}

#[test]
fn tile_codec_round_trips_every_flag_pattern() {
    for h in [false, true] {
        for v in [false, true] {
            for d in [false, true] {
                let bits = encode_tile(77, h, v, d);
                assert_eq!(
                    decode_tile(bits),
                    Some(LayerTile { tile: Gid(77), flip_h: h, flip_v: v, flip_d: d })
                );
            }
        }
    }
}

#[test]
fn empty_cells_decode_to_nothing_whatever_the_flags() {
    assert_eq!(decode_tile(0), None);
    assert_eq!(decode_tile(0x8000_0000), None);
    assert_eq!(decode_tile(0xe000_0000), None);
}

#[test]
fn plain_ids_decode_without_flips() {
    assert_eq!(
        decode_tile(7),
        Some(LayerTile { tile: Gid(7), flip_h: false, flip_v: false, flip_d: false })
    );
}

#[test]
fn property_lookup_is_last_wins() {
    let props = vec![
        ("a".to_string(), TiledPropertyType::Int(1)),
        ("b".to_string(), TiledPropertyType::Bool(true)),
        ("a".to_string(), TiledPropertyType::Int(2)),
    ];
    assert_eq!(property_lookup(&props, "a"), Some(&TiledPropertyType::Int(2)));
    assert_eq!(
        property_lookup(&props, "b"),
        Some(&TiledPropertyType::Bool(true))
    );
    assert_eq!(property_lookup(&props, "c"), None);
}
