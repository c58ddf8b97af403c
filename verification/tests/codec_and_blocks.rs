//! Unit tests for the text codecs, the color classification, the exit
//! tables, and the pixel plumbing.

use piet::block::Block;
use piet::cmd_options::is_png;
use piet::block_exit::{
    bottommost_coords, leftmost_coords, rightmost_coords, topmost_coords, BlockExit,
};
use piet::codec::{check_unicode_scalar, parse_i64, push_dec_i64, push_utf8};
use piet::codel::{rgb_to_codel, Codel};
use piet::counters::{CodelChooser, DirectionPointer};
use piet::utils::{convert_to_rgb, group_pixels, reduce_to_codels_and_group_into_rows, RawColorType};

fn parse(s: &str) -> Option<i64> {
    parse_i64(&s.as_bytes().to_vec())
}

#[test]
fn png_names_are_recognized_by_suffix() {
    assert!(is_png(&b"input.png".to_vec()));
    assert!(is_png(&b".png".to_vec()));
    assert!(!is_png(&b"input.gif".to_vec()));
    assert!(!is_png(&b"png".to_vec()));
    assert!(!is_png(&b"input.png.gz".to_vec()));
}

#[test]
fn parse_decimal_lines() {
    assert_eq!(parse("42"), Some(42));
    assert_eq!(parse("  -17\n"), Some(-17));
    assert_eq!(parse("+8"), Some(8));
    assert_eq!(parse("9223372036854775807"), Some(i64::MAX));
    assert_eq!(parse("-9223372036854775808"), Some(i64::MIN));
    assert_eq!(parse("9223372036854775808"), None);
    assert_eq!(parse("99999999999999999999999999"), None);
    assert_eq!(parse(""), None);
    assert_eq!(parse("   "), None);
    assert_eq!(parse("+"), None);
    assert_eq!(parse("12a"), None);
    assert_eq!(parse("1 2"), None);
}

#[test]
fn decimal_rendering() {
    let mut out: Vec<u8> = Vec::new();
    push_dec_i64(&mut out, 0);
    assert_eq!(out, b"0".to_vec());
    let mut out: Vec<u8> = Vec::new();
    push_dec_i64(&mut out, -105);
    assert_eq!(out, b"-105".to_vec());
    let mut out: Vec<u8> = Vec::new();
    push_dec_i64(&mut out, i64::MAX);
    assert_eq!(out, b"9223372036854775807".to_vec());
}

#[test]
fn utf8_encoding_lengths() {
    assert!(check_unicode_scalar(0x7F));
    assert!(!check_unicode_scalar(0xD800));
    assert!(!check_unicode_scalar(0x110000));
    assert!(!check_unicode_scalar(-1));
    let mut out: Vec<u8> = Vec::new();
    push_utf8(&mut out, 0x24);
    assert_eq!(out, vec![0x24]);
    let mut out: Vec<u8> = Vec::new();
    push_utf8(&mut out, 0xA2);
    assert_eq!(out, vec![0xC2, 0xA2]);
}

#[test]
fn color_table_covers_the_eighteen_colors() {
    let cases: [((u8, u8, u8), u8, u8); 18] = [
        ((0xFF, 0xC0, 0xC0), 0, 0),
        ((0xFF, 0x00, 0x00), 0, 1),
        ((0xC0, 0x00, 0x00), 0, 2),
        ((0xFF, 0xFF, 0xC0), 1, 0),
        ((0xFF, 0xFF, 0x00), 1, 1),
        ((0xC0, 0xC0, 0x00), 1, 2),
        ((0xC0, 0xFF, 0xC0), 2, 0),
        ((0x00, 0xFF, 0x00), 2, 1),
        ((0x00, 0xC0, 0x00), 2, 2),
        ((0xC0, 0xFF, 0xFF), 3, 0),
        ((0x00, 0xFF, 0xFF), 3, 1),
        ((0x00, 0xC0, 0xC0), 3, 2),
        ((0xC0, 0xC0, 0xFF), 4, 0),
        ((0x00, 0x00, 0xFF), 4, 1),
        ((0x00, 0x00, 0xC0), 4, 2),
        ((0xFF, 0xC0, 0xFF), 5, 0),
        ((0xFF, 0x00, 0xFF), 5, 1),
        ((0xC0, 0x00, 0xC0), 5, 2),
    ];
    for (rgb, hue, light) in cases.iter() {
        match rgb_to_codel(*rgb, false) {
            Codel::Color { hue: h, light: l, block_index } => {
                assert_eq!((h, l), (*hue, *light));
                assert!(block_index.is_none());
            },
            _ => panic!("expected a color"),
        }
    }
    assert!(matches!(rgb_to_codel((0, 0, 0), false), Codel::Black));
    assert!(matches!(rgb_to_codel((0xFF, 0xFF, 0xFF), false), Codel::White));
    assert!(matches!(rgb_to_codel((1, 2, 3), false), Codel::Black));
    assert!(matches!(rgb_to_codel((1, 2, 3), true), Codel::White));
}

#[test]
fn exits_of_a_rectangle_are_its_corners() {
    let coords: Vec<(usize, usize)> = vec![(1, 1), (2, 1), (1, 2), (2, 2)];
    let be = BlockExit::from_coords(&coords);
    assert_eq!(be.up_left, (1, 1));
    assert_eq!(be.up_right, (2, 1));
    assert_eq!(be.right_left, (2, 1));
    assert_eq!(be.right_right, (2, 2));
    assert_eq!(be.down_left, (2, 2));
    assert_eq!(be.down_right, (1, 2));
    assert_eq!(be.left_left, (1, 2));
    assert_eq!(be.left_right, (1, 1));
}

#[test]
fn exits_of_a_single_codel_all_coincide() {
    let coords: Vec<(usize, usize)> = vec![(3, 4)];
    let be = BlockExit::from_coords(&coords);
    assert_eq!(be.up_left, (3, 4));
    assert_eq!(be.down_right, (3, 4));
    assert_eq!(be.left_left, (3, 4));
    assert_eq!(be.right_right, (3, 4));
}

#[test]
fn exits_of_an_l_shape_follow_the_tie_breakers() {
    // ##
    // #
    // #
    let coords: Vec<(usize, usize)> = vec![(0, 0), (1, 0), (0, 1), (0, 2)];
    let (a, b) = topmost_coords(&coords);
    assert_eq!(a, (0, 0));
    assert_eq!(b, (1, 0));
    let (a, b) = bottommost_coords(&coords);
    assert_eq!(a, (0, 2));
    assert_eq!(b, (0, 2));
    let (a, b) = rightmost_coords(&coords);
    assert_eq!(a, (1, 0));
    assert_eq!(b, (1, 0));
    let (a, b) = leftmost_coords(&coords);
    assert_eq!(a, (0, 0));
    assert_eq!(b, (0, 2));
}

#[test]
fn exit_lookup_uses_the_cached_table() {
    let coords: Vec<(usize, usize)> = vec![(0, 0), (1, 0)];
    let be = BlockExit::from_coords(&coords);
    let block = Block { codel_coordinates: coords, hue: 0, light: 1, block_exit: Some(be) };
    assert_eq!(block.size(), 2);
    assert_eq!(
        block.exit_coordinates(&DirectionPointer::Right, &CodelChooser::Left),
        Some((1, 0))
    );
    assert_eq!(
        block.exit_coordinates(&DirectionPointer::Left, &CodelChooser::Left),
        Some((0, 0))
    );
    let bare = Block {
        codel_coordinates: vec![(0, 0)],
        hue: 0,
        light: 1,
        block_exit: None,
    };
    assert_eq!(bare.exit_coordinates(&DirectionPointer::Up, &CodelChooser::Left), None);
}

#[test]
fn pixel_plumbing_round_trip() {
    let rgba: Vec<u8> = vec![1, 2, 3, 255, 4, 5, 6, 255];
    let rgb = convert_to_rgb(&rgba, RawColorType::Rgba);
    assert_eq!(rgb, vec![1, 2, 3, 4, 5, 6]);
    let gray: Vec<u8> = vec![7, 8];
    assert_eq!(convert_to_rgb(&gray, RawColorType::Grayscale), vec![7, 7, 7, 8, 8, 8]);
    let ga: Vec<u8> = vec![9, 255, 10, 0];
    assert_eq!(convert_to_rgb(&ga, RawColorType::GrayscaleAlpha), vec![9, 9, 9, 10, 10, 10]);
    let pixels = group_pixels(&vec![1, 2, 3, 4, 5, 6, 7]);
    assert_eq!(pixels, vec![(1, 2, 3), (4, 5, 6)]);
}

#[test]
fn downsampling_keeps_one_pixel_per_codel() {
    // a 4x4 image at codel size 2 becomes a 2x2 grid
    let mut pixels: Vec<(u8, u8, u8)> = Vec::new();
    for y in 0..4u8 {
        for x in 0..4u8 {
            pixels.push((x, y, 0));
        }
    }
    let rows = reduce_to_codels_and_group_into_rows(&pixels, 2, 4);
    assert_eq!(rows.len(), 2);
    assert_eq!(rows[0], vec![(0, 0, 0), (2, 0, 0)]);
    assert_eq!(rows[1], vec![(0, 2, 0), (2, 2, 0)]);
}
