//! The color model: classify an RGB triple as one of the eighteen canonical
//! piet colors (six hues at three lightness levels), pure white, or pure
//! black, and build a codel grid from rows of RGB triples.

use vstd::prelude::*;

use crate::cmd_options::CmdOptions;

verus! {

/// One cell of the program grid.  A `Color` cell carries its hue (0 = red,
/// 1 = yellow, 2 = green, 3 = cyan, 4 = blue, 5 = magenta) and light level
/// (0 = light, 1 = normal, 2 = dark), plus the index of the region it belongs
/// to once region analysis has run.
#[derive(Clone, Copy, Debug)]
pub enum Codel {
    Color { hue: u8, light: u8, block_index: Option<usize> },
    Black,
    White,
}

/// A freshly classified color cell, not yet assigned to a region.
pub open spec fn color_codel(hue: u8, light: u8) -> Codel {
    Codel::Color { hue, light, block_index: None }
}

/// The color classification table: the eighteen canonical colors, pure white,
/// pure black, and the fallback for unknown triples.
pub open spec fn spec_rgb_to_codel(rgb: (u8, u8, u8), unknown_white: bool) -> Codel {
    match rgb {
        (0x00, 0x00, 0x00) => Codel::Black,
        (0xFF, 0xFF, 0xFF) => Codel::White,
        (0xFF, 0xC0, 0xC0) => color_codel(0, 0),
        (0xFF, 0x00, 0x00) => color_codel(0, 1),
        (0xC0, 0x00, 0x00) => color_codel(0, 2),
        (0xFF, 0xFF, 0xC0) => color_codel(1, 0),
        (0xFF, 0xFF, 0x00) => color_codel(1, 1),
        (0xC0, 0xC0, 0x00) => color_codel(1, 2),
        (0xC0, 0xFF, 0xC0) => color_codel(2, 0),
        (0x00, 0xFF, 0x00) => color_codel(2, 1),
        (0x00, 0xC0, 0x00) => color_codel(2, 2),
        (0xC0, 0xFF, 0xFF) => color_codel(3, 0),
        (0x00, 0xFF, 0xFF) => color_codel(3, 1),
        (0x00, 0xC0, 0xC0) => color_codel(3, 2),
        (0xC0, 0xC0, 0xFF) => color_codel(4, 0),
        (0x00, 0x00, 0xFF) => color_codel(4, 1),
        (0x00, 0x00, 0xC0) => color_codel(4, 2),
        (0xFF, 0xC0, 0xFF) => color_codel(5, 0),
        (0xFF, 0x00, 0xFF) => color_codel(5, 1),
        (0xC0, 0x00, 0xC0) => color_codel(5, 2),
        _ => if unknown_white {
            Codel::White
        } else {
            Codel::Black
        },
    }
}

/// Classify a single RGB triple.  Unknown colors become white or black
/// depending on `unknown_white`.
pub fn rgb_to_codel(rgb: (u8, u8, u8), unknown_white: bool) -> (c: Codel)
    ensures
        c == spec_rgb_to_codel(rgb, unknown_white),
{
    match rgb {
        (0x00, 0x00, 0x00) => Codel::Black,
        (0xFF, 0xFF, 0xFF) => Codel::White,
        (0xFF, 0xC0, 0xC0) => Codel::Color { hue: 0, light: 0, block_index: None },
        (0xFF, 0x00, 0x00) => Codel::Color { hue: 0, light: 1, block_index: None },
        (0xC0, 0x00, 0x00) => Codel::Color { hue: 0, light: 2, block_index: None },
        (0xFF, 0xFF, 0xC0) => Codel::Color { hue: 1, light: 0, block_index: None },
        (0xFF, 0xFF, 0x00) => Codel::Color { hue: 1, light: 1, block_index: None },
        (0xC0, 0xC0, 0x00) => Codel::Color { hue: 1, light: 2, block_index: None },
        (0xC0, 0xFF, 0xC0) => Codel::Color { hue: 2, light: 0, block_index: None },
        (0x00, 0xFF, 0x00) => Codel::Color { hue: 2, light: 1, block_index: None },
        (0x00, 0xC0, 0x00) => Codel::Color { hue: 2, light: 2, block_index: None },
        (0xC0, 0xFF, 0xFF) => Codel::Color { hue: 3, light: 0, block_index: None },
        (0x00, 0xFF, 0xFF) => Codel::Color { hue: 3, light: 1, block_index: None },
        (0x00, 0xC0, 0xC0) => Codel::Color { hue: 3, light: 2, block_index: None },
        (0xC0, 0xC0, 0xFF) => Codel::Color { hue: 4, light: 0, block_index: None },
        (0x00, 0x00, 0xFF) => Codel::Color { hue: 4, light: 1, block_index: None },
        (0x00, 0x00, 0xC0) => Codel::Color { hue: 4, light: 2, block_index: None },
        (0xFF, 0xC0, 0xFF) => Codel::Color { hue: 5, light: 0, block_index: None },
        (0xFF, 0x00, 0xFF) => Codel::Color { hue: 5, light: 1, block_index: None },
        (0xC0, 0x00, 0xC0) => Codel::Color { hue: 5, light: 2, block_index: None },
        _ => if unknown_white {
            Codel::White
        } else {
            Codel::Black
        },
    }
}

/// Build the codel grid from rows of RGB triples, classifying every cell.
pub fn create_canvas(rgb_rows: &Vec<Vec<(u8, u8, u8)>>, options: &CmdOptions) -> (canvas: Vec<
    Vec<Codel>,
>)
    ensures
        canvas@.len() == rgb_rows@.len(),
        forall|y: int|
            0 <= y < rgb_rows@.len() ==> (#[trigger] canvas@[y])@.len() == rgb_rows@[y]@.len(),
        forall|y: int, x: int|
            0 <= y < rgb_rows@.len() && 0 <= x < rgb_rows@[y]@.len() ==> (#[trigger] canvas@[y]@[x])
                == spec_rgb_to_codel(rgb_rows@[y]@[x], options.unknown_white),
{
    let mut canvas: Vec<Vec<Codel>> = Vec::new();
    let mut y: usize = 0;
    while y < rgb_rows.len()
        invariant
            y <= rgb_rows@.len(),
            canvas@.len() == y,
            forall|yy: int|
                0 <= yy < y ==> (#[trigger] canvas@[yy])@.len() == rgb_rows@[yy]@.len(),
            forall|yy: int, x: int|
                0 <= yy < y && 0 <= x < rgb_rows@[yy]@.len() ==> (#[trigger] canvas@[yy]@[x])
                    == spec_rgb_to_codel(rgb_rows@[yy]@[x], options.unknown_white),
        decreases rgb_rows@.len() - y,
    {
        let row = &rgb_rows[y];
        let mut codels: Vec<Codel> = Vec::new();
        let mut x: usize = 0;
        while x < row.len()
            invariant
                x <= row@.len(),
                codels@.len() == x,
                forall|xx: int|
                    0 <= xx < x ==> (#[trigger] codels@[xx]) == spec_rgb_to_codel(
                        row@[xx],
                        options.unknown_white,
                    ),
            decreases row@.len() - x,
        {
            codels.push(rgb_to_codel(row[x], options.unknown_white));
            x = x + 1;
        }
        canvas.push(codels);
        y = y + 1;
    }
    canvas
}

} // verus!
