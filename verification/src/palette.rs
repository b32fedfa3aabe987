//! The colours in which a cave is drawn: one for each region of rock, brightened where
//! the rock meets open ground.

use vstd::prelude::*;

verus! {

/// A colour as red, green and blue.
pub type CAColor = (u8, u8, u8);

/// By how much a contour cell is brightened.
pub const CONTOUR_SATURATION: u8 = 70;

/// The colour of open ground.
pub const FLOOR_COLOR: CAColor = (0, 0, 0);

/// The colour of rock that belongs to no known region.
pub const DEFAULT_COLOR: CAColor = (0xff, 0xff, 0xff);

/// The colours of the regions; a region takes the colour at its index, counted round.
pub const REGION_COLOR: [CAColor; 20] = [
    (255, 192, 64),
    (64, 255, 192),
    (192, 64, 255),
    (255, 224, 32),
    (96, 255, 160),
    (64, 192, 255),
    (255, 96, 160),
    (160, 255, 96),
    (96, 160, 255),
    (255, 32, 224),
    (224, 255, 32),
    (32, 96, 255),
    (255, 160, 96),
    (32, 255, 224),
    (192, 255, 64),
    (64, 255, 224),
    (255, 64, 192),
    (224, 32, 255),
    (160, 96, 255),
    (255, 32, 96),
];

/// `x` raised by `val`, but not beyond 255.
pub open spec fn brightened(x: u8, val: u8) -> u8 {
    if x + val > 255 {
        255u8
    } else {
        (x + val) as u8
    }
}

/// The colour with each of its three parts brightened by `val`.
pub open spec fn saturated(color: CAColor, val: u8) -> CAColor {
    (brightened(color.0, val), brightened(color.1, val), brightened(color.2, val))
}

/// The colour with each of its three parts raised by `val`, none beyond 255.
pub fn saturate_color(color: &CAColor, val: u8) -> (out: CAColor)
    ensures
        out == saturated(*color, val),
{
    let (r, g, b) = *color;
    (r.saturating_add(val), g.saturating_add(val), b.saturating_add(val))
}

/// The colour of the region with the given index.
pub fn region_color(id: usize) -> (out: CAColor)
    ensures
        out == REGION_COLOR[(id % 20) as int],
{
    REGION_COLOR[id % REGION_COLOR.len()]
}

/// The colour of a cell before contours are brightened: open ground is dark, rock has
/// the colour of its region, or the default colour where its region is not known.
pub open spec fn base_color(tile: u8, region: Option<usize>) -> CAColor {
    if tile > 0 {
        match region {
            Some(id) => REGION_COLOR[(id % 20) as int],
            None => DEFAULT_COLOR,
        }
    } else {
        FLOOR_COLOR
    }
}

/// The colour in which a cell is drawn: its base colour, brightened by
/// `CONTOUR_SATURATION` if the cell lies on a contour.
pub open spec fn shown_color(tile: u8, region: Option<usize>, on_contour: bool) -> CAColor {
    if on_contour {
        saturated(base_color(tile, region), CONTOUR_SATURATION)
    } else {
        base_color(tile, region)
    }
}

/// The colour in which a cell is drawn.
pub fn cell_color(tile: u8, region: Option<usize>, on_contour: bool) -> (out: CAColor)
    ensures
        out == shown_color(tile, region, on_contour),
{
    let mut color = FLOOR_COLOR;
    if tile > 0 {
        color = match region {
            Some(id) => region_color(id),
            None => DEFAULT_COLOR,
        };
    }
    if on_contour {
        color = saturate_color(&color, CONTOUR_SATURATION);
    }
    color
}

/// The colours as bytes, three for each colour: red, green, blue.
pub open spec fn rgb24(colors: Seq<CAColor>) -> Seq<u8> {
    Seq::new(
        3 * colors.len(),
        |k: int|
            if k % 3 == 0 {
                colors[k / 3].0
            } else if k % 3 == 1 {
                colors[k / 3].1
            } else {
                colors[k / 3].2
            },
    )
}

/// A row of colours as the bytes of a row of pixels of three bytes each.
pub fn rgb24_row(colors: &Vec<CAColor>) -> (bytes: Vec<u8>)
    ensures
        bytes@ == rgb24(colors@),
{
    let mut bytes: Vec<u8> = Vec::new();
    let mut k: usize = 0;
    while k < colors.len()
        invariant
            k <= colors@.len(),
            bytes@.len() == 3 * k,
            forall|b: int| 0 <= b < 3 * k ==> #[trigger] bytes@[b] == rgb24(colors@)[b],
        decreases colors@.len() - k,
    {
        let (r, g, b) = colors[k];
        bytes.push(r);
        bytes.push(g);
        bytes.push(b);
        k += 1;
    }
    assert(bytes@ =~= rgb24(colors@));
    bytes
}

} // verus!
