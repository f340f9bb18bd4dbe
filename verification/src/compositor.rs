//! Merging one layer into the canvas: where it lands, which part of it is
//! let through, and the walk over the cells that are painted.

use vstd::prelude::*;
use crate::geom::{contains, intersect, intersect_spec, lemma_intersect_cells, WHi, XYWHi, XYi};
use crate::raster::{lemma_same_cells, lemma_with_pixel, Raster};
use crate::rng::{Rng, RngOp, RngOutput, RngState};

verus! {

/// The rectangle that a raster of a given size covers, its corner at the
/// origin.
pub open spec fn bounds(size: WHi) -> XYWHi {
    (0i32, 0i32, size.0, size.1)
}

/// The rectangle that a layer covers once its corner is moved to `offset`.
pub open spec fn placed(layer: WHi, offset: XYi) -> XYWHi {
    (offset.0, offset.1, layer.0, layer.1)
}

/// The cells of the canvas that a layer paints: those that the canvas and the
/// placed layer share, cut down to the mask where there is one. `None` where
/// nothing is left to paint.
pub open spec fn paint_region(canvas: WHi, layer: WHi, offset: XYi, mask: Option<XYWHi>) -> Option<
    XYWHi,
> {
    match intersect_spec(bounds(canvas), placed(layer, offset)) {
        None => None,
        Some(overlap) => match mask {
            None => Some(overlap),
            Some(crop) => intersect_spec(overlap, crop),
        },
    }
}

/// Whether the cell `(x, y)` of the canvas is painted.
pub open spec fn is_painted(
    canvas: WHi,
    layer: WHi,
    offset: XYi,
    mask: Option<XYWHi>,
    x: int,
    y: int,
) -> bool {
    match paint_region(canvas, layer, offset, mask) {
        None => false,
        Some(region) => contains(region, x, y),
    }
}

/// Every painted cell lies on the canvas, and the cell of the layer that
/// lands on it lies on the layer.
pub proof fn lemma_painted_in_bounds(
    canvas: WHi,
    layer: WHi,
    offset: XYi,
    mask: Option<XYWHi>,
    x: int,
    y: int,
)
    requires
        is_painted(canvas, layer, offset, mask, x, y),
    ensures
        0 <= x < canvas.0,
        0 <= y < canvas.1,
        0 <= x - offset.0 < layer.0,
        0 <= y - offset.1 < layer.1,
{
    lemma_intersect_cells(bounds(canvas), placed(layer, offset));
    let overlap = intersect_spec(bounds(canvas), placed(layer, offset))->Some_0;
    match mask {
        None => {},
        Some(crop) => {
            lemma_intersect_cells(overlap, crop);
        },
    }
    assert(contains(overlap, x, y));
    assert(contains(bounds(canvas), x, y) && contains(placed(layer, offset), x, y));
}

/// A mask that shares no cell with what the canvas and the placed layer
/// share leaves no cell to paint.
pub proof fn lemma_mask_outside_paints_nothing(canvas: WHi, layer: WHi, offset: XYi, crop: XYWHi)
    requires
        forall|x: int, y: int|
            !(contains(crop, x, y) && contains(bounds(canvas), x, y) && contains(
                placed(layer, offset),
                x,
                y,
            )),
    ensures
        forall|x: int, y: int| !is_painted(canvas, layer, offset, Some(crop), x, y),
{
    assert forall|x: int, y: int| !is_painted(canvas, layer, offset, Some(crop), x, y) by {
        if is_painted(canvas, layer, offset, Some(crop), x, y) {
            lemma_intersect_cells(bounds(canvas), placed(layer, offset));
            let overlap = intersect_spec(bounds(canvas), placed(layer, offset))->Some_0;
            lemma_intersect_cells(overlap, crop);
            assert(contains(overlap, x, y) && contains(crop, x, y));
        }
    }
}

/// Blends `top`, with its corner at `top_offset`, into `bottom`. Each painted
/// cell takes what `blend` makes of the pixel it held and the pixel of `top`
/// that lands on it; every other cell keeps its pixel. A mask that leaves
/// nothing to paint is no error: `bottom` is then unchanged.
///
/// The placed layer must meet the canvas, if only at an edge.
pub fn blend_image<P: Copy, Q: Copy, F: Fn(P, Q) -> P>(
    bottom: &mut Raster<P>,
    top: &Raster<Q>,
    top_offset: XYi,
    blend: F,
    mask: Option<XYWHi>,
)
    requires
        old(bottom)@.well_formed(),
        top@.well_formed(),
        intersect_spec(bounds(old(bottom)@.size()), placed(top@.size(), top_offset)) is Some,
        forall|under: P, over: Q| call_requires(blend, (under, over)),
    ensures
        final(bottom)@.well_formed(),
        final(bottom)@.width == old(bottom)@.width,
        final(bottom)@.height == old(bottom)@.height,
        forall|x: int, y: int|
            old(bottom)@.in_bounds(x, y) ==> if is_painted(
                old(bottom)@.size(),
                top@.size(),
                top_offset,
                mask,
                x,
                y,
            ) {
                call_ensures(
                    blend,
                    (old(bottom)@.at(x, y), top@.at(x - top_offset.0, y - top_offset.1)),
                    #[trigger] final(bottom)@.at(x, y),
                )
            } else {
                final(bottom)@.at(x, y) == old(bottom)@.at(x, y)
            },
        (forall|x: int, y: int|
            !is_painted(old(bottom)@.size(), top@.size(), top_offset, mask, x, y))
            ==> final(bottom)@ == old(bottom)@,
{
    let canvas: WHi = (bottom.width(), bottom.height());
    let layer: WHi = (top.width(), top.height());
    let ghost before = bottom@;
    let canvas_rect: XYWHi = (0, 0, canvas.0, canvas.1);
    let layer_rect: XYWHi = (top_offset.0, top_offset.1, layer.0, layer.1);
    let overlap: XYWHi = match intersect(canvas_rect, layer_rect) {
        Some(overlap) => overlap,
        None => {
            // The precondition leaves this out.
            return ;
        },
    };
    let region: XYWHi = match mask {
        None => overlap,
        Some(crop) => match intersect(overlap, crop) {
            Some(region) => region,
            None => {
                return ;
            },
        },
    };
    assert(paint_region(canvas, layer, top_offset, mask) == Some(region));
    let x1: i64 = region.0 as i64;
    let y1: i64 = region.1 as i64;
    let x2: i64 = x1 + region.2 as i64;
    let y2: i64 = y1 + region.3 as i64;
    let mut dst_y: i64 = y1;
    while dst_y < y2
        invariant
            y1 <= dst_y,
            x1 == region.0,
            y1 == region.1,
            x2 == region.0 + region.2,
            y2 == region.1 + region.3,
            y1 <= y2 ==> dst_y <= y2,
            before.well_formed(),
            top@.well_formed(),
            canvas == before.size(),
            layer == top@.size(),
            paint_region(canvas, layer, top_offset, mask) == Some(region),
            forall|under: P, over: Q| call_requires(blend, (under, over)),
            bottom@.well_formed(),
            bottom@.width == before.width,
            bottom@.height == before.height,
            forall|x: int, y: int|
                before.in_bounds(x, y) ==> if contains(region, x, y) && y < dst_y {
                    call_ensures(
                        blend,
                        (before.at(x, y), top@.at(x - top_offset.0, y - top_offset.1)),
                        #[trigger] bottom@.at(x, y),
                    )
                } else {
                    bottom@.at(x, y) == before.at(x, y)
                },
        decreases y2 - dst_y,
    {
        let mut dst_x: i64 = x1;
        while dst_x < x2
            invariant
                x1 <= dst_x,
                x1 <= x2 ==> dst_x <= x2,
                y1 <= dst_y < y2,
                x1 == region.0,
                y1 == region.1,
                x2 == region.0 + region.2,
                y2 == region.1 + region.3,
                before.well_formed(),
                top@.well_formed(),
                canvas == before.size(),
                layer == top@.size(),
                paint_region(canvas, layer, top_offset, mask) == Some(region),
                forall|under: P, over: Q| call_requires(blend, (under, over)),
                bottom@.well_formed(),
                bottom@.width == before.width,
                bottom@.height == before.height,
                forall|x: int, y: int|
                    before.in_bounds(x, y) ==> if contains(region, x, y) && (y < dst_y || (y
                        == dst_y && x < dst_x)) {
                        call_ensures(
                            blend,
                            (before.at(x, y), top@.at(x - top_offset.0, y - top_offset.1)),
                            #[trigger] bottom@.at(x, y),
                        )
                    } else {
                        bottom@.at(x, y) == before.at(x, y)
                    },
            decreases x2 - dst_x,
        {
            proof {
                assert(contains(region, dst_x as int, dst_y as int));
                lemma_painted_in_bounds(canvas, layer, top_offset, mask, dst_x as int, dst_y as int);
            }
            let src_x: u32 = (dst_x - top_offset.0 as i64) as u32;
            let src_y: u32 = (dst_y - top_offset.1 as i64) as u32;
            let under: P = bottom.get_pixel(dst_x as u32, dst_y as u32);
            let over: Q = top.get_pixel(src_x, src_y);
            let blended: P = blend(under, over);
            let ghost painted = bottom@;
            bottom.put_pixel(dst_x as u32, dst_y as u32, blended);
            proof {
                assert forall|x: int, y: int| before.in_bounds(x, y) implies if contains(
                    region,
                    x,
                    y,
                ) && (y < dst_y || (y == dst_y && x < dst_x + 1)) {
                    call_ensures(
                        blend,
                        (before.at(x, y), top@.at(x - top_offset.0, y - top_offset.1)),
                        #[trigger] bottom@.at(x, y),
                    )
                } else {
                    bottom@.at(x, y) == before.at(x, y)
                } by {
                    lemma_with_pixel(painted, dst_x as int, dst_y as int, blended, x, y);
                }
            }
            dst_x += 1;
        }
        dst_y += 1;
    }
    proof {
        if forall|x: int, y: int| !is_painted(canvas, layer, top_offset, mask, x, y) {
            assert forall|x: int, y: int| before.in_bounds(x, y) implies bottom@.at(x, y)
                == before.at(x, y) by {
                assert(!is_painted(canvas, layer, top_offset, mask, x, y));
                assert(!contains(region, x, y));
            }
            lemma_same_cells(bottom@, before);
        }
    }
}

/// The draw that places a crop rectangle along one axis: a point among
/// those that leave the rectangle on the canvas.
pub open spec fn crop_draw(canvas: u32, crop: u32) -> RngOp {
    RngOp::NextU32Range { min: 0, max: (canvas - crop) as u32 }
}

/// The word that a draw returns.
pub open spec fn drawn_word(state: RngState, draw: RngOp) -> u32 {
    match state.output(draw) {
        RngOutput::Word(word) => word,
        _ => 0,
    }
}

/// A crop rectangle of the given size, placed by two draws: first the column
/// of its corner, then the row. On a canvas wider or higher than `i32::MAX`
/// a corner beyond that wraps around.
pub open spec fn crop_rect_spec(state: RngState, canvas: WHi, crop: WHi) -> XYWHi {
    let column = drawn_word(state, crop_draw(canvas.0, crop.0));
    let row = drawn_word(state.after(crop_draw(canvas.0, crop.0)), crop_draw(canvas.1, crop.1));
    (column as i32, row as i32, crop.0, crop.1)
}

/// Draws the place of a crop rectangle of the given size on the canvas. An
/// axis along which the rectangle fills the canvas takes no draw.
///
/// The rectangle must not be larger than the canvas.
pub fn random_crop_rect(rng: &mut Rng, canvas: WHi, crop: WHi) -> (rect: XYWHi)
    requires
        crop.0 <= canvas.0,
        crop.1 <= canvas.1,
    ensures
        rect == crop_rect_spec(old(rng)@, canvas, crop),
        final(rng)@ == old(rng)@.after(crop_draw(canvas.0, crop.0)).after(
            crop_draw(canvas.1, crop.1),
        ),
        canvas.0 <= i32::MAX ==> 0 <= rect.0 && rect.0 + rect.2 <= canvas.0,
        canvas.1 <= i32::MAX ==> 0 <= rect.1 && rect.1 + rect.3 <= canvas.1,
{
    let column: u32 = rng.next_u32_range(0, canvas.0 - crop.0);
    let row: u32 = rng.next_u32_range(0, canvas.1 - crop.1);
    (#[verifier::truncate] (column as i32), #[verifier::truncate] (row as i32), crop.0, crop.1)
}

} // verus!
