//! Rasterization of a laid-out box tree into an RGBA frame buffer:
//! each box paints its bounding rectangle with its background color,
//! children painting over their parent in document order.
use vstd::prelude::*;

use crate::cssom::{CSSProperty, CSSValue, ColorData, ColorV, ValueV};
use crate::layout::{BoxKindV, BoxV, BoxType, LayoutBox};
use crate::style::computed_value;

verus! {

/// The first byte of pixel (px, py) in a frame `frame_width` wide.
pub open spec fn pixel_base(px: int, py: int, frame_width: int) -> int {
    (py * frame_width + px) * 4
}

/// Whether pixel (px, py) lies inside the given rectangle.
pub open spec fn in_rect(px: int, py: int, x: int, y: int, width: int, height: int) -> bool {
    x <= px < x + width && y <= py < y + height
}

/// The four bytes of pixel (px, py) hold the color, opaque.
pub open spec fn pixel_painted(
    frame: Seq<u8>,
    px: int,
    py: int,
    frame_width: int,
    r: u8,
    g: u8,
    b: u8,
) -> bool {
    let base = pixel_base(px, py, frame_width);
    frame[base] == r && frame[base + 1] == g && frame[base + 2] == b && frame[base + 3] == 255u8
}

/// The four bytes of pixel (px, py) are the same in both frames.
pub open spec fn pixel_same(a: Seq<u8>, b: Seq<u8>, px: int, py: int, frame_width: int) -> bool {
    let base = pixel_base(px, py, frame_width);
    a[base] == b[base] && a[base + 1] == b[base + 1] && a[base + 2] == b[base + 2] && a[base + 3]
        == b[base + 3]
}

proof fn lemma_pixel_base_bounds(px: int, py: int, fw: int, fh: int)
    by (nonlinear_arith)
    requires
        0 <= px < fw,
        0 <= py < fh,
    ensures
        0 <= pixel_base(px, py, fw),
        pixel_base(px, py, fw) + 3 < 4 * fw * fh,
{
}

proof fn lemma_pixel_base_injective(px1: int, py1: int, px2: int, py2: int, fw: int)
    by (nonlinear_arith)
    requires
        0 <= px1 < fw,
        0 <= px2 < fw,
        0 <= py1,
        0 <= py2,
        (px1, py1) != (px2, py2),
    ensures
        pixel_base(px1, py1, fw) + 3 < pixel_base(px2, py2, fw) || pixel_base(px2, py2, fw) + 3
            < pixel_base(px1, py1, fw),
{
}

/// One pixel's obligation while painting a rectangle: pixels before
/// the scan point (row `upto_y`, column `upto_x`) and inside the
/// rectangle hold the color; all others still hold their old bytes.
spec fn rect_inv(
    cur: Seq<u8>,
    orig: Seq<u8>,
    px: int,
    py: int,
    x: int,
    y: int,
    w: int,
    h: int,
    fw: int,
    fh: int,
    upto_y: int,
    upto_x: int,
    r: u8,
    g: u8,
    b: u8,
) -> bool {
    0 <= px < fw && 0 <= py < fh ==> if in_rect(px, py, x, y, w, h) && (py < upto_y || (py
        == upto_y && px < upto_x)) {
        pixel_painted(cur, px, py, fw, r, g, b)
    } else {
        pixel_same(cur, orig, px, py, fw)
    }
}

/// Paints one rectangle, clipped to the frame: every covered pixel
/// takes the color, opaque; every other pixel keeps its bytes.
#[verifier::loop_isolation(false)]
pub fn draw_rectangle(
    frame: &mut Vec<u8>,
    x: u32,
    y: u32,
    width: u32,
    height: u32,
    r: u8,
    g: u8,
    b: u8,
    frame_width: u32,
    frame_height: u32,
)
    requires
        old(frame)@.len() == 4 * frame_width * frame_height,
    ensures
        final(frame)@.len() == old(frame)@.len(),
        forall|px: int, py: int|
            0 <= px < frame_width && 0 <= py < frame_height ==> if in_rect(
                px,
                py,
                x as int,
                y as int,
                width as int,
                height as int,
            ) {
                pixel_painted(final(frame)@, px, py, frame_width as int, r, g, b)
            } else {
                pixel_same(final(frame)@, old(frame)@, px, py, frame_width as int)
            },
{
    let fw = frame_width as usize;
    // the concrete length bounds every pixel's byte index
    let _frame_len = frame.len();
    proof {
        assert(frame@.len() <= usize::MAX);
    }
    let ghost orig = frame@;
    let ghost xi = x as int;
    let ghost yi = y as int;
    let ghost wi = width as int;
    let ghost hi = height as int;
    let ghost fwi = frame_width as int;
    let ghost fhi = frame_height as int;
    let mut j = y;
    while j < frame_height && j - y < height
        invariant
            y <= j,
            frame@.len() == old(frame)@.len(),
            forall|px: int, py: int|
                #[trigger] rect_inv(
                    frame@,
                    orig,
                    px,
                    py,
                    xi,
                    yi,
                    wi,
                    hi,
                    fwi,
                    fhi,
                    j as int,
                    xi,
                    r,
                    g,
                    b,
                ),
        decreases frame_height - j,
    {
        let mut i = x;
        while i < frame_width && i - x < width
            invariant
                x <= i,
                y <= j < frame_height,
                j - y < height,
                frame@.len() == old(frame)@.len(),
                forall|px: int, py: int|
                    #[trigger] rect_inv(
                        frame@,
                        orig,
                        px,
                        py,
                        xi,
                        yi,
                        wi,
                        hi,
                        fwi,
                        fhi,
                        j as int,
                        i as int,
                        r,
                        g,
                        b,
                    ),
            decreases frame_width - i,
        {
            proof {
                lemma_pixel_base_bounds(i as int, j as int, fwi, fhi);
            }
            let base: usize = ((j as usize) * fw + (i as usize)) * 4;
            let ghost before = frame@;
            frame[base] = r;
            frame[base + 1] = g;
            frame[base + 2] = b;
            frame[base + 3] = 255;
            proof {
                assert(pixel_painted(frame@, i as int, j as int, fwi, r, g, b));
                assert forall|px: int, py: int|
                    #[trigger] rect_inv(
                        frame@,
                        orig,
                        px,
                        py,
                        xi,
                        yi,
                        wi,
                        hi,
                        fwi,
                        fhi,
                        j as int,
                        i as int + 1,
                        r,
                        g,
                        b,
                    ) by {
                    assert(rect_inv(
                        before,
                        orig,
                        px,
                        py,
                        xi,
                        yi,
                        wi,
                        hi,
                        fwi,
                        fhi,
                        j as int,
                        i as int,
                        r,
                        g,
                        b,
                    ));
                    if 0 <= px < fwi && 0 <= py < fhi && !(px == i as int && py == j as int) {
                        lemma_pixel_base_injective(px, py, i as int, j as int, fwi);
                        lemma_pixel_base_bounds(px, py, fwi, fhi);
                        assert(pixel_same(frame@, before, px, py, fwi));
                    }
                }
            }
            i = i + 1;
        }
        proof {
            assert forall|px: int, py: int|
                #[trigger] rect_inv(
                    frame@,
                    orig,
                    px,
                    py,
                    xi,
                    yi,
                    wi,
                    hi,
                    fwi,
                    fhi,
                    j as int + 1,
                    xi,
                    r,
                    g,
                    b,
                ) by {
                assert(rect_inv(
                    frame@,
                    orig,
                    px,
                    py,
                    xi,
                    yi,
                    wi,
                    hi,
                    fwi,
                    fhi,
                    j as int,
                    i as int,
                    r,
                    g,
                    b,
                ));
            }
        }
        j = j + 1;
    }
    proof {
        assert forall|px: int, py: int|
            0 <= px < frame_width && 0 <= py < frame_height implies (if in_rect(
                px,
                py,
                xi,
                yi,
                wi,
                hi,
            ) {
                pixel_painted(frame@, px, py, fwi, r, g, b)
            } else {
                pixel_same(frame@, orig, px, py, fwi)
            }) by {
            assert(rect_inv(frame@, orig, px, py, xi, yi, wi, hi, fwi, fhi, j as int, xi, r, g, b));
        }
    }
}

/// Why painting refused a box tree.
#[derive(Debug, Clone, Copy, PartialEq, Eq, Structural)]
pub enum PaintError {
    /// A block or inline box whose computed background is not an rgb
    /// color with byte-sized components cannot be painted.
    BadBackground,
}

/// Whether every box of the tree carries a paintable background: an
/// rgb color with byte-sized components on block and inline boxes;
/// anonymous boxes paint gray.
pub open spec fn tree_paintable(bx: BoxV) -> bool
    decreases bx,
{
    &&& match bx.kind {
        BoxKindV::Block(s) | BoxKindV::Inline(s) => computed_value(
            s,
            CSSProperty::Background,
        ) matches ValueV::Color(ColorV::Rgb(r, g, b)) && r <= 255 && g <= 255 && b <= 255,
        BoxKindV::Anonymous => true,
    }
    &&& tree_paintable_seq(bx.children)
}

pub open spec fn tree_paintable_seq(children: Seq<BoxV>) -> bool
    decreases children,
{
    children.len() > 0 ==> tree_paintable(children.last()) && tree_paintable_seq(
        children.drop_last(),
    )
}

proof fn lemma_tree_paintable_seq_prefix(children: Seq<BoxV>, k: int)
    requires
        0 <= k <= children.len(),
        forall|t: int| 0 <= t < k ==> tree_paintable(#[trigger] children[t]),
        exists|t: int| k <= t < children.len() && !tree_paintable(#[trigger] children[t]),
    ensures
        !tree_paintable_seq(children),
    decreases children.len(),
{
    let t = choose|t: int| k <= t < children.len() && !tree_paintable(#[trigger] children[t]);
    if t == children.len() - 1 {
    } else {
        assert(children.drop_last()[t] == children[t]);
        assert(k <= t < children.drop_last().len() && !tree_paintable(children.drop_last()[t]));
        assert(forall|u: int| 0 <= u < k ==> children.drop_last()[u] == #[trigger] children[u]);
        lemma_tree_paintable_seq_prefix(children.drop_last(), k);
    }
}

/// Paints a laid-out box and, over it, its children in order. The
/// frame keeps its size; an unpaintable background anywhere in the
/// tree stops the walk.
#[verifier::loop_isolation(false)]
pub fn draw_layout_box(
    frame: &mut Vec<u8>,
    layout_box: &LayoutBox,
    frame_width: u32,
    frame_height: u32,
) -> (res: Result<(), PaintError>)
    requires
        old(frame)@.len() == 4 * frame_width * frame_height,
    ensures
        final(frame)@.len() == old(frame)@.len(),
        res is Ok <==> tree_paintable(layout_box@),
        res is Err ==> res == Err::<(), PaintError>(PaintError::BadBackground),
    decreases layout_box@,
{
    let rect = &layout_box.dimensions.boundingRect;
    let (r, g, b): (u8, u8, u8) = match &layout_box.box_type {
        BoxType::Block(s) | BoxType::Inline(s) => {
            match s.get_computed_value(&CSSProperty::Background) {
                Some(CSSValue::Color(ColorData::Rgb(cr, cg, cb))) => {
                    if cr > 255 || cg > 255 || cb > 255 {
                        return Err(PaintError::BadBackground);
                    }
                    (cr as u8, cg as u8, cb as u8)
                },
                _ => {
                    return Err(PaintError::BadBackground);
                },
            }
        },
        BoxType::Anonymous => (220, 220, 220),
    };
    draw_rectangle(
        frame,
        rect.x,
        rect.y,
        rect.width,
        rect.height,
        r,
        g,
        b,
        frame_width,
        frame_height,
    );
    let mut k: usize = 0;
    let ghost cs = layout_box@.children;
    while k < layout_box.children.len()
        invariant
            0 <= k <= layout_box.children.len(),
            cs.len() == layout_box.children@.len(),
            forall|t: int| 0 <= t < cs.len() ==> cs[t] == layout_box.children@[t]@,
            frame@.len() == old(frame)@.len(),
            forall|t: int| 0 <= t < k ==> tree_paintable(#[trigger] cs[t]),
        decreases layout_box.children.len() - k,
    {
        proof {
            assert(decreases_to!(layout_box@ => layout_box@.children));
            assert(decreases_to!(layout_box@.children => layout_box@.children[k as int]));
        }
        match draw_layout_box(frame, &layout_box.children[k], frame_width, frame_height) {
            Ok(()) => {},
            Err(e) => {
                proof {
                    lemma_tree_paintable_seq_prefix(cs, k as int);
                }
                return Err(e);
            },
        }
        k = k + 1;
    }
    proof {
        assert forall|t: int| 0 <= t < cs.len() implies tree_paintable(#[trigger] cs[t]) by {}
        lemma_tree_paintable_seq_pointwise(cs);
    }
    Ok(())
}

proof fn lemma_tree_paintable_seq_pointwise(children: Seq<BoxV>)
    requires
        forall|t: int| 0 <= t < children.len() ==> tree_paintable(#[trigger] children[t]),
    ensures
        tree_paintable_seq(children),
    decreases children.len(),
{
    if children.len() > 0 {
        lemma_tree_paintable_seq_pointwise(children.drop_last());
    }
}

} // verus!
