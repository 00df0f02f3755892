//! Scrolling: which rows of a rendered page a window shows.
//!
//! The page is rendered once into a tall buffer of `0xRRGGBB` words; each
//! frame, the rows the user has scrolled to are copied into the window's
//! buffer, with white below the end of the page.
use vstd::prelude::*;
use crate::render::pixel_index;

verus! {

/// The colour shown below the end of the page.
pub const WHITE: u32 = 0x00ff_ffff;

/// Word `(col, row)` of a `view_w`-wide window scrolled down by `scroll` rows
/// over a page `page_h` rows high: the page's word at `(col, scroll + row)`,
/// or white below the page.
pub open spec fn view_word(page: Seq<u32>, view_w: int, page_h: int, scroll: int, col: int, row: int) -> u32 {
    if scroll + row < page_h {
        page[pixel_index(view_w, col, scroll + row)]
    } else {
        WHITE
    }
}

/// Copy the visible rows (`scroll..scroll + view_h`) of the page into the
/// window buffer, padding with white where the page is shorter than the view.
pub fn blit_view(
    page: &[u32],
    view: &mut [u32],
    view_w: usize,
    view_h: usize,
    page_h: usize,
    scroll: usize,
)
    requires
        view_w * view_h <= old(view)@.len(),
        scroll + view_h <= usize::MAX,
        scroll < page_h ==> (if scroll + view_h < page_h {
            scroll + view_h
        } else {
            page_h as int
        }) * view_w <= page@.len(),
    ensures
        final(view)@.len() == old(view)@.len(),
        forall|col: int, row: int|
            0 <= col < view_w && 0 <= row < view_h ==> #[trigger] final(view)@[pixel_index(view_w as int, col, row)]
                == view_word(page@, view_w as int, page_h as int, scroll as int, col, row),
        forall|i: int| view_w * view_h <= i < old(view)@.len() ==> #[trigger] final(view)@[i] == old(view)@[i],
{
    let vlen = view.len();
    let plen = page.len();
    let ghost old_view = view@;
    let mut row: usize = 0;
    while row < view_h
        invariant
            vlen == view@.len(),
            vlen == old_view.len(),
            plen == page@.len(),
            old_view == old(view)@,
            view_w * view_h <= vlen,
            scroll + view_h <= usize::MAX,
            scroll < page_h ==> (if scroll + view_h < page_h {
                scroll + view_h
            } else {
                page_h as int
            }) * view_w <= plen,
            row <= view_h,
            forall|c: int, r: int|
                0 <= c < view_w && 0 <= r < row ==> #[trigger] view@[pixel_index(view_w as int, c, r)]
                    == view_word(page@, view_w as int, page_h as int, scroll as int, c, r),
            forall|i: int| (row * view_w <= i < vlen) ==> #[trigger] view@[i] == old_view[i],
        decreases view_h - row,
    {
        let src_row = scroll + row;
        let mut col: usize = 0;
        proof {
            assert((row + 1) * view_w <= view_h * view_w) by (nonlinear_arith)
                requires
                    row < view_h,
            ;
            assert(view_h * view_w == view_w * view_h) by (nonlinear_arith);
            assert((row + 1) * view_w == row * view_w + view_w) by (nonlinear_arith);
            if src_row < page_h {
                assert((src_row + 1) * view_w <= plen) by (nonlinear_arith)
                    requires
                        src_row + 1 <= (if scroll + view_h < page_h {
                            scroll + view_h
                        } else {
                            page_h as int
                        }),
                        (if scroll + view_h < page_h {
                            scroll + view_h
                        } else {
                            page_h as int
                        }) * view_w <= plen,
                ;
                assert((src_row + 1) * view_w == src_row * view_w + view_w) by (nonlinear_arith);
            }
        }
        while col < view_w
            invariant
                vlen == view@.len(),
                plen == page@.len(),
                row < view_h,
                src_row == scroll + row,
                col <= view_w,
                row * view_w + view_w <= vlen,
                src_row < page_h ==> src_row * view_w + view_w <= plen,
                forall|c: int, r: int|
                    0 <= c < view_w && 0 <= r < row ==> #[trigger] view@[pixel_index(view_w as int, c, r)]
                        == view_word(page@, view_w as int, page_h as int, scroll as int, c, r),
                forall|c: int| 0 <= c < col ==> #[trigger] view@[pixel_index(view_w as int, c, row as int)]
                    == view_word(page@, view_w as int, page_h as int, scroll as int, c, row as int),
                forall|i: int| (row * view_w + col <= i < vlen) ==> #[trigger] view@[i] == old_view[i],
            decreases view_w - col,
        {
            let dst = row * view_w + col;
            let word = if src_row < page_h {
                page[src_row * view_w + col]
            } else {
                WHITE
            };
            let ghost before = view@;
            view[dst] = word;
            proof {
                assert forall|c: int, r: int|
                    0 <= c < view_w && 0 <= r < row implies #[trigger] view@[pixel_index(view_w as int, c, r)]
                        == view_word(page@, view_w as int, page_h as int, scroll as int, c, r) by {
                    assert(pixel_index(view_w as int, c, r) < row * view_w) by (nonlinear_arith)
                        requires
                            0 <= c < view_w,
                            0 <= r < row,
                    ;
                    assert(before[pixel_index(view_w as int, c, r)] == view_word(
                        page@,
                        view_w as int,
                        page_h as int,
                        scroll as int,
                        c,
                        r,
                    ));
                }
            }
            col += 1;
        }
        row += 1;
    }
    assert(row * view_w == view_w * view_h) by (nonlinear_arith)
        requires
            row == view_h,
    ;
}

} // verus!
