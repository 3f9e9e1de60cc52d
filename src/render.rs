//! The spacing of a drawing of the tree. Each level is one row; which value
//! stands at each position of a row comes from `AvlTree::level_slots`, and
//! each position is a cell of a fixed width. Going up one level doubles the
//! spacing, so that every node stands centred above its two children.

use vstd::arithmetic::power2::{lemma2_to64, lemma_pow2_pos, lemma_pow2_strictly_increases, lemma_pow2_unfold, pow2};
use vstd::prelude::*;

verus! {

/// Blank cells before the first position of row `depth` of a tree of height
/// `height`.
pub open spec fn indent_cells(height: nat, depth: nat) -> nat {
    (pow2((height - depth - 1) as nat) - 1) as nat
}

/// Blank cells between two neighbouring positions of row `depth` of a tree
/// of height `height`.
pub open spec fn gap_cells(height: nat, depth: nat) -> nat {
    (pow2((height - depth) as nat) - 1) as nat
}

/// The number of spaces before the first cell and between two cells of row
/// `depth`, for cells `width` characters wide; `None` where the spacing does
/// not fit in a `usize`.
pub fn row_spacing(height: usize, depth: usize, width: usize) -> (r: Option<(usize, usize)>)
    requires
        depth < height,
    ensures
        r is Some <==> gap_cells(height as nat, depth as nat) * width <= usize::MAX,
        r matches Some(p) ==> p.0 == indent_cells(height as nat, depth as nat) * width,
        r matches Some(p) ==> p.1 == gap_cells(height as nat, depth as nat) * width,
{
    let level = height - depth;
    proof {
        lemma_pow2_pos(level as nat);
        lemma_pow2_pos((level - 1) as nat);
        lemma2_to64();
    }
    if width == 0 {
        return Some((0, 0));
    }
    let mut inner: usize = 0;
    let mut i: usize = 0;
    while i + 1 < level
        invariant
            0 < level,
            level == height - depth,
            width >= 1,
            i + 1 <= level,
            inner == pow2(i as nat) - 1,
        decreases level - i,
    {
        proof {
            lemma_pow2_unfold((i + 1) as nat);
        }
        if inner > (usize::MAX - 1) / 2 {
            proof {
                lemma_pow2_strictly_increases((i + 1) as nat, level as nat);
                let gap = gap_cells(height as nat, depth as nat);
                assert(gap * width >= gap) by (nonlinear_arith)
                    requires
                        width >= 1,
                ;
            }
            return None;
        }
        inner = 2 * inner + 1;
        i = i + 1;
    }
    proof {
        lemma_pow2_unfold(level as nat);
    }
    if inner > (usize::MAX - 1) / 2 {
        proof {
            let gap = gap_cells(height as nat, depth as nat);
            assert(gap * width >= gap) by (nonlinear_arith)
                requires
                    width >= 1,
            ;
        }
        return None;
    }
    let outer = 2 * inner + 1;
    match outer.checked_mul(width) {
        None => None,
        Some(gap) => {
            proof {
                assert(inner * width <= outer * width) by (nonlinear_arith)
                    requires
                        inner <= outer,
                ;
            }
            Some((inner * width, gap))
        },
    }
}

} // verus!
