//! Work that is spread over the threads of the machine.

use vstd::prelude::*;
use rayon::iter::{IntoParallelRefIterator, ParallelIterator};

verus! {

/// Applies `f` to each of `items`, on as many threads as the machine offers,
/// and collects what it returns in the order of `items`.
///
/// Calls rayon's `par_iter`, `map` and `collect`: a parallel iterator over a
/// slice is indexed, and collecting an indexed iterator into a vector keeps
/// the order of the items. Each result is one that `f` may return for its
/// item.
#[verifier::external_body]
pub(crate) fn par_map<T: Sync, U: Send, F: Fn(&T) -> U + Sync + Send>(items: &Vec<T>, f: F) -> (out:
    Vec<U>)
    requires
        forall|i: int| 0 <= i < items@.len() ==> call_requires(f, (&#[trigger] items@[i],)),
    ensures
        out@.len() == items@.len(),
        forall|i: int|
            0 <= i < items@.len() ==> call_ensures(f, (&items@[i],), #[trigger] out@[i]),
{
    items.par_iter().map(f).collect()
}

/// The cells of a grid of `width` by `height`, row by row.
pub fn grid_cells(width: u32, height: u32) -> (cells: Vec<(u32, u32)>)
    ensures
        forall|k: int|
            0 <= k < cells@.len() ==> (#[trigger] cells@[k]).0 < width && cells@[k].1 < height,
        forall|x: int, y: int|
            0 <= x < width && 0 <= y < height ==> #[trigger] spec_holds(cells@, x, y),
{
    let mut cells: Vec<(u32, u32)> = Vec::new();
    let mut y: u32 = 0;
    while y < height
        invariant
            y <= height,
            forall|k: int|
                0 <= k < cells@.len() ==> (#[trigger] cells@[k]).0 < width && cells@[k].1 < height,
            forall|a: int, b: int|
                0 <= a < width && 0 <= b < y ==> #[trigger] spec_holds(cells@, a, b),
        decreases height - y,
    {
        let mut x: u32 = 0;
        while x < width
            invariant
                y < height,
                x <= width,
                forall|k: int|
                    0 <= k < cells@.len() ==> (#[trigger] cells@[k]).0 < width && cells@[k].1
                        < height,
                forall|a: int, b: int|
                    0 <= a < width && (0 <= b < y || (b == y && a < x)) ==> #[trigger] spec_holds(
                        cells@,
                        a,
                        b,
                    ),
            decreases width - x,
        {
            let ghost before = cells@;
            cells.push((x, y));
            proof {
                assert(cells@[before.len() as int] == (x, y));
                assert forall|a: int, b: int|
                    0 <= a < width && (0 <= b < y || (b == y && a < x + 1)) implies #[trigger] spec_holds(
                    cells@,
                    a,
                    b,
                ) by {
                    if b == y && a == x {
                    } else {
                        assert(spec_holds(before, a, b));
                        let k = choose|k: int|
                            0 <= k < before.len() && (#[trigger] before[k]).0 == a && before[k].1
                                == b;
                        assert(cells@[k] == before[k]);
                    }
                }
            }
            x += 1;
        }
        y += 1;
    }
    cells
}

/// The cell `(x, y)` is among `cells`.
pub open spec fn spec_holds(cells: Seq<(u32, u32)>, x: int, y: int) -> bool {
    exists|k: int| 0 <= k < cells.len() && (#[trigger] cells[k]).0 == x && cells[k].1 == y
}

} // verus!
