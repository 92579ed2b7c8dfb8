//! Seams: the cheapest paths through the overlap band of an error surface,
//! found by dynamic programming.
//!
//! A band has `lanes` lanes and `steps` steps. A vertical seam runs through
//! the leftmost columns of the surface, one cell in each row: its lanes are
//! columns and its steps are rows. A horizontal seam is the same with rows
//! and columns exchanged. From one step to the next a seam stays in its lane
//! or moves to a lane beside it.

use vstd::prelude::*;
use crate::grid::Grid;

verus! {

/// An error surface: for each cell of a patch, how much the patch differs
/// there from what it is laid on.
pub type ErrorSurface = Grid<u32>;

/// A table of accumulated costs: for each cell of a band, the cost of the
/// cheapest seam that ends there.
pub type CostMap = Grid<u64>;

/// The error at lane `lane`, step `step` of the band.
pub open spec fn spec_band(surface: &Grid<u32>, vertical: bool, lane: int, step: int) -> nat {
    if vertical {
        surface.at(lane, step) as nat
    } else {
        surface.at(step, lane) as nat
    }
}

/// The smaller of two numbers.
pub open spec fn spec_min(a: nat, b: nat) -> nat {
    if a <= b {
        a
    } else {
        b
    }
}

/// The cost of the cheapest seam that starts at step 0 and ends in lane
/// `lane` at step `step`: the cell's own error, and from the second step on
/// the smallest such cost among the cells that a seam can come from.
pub open spec fn spec_cost(
    surface: &Grid<u32>,
    vertical: bool,
    lanes: int,
    lane: int,
    step: int,
) -> nat
    decreases step,
{
    if step <= 0 {
        spec_band(surface, vertical, lane, 0)
    } else {
        let same = spec_cost(surface, vertical, lanes, lane, step - 1);
        let lower = if lane > 0 {
            spec_cost(surface, vertical, lanes, lane - 1, step - 1)
        } else {
            same
        };
        let upper = if lane + 1 < lanes {
            spec_cost(surface, vertical, lanes, lane + 1, step - 1)
        } else {
            same
        };
        spec_band(surface, vertical, lane, step) + spec_min(same, spec_min(lower, upper))
    }
}

/// The lane that the seam through lane `lane` at step `step` comes from: the
/// same lane, unless a lane beside it is strictly cheaper at the step before;
/// of two such lanes that cost the same, the lower one.
pub open spec fn spec_previous_lane(
    surface: &Grid<u32>,
    vertical: bool,
    lanes: int,
    lane: int,
    step: int,
) -> int {
    let same = spec_cost(surface, vertical, lanes, lane, step - 1);
    let best = if lane > 0 && spec_cost(surface, vertical, lanes, lane - 1, step - 1) < same {
        lane - 1
    } else {
        lane
    };
    if lane + 1 < lanes && spec_cost(surface, vertical, lanes, lane + 1, step - 1) < spec_cost(
        surface,
        vertical,
        lanes,
        best,
        step - 1,
    ) {
        lane + 1
    } else {
        best
    }
}

/// The cheapest of the first `n` lanes at step `step`; of several that cost
/// the same, the lowest.
pub open spec fn spec_cheapest_lane(
    surface: &Grid<u32>,
    vertical: bool,
    lanes: int,
    n: int,
    step: int,
) -> int
    decreases n,
{
    if n <= 1 {
        0
    } else {
        let best = spec_cheapest_lane(surface, vertical, lanes, n - 1, step);
        if spec_cost(surface, vertical, lanes, n - 1, step) < spec_cost(
            surface,
            vertical,
            lanes,
            best,
            step,
        ) {
            n - 1
        } else {
            best
        }
    }
}

/// The lane of the minimum-cost seam at step `step`. The seam ends, at the
/// last step, in the cheapest lane, and is followed back from there.
pub open spec fn spec_seam_lane(
    surface: &Grid<u32>,
    vertical: bool,
    lanes: int,
    steps: int,
    step: int,
) -> int
    decreases steps - step,
{
    if step >= steps - 1 {
        spec_cheapest_lane(surface, vertical, lanes, lanes, steps - 1)
    } else {
        spec_previous_lane(
            surface,
            vertical,
            lanes,
            spec_seam_lane(surface, vertical, lanes, steps, step + 1),
            step + 1,
        )
    }
}

/// The sum of the errors along the first `n` steps of `path`.
pub open spec fn spec_path_cost(surface: &Grid<u32>, vertical: bool, path: Seq<int>, n: int) -> nat
    decreases n,
{
    if n <= 0 {
        0
    } else {
        spec_path_cost(surface, vertical, path, n - 1) + spec_band(
            surface,
            vertical,
            path[n - 1],
            n - 1,
        )
    }
}

/// `path` is a seam through a band of `lanes` lanes and `steps` steps: it
/// has one lane for each step, each inside the band, and never moves by more
/// than one lane from a step to the next.
pub open spec fn spec_is_seam(path: Seq<int>, lanes: int, steps: int) -> bool {
    &&& path.len() == steps
    &&& forall|s: int| 0 <= s < steps ==> 0 <= #[trigger] path[s] < lanes
    &&& forall|s: int|
        0 < s < steps ==> path[s - 1] - 1 <= #[trigger] path[s] <= path[s - 1] + 1
}

/// The minimum-cost seam, as one lane for each step.
pub open spec fn spec_seam(surface: &Grid<u32>, vertical: bool, lanes: int, steps: int) -> Seq<
    int,
> {
    Seq::new(steps as nat, |s: int| spec_seam_lane(surface, vertical, lanes, steps, s))
}

/// The cheapest lane is a lane, and no lane below `n` is cheaper.
pub proof fn lemma_cheapest_lane(
    surface: &Grid<u32>,
    vertical: bool,
    lanes: int,
    n: int,
    step: int,
)
    requires
        1 <= n,
    ensures
        0 <= spec_cheapest_lane(surface, vertical, lanes, n, step) < n,
        forall|l: int|
            0 <= l < n ==> spec_cost(
                surface,
                vertical,
                lanes,
                spec_cheapest_lane(surface, vertical, lanes, n, step),
                step,
            ) <= #[trigger] spec_cost(surface, vertical, lanes, l, step),
    decreases n,
{
    if n > 1 {
        lemma_cheapest_lane(surface, vertical, lanes, n - 1, step);
    }
}

/// The lane a seam comes from is a lane of the band, at most one lane away,
/// and the cheapest of those it could come from.
pub proof fn lemma_previous_lane(
    surface: &Grid<u32>,
    vertical: bool,
    lanes: int,
    lane: int,
    step: int,
)
    requires
        0 <= lane < lanes,
        1 <= step,
    ensures
        0 <= spec_previous_lane(surface, vertical, lanes, lane, step) < lanes,
        lane - 1 <= spec_previous_lane(surface, vertical, lanes, lane, step) <= lane + 1,
        spec_cost(surface, vertical, lanes, lane, step) == spec_band(surface, vertical, lane, step)
            + spec_cost(
            surface,
            vertical,
            lanes,
            spec_previous_lane(surface, vertical, lanes, lane, step),
            step - 1,
        ),
{
}

/// The minimum-cost seam stays inside the band.
pub proof fn lemma_seam_lane_in_band(
    surface: &Grid<u32>,
    vertical: bool,
    lanes: int,
    steps: int,
    step: int,
)
    requires
        1 <= lanes,
        0 <= step < steps,
    ensures
        0 <= spec_seam_lane(surface, vertical, lanes, steps, step) < lanes,
    decreases steps - step,
{
    if step >= steps - 1 {
        lemma_cheapest_lane(surface, vertical, lanes, lanes, steps - 1);
    } else {
        lemma_seam_lane_in_band(surface, vertical, lanes, steps, step + 1);
        lemma_previous_lane(
            surface,
            vertical,
            lanes,
            spec_seam_lane(surface, vertical, lanes, steps, step + 1),
            step + 1,
        );
    }
}

/// The minimum-cost seam is a seam: it has exactly one lane for each step,
/// starts and ends inside the band, and moves by at most one lane from a step
/// to the next.
pub proof fn lemma_seam_is_seam(surface: &Grid<u32>, vertical: bool, lanes: int, steps: int)
    requires
        1 <= lanes,
        0 <= steps,
    ensures
        spec_is_seam(spec_seam(surface, vertical, lanes, steps), lanes, steps),
{
    let path = spec_seam(surface, vertical, lanes, steps);
    assert forall|s: int| 0 <= s < steps implies 0 <= #[trigger] path[s] < lanes by {
        lemma_seam_lane_in_band(surface, vertical, lanes, steps, s);
    }
    assert forall|s: int| 0 < s < steps implies path[s - 1] - 1 <= #[trigger] path[s] <= path[s
        - 1] + 1 by {
        lemma_seam_lane_in_band(surface, vertical, lanes, steps, s);
        lemma_previous_lane(surface, vertical, lanes, path[s], s);
    }
}

/// Along the minimum-cost seam, the errors up to a step add up to the
/// accumulated cost of the seam's cell at that step.
pub proof fn lemma_seam_cost_prefix(
    surface: &Grid<u32>,
    vertical: bool,
    lanes: int,
    steps: int,
    n: int,
)
    requires
        1 <= lanes,
        1 <= n <= steps,
    ensures
        spec_path_cost(surface, vertical, spec_seam(surface, vertical, lanes, steps), n)
            == spec_cost(
            surface,
            vertical,
            lanes,
            spec_seam_lane(surface, vertical, lanes, steps, n - 1),
            n - 1,
        ),
    decreases n,
{
    let path = spec_seam(surface, vertical, lanes, steps);
    if n == 1 {
        assert(spec_path_cost(surface, vertical, path, 0) == 0);
    } else {
        lemma_seam_cost_prefix(surface, vertical, lanes, steps, n - 1);
        lemma_seam_lane_in_band(surface, vertical, lanes, steps, n - 1);
        lemma_previous_lane(surface, vertical, lanes, path[n - 1], n - 1);
    }
}

/// No seam that ends in a given cell costs less than the accumulated cost of
/// that cell.
pub proof fn lemma_cost_is_lower_bound(
    surface: &Grid<u32>,
    vertical: bool,
    lanes: int,
    path: Seq<int>,
    steps: int,
    n: int,
)
    requires
        spec_is_seam(path, lanes, steps),
        1 <= n <= steps,
    ensures
        spec_cost(surface, vertical, lanes, path[n - 1], n - 1) <= spec_path_cost(
            surface,
            vertical,
            path,
            n,
        ),
    decreases n,
{
    if n == 1 {
        assert(spec_path_cost(surface, vertical, path, 0) == 0);
    } else {
        lemma_cost_is_lower_bound(surface, vertical, lanes, path, steps, n - 1);
        assert(path[n - 2] - 1 <= path[n - 1] <= path[n - 2] + 1);
        assert(0 <= path[n - 2] < lanes);
        assert(0 <= path[n - 1] < lanes);
    }
}

/// The minimum-cost seam is the cheapest: no seam through the band costs
/// less.
pub proof fn lemma_seam_is_cheapest(
    surface: &Grid<u32>,
    vertical: bool,
    lanes: int,
    steps: int,
    other: Seq<int>,
)
    requires
        1 <= lanes,
        1 <= steps,
        spec_is_seam(other, lanes, steps),
    ensures
        spec_path_cost(surface, vertical, spec_seam(surface, vertical, lanes, steps), steps)
            <= spec_path_cost(surface, vertical, other, steps),
{
    lemma_seam_cost_prefix(surface, vertical, lanes, steps, steps);
    lemma_cost_is_lower_bound(surface, vertical, lanes, other, steps, steps);
    lemma_cheapest_lane(surface, vertical, lanes, lanes, steps - 1);
    assert(0 <= other[steps - 1] < lanes);
}

/// An accumulated cost is at most the largest error times the number of
/// steps it spans.
pub proof fn lemma_cost_bound(surface: &Grid<u32>, vertical: bool, lanes: int, lane: int, step: int)
    requires
        0 <= step,
    ensures
        spec_cost(surface, vertical, lanes, lane, step) <= (step + 1) * 0xffff_ffff,
    decreases step,
{
    if step > 0 {
        lemma_cost_bound(surface, vertical, lanes, lane, step - 1);
    }
}

/// The band of `lanes` lanes and `steps` steps lies on the surface.
pub open spec fn spec_band_fits(surface: &Grid<u32>, vertical: bool, lanes: int, steps: int) -> bool {
    if vertical {
        lanes <= surface.spec_width() && steps <= surface.spec_height()
    } else {
        lanes <= surface.spec_height() && steps <= surface.spec_width()
    }
}

/// The lanes of a path, as numbers without a limit.
pub open spec fn spec_lanes(path: Seq<u32>) -> Seq<int> {
    path.map_values(|lane: u32| lane as int)
}

/// The error at lane `lane`, step `step` of the band.
fn band(surface: &ErrorSurface, vertical: bool, lane: u32, step: u32) -> (e: u32)
    requires
        surface.wf(),
        spec_band_fits(surface, vertical, lane + 1, step + 1),
    ensures
        e == spec_band(surface, vertical, lane as int, step as int),
{
    if vertical {
        surface.get_pixel(lane, step)
    } else {
        surface.get_pixel(step, lane)
    }
}

/// The table of accumulated costs: for each cell of the band, the cost of
/// the cheapest seam that ends there. Lanes are the table's columns, steps
/// its rows.
pub fn cost_map(surface: &ErrorSurface, vertical: bool, lanes: u32, steps: u32) -> (costs: CostMap)
    requires
        surface.wf(),
        spec_band_fits(surface, vertical, lanes as int, steps as int),
    ensures
        costs.wf(),
        costs.spec_width() == lanes,
        costs.spec_height() == steps,
        forall|lane: int, step: int|
            0 <= lane < lanes && 0 <= step < steps ==> #[trigger] costs.at(lane, step)
                == spec_cost(surface, vertical, lanes as int, lane, step),
{
    proof {
        surface.lemma_area();
        if vertical {
            assert(lanes * steps <= surface.spec_width() * surface.spec_height())
                by (nonlinear_arith)
                requires
                    0 <= lanes <= surface.spec_width(),
                    0 <= steps <= surface.spec_height(),
            ;
        } else {
            assert(lanes * steps <= surface.spec_width() * surface.spec_height())
                by (nonlinear_arith)
                requires
                    0 <= lanes <= surface.spec_height(),
                    0 <= steps <= surface.spec_width(),
            ;
        }
    }
    let mut costs: CostMap = Grid::filled(lanes, steps, 0u64).unwrap();
    let mut step: u32 = 0;
    while step < steps
        invariant
            surface.wf(),
            spec_band_fits(surface, vertical, lanes as int, steps as int),
            costs.wf(),
            costs.spec_width() == lanes,
            costs.spec_height() == steps,
            step <= steps,
            forall|l: int, s: int|
                0 <= l < lanes && 0 <= s < step ==> #[trigger] costs.at(l, s) == spec_cost(
                    surface,
                    vertical,
                    lanes as int,
                    l,
                    s,
                ),
        decreases steps - step,
    {
        let mut lane: u32 = 0;
        while lane < lanes
            invariant
                surface.wf(),
                spec_band_fits(surface, vertical, lanes as int, steps as int),
                costs.wf(),
                costs.spec_width() == lanes,
                costs.spec_height() == steps,
                step < steps,
                lane <= lanes,
                forall|l: int, s: int|
                    0 <= l < lanes && (0 <= s < step || (s == step && l < lane))
                        ==> #[trigger] costs.at(l, s) == spec_cost(
                        surface,
                        vertical,
                        lanes as int,
                        l,
                        s,
                    ),
            decreases lanes - lane,
        {
            let own = band(surface, vertical, lane, step) as u64;
            let cost = if step == 0 {
                own
            } else {
                let same = costs.get_pixel(lane, step - 1);
                let lower = if lane > 0 {
                    costs.get_pixel(lane - 1, step - 1)
                } else {
                    same
                };
                let upper = if lane + 1 < lanes {
                    costs.get_pixel(lane + 1, step - 1)
                } else {
                    same
                };
                let beside = if lower <= upper {
                    lower
                } else {
                    upper
                };
                let least = if same <= beside {
                    same
                } else {
                    beside
                };
                proof {
                    lemma_cost_bound(surface, vertical, lanes as int, lane as int, step - 1);
                    lemma_cost_bound(surface, vertical, lanes as int, lane - 1, step - 1);
                    lemma_cost_bound(surface, vertical, lanes as int, lane + 1, step - 1);
                }
                own + least
            };
            costs.put_pixel(lane, step, cost);
            lane += 1;
        }
        step += 1;
    }
    costs
}

/// Follows the minimum-cost seam back through a table of accumulated costs.
fn trace_seam(
    costs: &CostMap,
    Ghost(surface): Ghost<&ErrorSurface>,
    Ghost(vertical): Ghost<bool>,
    lanes: u32,
    steps: u32,
) -> (path: Vec<u32>)
    requires
        costs.wf(),
        1 <= lanes,
        costs.spec_width() == lanes,
        costs.spec_height() == steps,
        forall|lane: int, step: int|
            0 <= lane < lanes && 0 <= step < steps ==> #[trigger] costs.at(lane, step)
                == spec_cost(surface, vertical, lanes as int, lane, step),
    ensures
        path@.len() == steps,
        forall|s: int|
            0 <= s < steps ==> #[trigger] path@[s] == spec_seam_lane(
                surface,
                vertical,
                lanes as int,
                steps as int,
                s,
            ),
{
    let mut path: Vec<u32> = Vec::new();
    if steps == 0 {
        return path;
    }
    let mut filled: u32 = 0;
    while filled < steps
        invariant
            filled <= steps,
            path@.len() == filled,
        decreases steps - filled,
    {
        path.push(0);
        filled += 1;
    }
    let last: u32 = steps - 1;
    let mut best: u32 = 0;
    let mut n: u32 = 1;
    while n < lanes
        invariant
            costs.wf(),
            costs.spec_width() == lanes,
            costs.spec_height() == steps,
            last == steps - 1,
            1 <= n <= lanes,
            0 <= best < n,
            best == spec_cheapest_lane(surface, vertical, lanes as int, n as int, last as int),
            forall|lane: int, step: int|
                0 <= lane < lanes && 0 <= step < steps ==> #[trigger] costs.at(lane, step)
                    == spec_cost(surface, vertical, lanes as int, lane, step),
        decreases lanes - n,
    {
        if costs.get_pixel(n, last) < costs.get_pixel(best, last) {
            best = n;
        }
        n += 1;
    }
    let mut step: u32 = last;
    let mut lane: u32 = best;
    path[step as usize] = lane;
    while step > 0
        invariant
            costs.wf(),
            costs.spec_width() == lanes,
            costs.spec_height() == steps,
            path@.len() == steps,
            step < steps,
            0 <= lane < lanes,
            lane == path@[step as int],
            forall|lane: int, step: int|
                0 <= lane < lanes && 0 <= step < steps ==> #[trigger] costs.at(lane, step)
                    == spec_cost(surface, vertical, lanes as int, lane, step),
            forall|s: int|
                step <= s < steps ==> #[trigger] path@[s] == spec_seam_lane(
                    surface,
                    vertical,
                    lanes as int,
                    steps as int,
                    s,
                ),
        decreases step,
    {
        let same = costs.get_pixel(lane, step - 1);
        let mut previous: u32 = lane;
        if lane > 0 && costs.get_pixel(lane - 1, step - 1) < same {
            previous = lane - 1;
        }
        if lane + 1 < lanes && costs.get_pixel(lane + 1, step - 1) < costs.get_pixel(
            previous,
            step - 1,
        ) {
            previous = lane + 1;
        }
        step -= 1;
        lane = previous;
        path[step as usize] = lane;
    }
    path
}

/// The minimum-cost seam through the band of `lanes` lanes and `steps` steps
/// of an error surface, as one lane for each step.
pub fn min_cost_seam(surface: &ErrorSurface, vertical: bool, lanes: u32, steps: u32) -> (path:
    Vec<u32>)
    requires
        surface.wf(),
        1 <= lanes,
        spec_band_fits(surface, vertical, lanes as int, steps as int),
    ensures
        spec_lanes(path@) == spec_seam(surface, vertical, lanes as int, steps as int),
        spec_is_seam(spec_lanes(path@), lanes as int, steps as int),
        path@.len() == steps,
        forall|s: int| 0 <= s < steps ==> #[trigger] path@[s] < lanes,
{
    let costs = cost_map(surface, vertical, lanes, steps);
    let path = trace_seam(&costs, Ghost(surface), Ghost(vertical), lanes, steps);
    proof {
        lemma_seam_is_seam(surface, vertical, lanes as int, steps as int);
        assert(spec_lanes(path@) =~= spec_seam(surface, vertical, lanes as int, steps as int));
        assert forall|s: int| 0 <= s < steps implies #[trigger] path@[s] < lanes by {
            assert(spec_lanes(path@)[s] == path@[s]);
        }
    }
    path
}

/// The minimum-cost vertical seam through the leftmost `overlap` columns of
/// an error surface: for each row, the column where the seam crosses it.
pub fn min_vertical_seam(surface: &ErrorSurface, overlap: u32) -> (path: Vec<u32>)
    requires
        surface.wf(),
        1 <= overlap <= surface.spec_width(),
    ensures
        spec_lanes(path@) == spec_seam(
            surface,
            true,
            overlap as int,
            surface.spec_height() as int,
        ),
        spec_is_seam(spec_lanes(path@), overlap as int, surface.spec_height() as int),
        path@.len() == surface.spec_height(),
        forall|y: int| 0 <= y < surface.spec_height() ==> #[trigger] path@[y] < overlap,
{
    min_cost_seam(surface, true, overlap, surface.height())
}

/// The minimum-cost horizontal seam through the topmost `overlap` rows of an
/// error surface: for each column, the row where the seam crosses it.
pub fn min_horizontal_seam(surface: &ErrorSurface, overlap: u32) -> (path: Vec<u32>)
    requires
        surface.wf(),
        1 <= overlap <= surface.spec_height(),
    ensures
        spec_lanes(path@) == spec_seam(
            surface,
            false,
            overlap as int,
            surface.spec_width() as int,
        ),
        spec_is_seam(spec_lanes(path@), overlap as int, surface.spec_width() as int),
        path@.len() == surface.spec_width(),
        forall|x: int| 0 <= x < surface.spec_width() ==> #[trigger] path@[x] < overlap,
{
    min_cost_seam(surface, false, overlap, surface.width())
}

/// Two surfaces hold the same errors throughout a band.
pub open spec fn spec_same_band(
    s1: &Grid<u32>,
    s2: &Grid<u32>,
    vertical: bool,
    lanes: int,
    steps: int,
) -> bool {
    forall|lane: int, step: int|
        0 <= lane < lanes && 0 <= step < steps ==> #[trigger] spec_band(s1, vertical, lane, step)
            == spec_band(s2, vertical, lane, step)
}

/// Accumulated costs depend on the errors in the band alone.
pub proof fn lemma_same_cost(
    s1: &Grid<u32>,
    s2: &Grid<u32>,
    vertical: bool,
    lanes: int,
    steps: int,
    lane: int,
    step: int,
)
    requires
        spec_same_band(s1, s2, vertical, lanes, steps),
        0 <= lane < lanes,
        0 <= step < steps,
    ensures
        spec_cost(s1, vertical, lanes, lane, step) == spec_cost(s2, vertical, lanes, lane, step),
    decreases step,
{
    assert(spec_band(s1, vertical, lane, step) == spec_band(s2, vertical, lane, step));
    if step > 0 {
        lemma_same_cost(s1, s2, vertical, lanes, steps, lane, step - 1);
        if lane > 0 {
            lemma_same_cost(s1, s2, vertical, lanes, steps, lane - 1, step - 1);
        }
        if lane + 1 < lanes {
            lemma_same_cost(s1, s2, vertical, lanes, steps, lane + 1, step - 1);
        }
    }
}

/// The cheapest lane depends on the errors in the band alone.
pub proof fn lemma_same_cheapest_lane(
    s1: &Grid<u32>,
    s2: &Grid<u32>,
    vertical: bool,
    lanes: int,
    steps: int,
    n: int,
    step: int,
)
    requires
        spec_same_band(s1, s2, vertical, lanes, steps),
        1 <= n <= lanes,
        0 <= step < steps,
    ensures
        spec_cheapest_lane(s1, vertical, lanes, n, step) == spec_cheapest_lane(
            s2,
            vertical,
            lanes,
            n,
            step,
        ),
    decreases n,
{
    if n > 1 {
        lemma_same_cheapest_lane(s1, s2, vertical, lanes, steps, n - 1, step);
        lemma_cheapest_lane(s1, vertical, lanes, n - 1, step);
        lemma_same_cost(s1, s2, vertical, lanes, steps, n - 1, step);
        lemma_same_cost(
            s1,
            s2,
            vertical,
            lanes,
            steps,
            spec_cheapest_lane(s1, vertical, lanes, n - 1, step),
            step,
        );
    }
}

/// The minimum-cost seam depends on the errors in the band alone.
pub proof fn lemma_same_seam_lane(
    s1: &Grid<u32>,
    s2: &Grid<u32>,
    vertical: bool,
    lanes: int,
    steps: int,
    step: int,
)
    requires
        spec_same_band(s1, s2, vertical, lanes, steps),
        1 <= lanes,
        0 <= step < steps,
    ensures
        spec_seam_lane(s1, vertical, lanes, steps, step) == spec_seam_lane(
            s2,
            vertical,
            lanes,
            steps,
            step,
        ),
    decreases steps - step,
{
    if step >= steps - 1 {
        lemma_same_cheapest_lane(s1, s2, vertical, lanes, steps, lanes, steps - 1);
    } else {
        lemma_same_seam_lane(s1, s2, vertical, lanes, steps, step + 1);
        lemma_seam_lane_in_band(s1, vertical, lanes, steps, step + 1);
        let lane = spec_seam_lane(s1, vertical, lanes, steps, step + 1);
        lemma_same_cost(s1, s2, vertical, lanes, steps, lane, step);
        if lane > 0 {
            lemma_same_cost(s1, s2, vertical, lanes, steps, lane - 1, step);
        }
        if lane + 1 < lanes {
            lemma_same_cost(s1, s2, vertical, lanes, steps, lane + 1, step);
        }
    }
}

/// Surfaces that hold the same errors throughout a band have the same
/// minimum-cost seam: the seam is a function of those errors.
pub proof fn lemma_same_seam(
    s1: &Grid<u32>,
    s2: &Grid<u32>,
    vertical: bool,
    lanes: int,
    steps: int,
)
    requires
        spec_same_band(s1, s2, vertical, lanes, steps),
        1 <= lanes,
        0 <= steps,
    ensures
        spec_seam(s1, vertical, lanes, steps) == spec_seam(s2, vertical, lanes, steps),
{
    let seam1 = spec_seam(s1, vertical, lanes, steps);
    let seam2 = spec_seam(s2, vertical, lanes, steps);
    assert forall|s: int| 0 <= s < steps implies #[trigger] seam1[s] == seam2[s] by {
        lemma_same_seam_lane(s1, s2, vertical, lanes, steps, s);
    }
    assert(spec_seam(s1, vertical, lanes, steps) =~= spec_seam(s2, vertical, lanes, steps));
}

} // verus!
