use vstd::prelude::*;
use vstd::string::*;

verus! {

/// One cell of a connector grid.
#[derive(Clone, Copy, Debug, PartialEq, Eq, Structural)]
pub enum Glyph {
    Space,
    Forward,
    TurnUp,
    TurnDown,
    Vertical,
    ForwardFromDown,
    ForwardFromUp,
}

impl Glyph {
    /// The text that the glyph is drawn as.
    pub open spec fn spec_text(self) -> Seq<char> {
        match self {
            Glyph::Space => seq![' '],
            Glyph::Forward => seq!['─'],
            Glyph::TurnUp => seq!['╯'],
            Glyph::TurnDown => seq!['╮'],
            Glyph::Vertical => seq!['│'],
            Glyph::ForwardFromDown => seq!['╰'],
            Glyph::ForwardFromUp => seq!['╭'],
        }
    }

    pub fn as_str(self) -> (r: &'static str)
        ensures
            r@ == self.spec_text(),
    {
        match self {
            Glyph::Space => {
                proof {
                    reveal_strlit(" ");
                }
                " "
            },
            Glyph::Forward => {
                proof {
                    reveal_strlit("─");
                }
                "─"
            },
            Glyph::TurnUp => {
                proof {
                    reveal_strlit("╯");
                }
                "╯"
            },
            Glyph::TurnDown => {
                proof {
                    reveal_strlit("╮");
                }
                "╮"
            },
            Glyph::Vertical => {
                proof {
                    reveal_strlit("│");
                }
                "│"
            },
            Glyph::ForwardFromDown => {
                proof {
                    reveal_strlit("╰");
                }
                "╰"
            },
            Glyph::ForwardFromUp => {
                proof {
                    reveal_strlit("╭");
                }
                "╭"
            },
        }
    }
}

/// The glyph drawn at a step of a path, chosen by whether the step into the
/// cell was horizontal, whether the step out of it is horizontal, and whether
/// the path travels upward.
pub open spec fn spec_glyph_for(came_forward: bool, goes_forward: bool, up: bool) -> Glyph {
    if came_forward && goes_forward {
        Glyph::Forward
    } else if came_forward {
        if up { Glyph::TurnUp } else { Glyph::TurnDown }
    } else if goes_forward {
        if up { Glyph::ForwardFromUp } else { Glyph::ForwardFromDown }
    } else {
        Glyph::Vertical
    }
}

fn glyph_for(came_forward: bool, goes_forward: bool, up: bool) -> (g: Glyph)
    ensures
        g == spec_glyph_for(came_forward, goes_forward, up),
{
    if came_forward && goes_forward {
        Glyph::Forward
    } else if came_forward {
        if up { Glyph::TurnUp } else { Glyph::TurnDown }
    } else if goes_forward {
        if up { Glyph::ForwardFromUp } else { Glyph::ForwardFromDown }
    } else {
        Glyph::Vertical
    }
}

/// A grid of `height` rows of `cols` glyphs each.
pub open spec fn is_grid(g: Seq<Seq<Glyph>>, height: int, cols: int) -> bool {
    &&& g.len() == height
    &&& forall|r: int| 0 <= r < height ==> #[trigger] g[r].len() == cols
}

/// A grid of `height` rows of `cols` blank glyphs.
pub open spec fn blank_grid(height: nat, cols: nat) -> Seq<Seq<Glyph>> {
    Seq::new(height, |r: int| Seq::new(cols, |c: int| Glyph::Space))
}

/// The next position of a path at `(row, col)` heading for row `target`: one
/// row closer to the target where that cell of the same lane is free, else
/// one lane to the right. The flag tells whether the step is horizontal.
pub open spec fn next_step(g: Seq<Seq<Glyph>>, row: int, col: int, target: int) -> (int, int, bool) {
    if row > target && g[row - 1][col] == Glyph::Space {
        (row - 1, col, false)
    } else if row < target && g[row + 1][col] == Glyph::Space {
        (row + 1, col, false)
    } else {
        (row, col + 1, true)
    }
}

/// How many rows apart `a` and `b` are.
pub open spec fn distance(a: int, b: int) -> nat {
    if a > b { (a - b) as nat } else { (b - a) as nat }
}

/// Traces one path from `(row, col)` to row `target` at column `cols`,
/// claiming one free cell per step. `None` where the path would leave the
/// grid or enter a cell that another path already claimed.
pub open spec fn walk(
    g: Seq<Seq<Glyph>>,
    row: int,
    col: int,
    came_forward: bool,
    target: int,
    cols: int,
    up: bool,
) -> Option<Seq<Seq<Glyph>>>
    decreases cols - col, distance(row, target),
{
    if row == target && col == cols {
        Some(g)
    } else if !(0 <= row < g.len() && 0 <= target < g.len() && 0 <= col < cols) {
        None
    } else if g[row][col] != Glyph::Space {
        None
    } else {
        let (nr, nc, nf) = next_step(g, row, col, target);
        let g2 = g.update(row, g[row].update(col, spec_glyph_for(came_forward, nf, up)));
        walk(g2, nr, nc, nf, target, cols, up)
    }
}

/// The pairs of `from` and `to` taken position by position.
pub open spec fn zip_pairs(from: Seq<usize>, to: Seq<usize>) -> Seq<(usize, usize)> {
    let n = if from.len() < to.len() { from.len() } else { to.len() };
    Seq::new(n, |i: int| (from[i], to[i]))
}

/// The pairs among the first `n` that travel upward (`upward`), or those that
/// do not, in their order.
pub open spec fn select(pairs: Seq<(usize, usize)>, n: int, upward: bool) -> Seq<(usize, usize)>
    decreases n,
{
    if n <= 0 {
        seq![]
    } else {
        let prev = select(pairs, n - 1, upward);
        let p = pairs[n - 1];
        if (p.0 > p.1) == upward {
            prev.push(p)
        } else {
            prev
        }
    }
}

/// Traces `pairs[i..]` in order, as upward paths.
pub open spec fn route_forward(g: Seq<Seq<Glyph>>, pairs: Seq<(usize, usize)>, i: int, cols: int) -> Option<
    Seq<Seq<Glyph>>,
>
    decreases pairs.len() - i,
{
    if i >= pairs.len() || i < 0 {
        Some(g)
    } else {
        match walk(g, pairs[i].0 as int, 0, true, pairs[i].1 as int, cols, true) {
            Some(g2) => route_forward(g2, pairs, i + 1, cols),
            None => None,
        }
    }
}

/// Traces `pairs[..i]` from the last to the first, as downward paths.
pub open spec fn route_backward(g: Seq<Seq<Glyph>>, pairs: Seq<(usize, usize)>, i: int, cols: int) -> Option<
    Seq<Seq<Glyph>>,
>
    decreases i,
{
    if i <= 0 {
        Some(g)
    } else {
        match walk(g, pairs[i - 1].0 as int, 0, true, pairs[i - 1].1 as int, cols, false) {
            Some(g2) => route_backward(g2, pairs, i - 1, cols),
            None => None,
        }
    }
}

/// The number of lanes between two layers: the larger of the number of
/// upward and of downward pairs.
pub open spec fn lane_count(from: Seq<usize>, to: Seq<usize>) -> nat {
    let ps = zip_pairs(from, to);
    let ups = select(ps, ps.len() as int, true).len();
    let downs = select(ps, ps.len() as int, false).len();
    if ups > downs { ups } else { downs }
}

/// The routed grid of `height` rows for the paired rows `from` and `to`:
/// upward pairs first in their order, then downward pairs in reverse order.
pub open spec fn routed_grid(height: nat, from: Seq<usize>, to: Seq<usize>) -> Option<Seq<Seq<Glyph>>> {
    let ps = zip_pairs(from, to);
    let ups = select(ps, ps.len() as int, true);
    let downs = select(ps, ps.len() as int, false);
    let cols = lane_count(from, to) as int;
    match route_forward(blank_grid(height, cols as nat), ups, 0, cols) {
        Some(g) => route_backward(g, downs, downs.len() as int, cols),
        None => None,
    }
}

/// The text of a row of glyphs.
pub open spec fn row_text(row: Seq<Glyph>) -> Seq<char>
    decreases row.len(),
{
    if row.len() == 0 {
        seq![]
    } else {
        row_text(row.drop_last()) + row.last().spec_text()
    }
}

/// A row of glyphs draws no line break.
pub proof fn lemma_row_text_single_line(row: Seq<Glyph>)
    ensures
        forall|i: int| 0 <= i < row_text(row).len() ==> row_text(row)[i] != '\n',
    decreases row.len(),
{
    if row.len() > 0 {
        lemma_row_text_single_line(row.drop_last());
        let a = row_text(row.drop_last());
        let b = row.last().spec_text();
        assert forall|i: int| 0 <= i < row_text(row).len() implies row_text(row)[i] != '\n' by {
            if i >= a.len() {
                assert(row_text(row)[i] == b[i - a.len()]);
            }
        }
    }
}

/// `after` keeps every glyph that `before` holds outside the blank cells,
/// and fills a cell only where it was blank, with a glyph that is not blank.
pub open spec fn claims_only_free(before: Seq<Seq<Glyph>>, after: Seq<Seq<Glyph>>) -> bool {
    &&& after.len() == before.len()
    &&& forall|r: int| 0 <= r < before.len() ==> (#[trigger] after[r]).len() == before[r].len()
    &&& forall|r: int, c: int|
        0 <= r < before.len() && 0 <= c < before[r].len() && #[trigger] after[r][c] != before[r][c]
            ==> before[r][c] == Glyph::Space && after[r][c] != Glyph::Space
}

/// No two paths share a cell: a traced path writes only cells that were
/// blank, and leaves the glyphs of the paths traced before it in place.
pub proof fn lemma_walk_claims_only_free(
    g: Seq<Seq<Glyph>>,
    row: int,
    col: int,
    came_forward: bool,
    target: int,
    cols: int,
    up: bool,
)
    requires
        is_grid(g, g.len() as int, cols),
        walk(g, row, col, came_forward, target, cols, up) is Some,
    ensures
        claims_only_free(g, walk(g, row, col, came_forward, target, cols, up)->Some_0),
    decreases cols - col, distance(row, target),
{
    if row == target && col == cols {
    } else {
        let (nr, nc, nf) = next_step(g, row, col, target);
        let g1 = g.update(row, g[row].update(col, spec_glyph_for(came_forward, nf, up)));
        assert(is_grid(g1, g.len() as int, cols));
        lemma_walk_claims_only_free(g1, nr, nc, nf, target, cols, up);
        let g2 = walk(g1, nr, nc, nf, target, cols, up)->Some_0;
        assert forall|r: int, c: int|
            0 <= r < g.len() && 0 <= c < g[r].len() && #[trigger] g2[r][c] != g[r][c] implies g[r][c]
                == Glyph::Space && g2[r][c] != Glyph::Space by {
            if g1[r][c] != g[r][c] {
                assert(g2[r][c] == g1[r][c]);
            }
        }
    }
}

/// Every path of an upward routing claims only free cells, so the routing as
/// a whole does too.
pub proof fn lemma_route_forward_claims_only_free(
    g: Seq<Seq<Glyph>>,
    pairs: Seq<(usize, usize)>,
    i: int,
    cols: int,
)
    requires
        is_grid(g, g.len() as int, cols),
        route_forward(g, pairs, i, cols) is Some,
    ensures
        claims_only_free(g, route_forward(g, pairs, i, cols)->Some_0),
    decreases pairs.len() - i,
{
    if i >= pairs.len() || i < 0 {
    } else {
        let g2 = walk(g, pairs[i].0 as int, 0, true, pairs[i].1 as int, cols, true)->Some_0;
        lemma_walk_claims_only_free(g, pairs[i].0 as int, 0, true, pairs[i].1 as int, cols, true);
        assert(is_grid(g2, g.len() as int, cols));
        lemma_route_forward_claims_only_free(g2, pairs, i + 1, cols);
        let g3 = route_forward(g2, pairs, i + 1, cols)->Some_0;
        assert forall|r: int, c: int|
            0 <= r < g.len() && 0 <= c < g[r].len() && #[trigger] g3[r][c] != g[r][c] implies g[r][c]
                == Glyph::Space && g3[r][c] != Glyph::Space by {
            if g2[r][c] != g[r][c] {
                assert(g3[r][c] == g2[r][c]);
            }
        }
    }
}

/// Every path of a downward routing claims only free cells, so the routing
/// as a whole does too.
pub proof fn lemma_route_backward_claims_only_free(
    g: Seq<Seq<Glyph>>,
    pairs: Seq<(usize, usize)>,
    i: int,
    cols: int,
)
    requires
        is_grid(g, g.len() as int, cols),
        route_backward(g, pairs, i, cols) is Some,
    ensures
        claims_only_free(g, route_backward(g, pairs, i, cols)->Some_0),
    decreases i,
{
    if i <= 0 {
    } else {
        let g2 = walk(g, pairs[i - 1].0 as int, 0, true, pairs[i - 1].1 as int, cols, false)->Some_0;
        lemma_walk_claims_only_free(g, pairs[i - 1].0 as int, 0, true, pairs[i - 1].1 as int, cols, false);
        assert(is_grid(g2, g.len() as int, cols));
        lemma_route_backward_claims_only_free(g2, pairs, i - 1, cols);
        let g3 = route_backward(g2, pairs, i - 1, cols)->Some_0;
        assert forall|r: int, c: int|
            0 <= r < g.len() && 0 <= c < g[r].len() && #[trigger] g3[r][c] != g[r][c] implies g[r][c]
                == Glyph::Space && g3[r][c] != Glyph::Space by {
            if g2[r][c] != g[r][c] {
                assert(g3[r][c] == g2[r][c]);
            }
        }
    }
}

/// The row at which an upward path whose lowest claimed rows per lane were
/// `low` enters lane `c > 0`: one above where the lane before blocked it, or
/// its target row where it reached that earlier.
pub open spec fn up_entry(low: Seq<int>, c: int, t: int) -> int {
    if low[c - 1] >= t {
        low[c - 1] + 1
    } else {
        t
    }
}

/// `low[c]` is the lowest claimed row of lane `c` (-1 for none): every cell
/// below it is blank, and the lowest rows do not grow to the right.
pub open spec fn lanes_below_free(g: Seq<Seq<Glyph>>, low: Seq<int>, cols: int) -> bool {
    &&& low.len() == cols
    &&& forall|c: int| 0 <= c < cols ==> -1 <= #[trigger] low[c] < g.len()
    &&& forall|c: int, r: int| 0 <= c < cols && low[c] < r < g.len() ==> #[trigger] g[r][c] == Glyph::Space
    &&& forall|c: int| 0 <= c < cols && low[c] >= 0 ==> #[trigger] g[low[c]][c] != Glyph::Space
    &&& forall|c: int, d: int| 0 <= c <= d < cols ==> #[trigger] low[c] >= #[trigger] low[d]
}

pub open spec fn max_int(a: int, b: int) -> int {
    if a > b {
        a
    } else {
        b
    }
}

/// An upward path at `(row, col)` climbs each lane to its target or until
/// the claimed cell above stops it, then moves one lane right. It reaches
/// its target, claims in lane `col` the rows from where it stops up to `row`,
/// and in each later lane the rows from where it stops up to where it enters.
pub proof fn lemma_up_walk(
    g: Seq<Seq<Glyph>>,
    row: int,
    col: int,
    came_forward: bool,
    t: int,
    cols: int,
    low: Seq<int>,
)
    requires
        is_grid(g, g.len() as int, cols),
        0 <= t <= row < g.len(),
        0 <= col < cols,
        low.len() == cols,
        forall|c: int| col <= c < cols ==> -1 <= #[trigger] low[c],
        forall|c: int, d: int| col <= c <= d < cols ==> #[trigger] low[c] >= #[trigger] low[d],
        low[cols - 1] < t,
        low[col] < row,
        forall|r: int| low[col] < r <= row ==> #[trigger] g[r][col] == Glyph::Space,
        low[col] >= 0 ==> g[low[col]][col] != Glyph::Space,
        forall|c: int, r: int| col < c < cols && low[c] < r < g.len() ==> #[trigger] g[r][c] == Glyph::Space,
        forall|c: int| col < c < cols && low[c] >= 0 ==> #[trigger] g[low[c]][c] != Glyph::Space,
    ensures
        walk(g, row, col, came_forward, t, cols, true) is Some,
        ({
            let g2 = walk(g, row, col, came_forward, t, cols, true)->Some_0;
            &&& is_grid(g2, g.len() as int, cols)
            &&& forall|r: int, c: int| 0 <= r < g.len() && 0 <= c < col ==> #[trigger] g2[r][c] == g[r][c]
            &&& forall|r: int|
                0 <= r < g.len() ==> if max_int(t, low[col] + 1) <= r <= row {
                    #[trigger] g2[r][col] != Glyph::Space
                } else {
                    g2[r][col] == g[r][col]
                }
            &&& forall|r: int, c: int|
                0 <= r < g.len() && col < c < cols ==> if max_int(t, low[c] + 1) <= r <= up_entry(low, c, t) {
                    #[trigger] g2[r][c] != Glyph::Space
                } else {
                    g2[r][c] == g[r][c]
                }
        }),
    decreases cols - col, distance(row, t),
{
    let (nr, nc, nf) = next_step(g, row, col, t);
    let g1 = g.update(row, g[row].update(col, spec_glyph_for(came_forward, nf, true)));
    assert(g[row][col] == Glyph::Space);
    assert(is_grid(g1, g.len() as int, cols));
    assert(spec_glyph_for(came_forward, nf, true) != Glyph::Space);
    assert(walk(g, row, col, came_forward, t, cols, true) == walk(g1, nr, nc, nf, t, cols, true));
    if !nf {
        assert(nr == row - 1 && nc == col);
        assert(row - 1 > low[col]);
        lemma_up_walk(g1, row - 1, col, nf, t, cols, low);
        let g2 = walk(g1, nr, nc, nf, t, cols, true)->Some_0;
        assert forall|r: int| 0 <= r < g.len() implies if max_int(t, low[col] + 1) <= r <= row {
            #[trigger] g2[r][col] != Glyph::Space
        } else {
            g2[r][col] == g[r][col]
        } by {
            if r == row {
                assert(g2[r][col] == g1[r][col]);
            }
        }
    } else {
        assert(nr == row && nc == col + 1);
        assert(max_int(t, low[col] + 1) == row);
        if col + 1 == cols {
            assert(row == t);
            let g2 = g1;
            assert forall|r: int| 0 <= r < g.len() implies if max_int(t, low[col] + 1) <= r <= row {
                #[trigger] g2[r][col] != Glyph::Space
            } else {
                g2[r][col] == g[r][col]
            } by {
            }
        } else {
            assert(up_entry(low, col + 1, t) == row);
            lemma_up_walk(g1, row, col + 1, nf, t, cols, low);
            let g2 = walk(g1, nr, nc, nf, t, cols, true)->Some_0;
            assert forall|r: int| 0 <= r < g.len() implies if max_int(t, low[col] + 1) <= r <= row {
                #[trigger] g2[r][col] != Glyph::Space
            } else {
                g2[r][col] == g[r][col]
            } by {
                assert(g2[r][col] == g1[r][col]);
            }
            assert forall|r: int, c: int| 0 <= r < g.len() && col < c < cols implies if max_int(t, low[c] + 1) <= r
                <= up_entry(low, c, t) {
                #[trigger] g2[r][c] != Glyph::Space
            } else {
                g2[r][c] == g[r][c]
            } by {
                if c > col + 1 {
                } else {
                    assert(c == col + 1);
                }
            }
        }
    }
}

/// The lowest claimed rows per lane after an upward path from `f` to `t`.
pub open spec fn low_after(low: Seq<int>, f: int, t: int) -> Seq<int> {
    Seq::new(low.len(), |c: int| if c == 0 { f } else { up_entry(low, c, t) })
}

/// An upward path from `f` to `t` on a grid whose lanes are free below
/// `low`, with the last lane free down to above `t`, is traced, changes no
/// row outside `t..=f`, and leaves its lanes free below `low_after`.
pub proof fn lemma_up_path(g: Seq<Seq<Glyph>>, f: int, t: int, cols: int, low: Seq<int>)
    requires
        is_grid(g, g.len() as int, cols),
        cols >= 1,
        lanes_below_free(g, low, cols),
        0 <= t < f < g.len(),
        low[0] < f,
        low[cols - 1] < t,
    ensures
        walk(g, f, 0, true, t, cols, true) is Some,
        ({
            let g2 = walk(g, f, 0, true, t, cols, true)->Some_0;
            &&& is_grid(g2, g.len() as int, cols)
            &&& lanes_below_free(g2, low_after(low, f, t), cols)
            &&& forall|r: int, c: int| 0 <= r < g.len() && 0 <= c < cols && (r < t || r > f) ==> #[trigger] g2[r][c] == g[r][c]
        }),
{
    lemma_up_walk(g, f, 0, true, t, cols, low);
    let g2 = walk(g, f, 0, true, t, cols, true)->Some_0;
    let nl = low_after(low, f, t);
    assert forall|c: int| 0 < c < cols implies up_entry(low, c, t) >= low[c] + 1 && up_entry(low, c, t) >= t
        && up_entry(low, c, t) <= f by {
        assert(low[c - 1] >= low[c]);
        assert(low[0] >= low[c - 1]);
    }
    assert forall|c: int, d: int| 0 <= c <= d < cols implies #[trigger] nl[c] >= #[trigger] nl[d] by {
        if c > 0 {
            assert(low[c - 1] >= low[d - 1]);
        }
    }
    assert forall|c: int, r: int| 0 <= c < cols && nl[c] < r < g.len() implies #[trigger] g2[r][c] == Glyph::Space by {
        assert(g2[r][c] == g[r][c]);
    }
    assert forall|c: int| 0 <= c < cols && nl[c] >= 0 implies #[trigger] g2[nl[c]][c] != Glyph::Space by {
    }
    assert forall|r: int, c: int| 0 <= r < g.len() && 0 <= c < cols && (r < t || r > f) implies #[trigger] g2[r][c] == g[r][c] by {
        if c > 0 {
            assert(up_entry(low, c, t) <= f);
        }
    }
}

/// No lane is claimed anywhere.
pub open spec fn empty_lanes(cols: int) -> Seq<int> {
    Seq::new(cols as nat, |c: int| -1)
}

/// Pairs whose "from" rows and whose "to" rows both strictly increase.
pub open spec fn increasing_pairs(ps: Seq<(usize, usize)>) -> bool {
    forall|i: int, j: int| 0 <= i < j < ps.len() ==> (#[trigger] ps[i]).0 < (#[trigger] ps[j]).0 && ps[i].1 < ps[j].1
}

/// Increasing upward pairs inside the grid, as many as there are lanes or
/// fewer, are all traced, each changing only rows of its own span.
pub proof fn lemma_route_up(g: Seq<Seq<Glyph>>, ups: Seq<(usize, usize)>, i: int, cols: int, low: Seq<int>)
    requires
        is_grid(g, g.len() as int, cols),
        lanes_below_free(g, low, cols),
        0 <= i <= ups.len() <= cols,
        increasing_pairs(ups),
        forall|k: int| 0 <= k < ups.len() ==> (#[trigger] ups[k]).1 < ups[k].0 < g.len(),
        i < ups.len() ==> low[0] < ups[i].0,
        i < ups.len() ==> forall|c: int| i <= c < cols ==> #[trigger] low[c] < ups[i].1,
    ensures
        route_forward(g, ups, i, cols) is Some,
        ({
            let g2 = route_forward(g, ups, i, cols)->Some_0;
            &&& is_grid(g2, g.len() as int, cols)
            &&& forall|r: int, c: int|
                0 <= r < g.len() && 0 <= c < cols && (forall|k: int| i <= k < ups.len() ==> r < (#[trigger] ups[k]).1 || r > ups[k].0)
                    ==> #[trigger] g2[r][c] == g[r][c]
        }),
    decreases ups.len() - i,
{
    if i < ups.len() {
        let f = ups[i].0 as int;
        let t = ups[i].1 as int;
        assert(low[cols - 1] < t);
        lemma_up_path(g, f, t, cols, low);
        let g1 = walk(g, f, 0, true, t, cols, true)->Some_0;
        let nl = low_after(low, f, t);
        if i + 1 < ups.len() {
            assert(ups[i].0 < ups[i + 1].0 && ups[i].1 < ups[i + 1].1);
            assert forall|c: int| i + 1 <= c < cols implies #[trigger] nl[c] < ups[i + 1].1 by {
                assert(low[c - 1] < t);
            }
        }
        lemma_route_up(g1, ups, i + 1, cols, nl);
        let g2 = route_forward(g1, ups, i + 1, cols)->Some_0;
        assert forall|r: int, c: int|
            0 <= r < g.len() && 0 <= c < cols && (forall|k: int| i <= k < ups.len() ==> r < (#[trigger] ups[k]).1 || r > ups[k].0)
                implies #[trigger] g2[r][c] == g[r][c] by {
            assert(r < ups[i].1 || r > ups[i].0);
            assert(g1[r][c] == g[r][c]);
        }
    }
}

/// The row at which a downward path whose highest claimed rows per lane
/// were `high` enters lane `c > 0`: one below where the lane before blocked
/// it, or its target row where it reached that earlier.
pub open spec fn down_entry(high: Seq<int>, c: int, t: int) -> int {
    if high[c - 1] <= t {
        high[c - 1] - 1
    } else {
        t
    }
}

pub open spec fn min_int(a: int, b: int) -> int {
    if a < b {
        a
    } else {
        b
    }
}

/// A downward path at `(row, col)` descends each lane to its target or
/// until the claimed cell below stops it, then moves one lane right. It
/// reaches its target, claims in lane `col` the rows from `row` down to
/// where it stops, and in each later lane those from where it enters down to
/// where it stops. Only rows from `row` to `t` are read.
pub proof fn lemma_down_walk(
    g: Seq<Seq<Glyph>>,
    row: int,
    col: int,
    came_forward: bool,
    t: int,
    cols: int,
    high: Seq<int>,
)
    requires
        is_grid(g, g.len() as int, cols),
        0 <= row <= t < g.len(),
        0 <= col < cols,
        high.len() == cols,
        forall|c: int| col <= c < cols ==> #[trigger] high[c] <= g.len(),
        forall|c: int, d: int| col <= c <= d < cols ==> #[trigger] high[c] <= #[trigger] high[d],
        high[cols - 1] > t,
        high[col] > row,
        forall|r: int| row <= r < high[col] && r <= t ==> #[trigger] g[r][col] == Glyph::Space,
        high[col] < g.len() ==> g[high[col]][col] != Glyph::Space,
        forall|c: int, r: int| col < c < cols && row <= r < high[c] && r <= t ==> #[trigger] g[r][c] == Glyph::Space,
        forall|c: int| col < c < cols && high[c] < g.len() ==> #[trigger] g[high[c]][c] != Glyph::Space,
    ensures
        walk(g, row, col, came_forward, t, cols, false) is Some,
        ({
            let g2 = walk(g, row, col, came_forward, t, cols, false)->Some_0;
            &&& is_grid(g2, g.len() as int, cols)
            &&& forall|r: int, c: int| 0 <= r < g.len() && 0 <= c < col ==> #[trigger] g2[r][c] == g[r][c]
            &&& forall|r: int|
                0 <= r < g.len() ==> if row <= r <= min_int(t, high[col] - 1) {
                    #[trigger] g2[r][col] != Glyph::Space
                } else {
                    g2[r][col] == g[r][col]
                }
            &&& forall|r: int, c: int|
                0 <= r < g.len() && col < c < cols ==> if down_entry(high, c, t) <= r <= min_int(t, high[c] - 1) {
                    #[trigger] g2[r][c] != Glyph::Space
                } else {
                    g2[r][c] == g[r][c]
                }
        }),
    decreases cols - col, distance(row, t),
{
    let (nr, nc, nf) = next_step(g, row, col, t);
    let g1 = g.update(row, g[row].update(col, spec_glyph_for(came_forward, nf, false)));
    assert(g[row][col] == Glyph::Space);
    assert(is_grid(g1, g.len() as int, cols));
    assert(spec_glyph_for(came_forward, nf, false) != Glyph::Space);
    assert(walk(g, row, col, came_forward, t, cols, false) == walk(g1, nr, nc, nf, t, cols, false));
    if !nf {
        assert(nr == row + 1 && nc == col);
        assert(row + 1 < high[col]);
        lemma_down_walk(g1, row + 1, col, nf, t, cols, high);
        let g2 = walk(g1, nr, nc, nf, t, cols, false)->Some_0;
        assert forall|r: int| 0 <= r < g.len() implies if row <= r <= min_int(t, high[col] - 1) {
            #[trigger] g2[r][col] != Glyph::Space
        } else {
            g2[r][col] == g[r][col]
        } by {
            if r == row {
                assert(g2[r][col] == g1[r][col]);
            }
        }
    } else {
        assert(nr == row && nc == col + 1);
        assert(min_int(t, high[col] - 1) == row);
        if col + 1 == cols {
            assert(row == t);
            let g2 = g1;
            assert forall|r: int| 0 <= r < g.len() implies if row <= r <= min_int(t, high[col] - 1) {
                #[trigger] g2[r][col] != Glyph::Space
            } else {
                g2[r][col] == g[r][col]
            } by {
            }
        } else {
            assert(down_entry(high, col + 1, t) == row);
            lemma_down_walk(g1, row, col + 1, nf, t, cols, high);
            let g2 = walk(g1, nr, nc, nf, t, cols, false)->Some_0;
            assert forall|r: int| 0 <= r < g.len() implies if row <= r <= min_int(t, high[col] - 1) {
                #[trigger] g2[r][col] != Glyph::Space
            } else {
                g2[r][col] == g[r][col]
            } by {
                assert(g2[r][col] == g1[r][col]);
            }
            assert forall|r: int, c: int| 0 <= r < g.len() && col < c < cols implies if down_entry(high, c, t) <= r
                <= min_int(t, high[c] - 1) {
                #[trigger] g2[r][c] != Glyph::Space
            } else {
                g2[r][c] == g[r][c]
            } by {
                if c > col + 1 {
                } else {
                    assert(c == col + 1);
                }
            }
        }
    }
}

/// The highest claimed rows per lane after a downward path from `f` to `t`.
pub open spec fn high_after(high: Seq<int>, f: int, t: int) -> Seq<int> {
    Seq::new(high.len(), |c: int| if c == 0 { f } else { down_entry(high, c, t) })
}

/// `high[c]` is the highest claimed row of lane `c` (the grid's height for
/// none), and the highest rows do not shrink to the right.
pub open spec fn lanes_above_marked(g: Seq<Seq<Glyph>>, high: Seq<int>, cols: int) -> bool {
    &&& high.len() == cols
    &&& forall|c: int| 0 <= c < cols ==> 0 <= #[trigger] high[c] <= g.len()
    &&& forall|c: int| 0 <= c < cols && high[c] < g.len() ==> #[trigger] g[high[c]][c] != Glyph::Space
    &&& forall|c: int, d: int| 0 <= c <= d < cols ==> #[trigger] high[c] <= #[trigger] high[d]
}

/// A downward path from `f` to `t` on a grid whose lanes are free above
/// `high` in rows `f..=t`, with the last lane free down to `t`, is traced,
/// and changes only rows from `high_after` down to `t` in each lane.
pub proof fn lemma_down_path(g: Seq<Seq<Glyph>>, f: int, t: int, cols: int, high: Seq<int>)
    requires
        is_grid(g, g.len() as int, cols),
        cols >= 1,
        lanes_above_marked(g, high, cols),
        0 <= f <= t < g.len(),
        high[0] > f,
        high[cols - 1] > t,
        forall|c: int, r: int| 0 <= c < cols && f <= r <= t && r < high[c] ==> #[trigger] g[r][c] == Glyph::Space,
    ensures
        walk(g, f, 0, true, t, cols, false) is Some,
        ({
            let g2 = walk(g, f, 0, true, t, cols, false)->Some_0;
            let nh = high_after(high, f, t);
            &&& is_grid(g2, g.len() as int, cols)
            &&& lanes_above_marked(g2, nh, cols)
            &&& forall|c: int| 0 <= c < cols ==> f <= #[trigger] nh[c] <= high[c]
            &&& forall|r: int, c: int| 0 <= r < g.len() && 0 <= c < cols && (r < nh[c] || r > t) ==> #[trigger] g2[r][c] == g[r][c]
        }),
{
    lemma_down_walk(g, f, 0, true, t, cols, high);
    let g2 = walk(g, f, 0, true, t, cols, false)->Some_0;
    let nh = high_after(high, f, t);
    assert forall|c: int| 0 < c < cols implies down_entry(high, c, t) <= high[c] - 1 && down_entry(high, c, t) <= t
        && down_entry(high, c, t) >= f by {
        assert(high[c - 1] <= high[c]);
        assert(high[0] <= high[c - 1]);
    }
    assert forall|c: int, d: int| 0 <= c <= d < cols implies #[trigger] nh[c] <= #[trigger] nh[d] by {
        if c > 0 {
            assert(high[c - 1] <= high[d - 1]);
        }
    }
    assert forall|c: int| 0 <= c < cols && nh[c] < g.len() implies #[trigger] g2[nh[c]][c] != Glyph::Space by {
    }
    assert forall|r: int, c: int| 0 <= r < g.len() && 0 <= c < cols && (r < nh[c] || r > t) implies #[trigger] g2[r][c]
        == g[r][c] by {
    }
}

/// Increasing downward pairs inside the grid, as many as there are lanes or
/// fewer, are all traced from the last to the first, each changing only rows
/// of its own span.
pub proof fn lemma_route_down(g: Seq<Seq<Glyph>>, downs: Seq<(usize, usize)>, i: int, cols: int, high: Seq<int>)
    requires
        is_grid(g, g.len() as int, cols),
        lanes_above_marked(g, high, cols),
        0 <= i <= downs.len() <= cols,
        increasing_pairs(downs),
        forall|k: int| 0 <= k < downs.len() ==> (#[trigger] downs[k]).0 <= downs[k].1 < g.len(),
        forall|k: int, c: int, r: int|
            0 <= k < i && 0 <= c < cols && (#[trigger] downs[k]).0 <= r <= downs[k].1 && r < high[c] ==> #[trigger] g[r][c]
                == Glyph::Space,
        i > 0 ==> high[0] > downs[i - 1].0,
        i > 0 ==> forall|c: int| downs.len() - i <= c < cols ==> #[trigger] high[c] > downs[i - 1].1,
    ensures
        route_backward(g, downs, i, cols) is Some,
        ({
            let g2 = route_backward(g, downs, i, cols)->Some_0;
            &&& is_grid(g2, g.len() as int, cols)
            &&& forall|r: int, c: int|
                0 <= r < g.len() && 0 <= c < cols && (forall|k: int| 0 <= k < i ==> r < (#[trigger] downs[k]).0 || r > downs[k].1)
                    ==> #[trigger] g2[r][c] == g[r][c]
        }),
    decreases i,
{
    if i > 0 {
        let f = downs[i - 1].0 as int;
        let t = downs[i - 1].1 as int;
        assert(high[cols - 1] > t);
        assert forall|c: int, r: int| 0 <= c < cols && f <= r <= t && r < high[c] implies #[trigger] g[r][c] == Glyph::Space by {
            assert(downs[i - 1].0 <= r <= downs[i - 1].1);
        }
        lemma_down_path(g, f, t, cols, high);
        let g1 = walk(g, f, 0, true, t, cols, false)->Some_0;
        let nh = high_after(high, f, t);
        if i - 1 > 0 {
            assert(downs[i - 2].0 < downs[i - 1].0 && downs[i - 2].1 < downs[i - 1].1);
            assert forall|c: int| downs.len() - (i - 1) <= c < cols implies #[trigger] nh[c] > downs[i - 2].1 by {
                assert(high[c - 1] > t);
            }
        }
        assert forall|k: int, c: int, r: int|
            0 <= k < i - 1 && 0 <= c < cols && (#[trigger] downs[k]).0 <= r <= downs[k].1 && r < nh[c] implies #[trigger] g1[r][c]
                == Glyph::Space by {
            assert(g1[r][c] == g[r][c]);
        }
        lemma_route_down(g1, downs, i - 1, cols, nh);
        let g2 = route_backward(g1, downs, i - 1, cols)->Some_0;
        assert forall|r: int, c: int|
            0 <= r < g.len() && 0 <= c < cols && (forall|k: int| 0 <= k < i ==> r < (#[trigger] downs[k]).0 || r > downs[k].1)
                implies #[trigger] g2[r][c] == g[r][c] by {
            assert(r < downs[i - 1].0 || r > downs[i - 1].1);
            assert(r < nh[c] || r > t);
            assert(g1[r][c] == g[r][c]);
        }
    }
}

/// Every pair that `select` keeps is one of the first `n` pairs, going the
/// chosen way.
pub proof fn lemma_select_members(pairs: Seq<(usize, usize)>, n: int, upward: bool)
    requires
        0 <= n <= pairs.len(),
    ensures
        forall|i: int| 0 <= i < select(pairs, n, upward).len() ==> exists|k: int| 0 <= k < n && pairs[k] == #[trigger] select(pairs, n, upward)[i],
        forall|i: int| 0 <= i < select(pairs, n, upward).len() ==> ((#[trigger] select(pairs, n, upward)[i]).0 > select(pairs, n, upward)[i].1) == upward,
        select(pairs, n, upward).len() <= n,
    decreases n,
{
    if n > 0 {
        lemma_select_members(pairs, n - 1, upward);
        let prev = select(pairs, n - 1, upward);
        let cur = select(pairs, n, upward);
        assert forall|i: int| 0 <= i < cur.len() implies exists|k: int| 0 <= k < n && pairs[k] == #[trigger] cur[i] by {
            if i < prev.len() {
                assert(cur[i] == prev[i]);
                let k = choose|k: int| 0 <= k < n - 1 && pairs[k] == prev[i];
                assert(pairs[k] == cur[i]);
            } else {
                assert(cur[i] == pairs[n - 1]);
            }
        }
        assert forall|i: int| 0 <= i < cur.len() implies ((#[trigger] cur[i]).0 > cur[i].1) == upward by {
            if i < prev.len() {
                assert(cur[i] == prev[i]);
            }
        }
    }
}

/// `select` keeps increasing pairs increasing.
pub proof fn lemma_select_increasing(pairs: Seq<(usize, usize)>, n: int, upward: bool)
    requires
        0 <= n <= pairs.len(),
        increasing_pairs(pairs),
    ensures
        increasing_pairs(select(pairs, n, upward)),
    decreases n,
{
    if n > 0 {
        lemma_select_increasing(pairs, n - 1, upward);
        lemma_select_members(pairs, n - 1, upward);
        let prev = select(pairs, n - 1, upward);
        let cur = select(pairs, n, upward);
        assert forall|i: int, j: int| 0 <= i < j < cur.len() implies (#[trigger] cur[i]).0 < (#[trigger] cur[j]).0 && cur[i].1 < cur[j].1 by {
            if j < prev.len() {
                assert(cur[i] == prev[i] && cur[j] == prev[j]);
            } else {
                assert(cur[j] == pairs[n - 1]);
                assert(cur[i] == prev[i]);
                let k = choose|k: int| 0 <= k < n - 1 && pairs[k] == prev[i];
                assert(pairs[k].0 < pairs[n - 1].0);
            }
        }
    }
}

/// Pairs whose "from" rows and whose "to" rows both increase, all inside a
/// grid of `height` rows, are always routed: no path leaves the grid or
/// meets a cell that another path claimed.
pub proof fn lemma_increasing_pairs_route(height: nat, from: Seq<usize>, to: Seq<usize>)
    requires
        increasing_pairs(zip_pairs(from, to)),
        forall|k: int|
            0 <= k < zip_pairs(from, to).len() ==> (#[trigger] zip_pairs(from, to)[k]).0 < height && zip_pairs(from, to)[k].1
                < height,
    ensures
        routed_grid(height, from, to) is Some,
{
    let ps = zip_pairs(from, to);
    let n = ps.len() as int;
    let ups = select(ps, n, true);
    let downs = select(ps, n, false);
    let cols = lane_count(from, to) as int;
    let g0 = blank_grid(height, cols as nat);
    lemma_select_members(ps, n, true);
    lemma_select_members(ps, n, false);
    lemma_select_increasing(ps, n, true);
    lemma_select_increasing(ps, n, false);
    assert(is_grid(g0, height as int, cols));
    if cols == 0 {
        assert(ups.len() == 0 && downs.len() == 0);
    } else {
        let low0 = empty_lanes(cols);
        assert(lanes_below_free(g0, low0, cols));
        assert forall|k: int| 0 <= k < ups.len() implies (#[trigger] ups[k]).1 < ups[k].0 < g0.len() by {
            let j = choose|j: int| 0 <= j < n && ps[j] == ups[k];
            assert(ps[j].0 < height);
        }
        lemma_route_up(g0, ups, 0, cols, low0);
        let g1 = route_forward(g0, ups, 0, cols)->Some_0;
        let high0 = Seq::new(cols as nat, |c: int| height as int);
        assert(lanes_above_marked(g1, high0, cols));
        assert forall|k: int| 0 <= k < downs.len() implies (#[trigger] downs[k]).0 <= downs[k].1 < g1.len() by {
            let j = choose|j: int| 0 <= j < n && ps[j] == downs[k];
            assert(ps[j].1 < height);
        }
        assert forall|k: int, c: int, r: int|
            0 <= k < downs.len() && 0 <= c < cols && (#[trigger] downs[k]).0 <= r <= downs[k].1 && r < high0[c]
                implies #[trigger] g1[r][c] == Glyph::Space by {
            let j = choose|j: int| 0 <= j < n && ps[j] == downs[k];
            assert forall|m: int| 0 <= m < ups.len() implies r < (#[trigger] ups[m]).1 || r > ups[m].0 by {
                let jm = choose|jm: int| 0 <= jm < n && ps[jm] == ups[m];
                assert(jm != j);
                if j < jm {
                    assert(ps[j].1 < ps[jm].1);
                } else {
                    assert(ps[jm].0 < ps[j].0);
                }
            }
            assert(g1[r][c] == g0[r][c]);
        }
        if downs.len() > 0 {
            assert(downs[downs.len() - 1].0 <= downs[downs.len() - 1].1 < height);
        }
        lemma_route_down(g1, downs, downs.len() as int, cols, high0);
    }
}

/// Routes connector paths between the "from" rows of one layer and the "to"
/// rows of the next.
pub struct LayerConnector {
    chars: Vec<Vec<Glyph>>,
    from: Vec<usize>,
    pub to: Vec<usize>,
}

impl LayerConnector {
    /// The grid of glyphs.
    pub closed spec fn grid(&self) -> Seq<Seq<Glyph>> {
        Seq::new(self.chars@.len(), |r: int| self.chars@[r]@)
    }

    /// The rows of the layer before that paths start from.
    pub closed spec fn from_rows(&self) -> Seq<usize> {
        self.from@
    }

    /// The rows of this layer that paths end at, paired with `from_rows` by
    /// position.
    pub closed spec fn to_rows(&self) -> Seq<usize> {
        self.to@
    }

    /// A connector for a layer `height` rows high, with its "from" rows and
    /// no "to" rows yet; the grid has no lanes until it is resolved.
    pub fn new(height: usize, from: Vec<usize>) -> (r: Self)
        ensures
            r.grid() == Seq::new(height as nat, |i: int| Seq::<Glyph>::empty()),
            r.from_rows() == from@,
            r.to_rows() == Seq::<usize>::empty(),
    {
        let mut chars: Vec<Vec<Glyph>> = Vec::new();
        while chars.len() < height
            invariant
                chars.len() <= height,
                forall|i: int| 0 <= i < chars.len() ==> (#[trigger] chars@[i])@.len() == 0,
            decreases height - chars.len(),
        {
            chars.push(Vec::new());
        }
        let r = LayerConnector { chars, from, to: Vec::new() };
        assert forall|i: int| 0 <= i < height implies r.grid()[i] =~= Seq::<Glyph>::empty() by {}
        assert(r.grid() =~= Seq::new(height as nat, |i: int| Seq::<Glyph>::empty()));
        r
    }

    /// Sets the "to" rows, the first rows of the cells of the next layer.
    pub fn set_to(&mut self, to: Vec<usize>)
        ensures
            final(self).grid() == old(self).grid(),
            final(self).from_rows() == old(self).from_rows(),
            final(self).to_rows() == to@,
    {
        self.to = to;
    }

    /// Traces one path from row `con.0` to row `con.1` across `cols` lanes.
    /// Returns false, leaving the grid partly drawn, where `walk` fails.
    fn resolve_connection(&mut self, con: (usize, usize), cols: usize, up: bool) -> (ok: bool)
        requires
            is_grid(old(self).grid(), old(self).grid().len() as int, cols as int),
        ensures
            ok == walk(old(self).grid(), con.0 as int, 0, true, con.1 as int, cols as int, up) is Some,
            ok ==> final(self).grid() == walk(
                old(self).grid(),
                con.0 as int,
                0,
                true,
                con.1 as int,
                cols as int,
                up,
            )->Some_0,
            is_grid(final(self).grid(), old(self).grid().len() as int, cols as int),
            final(self).from == old(self).from,
            final(self).to == old(self).to,
    {
        let ghost g0 = self.grid();
        let height = self.chars.len();
        let mut row = con.0;
        let mut col: usize = 0;
        let mut last_was_forward = true;
        let target = con.1;
        let mut ok = false;
        loop
            invariant_except_break
                !ok,
            invariant
                height == self.chars.len(),
                height == g0.len(),
                is_grid(self.grid(), height as int, cols as int),
                col <= cols,
                walk(g0, con.0 as int, 0, true, target as int, cols as int, up) == walk(
                    self.grid(),
                    row as int,
                    col as int,
                    last_was_forward,
                    target as int,
                    cols as int,
                    up,
                ),
                self.from == old(self).from,
                self.to == old(self).to,
            ensures
                is_grid(self.grid(), height as int, cols as int),
                ok == walk(g0, con.0 as int, 0, true, target as int, cols as int, up) is Some,
                ok ==> self.grid() == walk(g0, con.0 as int, 0, true, target as int, cols as int, up)->Some_0,
                self.from == old(self).from,
                self.to == old(self).to,
            decreases cols - col, distance(row as int, target as int),
        {
            if row == target && col == cols {
                ok = true;
                break;
            }
            if !(row < height && target < height && col < cols) {
                break;
            }
            if self.chars[row][col] != Glyph::Space {
                break;
            }
            let ghost g = self.grid();
            let (new_row, new_col, new_is_forward) = if row > target && self.chars[row
                - 1][col] == Glyph::Space {
                (row - 1, col, false)
            } else if row < target && self.chars[row + 1][col] == Glyph::Space {
                (row + 1, col, false)
            } else {
                (row, col + 1, true)
            };
            assert((new_row as int, new_col as int, new_is_forward) == next_step(
                g,
                row as int,
                col as int,
                target as int,
            ));
            let unit = glyph_for(last_was_forward, new_is_forward, up);
            self.chars[row][col] = unit;
            assert(self.grid() =~= g.update(row as int, g[row as int].update(col as int, unit)));
            row = new_row;
            col = new_col;
            last_was_forward = new_is_forward;
        }
        ok
    }

    /// Traces `pairs[i..]` in order as upward paths; false where one fails.
    fn route_upward(&mut self, pairs: &Vec<(usize, usize)>, cols: usize) -> (ok: bool)
        requires
            is_grid(old(self).grid(), old(self).grid().len() as int, cols as int),
        ensures
            ok == route_forward(old(self).grid(), pairs@, 0, cols as int) is Some,
            ok ==> final(self).grid() == route_forward(old(self).grid(), pairs@, 0, cols as int)->Some_0,
            is_grid(final(self).grid(), old(self).grid().len() as int, cols as int),
            final(self).from == old(self).from,
            final(self).to == old(self).to,
    {
        let ghost g0 = self.grid();
        let ghost height = g0.len() as int;
        let mut ok = false;
        let mut k: usize = 0;
        loop
            invariant_except_break
                !ok,
                route_forward(g0, pairs@, 0, cols as int) == route_forward(self.grid(), pairs@, k as int, cols as int),
            invariant
                k <= pairs.len(),
                is_grid(self.grid(), height, cols as int),
                self.from == old(self).from,
                self.to == old(self).to,
            ensures
                ok == route_forward(g0, pairs@, 0, cols as int) is Some,
                ok ==> self.grid() == route_forward(g0, pairs@, 0, cols as int)->Some_0,
            decreases pairs.len() - k,
        {
            if k == pairs.len() {
                ok = true;
                break;
            }
            if !self.resolve_connection(pairs[k], cols, true) {
                break;
            }
            k = k + 1;
        }
        ok
    }

    /// Traces `pairs` from the last to the first as downward paths; false
    /// where one fails.
    fn route_downward(&mut self, pairs: &Vec<(usize, usize)>, cols: usize) -> (ok: bool)
        requires
            is_grid(old(self).grid(), old(self).grid().len() as int, cols as int),
        ensures
            ok == route_backward(old(self).grid(), pairs@, pairs@.len() as int, cols as int) is Some,
            ok ==> final(self).grid() == route_backward(
                old(self).grid(),
                pairs@,
                pairs@.len() as int,
                cols as int,
            )->Some_0,
            is_grid(final(self).grid(), old(self).grid().len() as int, cols as int),
            final(self).from == old(self).from,
            final(self).to == old(self).to,
    {
        let ghost g0 = self.grid();
        let ghost height = g0.len() as int;
        let mut ok = false;
        let mut k: usize = pairs.len();
        loop
            invariant_except_break
                !ok,
                route_backward(g0, pairs@, pairs@.len() as int, cols as int) == route_backward(
                    self.grid(),
                    pairs@,
                    k as int,
                    cols as int,
                ),
            invariant
                k <= pairs.len(),
                is_grid(self.grid(), height, cols as int),
                self.from == old(self).from,
                self.to == old(self).to,
            ensures
                ok == route_backward(g0, pairs@, pairs@.len() as int, cols as int) is Some,
                ok ==> self.grid() == route_backward(g0, pairs@, pairs@.len() as int, cols as int)->Some_0,
            decreases k,
        {
            if k == 0 {
                ok = true;
                break;
            }
            if !self.resolve_connection(pairs[k - 1], cols, false) {
                break;
            }
            k = k - 1;
        }
        ok
    }

    /// Splits the pairs of "from" and "to" rows into upward and downward
    /// ones, sizes the grid to the larger group, and traces every path:
    /// upward pairs in order, then downward pairs in reverse order. Returns
    /// false where a path would leave the grid or cross a claimed cell, which
    /// never happens where both kinds of rows increase and lie in the grid.
    pub fn resolve(&mut self) -> (ok: bool)
        ensures
            ok == routed_grid(old(self).grid().len(), old(self).from_rows(), old(self).to_rows()) is Some,
            ok ==> final(self).grid() == routed_grid(
                old(self).grid().len(),
                old(self).from_rows(),
                old(self).to_rows(),
            )->Some_0,
            ok ==> is_grid(
                final(self).grid(),
                old(self).grid().len() as int,
                lane_count(old(self).from_rows(), old(self).to_rows()) as int,
            ),
            final(self).from_rows() == old(self).from_rows(),
            final(self).to_rows() == old(self).to_rows(),
            ({
                let ps = zip_pairs(old(self).from_rows(), old(self).to_rows());
                increasing_pairs(ps) && (forall|k: int|
                    0 <= k < ps.len() ==> (#[trigger] ps[k]).0 < old(self).grid().len() && ps[k].1 < old(self).grid().len())
                    ==> ok
            }),
    {
        proof {
            let ps = zip_pairs(self.from@, self.to@);
            if increasing_pairs(ps) && (forall|k: int|
                0 <= k < ps.len() ==> (#[trigger] ps[k]).0 < self.grid().len() && ps[k].1 < self.grid().len()) {
                lemma_increasing_pairs_route(self.grid().len(), self.from@, self.to@);
            }
        }
        let ghost pairs = zip_pairs(self.from@, self.to@);
        let n = if self.from.len() < self.to.len() {
            self.from.len()
        } else {
            self.to.len()
        };
        let mut upper_connections: Vec<(usize, usize)> = Vec::new();
        let mut lower_connections: Vec<(usize, usize)> = Vec::new();
        let mut i: usize = 0;
        while i < n
            invariant
                n == pairs.len(),
                i <= n,
                pairs == zip_pairs(self.from@, self.to@),
                upper_connections@ == select(pairs, i as int, true),
                lower_connections@ == select(pairs, i as int, false),
            decreases n - i,
        {
            let con = (self.from[i], self.to[i]);
            if con.0 > con.1 {
                upper_connections.push(con);
            } else {
                lower_connections.push(con);
            }
            i = i + 1;
        }
        let cols = if upper_connections.len() > lower_connections.len() {
            upper_connections.len()
        } else {
            lower_connections.len()
        };
        let height = self.chars.len();
        let mut r: usize = 0;
        while r < height
            invariant
                r <= height,
                height == self.chars.len(),
                self.from == old(self).from,
                self.to == old(self).to,
                forall|j: int| 0 <= j < r ==> (#[trigger] self.chars@[j])@ == Seq::new(cols as nat, |c: int| Glyph::Space),
            decreases height - r,
        {
            let mut line: Vec<Glyph> = Vec::new();
            while line.len() < cols
                invariant
                    line.len() <= cols,
                    line@ == Seq::new(line.len() as nat, |c: int| Glyph::Space),
                decreases cols - line.len(),
            {
                line.push(Glyph::Space);
                assert(line@ =~= Seq::new(line.len() as nat, |c: int| Glyph::Space));
            }
            self.chars.set(r, line);
            r = r + 1;
        }
        assert(self.grid() =~= blank_grid(height as nat, cols as nat));
        if !self.route_upward(&upper_connections, cols) {
            return false;
        }
        self.route_downward(&lower_connections, cols)
    }

    /// The text of grid row `idx`.
    pub fn get_row(&self, idx: usize) -> (r: String)
        requires
            idx < self.grid().len(),
        ensures
            r@ == row_text(self.grid()[idx as int]),
    {
        let line = &self.chars[idx];
        let mut r = String::new();
        let mut c: usize = 0;
        while c < line.len()
            invariant
                c <= line.len(),
                line@ == self.grid()[idx as int],
                r@ == row_text(line@.take(c as int)),
            decreases line.len() - c,
        {
            r.append(line[c].as_str());
            assert(line@.take(c as int + 1).drop_last() =~= line@.take(c as int));
            c = c + 1;
        }
        assert(line@.take(line.len() as int) =~= line@);
        r
    }
}

} // verus!
