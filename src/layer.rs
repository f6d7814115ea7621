use vstd::prelude::*;
use vstd::string::*;

use crate::cells::{cell_single_line, count_char, lemma_count_absent, lemma_count_concat, lemma_count_repeat, lemma_rows_single_line, lemma_cell_refs, lemma_cells_alike, lemma_ref_rows_in_cell, VidereCell};
use crate::connections::{lemma_row_text_single_line, lemma_increasing_pairs_route, routed_grid, row_text, zip_pairs, Glyph, LayerConnector};
use crate::text::{blank_text, spaces};
use crate::value::{cell_matches, forest_nodes_at, nodes_at, JsonValue};

verus! {

/// The width of a layer: that of its widest cell, 0 where it has none.
pub open spec fn layer_width(cells: Seq<VidereCell>) -> int
    decreases cells.len(),
{
    if cells.len() == 0 {
        0
    } else {
        let prev = layer_width(cells.drop_last());
        let w = cells.last().spec_min_width();
        if w > prev {
            w
        } else {
            prev
        }
    }
}

/// The height of a layer: the heights of its cells stacked.
pub open spec fn layer_height(cells: Seq<VidereCell>) -> int
    decreases cells.len(),
{
    if cells.len() == 0 {
        0
    } else {
        layer_height(cells.drop_last()) + cells.last().spec_height()
    }
}

/// The rows of the cells drawn `width` columns wide, stacked in order.
pub open spec fn stacked_rows(cells: Seq<VidereCell>, width: int) -> Seq<Seq<char>>
    decreases cells.len(),
{
    if cells.len() == 0 {
        seq![]
    } else {
        stacked_rows(cells.drop_last(), width) + cells.last().spec_rows(width)
    }
}

/// The "to" rows of a layer: the row at which each cell begins.
pub open spec fn layer_to(cells: Seq<VidereCell>) -> Seq<usize>
    decreases cells.len(),
{
    if cells.len() == 0 {
        seq![]
    } else {
        layer_to(cells.drop_last()).push(layer_height(cells.drop_last()) as usize)
    }
}

/// The "from" rows of a layer: the rows whose value leads to a nested cell,
/// top to bottom.
pub open spec fn layer_from(cells: Seq<VidereCell>) -> Seq<usize>
    decreases cells.len(),
{
    if cells.len() == 0 {
        seq![]
    } else {
        let last = cells.last();
        layer_from(cells.drop_last()) + last.ref_rows(last.len() as int, layer_height(cells.drop_last()))
    }
}

/// The rows of a layer padded with blank rows to `height`.
pub open spec fn layer_body(cells: Seq<VidereCell>, height: int) -> Seq<Seq<char>> {
    let width = layer_width(cells);
    stacked_rows(cells, width) + Seq::new(
        (height - layer_height(cells)) as nat,
        |i: int| spaces(width),
    )
}

/// The rows of a layer, each after its row of the connector grid `grid`.
pub open spec fn prefixed_rows(grid: Seq<Seq<Glyph>>, body: Seq<Seq<char>>) -> Seq<Seq<char>> {
    Seq::new(body.len(), |i: int| row_text(grid[i]) + body[i])
}

/// The rows of a layer drawn `height` rows high after the connectors that
/// come from the rows `from` of the layer before; `None` where the layer's
/// width does not fit a `usize` or the connectors cannot be routed.
pub open spec fn layer_output(cells: Seq<VidereCell>, height: int, from: Seq<usize>) -> Option<Seq<Seq<char>>> {
    if layer_width(cells) > usize::MAX {
        None
    } else {
        match routed_grid(height as nat, from, layer_to(cells)) {
            Some(grid) => Some(prefixed_rows(grid, layer_body(cells, height))),
            None => None,
        }
    }
}

/// One column of the output: the cells at one nesting depth, top to bottom.
#[derive(Debug)]
pub struct VidereLayer {
    pub cells: Vec<VidereCell>,
}

impl VidereLayer {
    pub fn new() -> (r: Self)
        ensures
            r.cells@.len() == 0,
    {
        VidereLayer { cells: Vec::new() }
    }

    /// The width of the layer; `None` where it does not fit a `usize`.
    pub fn get_min_width(&self) -> (r: Option<usize>)
        ensures
            r == (if layer_width(self.cells@) <= usize::MAX {
                Some(layer_width(self.cells@) as usize)
            } else {
                None
            }),
    {
        let mut w: usize = 0;
        let mut i: usize = 0;
        while i < self.cells.len()
            invariant
                i <= self.cells.len(),
                w == layer_width(self.cells@.take(i as int)),
            decreases self.cells.len() - i,
        {
            assert(self.cells@.take(i as int + 1).drop_last() =~= self.cells@.take(i as int));
            match self.cells[i].get_min_width() {
                Some(c) => {
                    if c > w {
                        w = c;
                    }
                },
                None => {
                    proof {
                        lemma_layer_width_bound(self.cells@, i as int);
                    }
                    return None;
                },
            }
            i = i + 1;
        }
        assert(self.cells@.take(self.cells.len() as int) =~= self.cells@);
        Some(w)
    }

    /// The height of the layer; `None` where it does not fit a `usize`.
    pub fn get_min_height(&self) -> (r: Option<usize>)
        ensures
            r == (if layer_height(self.cells@) <= usize::MAX {
                Some(layer_height(self.cells@) as usize)
            } else {
                None
            }),
    {
        let mut h: usize = 0;
        let mut i: usize = 0;
        while i < self.cells.len()
            invariant
                i <= self.cells.len(),
                h == layer_height(self.cells@.take(i as int)),
            decreases self.cells.len() - i,
        {
            assert(self.cells@.take(i as int + 1).drop_last() =~= self.cells@.take(i as int));
            proof {
                lemma_layer_height_prefix(self.cells@, i as int + 1);
            }
            match self.cells[i].get_height() {
                Some(c) => match h.checked_add(c) {
                    Some(s) => {
                        h = s;
                    },
                    None => {
                        return None;
                    },
                },
                None => {
                    return None;
                },
            }
            i = i + 1;
        }
        assert(self.cells@.take(self.cells.len() as int) =~= self.cells@);
        Some(h)
    }

    /// Draws the layer `height` rows high: its cells stacked and padded with
    /// blank rows, each row after its row of the connectors from the rows of
    /// the layer before that `connections` holds. Also returns the layer's
    /// own "from" rows. `None` where `layer_output` is, which is not the case
    /// where the width fits and the "from" rows increase within `height`.
    pub fn get_rows(&self, height: usize, connections: LayerConnector) -> (r: Option<(Vec<String>, Vec<usize>)>)
        requires
            height >= layer_height(self.cells@),
            connections.grid().len() == height,
        ensures
            r is Some == layer_output(self.cells@, height as int, connections.from_rows()) is Some,
            r is Some ==> {
                let out = layer_output(self.cells@, height as int, connections.from_rows())->Some_0;
                &&& r->Some_0.0@.len() == out.len()
                &&& r->Some_0.0@.len() == height
                &&& increasing_rows(r->Some_0.1@)
                &&& forall|j: int| 0 <= j < out.len() ==> (#[trigger] r->Some_0.0@[j])@ == out[j]
                &&& r->Some_0.1@ == layer_from(self.cells@)
            },
            layer_width(self.cells@) <= usize::MAX && increasing_rows(connections.from_rows()) && (forall|k: int|
                0 <= k < connections.from_rows().len() ==> #[trigger] connections.from_rows()[k] < height) ==> r is Some,
    {
        proof {
            lemma_stacked_len(self.cells@, layer_width(self.cells@));
            lemma_layer_anchors_increasing(self.cells@);
            let from = connections.from_rows();
            let to = layer_to(self.cells@);
            if layer_width(self.cells@) <= usize::MAX && increasing_rows(from) && (forall|k: int|
                0 <= k < from.len() ==> #[trigger] from[k] < height) {
                lemma_layer_height_prefix(self.cells@, self.cells@.len() as int);
                assert(self.cells@.take(self.cells@.len() as int) =~= self.cells@);
                lemma_layer_rows_in_range(self.cells@);
                lemma_layer_anchors_increasing(self.cells@);
                let ps = zip_pairs(from, to);
                assert forall|a: int, b: int| 0 <= a < b < ps.len() implies (#[trigger] ps[a]).0 < (#[trigger] ps[b]).0
                    && ps[a].1 < ps[b].1 by {
                    assert(from[a] < from[b]);
                    assert(to[a] < to[b]);
                }
                assert forall|a: int| 0 <= a < ps.len() implies (#[trigger] ps[a]).0 < height && ps[a].1 < height by {
                    assert(from[a] < height);
                    assert(to[a] < layer_height(self.cells@));
                }
                lemma_increasing_pairs_route(height as nat, from, to);
            }
        }
        let mut connections = connections;
        let width = match self.get_min_width() {
            Some(w) => w,
            None => {
                return None;
            },
        };
        let ghost cells = self.cells@;
        let mut rows: Vec<String> = Vec::new();
        let mut to: Vec<usize> = Vec::new();
        let mut from: Vec<usize> = Vec::new();
        let mut i: usize = 0;
        while i < self.cells.len()
            invariant
                cells == self.cells@,
                width == layer_width(cells),
                height >= layer_height(cells),
                i <= cells.len(),
                rows.len() == layer_height(cells.take(i as int)),
                forall|j: int| 0 <= j < rows@.len() ==> (#[trigger] rows@[j])@ == stacked_rows(cells.take(i as int), width as int)[j],
                to@ == layer_to(cells.take(i as int)),
                from@ == layer_from(cells.take(i as int)),
            decreases cells.len() - i,
        {
            let ghost pre = cells.take(i as int);
            let ghost next = cells.take(i as int + 1);
            assert(next.drop_last() =~= pre);
            proof {
                lemma_layer_height_prefix(cells, i as int + 1);
                lemma_layer_width_bound(cells, i as int);
                lemma_stacked_len(pre, width as int);
            }
            to.push(rows.len());
            let (cell_rows, cell_from) = self.cells[i].get_rows(width, rows.len());
            let mut k: usize = 0;
            let ghost before = rows@;
            while k < cell_rows.len()
                invariant
                    k <= cell_rows.len(),
                    rows@.len() == before.len() + k,
                    forall|j: int| 0 <= j < before.len() ==> rows@[j] == before[j],
                    forall|j: int| 0 <= j < k ==> rows@[before.len() + j] == cell_rows@[j],
                decreases cell_rows.len() - k,
            {
                rows.push(cell_rows[k].clone());
                k = k + 1;
            }
            let mut k2: usize = 0;
            let ghost fbefore = from@;
            while k2 < cell_from.len()
                invariant
                    k2 <= cell_from.len(),
                    from@ == fbefore + cell_from@.take(k2 as int),
                decreases cell_from.len() - k2,
            {
                assert(cell_from@.take(k2 as int + 1) =~= cell_from@.take(k2 as int).push(cell_from@[k2 as int]));
                from.push(cell_from[k2]);
                k2 = k2 + 1;
            }
            assert(cell_from@.take(cell_from.len() as int) =~= cell_from@);
            proof {
                assert forall|j: int| 0 <= j < rows@.len() implies (#[trigger] rows@[j])@ == stacked_rows(
                    next,
                    width as int,
                )[j] by {
                    assert(next.last() == cells[i as int]);
                    assert(stacked_rows(next, width as int) == stacked_rows(pre, width as int)
                        + cells[i as int].spec_rows(width as int));
                    if j >= before.len() {
                        assert(rows@[j] == cell_rows@[j - before.len()]);
                        assert(cell_rows@[j - before.len()]@ == cells[i as int].spec_rows(width as int)[j - before.len()]);
                    } else {
                        assert(rows@[j] == before[j]);
                    }
                }
            }
            i = i + 1;
        }
        assert(cells.take(cells.len() as int) =~= cells);
        proof {
            lemma_stacked_len(cells, width as int);
        }
        while rows.len() < height
            invariant
                rows.len() <= height,
                rows.len() >= layer_height(cells),
                width == layer_width(cells),
                height >= layer_height(cells),
                stacked_rows(cells, width as int).len() == layer_height(cells),
                forall|j: int| 0 <= j < rows@.len() ==> (#[trigger] rows@[j])@ == layer_body(cells, height as int)[j],
            decreases height - rows.len(),
        {
            let ghost j0 = rows.len() as int;
            rows.push(blank_text(width));
            assert(layer_body(cells, height as int)[j0] == spaces(width as int));
        }
        connections.set_to(to);
        if !connections.resolve() {
            return None;
        }
        let mut out: Vec<String> = Vec::new();
        let mut idx: usize = 0;
        while idx < rows.len()
            invariant
                rows.len() == height,
                connections.grid().len() == height,
                idx <= height,
                out.len() == idx,
                forall|j: int| 0 <= j < idx ==> (#[trigger] out@[j])@ == row_text(connections.grid()[j]) + rows@[j]@,
            decreases height - idx,
        {
            let mut line = connections.get_row(idx);
            line.append(rows[idx].as_str());
            out.push(line);
            idx = idx + 1;
        }
        Some((out, from))
    }
}

/// A layer's stacked rows are as many as its height.
pub proof fn lemma_stacked_len(cells: Seq<VidereCell>, width: int)
    ensures
        stacked_rows(cells, width).len() == layer_height(cells),
    decreases cells.len(),
{
    if cells.len() > 0 {
        lemma_stacked_len(cells.drop_last(), width);
    }
}

/// The "from" rows of a layer whose cells are drawn for `nodes` are as many
/// as the arrays and objects directly inside those nodes.
pub proof fn lemma_layer_refs(cells: Seq<VidereCell>, nodes: Seq<JsonValue>)
    requires
        cells.len() == nodes.len(),
        forall|i: int| 0 <= i < cells.len() ==> cell_matches(#[trigger] cells[i], nodes[i]),
    ensures
        layer_from(cells).len() == forest_nodes_at(nodes, 1).len(),
    decreases cells.len(),
{
    if cells.len() > 0 {
        let last = cells.last();
        let v = nodes.last();
        assert forall|i: int| 0 <= i < cells.len() - 1 implies cell_matches(
            #[trigger] cells.drop_last()[i],
            nodes.drop_last()[i],
        ) by {
            assert(cell_matches(cells[i], nodes[i]));
        }
        lemma_layer_refs(cells.drop_last(), nodes.drop_last());
        assert(cell_matches(last, v));
        assert(last.len() == v.children().len());
        lemma_cell_refs(last, v, last.len() as int, layer_height(cells.drop_last()));
        assert(v.children().take(last.len() as int) =~= v.children());
        assert(forest_nodes_at(nodes, 1) == forest_nodes_at(nodes.drop_last(), 1) + nodes_at(v, 1));
        assert(nodes_at(v, 1) == forest_nodes_at(v.children(), 0));
        assert(cells.drop_last().len() == nodes.drop_last().len());
    }
}

/// Two layers whose cells are drawn for the same nodes are drawn alike.
pub proof fn lemma_layers_alike(a: Seq<VidereCell>, b: Seq<VidereCell>, nodes: Seq<JsonValue>)
    requires
        a.len() == nodes.len(),
        b.len() == nodes.len(),
        forall|i: int| 0 <= i < nodes.len() ==> cell_matches(#[trigger] a[i], nodes[i]),
        forall|i: int| 0 <= i < nodes.len() ==> cell_matches(#[trigger] b[i], nodes[i]),
    ensures
        layer_width(a) == layer_width(b),
        layer_height(a) == layer_height(b),
        forall|w: int| #[trigger] stacked_rows(a, w) == stacked_rows(b, w),
        layer_to(a) == layer_to(b),
        layer_from(a) == layer_from(b),
    decreases nodes.len(),
{
    if nodes.len() > 0 {
        let n = nodes.len() - 1;
        assert(cell_matches(a[n], nodes[n]));
        assert(cell_matches(b[n], nodes[n]));
        lemma_cells_alike(a[n], b[n], nodes[n]);
        assert forall|i: int| 0 <= i < n implies cell_matches(#[trigger] a.drop_last()[i], nodes.drop_last()[i]) by {
            assert(cell_matches(a[i], nodes[i]));
        }
        assert forall|i: int| 0 <= i < n implies cell_matches(#[trigger] b.drop_last()[i], nodes.drop_last()[i]) by {
            assert(cell_matches(b[i], nodes[i]));
        }
        lemma_layers_alike(a.drop_last(), b.drop_last(), nodes.drop_last());
        assert forall|w: int| #[trigger] stacked_rows(a, w) == stacked_rows(b, w) by {
            assert(stacked_rows(a.drop_last(), w) == stacked_rows(b.drop_last(), w));
            assert(a.last().spec_rows(w) == b.last().spec_rows(w));
        }
        assert(a.last().ref_rows(a.last().len() as int, layer_height(a.drop_last())) == b.last().ref_rows(
            b.last().len() as int,
            layer_height(b.drop_last()),
        ));
    }
}

/// The rows a layer whose cells hold no line break draws after its
/// connectors hold none.
pub proof fn lemma_layer_output_single_line(cells: Seq<VidereCell>, height: int, from: Seq<usize>)
    requires
        forall|i: int| 0 <= i < cells.len() ==> cell_single_line(#[trigger] cells[i]),
        layer_output(cells, height, from) is Some,
    ensures
        forall|j: int|
            0 <= j < layer_output(cells, height, from)->Some_0.len() ==> count_char(
                #[trigger] layer_output(cells, height, from)->Some_0[j],
                '\n',
            ) == 0,
{
    let width = layer_width(cells);
    let grid = routed_grid(height as nat, from, layer_to(cells))->Some_0;
    let body = layer_body(cells, height);
    let out = layer_output(cells, height, from)->Some_0;
    lemma_stacked_single_line(cells, width);
    lemma_stacked_len(cells, width);
    assert forall|j: int| 0 <= j < out.len() implies count_char(#[trigger] out[j], '\n') == 0 by {
        lemma_row_text_single_line(grid[j]);
        lemma_count_absent(row_text(grid[j]), '\n');
        if j >= layer_height(cells) {
            assert(body[j] == spaces(width));
            lemma_count_repeat(' ', width, '\n');
        }
        lemma_count_concat(row_text(grid[j]), body[j], '\n');
    }
}

/// Stacked cells that hold no line break draw none.
pub proof fn lemma_stacked_single_line(cells: Seq<VidereCell>, width: int)
    requires
        forall|i: int| 0 <= i < cells.len() ==> cell_single_line(#[trigger] cells[i]),
    ensures
        forall|j: int| 0 <= j < stacked_rows(cells, width).len() ==> count_char(#[trigger] stacked_rows(cells, width)[j], '\n') == 0,
    decreases cells.len(),
{
    if cells.len() > 0 {
        let pre = cells.drop_last();
        assert forall|i: int| 0 <= i < pre.len() implies cell_single_line(#[trigger] pre[i]) by {
            assert(cell_single_line(cells[i]));
        }
        lemma_stacked_single_line(pre, width);
        assert(cell_single_line(cells[cells.len() - 1]));
        lemma_rows_single_line(cells.last(), width);
        let a = stacked_rows(pre, width);
        let b = cells.last().spec_rows(width);
        assert forall|j: int| 0 <= j < stacked_rows(cells, width).len() implies count_char(
            #[trigger] stacked_rows(cells, width)[j],
            '\n',
        ) == 0 by {
            if j >= a.len() {
                assert(stacked_rows(cells, width)[j] == b[j - a.len()]);
            } else {
                assert(stacked_rows(cells, width)[j] == a[j]);
            }
        }
    }
}

/// Rows that strictly increase.
pub open spec fn increasing_rows(s: Seq<usize>) -> bool {
    forall|i: int, j: int| 0 <= i < j < s.len() ==> #[trigger] s[i] < #[trigger] s[j]
}

/// The "from" rows of a cell's first `n` entries increase and lie after
/// `offset`, at most `n` rows after it.
pub proof fn lemma_ref_rows_increasing(c: VidereCell, n: int, offset: int)
    requires
        0 <= n,
        0 <= offset,
        offset + n <= usize::MAX,
    ensures
        increasing_rows(c.ref_rows(n, offset)),
        forall|i: int| 0 <= i < c.ref_rows(n, offset).len() ==> offset < #[trigger] c.ref_rows(n, offset)[i] <= offset + n,
    decreases n,
{
    if n > 0 {
        lemma_ref_rows_increasing(c, n - 1, offset);
        let prev = c.ref_rows(n - 1, offset);
        let tail: Seq<usize> = if c.value_at(n - 1).is_ref() {
            seq![(offset + n) as usize]
        } else {
            seq![]
        };
        let cur = c.ref_rows(n, offset);
        assert(cur == prev + tail);
        assert forall|i: int| 0 <= i < cur.len() implies offset < #[trigger] cur[i] <= offset + n by {
            if i < prev.len() {
                assert(cur[i] == prev[i]);
            } else {
                assert(cur[i] == tail[i - prev.len()]);
            }
        }
        assert forall|i: int, j: int| 0 <= i < j < cur.len() implies #[trigger] cur[i] < #[trigger] cur[j] by {
            if j < prev.len() {
                assert(cur[i] == prev[i] && cur[j] == prev[j]);
            } else {
                assert(cur[j] == tail[j - prev.len()]);
                assert(cur[i] == prev[i]);
            }
        }
    }
}

/// The "from" rows and the "to" rows of a layer each increase.
pub proof fn lemma_layer_anchors_increasing(cells: Seq<VidereCell>)
    requires
        layer_height(cells) <= usize::MAX,
    ensures
        increasing_rows(layer_from(cells)),
        increasing_rows(layer_to(cells)),
    decreases cells.len(),
{
    if cells.len() > 0 {
        let pre = cells.drop_last();
        let last = cells.last();
        let h = layer_height(pre);
        lemma_layer_height_prefix(cells, cells.len() - 1);
        assert(cells.take(cells.len() - 1) =~= pre);
        lemma_layer_anchors_increasing(pre);
        lemma_layer_rows_in_range(pre);
        lemma_ref_rows_increasing(last, last.len() as int, h);
        let fp = layer_from(pre);
        let fl = last.ref_rows(last.len() as int, h);
        let f = layer_from(cells);
        assert(f == fp + fl);
        assert forall|i: int, j: int| 0 <= i < j < f.len() implies #[trigger] f[i] < #[trigger] f[j] by {
            if j < fp.len() {
                assert(f[i] == fp[i] && f[j] == fp[j]);
            } else if i >= fp.len() {
                assert(f[i] == fl[i - fp.len()] && f[j] == fl[j - fp.len()]);
            } else {
                assert(f[i] == fp[i] && f[j] == fl[j - fp.len()]);
            }
        }
        let tp = layer_to(pre);
        let t = layer_to(cells);
        assert(t == tp.push(h as usize));
        assert forall|i: int, j: int| 0 <= i < j < t.len() implies #[trigger] t[i] < #[trigger] t[j] by {
            if j < tp.len() {
                assert(t[i] == tp[i] && t[j] == tp[j]);
            } else {
                assert(t[i] == tp[i]);
            }
        }
    }
}

/// Every "from" row and every "to" row of a layer lies within its height.
pub proof fn lemma_layer_rows_in_range(cells: Seq<VidereCell>)
    requires
        layer_height(cells) <= usize::MAX,
    ensures
        forall|i: int| 0 <= i < layer_to(cells).len() ==> #[trigger] layer_to(cells)[i] < layer_height(cells),
        forall|i: int| 0 <= i < layer_from(cells).len() ==> #[trigger] layer_from(cells)[i] < layer_height(cells),
        layer_to(cells).len() == cells.len(),
    decreases cells.len(),
{
    if cells.len() > 0 {
        let pre = cells.drop_last();
        let last = cells.last();
        lemma_layer_height_prefix(cells, cells.len() - 1);
        assert(cells.take(cells.len() - 1) =~= pre);
        lemma_layer_rows_in_range(pre);
        lemma_layer_height_prefix(pre, pre.len() as int);
        assert(pre.take(pre.len() as int) =~= pre);
        lemma_ref_rows_in_cell(last, last.len() as int, layer_height(pre));
        let f = layer_from(cells);
        let fp = layer_from(pre);
        let fl = last.ref_rows(last.len() as int, layer_height(pre));
        assert(f == fp + fl);
        assert forall|i: int| 0 <= i < f.len() implies #[trigger] f[i] < layer_height(cells) by {
            if i < fp.len() {
                assert(f[i] == fp[i]);
            } else {
                assert(f[i] == fl[i - fp.len()]);
            }
        }
    }
}

/// No cell is wider than its layer.
pub proof fn lemma_layer_width_bound(cells: Seq<VidereCell>, i: int)
    requires
        0 <= i < cells.len(),
    ensures
        layer_width(cells) >= cells[i].spec_min_width(),
    decreases cells.len(),
{
    if i < cells.len() - 1 {
        lemma_layer_width_bound(cells.drop_last(), i);
    }
}

/// A layer is at least as high as the cells of any of its prefixes.
pub proof fn lemma_layer_height_prefix(cells: Seq<VidereCell>, i: int)
    requires
        0 <= i <= cells.len(),
    ensures
        layer_height(cells.take(i)) <= layer_height(cells),
        layer_height(cells.take(i)) >= 0,
    decreases cells.len(),
{
    if i < cells.len() {
        assert(cells.drop_last().take(i) =~= cells.take(i));
        lemma_layer_height_prefix(cells.drop_last(), i);
    } else {
        assert(cells.take(i) =~= cells);
        if cells.len() > 0 {
            lemma_layer_height_prefix(cells.drop_last(), i - 1);
            assert(cells.drop_last().take(i - 1) =~= cells.drop_last());
        }
    }
}

} // verus!
