use vstd::prelude::*;
use vstd::string::*;

use crate::cells::{cell_single_line, count_char, lemma_count_concat, lemma_count_single, VidereCell};
use crate::connections::{lemma_increasing_pairs_route, zip_pairs, LayerConnector};
use crate::layer::{
    layer_from, layer_height, layer_output, layer_to, layer_width, lemma_layer_height_prefix,
    lemma_layer_anchors_increasing, lemma_layer_output_single_line, lemma_layer_refs, lemma_layer_rows_in_range, lemma_layers_alike, lemma_stacked_len, VidereLayer,
};
use crate::value::{
    cell_matches, cells_at, forest_nodes_at, grows_by, layer_grows, layers_model, lemma_grows_none,
    lemma_grows_trans, lemma_next_level, lemma_place_node, lemma_single_forest, nodes_at,
    value_matches, JsonValue, VidereValue,
};

verus! {

/// The height of the whole output: that of the highest layer.
pub open spec fn map_height(layers: Seq<VidereLayer>) -> int
    decreases layers.len(),
{
    if layers.len() == 0 {
        0
    } else {
        let prev = map_height(layers.drop_last());
        let h = layer_height(layers.last().cells@);
        if h > prev {
            h
        } else {
            prev
        }
    }
}

/// The "from" rows that lead into layer `k`: none for the first layer.
pub open spec fn from_before(layers: Seq<VidereLayer>, k: int) -> Seq<usize> {
    if k == 0 {
        seq![]
    } else {
        layer_from(layers[k - 1].cells@)
    }
}

/// The drawn columns of the first `n` layers, each `height` rows high.
pub open spec fn layer_columns(layers: Seq<VidereLayer>, n: int, height: int) -> Option<Seq<Seq<Seq<char>>>>
    decreases n,
{
    if n <= 0 {
        Some(seq![])
    } else {
        match layer_columns(layers, n - 1, height) {
            Some(cols) => match layer_output(layers[n - 1].cells@, height, from_before(layers, n - 1)) {
                Some(c) => Some(cols.push(c)),
                None => None,
            },
            None => None,
        }
    }
}

/// Row `r` of the output: row `r` of the first `k` columns side by side.
pub open spec fn output_line(cols: Seq<Seq<Seq<char>>>, r: int, k: int) -> Seq<char>
    decreases k,
{
    if k <= 0 {
        seq![]
    } else {
        output_line(cols, r, k - 1) + cols[k - 1][r]
    }
}

/// The first `n` rows of the output, each ended by a line break.
pub open spec fn output_text(cols: Seq<Seq<Seq<char>>>, n: int) -> Seq<char>
    decreases n,
{
    if n <= 0 {
        seq![]
    } else {
        output_text(cols, n - 1) + output_line(cols, n - 1, cols.len() as int) + seq!['\n']
    }
}

/// At every boundary between two layers the "from" rows of the left layer
/// are as many as the cells of the right one.
pub open spec fn anchors_paired(layers: Seq<VidereLayer>) -> bool {
    forall|k: int| 1 <= k < layers.len() ==> #[trigger] layer_from(layers[k - 1].cells@).len() == layers[k].cells@.len()
}

/// The text drawn for `layers`; `None` where a size does not fit a `usize`,
/// where the anchors of a boundary do not pair up, or where connectors
/// cannot be routed.
pub open spec fn table_text(layers: Seq<VidereLayer>) -> Option<Seq<char>> {
    let height = map_height(layers);
    if height > usize::MAX || !anchors_paired(layers) {
        None
    } else {
        match layer_columns(layers, layers.len() as int, height) {
            Some(cols) => Some(output_text(cols, height)),
            None => None,
        }
    }
}

/// The whole rendering job: the layers of cells, by nesting depth.
#[derive(Debug)]
pub struct VidereMap {
    pub layers: Vec<VidereLayer>,
}

impl VidereMap {
    /// Lays out the object `obj`: its cell alone in the first layer, and
    /// every array or object nested in it in the layer of its depth.
    pub fn from_json_obj(obj: &Vec<(String, JsonValue)>) -> (r: VidereMap)
        ensures
            layers_model(r.layers@, JsonValue::Object(*obj)),
            anchors_paired(r.layers@),
            r.layers@.len() > 0,
            r.layers@[0].cells@.len() == 1,
    {
        let mut map = VidereMap { layers: Vec::new() };
        map.add_obj_to_layer(0, obj);
        proof {
            let root = JsonValue::Object(*obj);
            let layers = map.layers@;
            let e = Seq::<VidereLayer>::empty();
            assert forall|d: int| 0 <= d implies #[trigger] forest_nodes_at(seq![root], d) == nodes_at(root, d) by {
                lemma_single_forest(root, d);
            }
            assert forall|d: int| 0 <= d < layers.len() implies (#[trigger] layers[d]).cells@.len() == nodes_at(
                root,
                d,
            ).len() && (forall|i: int|
                0 <= i < nodes_at(root, d).len() ==> cell_matches(
                    #[trigger] layers[d].cells@[i],
                    nodes_at(root, d)[i],
                )) by {
                assert(layer_grows(cells_at(e, 0 + d), layers[0 + d].cells@, forest_nodes_at(seq![root], d)));
                assert forall|i: int| 0 <= i < nodes_at(root, d).len() implies cell_matches(
                    #[trigger] layers[d].cells@[i],
                    nodes_at(root, d)[i],
                ) by {
                    assert(layers[d].cells@[cells_at(e, d).len() + i] == layers[d].cells@[i]);
                }
            }
            assert forall|d: int| d >= layers.len() implies (#[trigger] nodes_at(root, d)).len() == 0 by {
                assert(forest_nodes_at(seq![root], d) == nodes_at(root, d));
            }
            assert(nodes_at(root, 0) == seq![root]);
            assert forall|k: int| 1 <= k < layers.len() implies #[trigger] layer_from(layers[k - 1].cells@).len()
                == layers[k].cells@.len() by {
                lemma_anchor_pairing(layers, root, k - 1);
            }
        }
        map
    }

    /// Adds empty layers until layer `layer` exists.
    fn fill_missing_layer(&mut self, layer: usize)
        ensures
            layer < final(self).layers.len(),
            final(self).layers@.len() == if layer < old(self).layers@.len() {
                old(self).layers@.len() as int
            } else {
                layer + 1
            },
            forall|x: int| 0 <= x < old(self).layers@.len() ==> #[trigger] final(self).layers@[x] == old(self).layers@[x],
            forall|x: int|
                old(self).layers@.len() <= x < final(self).layers@.len() ==> (#[trigger] final(self).layers@[x]).cells@.len() == 0,
    {
        while self.layers.len() <= layer
            invariant
                old(self).layers@.len() <= self.layers@.len(),
                self.layers@.len() <= old(self).layers@.len() || self.layers@.len() <= layer + 1,
                forall|x: int| 0 <= x < old(self).layers@.len() ==> #[trigger] self.layers@[x] == old(self).layers@[x],
                forall|x: int|
                    old(self).layers@.len() <= x < self.layers@.len() ==> (#[trigger] self.layers@[x]).cells@.len() == 0,
            decreases layer + 1 - self.layers@.len(),
        {
            self.layers.push(VidereLayer::new());
        }
    }

    /// Places the array `arr` at layer `layer`: its arrays and objects from
    /// the next layer on, in order, then its own cell at the end of layer
    /// `layer`. Returns the cell's index in its layer.
    pub fn add_arr_to_layer(&mut self, layer: usize, arr: &Vec<JsonValue>) -> (r: usize)
        ensures
            grows_by(old(self).layers@, final(self).layers@, layer as int, seq![JsonValue::Array(*arr)]),
            r + 1 == final(self).layers@[layer as int].cells@.len(),
        decreases arr,
    {
        self.fill_missing_layer(layer);
        assert(layer < self.layers.len());
        let ghost filled = self.layers@;
        let ghost v = JsonValue::Array(*arr);
        let mut entries: Vec<VidereValue> = Vec::new();
        proof {
            assert forall|d: int| 0 <= d implies (#[trigger] forest_nodes_at(arr@.take(0), d)).len() == 0 by {
                assert(arr@.take(0) =~= Seq::<JsonValue>::empty());
            }
            lemma_grows_none(filled, layer + 1, arr@.take(0));
        }
        let mut i: usize = 0;
        while i < arr.len()
            invariant
                i <= arr.len(),
                layer < filled.len(),
                layer < usize::MAX,
                self.layers@.len() >= filled.len(),
                grows_by(filled, self.layers@, layer + 1, arr@.take(i as int)),
                entries@.len() == i,
                forall|j: int| 0 <= j < i ==> value_matches(#[trigger] entries@[j], arr@[j]),
            decreases arr.len() - i,
        {
            let ghost pre = self.layers@;
            let e = VidereValue::from_json_val(self, layer, &arr[i]);
            proof {
                lemma_grows_trans(filled, pre, self.layers@, layer + 1, arr@.take(i as int), seq![arr@[i as int]]);
                assert(arr@.take(i as int) + seq![arr@[i as int]] =~= arr@.take(i as int + 1));
            }
            entries.push(e);
            i = i + 1;
        }
        assert(arr@.take(arr.len() as int) =~= arr@);
        let ghost mid = self.layers@;
        let cell = VidereCell::Arr(entries);
        assert(cell_matches(cell, v));
        let mut target = VidereLayer::new();
        std::mem::swap(&mut target, &mut self.layers[layer]);
        target.cells.push(cell);
        let r = target.cells.len() - 1;
        self.layers.set(layer, target);
        proof {
            lemma_place_node(old(self).layers@, filled, mid, self.layers@, layer as int, v, cell);
        }
        r
    }

    /// Places the object `obj` at layer `layer`: its arrays and objects from
    /// the next layer on, in order, then its own cell at the end of layer
    /// `layer`. Returns the cell's index in its layer.
    pub fn add_obj_to_layer(&mut self, layer: usize, obj: &Vec<(String, JsonValue)>) -> (r: usize)
        ensures
            grows_by(old(self).layers@, final(self).layers@, layer as int, seq![JsonValue::Object(*obj)]),
            r + 1 == final(self).layers@[layer as int].cells@.len(),
        decreases obj,
    {
        self.fill_missing_layer(layer);
        assert(layer < self.layers.len());
        let ghost filled = self.layers@;
        let ghost v = JsonValue::Object(*obj);
        let mut entries: Vec<(String, VidereValue)> = Vec::new();
        let ghost kids = v.children();
        proof {
            assert forall|d: int| 0 <= d implies (#[trigger] forest_nodes_at(kids.take(0), d)).len() == 0 by {
                assert(kids.take(0) =~= Seq::<JsonValue>::empty());
            }
            lemma_grows_none(filled, layer + 1, kids.take(0));
        }
        let mut i: usize = 0;
        while i < obj.len()
            invariant
                i <= obj.len(),
                layer < filled.len(),
                layer < usize::MAX,
                self.layers@.len() >= filled.len(),
                grows_by(filled, self.layers@, layer + 1, kids.take(i as int)),
                entries@.len() == i,
                forall|j: int| 0 <= j < i ==> (#[trigger] entries@[j]).0@ == obj@[j].0@ && value_matches(entries@[j].1, obj@[j].1),
                kids == obj@.map_values(|p: (String, JsonValue)| p.1),
            decreases obj.len() - i,
        {
            let ghost pre = self.layers@;
            let e = VidereValue::from_json_val(self, layer, &obj[i].1);
            let k = obj[i].0.clone();
            proof {
                lemma_grows_trans(filled, pre, self.layers@, layer + 1, kids.take(i as int), seq![kids[i as int]]);
                assert(kids.take(i as int) + seq![kids[i as int]] =~= kids.take(i as int + 1));
            }
            entries.push((k, e));
            i = i + 1;
        }
        assert(kids.take(obj.len() as int) =~= kids);
        assert(kids.len() == obj@.len());
        let ghost mid = self.layers@;
        let cell = VidereCell::Obj(entries);
        assert(cell_matches(cell, v));
        let mut target = VidereLayer::new();
        std::mem::swap(&mut target, &mut self.layers[layer]);
        target.cells.push(cell);
        let r = target.cells.len() - 1;
        self.layers.set(layer, target);
        proof {
            lemma_place_node(old(self).layers@, filled, mid, self.layers@, layer as int, v, cell);
        }
        r
    }
    /// The height of the output; `None` where it does not fit a `usize`.
    pub fn get_height(&self) -> (r: Option<usize>)
        ensures
            r == (if map_height(self.layers@) <= usize::MAX {
                Some(map_height(self.layers@) as usize)
            } else {
                None
            }),
    {
        let mut h: usize = 0;
        let mut i: usize = 0;
        while i < self.layers.len()
            invariant
                i <= self.layers.len(),
                h == map_height(self.layers@.take(i as int)),
            decreases self.layers.len() - i,
        {
            assert(self.layers@.take(i as int + 1).drop_last() =~= self.layers@.take(i as int));
            assert(self.layers@.take(i as int + 1).last() == self.layers@[i as int]);
            proof {
                lemma_map_height_nonneg(self.layers@.take(i as int));
                let c = self.layers@[i as int].cells@;
                lemma_layer_height_prefix(c, c.len() as int);
                assert(c.take(c.len() as int) =~= c);
            }
            match self.layers[i].get_min_height() {
                Some(c) => {
                    if c > h {
                        h = c;
                    }
                },
                None => {
                    proof {
                        lemma_map_height_bound(self.layers@, i as int);
                    }
                    return None;
                },
            }
            i = i + 1;
        }
        assert(self.layers@.take(self.layers.len() as int) =~= self.layers@);
        Some(h)
    }

    /// Draws every layer after the connectors that lead into it and joins
    /// them row by row into one text, a line break after each row. `None`
    /// where `table_text` is, which is only where the height or a layer's
    /// width does not fit a `usize` or the anchors of a boundary do not pair
    /// up. Where no key, string or number holds a line break, the text has one
    /// line break per row.
    pub fn as_table_string(&self) -> (r: Option<String>)
        ensures
            r is Some == table_text(self.layers@) is Some,
            r is Some ==> r->Some_0@ == table_text(self.layers@)->Some_0,
            map_height(self.layers@) <= usize::MAX && anchors_paired(self.layers@) && (forall|k: int|
                0 <= k < self.layers@.len() ==> layer_width(#[trigger] self.layers@[k].cells@) <= usize::MAX) ==> r is Some,
            r is Some && (forall|k: int, i: int|
                0 <= k < self.layers@.len() && 0 <= i < self.layers@[k].cells@.len() ==> cell_single_line(
                    #[trigger] self.layers@[k].cells@[i],
                )) ==> count_char(r->Some_0@, '\n') == map_height(self.layers@) && (map_height(self.layers@) > 0
                ==> r->Some_0@.last() == '\n'),
    {
        proof {
            if table_text(self.layers@) is Some && (forall|k: int, i: int|
                0 <= k < self.layers@.len() && 0 <= i < self.layers@[k].cells@.len() ==> cell_single_line(
                    #[trigger] self.layers@[k].cells@[i],
                )) {
                lemma_table_lines(self.layers@);
            }
        }
        proof {
            if map_height(self.layers@) <= usize::MAX && anchors_paired(self.layers@) && (forall|k: int|
                0 <= k < self.layers@.len() ==> layer_width(#[trigger] self.layers@[k].cells@) <= usize::MAX) {
                lemma_layers_render(self.layers@, self.layers@.len() as int);
            }
        }
        let height = match self.get_height() {
            Some(h) => h,
            None => {
                return None;
            },
        };
        let ghost layers = self.layers@;
        proof {
            lemma_map_height_nonneg(layers);
        }
        let mut layer_strings: Vec<Vec<String>> = Vec::new();
        let mut from: Vec<usize> = Vec::new();
        let mut k: usize = 0;
        while k < self.layers.len()
            invariant
                layers == self.layers@,
                height == map_height(layers),
                (forall|k: int| 0 <= k < layers.len() ==> layer_width(#[trigger] layers[k].cells@) <= usize::MAX)
                    && anchors_paired(layers) ==> table_text(
                    layers,
                ) is Some,
                k <= layers.len(),
                from@ == from_before(layers, k as int),
                layer_columns(layers, k as int, height as int) is Some,
                forall|j: int| 1 <= j < k ==> #[trigger] layer_from(layers[j - 1].cells@).len() == layers[j].cells@.len(),
                layer_strings.len() == k,
                forall|j: int, r: int|
                    0 <= j < k && 0 <= r < height ==> (#[trigger] layer_strings@[j]@[r])@
                        == layer_columns(layers, k as int, height as int)->Some_0[j][r],
                forall|j: int| 0 <= j < k ==> (#[trigger] layer_strings@[j])@.len() == height,
            decreases layers.len() - k,
        {
            proof {
                lemma_map_height_bound(layers, k as int);
            }
            if k > 0 && from.len() != self.layers[k].cells.len() {
                return None;
            }
            let connections = LayerConnector::new(height, from);
            match self.layers[k].get_rows(height, connections) {
                Some((rows, layer_from)) => {
                    proof {
                        let out = layer_output(layers[k as int].cells@, height as int, from_before(layers, k as int))->Some_0;
                        assert(out.len() == height) by {
                            lemma_stacked_len(layers[k as int].cells@, layer_width(layers[k as int].cells@));
                        }
                    }
                    let ghost prev = layer_strings@;
                    layer_strings.push(rows);
                    from = layer_from;
                    proof {
                        lemma_layer_columns_prefix(layers, k as int, k as int, height as int);
                        let cols = layer_columns(layers, k as int + 1, height as int)->Some_0;
                        let before = layer_columns(layers, k as int, height as int)->Some_0;
                        assert(cols == before.push(layer_output(layers[k as int].cells@, height as int, from_before(layers, k as int))->Some_0));
                        assert forall|j: int, r: int| 0 <= j < k + 1 && 0 <= r < height implies (#[trigger] layer_strings@[j]@[r])@ == cols[j][r] by {
                            if j < k {
                                assert(layer_strings@[j] == prev[j]);
                            }
                        }
                    }
                },
                None => {
                    proof {
                        lemma_layer_columns_prefix(layers, k as int + 1, layers.len() as int, height as int);
                    }
                    return None;
                },
            }
            k = k + 1;
        }
        let ghost cols = layer_columns(layers, layers.len() as int, height as int)->Some_0;
        proof {
            lemma_layer_columns_prefix(layers, layers.len() as int, layers.len() as int, height as int);
        }
        let mut table = String::new();
        let mut row: usize = 0;
        while row < height
            invariant
                row <= height,
                layer_strings.len() == layers.len(),
                cols.len() == layers.len(),
                forall|j: int, r: int|
                    0 <= j < layers.len() && 0 <= r < height ==> (#[trigger] layer_strings@[j]@[r])@ == cols[j][r],
                forall|j: int| 0 <= j < layers.len() ==> (#[trigger] layer_strings@[j])@.len() == height,
                table@ == output_text(cols, row as int),
            decreases height - row,
        {
            let ghost start = table@;
            let mut c: usize = 0;
            while c < layer_strings.len()
                invariant
                    c <= layer_strings.len(),
                    row < height,
                    layer_strings.len() == layers.len(),
                    cols.len() == layers.len(),
                    forall|j: int, r: int|
                        0 <= j < layers.len() && 0 <= r < height ==> (#[trigger] layer_strings@[j]@[r])@ == cols[j][r],
                    forall|j: int| 0 <= j < layers.len() ==> (#[trigger] layer_strings@[j])@.len() == height,
                    table@ == start + output_line(cols, row as int, c as int),
                decreases layer_strings.len() - c,
            {
                table.append(layer_strings[c][row].as_str());
                assert(table@ =~= start + output_line(cols, row as int, c as int + 1));
                c = c + 1;
            }
            proof {
                reveal_strlit("\n");
                assert("\n"@ =~= seq!['\n']);
            }
            table.append("\n");
            assert(table@ =~= output_text(cols, row as int + 1));
            row = row + 1;
        }
        Some(table)
    }
}

/// The "from" rows of each layer drawn for a tree are as many as the cells
/// of the next layer, so that they pair up position by position; the last
/// layer has none.
pub proof fn lemma_anchor_pairing(layers: Seq<VidereLayer>, root: JsonValue, d: int)
    requires
        layers_model(layers, root),
        0 <= d < layers.len(),
    ensures
        layer_from(layers[d].cells@).len() == if d + 1 < layers.len() {
            layers[d + 1].cells@.len() as int
        } else {
            0
        },
{
    let cells = layers[d].cells@;
    let nodes = nodes_at(root, d);
    assert(cells.len() == nodes.len());
    assert forall|i: int| 0 <= i < cells.len() implies cell_matches(#[trigger] cells[i], nodes[i]) by {
        assert(cell_matches(layers[d].cells@[i], nodes_at(root, d)[i]));
    }
    lemma_layer_refs(cells, nodes);
    lemma_next_level(root, d);
    if d + 1 < layers.len() {
        assert(layers[d + 1].cells@.len() == nodes_at(root, d + 1).len());
    } else {
        assert(nodes_at(root, d + 1).len() == 0);
    }
}

/// The first `n` layers of two lists that are drawn for the same tree
/// are equally high and are drawn into the same columns.
pub proof fn lemma_columns_alike(l1: Seq<VidereLayer>, l2: Seq<VidereLayer>, root: JsonValue, n: int, height: int)
    requires
        layers_model(l1, root),
        layers_model(l2, root),
        l1.len() == l2.len(),
        0 <= n <= l1.len(),
    ensures
        map_height(l1.take(n)) == map_height(l2.take(n)),
        layer_columns(l1, n, height) == layer_columns(l2, n, height),
    decreases n,
{
    if n > 0 {
        lemma_columns_alike(l1, l2, root, n - 1, height);
        let k = n - 1;
        let nodes = nodes_at(root, k);
        assert(l1[k].cells@.len() == nodes.len());
        assert(l2[k].cells@.len() == nodes.len());
        assert forall|i: int| 0 <= i < nodes.len() implies cell_matches(#[trigger] l1[k].cells@[i], nodes[i]) by {
            assert(cell_matches(l1[k].cells@[i], nodes_at(root, k)[i]));
        }
        assert forall|i: int| 0 <= i < nodes.len() implies cell_matches(#[trigger] l2[k].cells@[i], nodes[i]) by {
            assert(cell_matches(l2[k].cells@[i], nodes_at(root, k)[i]));
        }
        lemma_layers_alike(l1[k].cells@, l2[k].cells@, nodes);
        if k > 0 {
            let p = k - 1;
            let pn = nodes_at(root, p);
            assert forall|i: int| 0 <= i < pn.len() implies cell_matches(#[trigger] l1[p].cells@[i], pn[i]) by {
                assert(cell_matches(l1[p].cells@[i], nodes_at(root, p)[i]));
            }
            assert forall|i: int| 0 <= i < pn.len() implies cell_matches(#[trigger] l2[p].cells@[i], pn[i]) by {
                assert(cell_matches(l2[p].cells@[i], nodes_at(root, p)[i]));
            }
            assert(l1[p].cells@.len() == pn.len());
            assert(l2[p].cells@.len() == pn.len());
            lemma_layers_alike(l1[p].cells@, l2[p].cells@, pn);
        }
        assert(from_before(l1, k) == from_before(l2, k));
        assert(l1.take(n).drop_last() =~= l1.take(k));
        assert(l2.take(n).drop_last() =~= l2.take(k));
        assert(l1.take(n).last() == l1[k]);
        assert(l2.take(n).last() == l2[k]);
    }
}

/// Rendering is a function of the tree: two maps laid out for the same tree
/// give the same text, or both fail.
pub proof fn lemma_render_deterministic(l1: Seq<VidereLayer>, l2: Seq<VidereLayer>, root: JsonValue)
    requires
        layers_model(l1, root),
        layers_model(l2, root),
    ensures
        table_text(l1) == table_text(l2),
{
    if l1.len() < l2.len() {
        assert(nodes_at(root, l2.len() - 1).len() > 0);
        assert(nodes_at(root, l2.len() - 1).len() == 0);
    }
    if l2.len() < l1.len() {
        assert(nodes_at(root, l1.len() - 1).len() > 0);
        assert(nodes_at(root, l1.len() - 1).len() == 0);
    }
    assert(l1.take(l1.len() as int) =~= l1);
    assert(l2.take(l2.len() as int) =~= l2);
    lemma_columns_alike(l1, l2, root, l1.len() as int, map_height(l1));
    assert forall|k: int| 1 <= k < l1.len() implies #[trigger] layer_from(l1[k - 1].cells@).len() == l1[k].cells@.len() by {
        lemma_anchor_pairing(l1, root, k - 1);
    }
    assert forall|k: int| 1 <= k < l2.len() implies #[trigger] layer_from(l2[k - 1].cells@).len() == l2[k].cells@.len() by {
        lemma_anchor_pairing(l2, root, k - 1);
    }
}

/// Every layer is drawn as high as the output, which is as high as the
/// highest layer's stacked cells: each layer's own rows are padded with
/// blank rows to that height.
pub proof fn lemma_layer_output_height(layers: Seq<VidereLayer>, k: int)
    requires
        0 <= k < layers.len(),
        layer_output(layers[k].cells@, map_height(layers), from_before(layers, k)) is Some,
    ensures
        layer_output(layers[k].cells@, map_height(layers), from_before(layers, k))->Some_0.len() == map_height(layers),
        map_height(layers) >= layer_height(layers[k].cells@),
        exists|j: int| 0 <= j < layers.len() && map_height(layers) == layer_height(#[trigger] layers[j].cells@),
{
    let cells = layers[k].cells@;
    lemma_map_height_bound(layers, k);
    lemma_stacked_len(cells, layer_width(cells));
    lemma_map_height_reached(layers);
}

/// The height of a non-empty list of layers is that of one of them.
pub proof fn lemma_map_height_reached(layers: Seq<VidereLayer>)
    requires
        layers.len() > 0,
    ensures
        exists|j: int| 0 <= j < layers.len() && map_height(layers) == layer_height(#[trigger] layers[j].cells@),
    decreases layers.len(),
{
    let h = layer_height(layers.last().cells@);
    if layers.len() == 1 {
        assert(map_height(layers.drop_last()) == 0);
        let c = layers[0].cells@;
        lemma_layer_height_prefix(c, c.len() as int);
        assert(c.take(c.len() as int) =~= c);
        assert(map_height(layers) == layer_height(layers[0].cells@));
    } else {
        lemma_map_height_reached(layers.drop_last());
        let prev = map_height(layers.drop_last());
        if h <= prev {
            let j = choose|j: int| 0 <= j < layers.len() - 1 && prev == layer_height(#[trigger] layers.drop_last()[j].cells@);
            assert(layers.drop_last()[j] == layers[j]);
        } else {
            assert(map_height(layers) == layer_height(layers[layers.len() - 1].cells@));
        }
    }
}

/// Where the height and every layer's width fit a `usize`, every layer is
/// drawn: the "from" and "to" rows at each boundary increase together, so
/// their connectors are always routed.
pub proof fn lemma_layers_render(layers: Seq<VidereLayer>, n: int)
    requires
        0 <= n <= layers.len(),
        map_height(layers) <= usize::MAX,
        anchors_paired(layers),
        forall|k: int| 0 <= k < layers.len() ==> layer_width(#[trigger] layers[k].cells@) <= usize::MAX,
    ensures
        layer_columns(layers, n, map_height(layers)) is Some,
        n == layers.len() ==> table_text(layers) is Some,
    decreases n,
{
    if n > 0 {
        lemma_layers_render(layers, n - 1);
        let k = n - 1;
        let h = map_height(layers);
        let cells = layers[k].cells@;
        let from = from_before(layers, k);
        let to = layer_to(cells);
        assert(layer_width(cells) <= usize::MAX);
        lemma_map_height_bound(layers, k);
        lemma_layer_rows_in_range(cells);
        lemma_layer_anchors_increasing(cells);
        if k > 0 {
            lemma_map_height_bound(layers, k - 1);
            lemma_layer_rows_in_range(layers[k - 1].cells@);
            lemma_layer_anchors_increasing(layers[k - 1].cells@);
        }
        let ps = zip_pairs(from, to);
        assert forall|a: int, b: int| 0 <= a < b < ps.len() implies (#[trigger] ps[a]).0 < (#[trigger] ps[b]).0 && ps[a].1 < ps[b].1 by {
            assert(from[a] < from[b]);
            assert(to[a] < to[b]);
        }
        assert forall|a: int| 0 <= a < ps.len() implies (#[trigger] ps[a]).0 < h && ps[a].1 < h by {
            assert(from[a] < h);
            assert(to[a] < h);
        }
        lemma_increasing_pairs_route(h as nat, from, to);
    }
}

/// A row made of column rows without line breaks has none.
pub proof fn lemma_output_line_breaks(cols: Seq<Seq<Seq<char>>>, r: int, k: int)
    requires
        forall|j: int| 0 <= j < k ==> count_char(#[trigger] cols[j][r], '\n') == 0,
    ensures
        count_char(output_line(cols, r, k), '\n') == 0,
    decreases k,
{
    if k > 0 {
        lemma_output_line_breaks(cols, r, k - 1);
        lemma_count_concat(output_line(cols, r, k - 1), cols[k - 1][r], '\n');
    }
}

/// Where no drawn row holds a line break, the output has one line break per
/// row, and a non-empty output ends with one.
pub proof fn lemma_output_text_lines(cols: Seq<Seq<Seq<char>>>, n: int)
    requires
        n >= 0,
        forall|j: int, r: int| 0 <= j < cols.len() && 0 <= r < n ==> count_char(#[trigger] cols[j][r], '\n') == 0,
    ensures
        count_char(output_text(cols, n), '\n') == n,
        n > 0 ==> output_text(cols, n).last() == '\n',
    decreases n,
{
    if n > 0 {
        lemma_output_text_lines(cols, n - 1);
        assert forall|j: int| 0 <= j < cols.len() implies count_char(#[trigger] cols[j][n - 1], '\n') == 0 by {
        }
        lemma_output_line_breaks(cols, n - 1, cols.len() as int);
        let a = output_text(cols, n - 1);
        let b = output_line(cols, n - 1, cols.len() as int);
        lemma_count_concat(a, b, '\n');
        lemma_count_concat(a + b, seq!['\n'], '\n');
        lemma_count_single('\n', '\n');
    }
}

/// Where no key, string or number of any cell holds a line break, the text
/// drawn has exactly one line break per row of the output, ending each row.
pub proof fn lemma_table_lines(layers: Seq<VidereLayer>)
    requires
        forall|k: int, i: int|
            0 <= k < layers.len() && 0 <= i < layers[k].cells@.len() ==> cell_single_line(#[trigger] layers[k].cells@[i]),
        table_text(layers) is Some,
    ensures
        count_char(table_text(layers)->Some_0, '\n') == map_height(layers),
        map_height(layers) > 0 ==> table_text(layers)->Some_0.last() == '\n',
{
    let h = map_height(layers);
    let n = layers.len() as int;
    lemma_map_height_nonneg(layers);
    lemma_layer_columns_prefix(layers, n, n, h);
    let cols = layer_columns(layers, n, h)->Some_0;
    assert forall|j: int, r: int| 0 <= j < cols.len() && 0 <= r < h implies count_char(#[trigger] cols[j][r], '\n') == 0 by {
        lemma_columns_single_line(layers, n, h, j);
    }
    lemma_output_text_lines(cols, h);
}

/// Each drawn column of layers whose cells hold no line break has none.
pub proof fn lemma_columns_single_line(layers: Seq<VidereLayer>, n: int, h: int, j: int)
    requires
        forall|k: int, i: int|
            0 <= k < layers.len() && 0 <= i < layers[k].cells@.len() ==> cell_single_line(#[trigger] layers[k].cells@[i]),
        0 <= j < n <= layers.len(),
        h == map_height(layers),
        layer_columns(layers, n, h) is Some,
    ensures
        layer_columns(layers, n, h)->Some_0[j].len() == h,
        forall|r: int|
            0 <= r < layer_columns(layers, n, h)->Some_0[j].len() ==> count_char(
                #[trigger] layer_columns(layers, n, h)->Some_0[j][r],
                '\n',
            ) == 0,
    decreases n,
{
    lemma_layer_columns_prefix(layers, n - 1, n, h);
    if j < n - 1 {
        lemma_columns_single_line(layers, n - 1, h, j);
    } else {
        let cells = layers[j].cells@;
        assert forall|i: int| 0 <= i < cells.len() implies cell_single_line(#[trigger] cells[i]) by {
            assert(cell_single_line(layers[j].cells@[i]));
        }
        lemma_layer_output_single_line(cells, h, from_before(layers, j));
        lemma_layer_output_height(layers, j);
    }
}

/// Once a layer cannot be drawn, no longer prefix of layers can be; where
/// they can, there is one column per layer.
pub proof fn lemma_layer_columns_prefix(layers: Seq<VidereLayer>, k: int, n: int, height: int)
    requires
        0 <= k <= n,
    ensures
        layer_columns(layers, k, height) is None ==> layer_columns(layers, n, height) is None,
        layer_columns(layers, n, height) is Some ==> layer_columns(layers, n, height)->Some_0.len() == n,
    decreases n,
{
    if n > 0 {
        if k < n {
            lemma_layer_columns_prefix(layers, k, n - 1, height);
        } else {
            lemma_layer_columns_prefix(layers, k - 1, n - 1, height);
        }
    }
}

/// The output is never of negative height.
pub proof fn lemma_map_height_nonneg(layers: Seq<VidereLayer>)
    ensures
        map_height(layers) >= 0,
    decreases layers.len(),
{
    if layers.len() > 0 {
        lemma_map_height_nonneg(layers.drop_last());
    }
}

/// No layer is higher than the output.
pub proof fn lemma_map_height_bound(layers: Seq<VidereLayer>, i: int)
    requires
        0 <= i < layers.len(),
    ensures
        map_height(layers) >= layer_height(layers[i].cells@),
    decreases layers.len(),
{
    if i < layers.len() - 1 {
        lemma_map_height_bound(layers.drop_last(), i);
    }
}

} // verus!
