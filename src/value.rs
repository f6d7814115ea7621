use vstd::prelude::*;
use vstd::string::*;

use crate::cells::VidereCell;
use crate::layer::VidereLayer;
use crate::map::VidereMap;
use crate::text::{str_width, text_width};

verus! {

/// A character that canonical decimal number text may hold.
pub open spec fn is_number_char(c: char) -> bool {
    ('0' <= c && c <= '9') || c == '-' || c == '+' || c == '.' || c == 'e' || c == 'E'
}

/// Canonical decimal number text: not empty, and only digits, signs, a
/// decimal point and exponent marks, each one column wide.
pub open spec fn is_number_text(s: Seq<char>) -> bool {
    s.len() > 0 && forall|i: int| 0 <= i < s.len() ==> is_number_char(#[trigger] s[i])
}

/// The text of a number, always canonical decimal text.
#[derive(Debug)]
pub struct NumberText {
    text: String,
}

impl View for NumberText {
    type V = Seq<char>;

    closed spec fn view(&self) -> Seq<char> {
        self.text@
    }
}

impl NumberText {
    #[verifier::type_invariant]
    spec fn valid(&self) -> bool {
        is_number_text(self.text@)
    }

    /// The number text `text`, or `None` where it is not canonical decimal
    /// text.
    pub fn new(text: String) -> (r: Option<NumberText>)
        ensures
            r is Some == is_number_text(text@),
            r is Some ==> r->Some_0@ == text@,
    {
        let n = text.as_str().unicode_len();
        if n == 0 {
            return None;
        }
        let mut i: usize = 0;
        while i < n
            invariant
                n == text@.len(),
                i <= n,
                forall|j: int| 0 <= j < i ==> is_number_char(#[trigger] text@[j]),
            decreases n - i,
        {
            let c = text.as_str().get_char(i);
            if !(('0' <= c && c <= '9') || c == '-' || c == '+' || c == '.' || c == 'e' || c == 'E') {
                return None;
            }
            i = i + 1;
        }
        Some(NumberText { text })
    }

    /// The text, which is canonical decimal text.
    pub fn as_str(&self) -> (r: &str)
        ensures
            r@ == self@,
            is_number_text(self@),
    {
        proof {
            use_type_invariant(self);
        }
        self.text.as_str()
    }

    /// A copy of the number text.
    pub fn duplicate(&self) -> (r: NumberText)
        ensures
            r@ == self@,
    {
        proof {
            use_type_invariant(self);
        }
        NumberText { text: self.text.clone() }
    }
}

/// A tree of structured values: scalars, arrays, and objects whose entries
/// keep the order in which they were read.
#[derive(Debug)]
pub enum JsonValue {
    Null,
    Bool(bool),
    /// A number, held as its canonical decimal text.
    Number(NumberText),
    String(String),
    Array(Vec<JsonValue>),
    Object(Vec<(String, JsonValue)>),
}

impl JsonValue {
    /// Whether the value is an array or an object.
    pub open spec fn is_composite(&self) -> bool {
        self is Array || self is Object
    }

    /// The values directly inside an array or object, in order.
    pub open spec fn children(&self) -> Seq<JsonValue> {
        match self {
            JsonValue::Array(a) => a@,
            JsonValue::Object(o) => o@.map_values(|p: (String, JsonValue)| p.1),
            _ => seq![],
        }
    }
}

/// The arrays and objects `d` levels below `v` (`v` itself for 0), in the
/// order in which a depth-first scan of the entries meets their parents.
pub open spec fn nodes_at(v: JsonValue, d: int) -> Seq<JsonValue>
    decreases d, 0int,
{
    if d <= 0 {
        if v.is_composite() {
            seq![v]
        } else {
            seq![]
        }
    } else {
        forest_nodes_at(v.children(), d - 1)
    }
}

/// The arrays and objects `d` levels below each value of `forest`, one value
/// after the other.
pub open spec fn forest_nodes_at(forest: Seq<JsonValue>, d: int) -> Seq<JsonValue>
    decreases d, forest.len() + 1,
{
    if forest.len() == 0 {
        seq![]
    } else {
        forest_nodes_at(forest.drop_last(), d) + nodes_at(forest.last(), d)
    }
}

/// `vv` is what a cell's row holds for `jv`: the scalar itself, or a
/// reference of the same kind.
pub open spec fn value_matches(vv: VidereValue, jv: JsonValue) -> bool {
    match jv {
        JsonValue::Null => vv is Null,
        JsonValue::Bool(b) => vv == VidereValue::Bool(b),
        JsonValue::Number(n) => vv is Number && vv->Number_0@ == n@,
        JsonValue::String(t) => vv is String && vv->String_0@ == t@,
        JsonValue::Array(_) => vv is Array,
        JsonValue::Object(_) => vv is Object,
    }
}

/// `c` is the cell drawn for the array or object `v`: an entry per entry,
/// with the same keys, in the same order.
pub open spec fn cell_matches(c: VidereCell, v: JsonValue) -> bool {
    match (c, v) {
        (VidereCell::Obj(es), JsonValue::Object(o)) => {
            &&& es@.len() == o@.len()
            &&& forall|i: int| 0 <= i < o@.len() ==> (#[trigger] es@[i]).0@ == o@[i].0@ && value_matches(es@[i].1, o@[i].1)
        },
        (VidereCell::Arr(vs), JsonValue::Array(a)) => {
            &&& vs@.len() == a@.len()
            &&& forall|i: int| 0 <= i < a@.len() ==> value_matches(#[trigger] vs@[i], a@[i])
        },
        _ => false,
    }
}

/// The cells of layer `x`, none where there is no such layer.
pub open spec fn cells_at(layers: Seq<VidereLayer>, x: int) -> Seq<VidereCell> {
    if 0 <= x < layers.len() {
        layers[x].cells@
    } else {
        seq![]
    }
}

/// `new` is `old` with a cell for each of `nodes` appended, in order.
pub open spec fn layer_grows(old: Seq<VidereCell>, new: Seq<VidereCell>, nodes: Seq<JsonValue>) -> bool {
    &&& new.len() == old.len() + nodes.len()
    &&& new.subrange(0, old.len() as int) == old
    &&& forall|i: int| 0 <= i < nodes.len() ==> cell_matches(#[trigger] new[old.len() + i], nodes[i])
}

/// `new` is `old` after the values of `forest` were placed at layer `base`:
/// the layers before `base` are kept, layers before `base` that did not
/// exist are added empty, and each layer `base + d` has a cell appended for
/// each array or object `d` levels into the forest. Layers are added only as
/// far as they are needed.
pub open spec fn grows_by(old: Seq<VidereLayer>, new: Seq<VidereLayer>, base: int, forest: Seq<JsonValue>) -> bool {
    &&& new.len() >= old.len()
    &&& forall|x: int| 0 <= x < base && x < old.len() ==> #[trigger] new[x] == old[x]
    &&& forall|x: int| old.len() <= x < base && x < new.len() ==> (#[trigger] new[x]).cells@.len() == 0
    &&& forall|d: int|
        0 <= d && base + d < new.len() ==> layer_grows(
            cells_at(old, base + d),
            #[trigger] new[base + d].cells@,
            forest_nodes_at(forest, d),
        )
    &&& forall|d: int| 0 <= d && base + d >= new.len() ==> (#[trigger] forest_nodes_at(forest, d)).len() == 0
    &&& new.len() > old.len() ==> base < new.len() && forest_nodes_at(forest, new.len() - 1 - base).len() > 0
}

/// The nodes of two forests one after the other are those of the first,
/// then those of the second.
pub proof fn lemma_forest_concat(f1: Seq<JsonValue>, f2: Seq<JsonValue>, d: int)
    ensures
        forest_nodes_at(f1 + f2, d) == forest_nodes_at(f1, d) + forest_nodes_at(f2, d),
    decreases f2.len(),
{
    if f2.len() == 0 {
        assert(f1 + f2 =~= f1);
        assert(forest_nodes_at(f1, d) + forest_nodes_at(f2, d) =~= forest_nodes_at(f1, d));
    } else {
        assert((f1 + f2).drop_last() =~= f1 + f2.drop_last());
        assert((f1 + f2).last() == f2.last());
        lemma_forest_concat(f1, f2.drop_last(), d);
        assert(forest_nodes_at(f1, d) + forest_nodes_at(f2.drop_last(), d) + nodes_at(f2.last(), d)
            =~= forest_nodes_at(f1, d) + (forest_nodes_at(f2.drop_last(), d) + nodes_at(f2.last(), d)));
    }
}

/// A scalar has no arrays or objects at any level.
pub proof fn lemma_scalar_nodes(v: JsonValue, d: int)
    requires
        !v.is_composite(),
    ensures
        forest_nodes_at(seq![v], d).len() == 0,
{
    assert(seq![v].drop_last() =~= Seq::<JsonValue>::empty());
    assert(forest_nodes_at(Seq::<JsonValue>::empty(), d).len() == 0);
    assert(v.children() =~= Seq::<JsonValue>::empty());
    assert(forest_nodes_at(v.children(), d - 1).len() == 0);
    assert(nodes_at(v, d).len() == 0);
    assert(forest_nodes_at(seq![v], d) == forest_nodes_at(seq![v].drop_last(), d) + nodes_at(v, d));
}

/// Cells appended twice are the cells of both appended at once.
pub proof fn lemma_layer_grows_trans(
    a: Seq<VidereCell>,
    b: Seq<VidereCell>,
    c: Seq<VidereCell>,
    n1: Seq<JsonValue>,
    n2: Seq<JsonValue>,
)
    requires
        layer_grows(a, b, n1),
        layer_grows(b, c, n2),
    ensures
        layer_grows(a, c, n1 + n2),
{
    assert(c.subrange(0, a.len() as int) =~= b.subrange(0, a.len() as int)) by {
        assert forall|i: int| 0 <= i < a.len() implies c[i] == b[i] by {
            assert(c.subrange(0, b.len() as int)[i] == c[i]);
        }
    }
    assert forall|i: int| 0 <= i < (n1 + n2).len() implies cell_matches(#[trigger] c[a.len() + i], (n1 + n2)[i]) by {
        if i < n1.len() {
            assert(c.subrange(0, b.len() as int)[a.len() + i] == c[a.len() + i]);
        } else {
            assert(c[b.len() + (i - n1.len())] == c[a.len() + i]);
        }
    }
}

/// Placing two forests at one layer, one after the other, places the two
/// forests joined.
pub proof fn lemma_grows_trans(
    a: Seq<VidereLayer>,
    b: Seq<VidereLayer>,
    c: Seq<VidereLayer>,
    base: int,
    f1: Seq<JsonValue>,
    f2: Seq<JsonValue>,
)
    requires
        0 <= base,
        grows_by(a, b, base, f1),
        grows_by(b, c, base, f2),
    ensures
        grows_by(a, c, base, f1 + f2),
{
    assert forall|d: int| 0 <= d implies #[trigger] forest_nodes_at(f1 + f2, d) == forest_nodes_at(f1, d)
        + forest_nodes_at(f2, d) by {
        lemma_forest_concat(f1, f2, d);
    }
    assert forall|d: int| 0 <= d && base + d < c.len() implies layer_grows(
        cells_at(a, base + d),
        #[trigger] c[base + d].cells@,
        forest_nodes_at(f1 + f2, d),
    ) by {
        let n1 = forest_nodes_at(f1, d);
        let n2 = forest_nodes_at(f2, d);
        if base + d < b.len() {
            assert(cells_at(b, base + d) == b[base + d].cells@);
            lemma_layer_grows_trans(cells_at(a, base + d), b[base + d].cells@, c[base + d].cells@, n1, n2);
        } else {
            assert(n1.len() == 0);
            assert(n1 + n2 =~= n2);
            assert(cells_at(a, base + d) == cells_at(b, base + d));
        }
    }
    assert forall|d: int| 0 <= d && base + d >= c.len() implies (#[trigger] forest_nodes_at(f1 + f2, d)).len() == 0 by {
        assert(forest_nodes_at(f1, d).len() == 0);
        assert(forest_nodes_at(f2, d).len() == 0);
    }
    if c.len() > a.len() {
        let d = c.len() - 1 - base;
        if c.len() > b.len() {
            assert(forest_nodes_at(f2, d).len() > 0);
        } else {
            assert(forest_nodes_at(f1, d).len() > 0);
        }
        assert(forest_nodes_at(f1 + f2, d) == forest_nodes_at(f1, d) + forest_nodes_at(f2, d));
    }
    assert forall|x: int| 0 <= x < base && x < a.len() implies #[trigger] c[x] == a[x] by {
        assert(c[x] == b[x]);
    }
    assert forall|x: int| a.len() <= x < base && x < c.len() implies (#[trigger] c[x]).cells@.len() == 0 by {
        if x < b.len() {
            assert(c[x] == b[x]);
        }
    }
}

/// Placing values with no arrays or objects in them changes no layer.
pub proof fn lemma_grows_none(a: Seq<VidereLayer>, base: int, forest: Seq<JsonValue>)
    requires
        0 <= base,
        forall|d: int| 0 <= d ==> (#[trigger] forest_nodes_at(forest, d)).len() == 0,
    ensures
        grows_by(a, a, base, forest),
{
    assert forall|d: int| 0 <= d && base + d < a.len() implies layer_grows(
        cells_at(a, base + d),
        #[trigger] a[base + d].cells@,
        forest_nodes_at(forest, d),
    ) by {
        assert(a[base + d].cells@.subrange(0, a[base + d].cells@.len() as int) =~= a[base + d].cells@);
    }
}

/// The nodes of a forest of one value are that value's.
pub proof fn lemma_single_forest(v: JsonValue, d: int)
    ensures
        forest_nodes_at(seq![v], d) == nodes_at(v, d),
{
    assert(seq![v].drop_last() =~= Seq::<JsonValue>::empty());
    assert(forest_nodes_at(Seq::<JsonValue>::empty(), d) =~= Seq::<JsonValue>::empty());
    assert(seq![v].last() == v);
    assert(forest_nodes_at(seq![v], d) =~= nodes_at(v, d));
}

/// An array or object placed at layer `base`: the layers up to `base` made
/// to exist (`filled`), its values placed at the next layer (`mid`), then
/// its own cell appended to layer `base` (`fin`).
pub proof fn lemma_place_node(
    old: Seq<VidereLayer>,
    filled: Seq<VidereLayer>,
    mid: Seq<VidereLayer>,
    fin: Seq<VidereLayer>,
    base: int,
    v: JsonValue,
    c: VidereCell,
)
    requires
        v.is_composite(),
        0 <= base,
        filled.len() == if base < old.len() {
            old.len() as int
        } else {
            base + 1
        },
        forall|x: int| 0 <= x < old.len() ==> #[trigger] filled[x] == old[x],
        forall|x: int| old.len() <= x < filled.len() ==> (#[trigger] filled[x]).cells@.len() == 0,
        grows_by(filled, mid, base + 1, v.children()),
        fin.len() == mid.len(),
        forall|x: int| 0 <= x < fin.len() && x != base ==> #[trigger] fin[x] == mid[x],
        fin[base].cells@ == mid[base].cells@.push(c),
        cell_matches(c, v),
    ensures
        grows_by(old, fin, base, seq![v]),
{
    assert forall|d: int| 0 <= d implies #[trigger] forest_nodes_at(seq![v], d) == nodes_at(v, d) by {
        lemma_single_forest(v, d);
    }
    assert(nodes_at(v, 0) == seq![v]);
    assert(mid[base] == filled[base]);
    assert(cells_at(filled, base) == cells_at(old, base));
    assert forall|d: int| 0 <= d && base + d < fin.len() implies layer_grows(
        cells_at(old, base + d),
        #[trigger] fin[base + d].cells@,
        forest_nodes_at(seq![v], d),
    ) by {
        if d == 0 {
            let o = cells_at(old, base);
            assert(fin[base].cells@.subrange(0, o.len() as int) =~= o);
            assert(fin[base].cells@[o.len() as int] == c);
        } else {
            assert(nodes_at(v, d) == forest_nodes_at(v.children(), d - 1));
            assert(base + 1 + (d - 1) == base + d);
            assert(cells_at(filled, base + d) == cells_at(old, base + d));
            assert(layer_grows(cells_at(filled, base + 1 + (d - 1)), mid[base + 1 + (d - 1)].cells@, forest_nodes_at(v.children(), d - 1)));
        }
    }
    assert forall|d: int| 0 <= d && base + d >= fin.len() implies (#[trigger] forest_nodes_at(seq![v], d)).len() == 0 by {
        assert(d >= 1);
        assert(nodes_at(v, d) == forest_nodes_at(v.children(), d - 1));
        assert(base + 1 + (d - 1) >= mid.len());
    }
    if fin.len() > old.len() {
        let d = fin.len() - 1 - base;
        if mid.len() > filled.len() {
            assert(forest_nodes_at(v.children(), mid.len() - 1 - (base + 1)).len() > 0);
            assert(nodes_at(v, d) == forest_nodes_at(v.children(), d - 1));
        } else {
            assert(d == 0);
        }
    }
    assert forall|x: int| 0 <= x < base && x < old.len() implies #[trigger] fin[x] == old[x] by {
        assert(fin[x] == mid[x]);
        assert(mid[x] == filled[x]);
    }
    assert forall|x: int| old.len() <= x < base && x < fin.len() implies (#[trigger] fin[x]).cells@.len() == 0 by {
        assert(fin[x] == mid[x]);
        assert(mid[x] == filled[x]);
    }
}

/// `layers` are the layers drawn for the tree `root`: layer `d` holds a cell
/// for each array or object `d` levels into the tree, in order, and there
/// are as many layers as there are levels that hold one.
pub open spec fn layers_model(layers: Seq<VidereLayer>, root: JsonValue) -> bool {
    &&& forall|d: int|
        0 <= d < layers.len() ==> (#[trigger] layers[d]).cells@.len() == nodes_at(root, d).len()
    &&& forall|d: int, i: int|
        0 <= d < layers.len() && 0 <= i < nodes_at(root, d).len() ==> cell_matches(
            #[trigger] layers[d].cells@[i],
            nodes_at(root, d)[i],
        )
    &&& forall|d: int| d >= layers.len() ==> (#[trigger] nodes_at(root, d)).len() == 0
    &&& layers.len() > 0 ==> nodes_at(root, layers.len() - 1).len() > 0
}

/// The arrays and objects one level further below a value are those
/// directly inside the arrays and objects at the level before.
pub proof fn lemma_next_level(v: JsonValue, d: int)
    requires
        d >= 0,
    ensures
        nodes_at(v, d + 1) == forest_nodes_at(nodes_at(v, d), 1),
    decreases d, 0int,
{
    if d == 0 {
        if v.is_composite() {
            lemma_single_forest(v, 1);
        } else {
            assert(v.children() =~= Seq::<JsonValue>::empty());
            assert(nodes_at(v, 0) =~= Seq::<JsonValue>::empty());
        }
    } else {
        lemma_forest_next_level(v.children(), d - 1);
    }
}

/// The arrays and objects one level further into a forest are those
/// directly inside the arrays and objects at the level before.
pub proof fn lemma_forest_next_level(f: Seq<JsonValue>, d: int)
    requires
        d >= 0,
    ensures
        forest_nodes_at(f, d + 1) == forest_nodes_at(forest_nodes_at(f, d), 1),
    decreases d, f.len() + 1,
{
    if f.len() == 0 {
        assert(forest_nodes_at(f, d) =~= Seq::<JsonValue>::empty());
    } else {
        lemma_forest_next_level(f.drop_last(), d);
        lemma_next_level(f.last(), d);
        lemma_forest_concat(forest_nodes_at(f.drop_last(), d), nodes_at(f.last(), d), 1);
    }
}

/// A value as it stands in a cell's row: a scalar with its own text, or a
/// reference to a nested array or object drawn in the next layer.
#[derive(Debug)]
pub enum VidereValue {
    /// A number, held as its canonical decimal text.
    Number(NumberText),
    String(String),
    Bool(bool),
    Null,
    Array,
    Object,
}

impl VidereValue {
    /// Whether the value stands for a nested array or object.
    pub open spec fn is_ref(&self) -> bool {
        self is Array || self is Object
    }

    /// The text the value is drawn as.
    pub open spec fn spec_text(&self) -> Seq<char> {
        match self {
            VidereValue::Number(n) => n@,
            VidereValue::String(s) => seq!['"'] + s@ + seq!['"'],
            VidereValue::Bool(b) => if *b {
                seq!['t', 'r', 'u', 'e']
            } else {
                seq!['f', 'a', 'l', 's', 'e']
            },
            VidereValue::Null => seq!['n', 'u', 'l', 'l'],
            VidereValue::Array => seq!['[', ']'],
            VidereValue::Object => seq!['{', '}'],
        }
    }

    /// The columns the value needs: the length of a number's text, the
    /// displayed width of a string plus its two quotes, 4 for `true` and
    /// `null`, 5 for `false`, 2 for a reference.
    pub open spec fn spec_width(&self) -> int {
        match self {
            VidereValue::Number(n) => n@.len() as int,
            VidereValue::String(s) => text_width(s@) as int + 2,
            VidereValue::Bool(b) => if *b {
                4
            } else {
                5
            },
            VidereValue::Null => 4,
            VidereValue::Array => 2,
            VidereValue::Object => 2,
        }
    }

    pub fn is_reference(&self) -> (r: bool)
        ensures
            r == self.is_ref(),
    {
        match self {
            VidereValue::Array => true,
            VidereValue::Object => true,
            _ => false,
        }
    }

    /// Classifies `val` for a row of a cell at layer `layer`. An array or
    /// object is placed in `map` from the next layer on and stands in the
    /// row as a reference; a scalar stands as itself.
    pub fn from_json_val(map: &mut VidereMap, layer: usize, val: &JsonValue) -> (r: Self)
        requires
            layer < usize::MAX,
        ensures
            value_matches(r, *val),
            grows_by(old(map).layers@, final(map).layers@, layer + 1, seq![*val]),
        decreases val,
    {
        match val {
            JsonValue::Null => {
                proof {
                    assert forall|d: int| 0 <= d implies (#[trigger] forest_nodes_at(seq![*val], d)).len() == 0 by {
                        lemma_scalar_nodes(*val, d);
                    }
                    lemma_grows_none(map.layers@, layer + 1, seq![*val]);
                }
                VidereValue::Null
            },
            JsonValue::Bool(b) => {
                proof {
                    assert forall|d: int| 0 <= d implies (#[trigger] forest_nodes_at(seq![*val], d)).len() == 0 by {
                        lemma_scalar_nodes(*val, d);
                    }
                    lemma_grows_none(map.layers@, layer + 1, seq![*val]);
                }
                VidereValue::Bool(*b)
            },
            JsonValue::Number(n) => {
                proof {
                    assert forall|d: int| 0 <= d implies (#[trigger] forest_nodes_at(seq![*val], d)).len() == 0 by {
                        lemma_scalar_nodes(*val, d);
                    }
                    lemma_grows_none(map.layers@, layer + 1, seq![*val]);
                }
                VidereValue::Number(n.duplicate())
            },
            JsonValue::String(t) => {
                proof {
                    assert forall|d: int| 0 <= d implies (#[trigger] forest_nodes_at(seq![*val], d)).len() == 0 by {
                        lemma_scalar_nodes(*val, d);
                    }
                    lemma_grows_none(map.layers@, layer + 1, seq![*val]);
                }
                VidereValue::String(t.clone())
            },
            JsonValue::Array(arr) => {
                map.add_arr_to_layer(layer + 1, arr);
                VidereValue::Array
            },
            JsonValue::Object(obj) => {
                map.add_obj_to_layer(layer + 1, obj);
                VidereValue::Object
            },
        }
    }

    /// The columns the value needs; `None` where that does not fit a `usize`.
    pub fn get_min_width(&self) -> (r: Option<usize>)
        ensures
            r == (if self.spec_width() <= usize::MAX {
                Some(self.spec_width() as usize)
            } else {
                None
            }),
    {
        match self {
            VidereValue::Number(n) => Some(n.as_str().unicode_len()),
            VidereValue::String(s) => str_width(s.as_str()).checked_add(2),
            VidereValue::Bool(b) => if *b {
                Some(4)
            } else {
                Some(5)
            },
            VidereValue::Null => Some(4),
            VidereValue::Array => Some(2),
            VidereValue::Object => Some(2),
        }
    }

    /// The text the value is drawn as.
    pub fn to_text(&self) -> (r: String)
        ensures
            r@ == self.spec_text(),
    {
        match self {
            VidereValue::Number(n) => n.as_str().to_owned(),
            VidereValue::String(s) => {
                let mut r = String::new();
                proof {
                    reveal_strlit("\"");
                    assert("\""@ =~= seq!['"']);
                }
                r.append("\"");
                r.append(s.as_str());
                r.append("\"");
                assert(r@ =~= seq!['"'] + s@ + seq!['"']);
                r
            },
            VidereValue::Bool(b) => if *b {
                proof {
                    reveal_strlit("true");
                }
                let r = "true".to_owned();
                assert(r@ =~= seq!['t', 'r', 'u', 'e']);
                r
            } else {
                proof {
                    reveal_strlit("false");
                }
                let r = "false".to_owned();
                assert(r@ =~= seq!['f', 'a', 'l', 's', 'e']);
                r
            },
            VidereValue::Null => {
                proof {
                    reveal_strlit("null");
                }
                let r = "null".to_owned();
                assert(r@ =~= seq!['n', 'u', 'l', 'l']);
                r
            },
            VidereValue::Array => {
                proof {
                    reveal_strlit("[]");
                }
                let r = "[]".to_owned();
                assert(r@ =~= seq!['[', ']']);
                r
            },
            VidereValue::Object => {
                proof {
                    reveal_strlit("{}");
                }
                let r = "{}".to_owned();
                assert(r@ =~= seq!['{', '}']);
                r
            },
        }
    }
}

} // verus!
