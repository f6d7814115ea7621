use vstd::prelude::*;
use vstd::string::*;

use crate::text::{push_repeat, repeat, spaces, str_width, text_width};
use crate::value::{cell_matches, forest_nodes_at, nodes_at, value_matches, JsonValue, VidereValue};

verus! {

/// The widest key among `entries`, 0 where there is none.
pub open spec fn max_key_width(entries: Seq<(String, VidereValue)>) -> int
    decreases entries.len(),
{
    if entries.len() == 0 {
        0
    } else {
        let prev = max_key_width(entries.drop_last());
        let w = text_width(entries.last().0@) as int;
        if w > prev {
            w
        } else {
            prev
        }
    }
}

/// The widest value among the entries of an object, 0 where there is none.
pub open spec fn max_entry_width(entries: Seq<(String, VidereValue)>) -> int
    decreases entries.len(),
{
    if entries.len() == 0 {
        0
    } else {
        let prev = max_entry_width(entries.drop_last());
        let w = entries.last().1.spec_width();
        if w > prev {
            w
        } else {
            prev
        }
    }
}

/// The widest value among the elements of an array, 0 where there is none.
pub open spec fn max_value_width(values: Seq<VidereValue>) -> int
    decreases values.len(),
{
    if values.len() == 0 {
        0
    } else {
        let prev = max_value_width(values.drop_last());
        let w = values.last().spec_width();
        if w > prev {
            w
        } else {
            prev
        }
    }
}

/// A border row of `width` columns: a corner, the edge with a junction after
/// `cross` edge glyphs where there is a separator, and the other corner.
pub open spec fn spec_border(left: char, right: char, junction: char, width: int, cross: Option<int>) -> Seq<char> {
    seq![left] + match cross {
        Some(c) => repeat(seq!['─'], c) + seq![junction] + repeat(seq!['─'], width - c - 3),
        None => repeat(seq!['─'], width - 2),
    } + seq![right]
}

/// The top border: rounded corners, a down-facing junction above the
/// separator.
pub open spec fn spec_top_row(width: int, cross: Option<int>) -> Seq<char> {
    spec_border('╭', '╮', '┬', width, cross)
}

/// The bottom border: rounded corners, an up-facing junction below the
/// separator.
pub open spec fn spec_bottom_row(width: int, cross: Option<int>) -> Seq<char> {
    spec_border('╰', '╯', '┴', width, cross)
}

/// The right wall of a row: a right-facing junction where the value leads to
/// a nested cell, a plain wall otherwise.
pub open spec fn wall_for(v: VidereValue) -> Seq<char> {
    if v.is_ref() {
        seq!['├']
    } else {
        seq!['│']
    }
}

/// A row of an object cell: the key left-aligned in a key column of
/// `key_col` columns, the separator, and the value right-aligned.
pub open spec fn obj_row(key: Seq<char>, v: VidereValue, key_col: int, width: int) -> Seq<char> {
    seq!['│'] + key + spaces(key_col - text_width(key)) + seq!['│'] + spaces(
        width - v.spec_width() - 3 - key_col,
    ) + v.spec_text() + wall_for(v)
}

/// A row of an array cell: the value right-aligned.
pub open spec fn arr_row(v: VidereValue, width: int) -> Seq<char> {
    seq!['│'] + spaces(width - v.spec_width() - 2) + v.spec_text() + wall_for(v)
}

/// The columns that row `i` of a cell `width` columns wide takes: one for
/// each wall and space, and the displayed widths of its key and value.
pub open spec fn row_columns(c: VidereCell, i: int, width: int) -> int {
    let v = c.value_at(i);
    let pad = spaces(width - v.spec_width() - 3 - c.key_width()).len() as int;
    match c {
        VidereCell::Obj(values) => {
            let key = values@[i].0@;
            1 + text_width(key) + spaces(c.key_width() - text_width(key)).len() + 1 + pad + v.spec_width() + 1
        },
        VidereCell::Arr(_) => 1 + spaces(width - v.spec_width() - 2).len() + v.spec_width() + 1,
    }
}

/// The number of times `ch` occurs in `s`.
pub open spec fn count_char(s: Seq<char>, ch: char) -> nat
    decreases s.len(),
{
    if s.len() == 0 {
        0
    } else {
        count_char(s.drop_last(), ch) + if s.last() == ch {
            1nat
        } else {
            0nat
        }
    }
}

/// One bordered table: an object's entries or an array's elements.
#[derive(Debug)]
pub enum VidereCell {
    Obj(Vec<(String, VidereValue)>),
    Arr(Vec<VidereValue>),
}

impl VidereCell {
    /// The number of entries.
    pub open spec fn len(&self) -> nat {
        match self {
            VidereCell::Obj(values) => values@.len(),
            VidereCell::Arr(values) => values@.len(),
        }
    }

    /// The width of the key column, 0 for an array.
    pub open spec fn key_width(&self) -> int {
        match self {
            VidereCell::Obj(values) => max_key_width(values@),
            VidereCell::Arr(values) => 0,
        }
    }

    /// The width of the value column.
    pub open spec fn value_width(&self) -> int {
        match self {
            VidereCell::Obj(values) => max_entry_width(values@),
            VidereCell::Arr(values) => max_value_width(values@),
        }
    }

    /// The value of entry `i`.
    pub open spec fn value_at(&self, i: int) -> VidereValue {
        match self {
            VidereCell::Obj(values) => values@[i].1,
            VidereCell::Arr(values) => values@[i],
        }
    }

    /// The least width of the cell: the two walls, for an object the widest
    /// key and a separator, and the widest value.
    pub open spec fn spec_min_width(&self) -> int {
        match self {
            VidereCell::Obj(values) => 2 + self.key_width() + 1 + self.value_width(),
            VidereCell::Arr(values) => 2 + self.value_width(),
        }
    }

    /// The height of the cell: two borders and a row per entry.
    pub open spec fn spec_height(&self) -> int {
        2 + self.len() as int
    }

    /// The column of the separator's junction in the borders, counted after
    /// the corner: the key column's width, for an object only.
    pub open spec fn cross(&self) -> Option<int> {
        match self {
            VidereCell::Obj(_) => Some(self.key_width()),
            VidereCell::Arr(_) => None,
        }
    }

    /// The row drawn for entry `i` in a cell of `width` columns.
    pub open spec fn spec_row(&self, i: int, width: int) -> Seq<char> {
        match self {
            VidereCell::Obj(values) => obj_row(values@[i].0@, values@[i].1, self.key_width(), width),
            VidereCell::Arr(values) => arr_row(values@[i], width),
        }
    }

    /// All rows of the cell drawn `width` columns wide, borders included.
    pub open spec fn spec_rows(&self, width: int) -> Seq<Seq<char>> {
        seq![spec_top_row(width, self.cross())] + Seq::new(self.len(), |i: int| self.spec_row(i, width))
            + seq![spec_bottom_row(width, self.cross())]
    }

    /// The rows among the first `n` entries whose value leads to a nested
    /// cell, counted from `offset` for the top border.
    pub open spec fn ref_rows(&self, n: int, offset: int) -> Seq<usize>
        decreases n,
    {
        if n <= 0 {
            seq![]
        } else {
            self.ref_rows(n - 1, offset) + if self.value_at(n - 1).is_ref() {
                seq![(offset + n) as usize]
            } else {
                seq![]
            }
        }
    }

    /// The height of the cell; `None` where it does not fit a `usize`.
    pub fn get_height(&self) -> (r: Option<usize>)
        ensures
            r == (if self.spec_height() <= usize::MAX {
                Some(self.spec_height() as usize)
            } else {
                None
            }),
    {
        match self {
            VidereCell::Obj(values) => values.len().checked_add(WALLS_WIDTH),
            VidereCell::Arr(values) => values.len().checked_add(WALLS_WIDTH),
        }
    }

    /// The top border of a cell `width` columns wide.
    pub fn get_top_row(width: usize, cross: Option<usize>) -> (r: String)
        requires
            match cross {
                Some(c) => c + 3 <= width,
                None => width >= 2,
            },
        ensures
            r@ == spec_top_row(width as int, match cross {
                Some(c) => Some(c as int),
                None => None,
            }),
    {
        proof {
            reveal_strlit("╭");
            reveal_strlit("╮");
            reveal_strlit("┬");
            assert("╭"@ =~= seq!['╭']);
            assert("╮"@ =~= seq!['╮']);
            assert("┬"@ =~= seq!['┬']);
        }
        border_row("╭", "╮", "┬", width, cross)
    }

    /// The bottom border of a cell `width` columns wide.
    pub fn get_bottom_row(width: usize, cross: Option<usize>) -> (r: String)
        requires
            match cross {
                Some(c) => c + 3 <= width,
                None => width >= 2,
            },
        ensures
            r@ == spec_bottom_row(width as int, match cross {
                Some(c) => Some(c as int),
                None => None,
            }),
    {
        proof {
            reveal_strlit("╰");
            reveal_strlit("╯");
            reveal_strlit("┴");
            assert("╰"@ =~= seq!['╰']);
            assert("╯"@ =~= seq!['╯']);
            assert("┴"@ =~= seq!['┴']);
        }
        border_row("╰", "╯", "┴", width, cross)
    }

    /// Draws the cell `width` columns wide: its rows, borders included, and
    /// the rows (counted from `from_offset` for the top border) whose value
    /// leads to a nested cell, top to bottom.
    pub fn get_rows(&self, width: usize, from_offset: usize) -> (r: (Vec<String>, Vec<usize>))
        requires
            width >= self.spec_min_width(),
            from_offset + self.spec_height() <= usize::MAX,
        ensures
            r.0@.len() == self.spec_height(),
            forall|j: int| 0 <= j < r.0@.len() ==> (#[trigger] r.0@[j])@ == self.spec_rows(width as int)[j],
            r.1@ == self.ref_rows(self.len() as int, from_offset as int),
            r.0@[0]@.len() == width,
            r.0@[self.len() as int + 1]@.len() == width,
            forall|i: int| 0 <= i < self.len() ==> #[trigger] row_columns(*self, i, width as int) == width,
            count_char(r.0@[0]@, '┬') == if *self is Obj {
                1nat
            } else {
                0nat
            },
            count_char(r.0@[self.len() as int + 1]@, '┴') == if *self is Obj {
                1nat
            } else {
                0nat
            },
    {
        proof {
            lemma_rows_width(*self, width as int);
            lemma_border_shape(*self, width as int);
        }
        let mut rows: Vec<String> = Vec::new();
        let mut from: Vec<usize> = Vec::new();
        let ghost all = self.spec_rows(width as int);
        proof {
            reveal_strlit("│");
            reveal_strlit("├");
            assert("│"@ =~= seq!['│']);
            assert("├"@ =~= seq!['├']);
        }
        match self {
            VidereCell::Obj(values) => {
                let min_key_width = key_column_width(values);
                proof {
                    lemma_key_width_nonneg(values@);
                }
                rows.push(Self::get_top_row(width, Some(min_key_width)));
                let mut i: usize = 0;
                while i < values.len()
                    invariant
                        i <= values.len(),
                        *self == VidereCell::Obj(*values),
                        all == self.spec_rows(width as int),
                        min_key_width == self.key_width(),
                        width >= self.spec_min_width(),
                        from_offset + self.spec_height() <= usize::MAX,
                        rows.len() == i + 1,
                        forall|j: int| 0 <= j < rows@.len() ==> (#[trigger] rows@[j])@ == all[j],
                        from@ == self.ref_rows(i as int, from_offset as int),
                        "│"@ == seq!['│'],
                        "├"@ == seq!['├'],
                    decreases values.len() - i,
                {
                    let key = &values[i].0;
                    let val = &values[i].1;
                    let is_ref = val.is_reference();
                    if is_ref {
                        from.push(rows.len() + from_offset);
                    }
                    proof {
                        lemma_key_width_bound(values@, i as int);
                        lemma_entry_width_bound(values@, i as int);
                    }
                    let kw = str_width(key.as_str());
                    let vw = match val.get_min_width() {
                        Some(w) => w,
                        None => 0,
                    };
                    let mut row = String::new();
                    row.append("│");
                    row.append(key.as_str());
                    push_repeat(&mut row, " ", min_key_width - kw);
                    row.append("│");
                    push_repeat(&mut row, " ", width - vw - WALLS_WIDTH - min_key_width - 1);
                    row.append(val.to_text().as_str());
                    if is_ref {
                        row.append("├");
                    } else {
                        row.append("│");
                    }
                    proof {
                        reveal_strlit(" ");
                        assert(" "@ =~= seq![' ']);
                        assert(row@ =~= obj_row(key@, *val, min_key_width as int, width as int));
                        assert(all[i + 1] == self.spec_row(i as int, width as int));
                    }
                    rows.push(row);
                    i = i + 1;
                }
                rows.push(Self::get_bottom_row(width, Some(min_key_width)));
            },
            VidereCell::Arr(values) => {
                rows.push(Self::get_top_row(width, None));
                let mut i: usize = 0;
                while i < values.len()
                    invariant
                        i <= values.len(),
                        *self == VidereCell::Arr(*values),
                        all == self.spec_rows(width as int),
                        width >= self.spec_min_width(),
                        from_offset + self.spec_height() <= usize::MAX,
                        rows.len() == i + 1,
                        forall|j: int| 0 <= j < rows@.len() ==> (#[trigger] rows@[j])@ == all[j],
                        from@ == self.ref_rows(i as int, from_offset as int),
                        "│"@ == seq!['│'],
                        "├"@ == seq!['├'],
                    decreases values.len() - i,
                {
                    let val = &values[i];
                    let is_ref = val.is_reference();
                    if is_ref {
                        from.push(rows.len() + from_offset);
                    }
                    proof {
                        lemma_value_width_bound(values@, i as int);
                    }
                    let vw = match val.get_min_width() {
                        Some(w) => w,
                        None => 0,
                    };
                    let mut row = String::new();
                    row.append("│");
                    push_repeat(&mut row, " ", width - vw - WALLS_WIDTH);
                    row.append(val.to_text().as_str());
                    if is_ref {
                        row.append("├");
                    } else {
                        row.append("│");
                    }
                    proof {
                        reveal_strlit(" ");
                        assert(" "@ =~= seq![' ']);
                        assert(row@ =~= arr_row(*val, width as int));
                        assert(all[i + 1] == self.spec_row(i as int, width as int));
                    }
                    rows.push(row);
                    i = i + 1;
                }
                rows.push(Self::get_bottom_row(width, None));
            },
        }
        (rows, from)
    }

    /// The least width of the cell; `None` where it does not fit a `usize`.
    pub fn get_min_width(&self) -> (r: Option<usize>)
        ensures
            r == (if self.spec_min_width() <= usize::MAX {
                Some(self.spec_min_width() as usize)
            } else {
                None
            }),
    {
        match self {
            VidereCell::Obj(values) => {
                let mut kw: usize = 0;
                let mut vw: usize = 0;
                let mut i: usize = 0;
                while i < values.len()
                    invariant
                        i <= values.len(),
                        kw == max_key_width(values@.take(i as int)),
                        vw == max_entry_width(values@.take(i as int)),
                        self.spec_min_width() == 3 + max_key_width(values@) + max_entry_width(values@),
                    decreases values.len() - i,
                {
                    let ghost t = values@.take(i as int + 1);
                    assert(t.drop_last() =~= values@.take(i as int));
                    let k = str_width(values[i].0.as_str());
                    if k > kw {
                        kw = k;
                    }
                    match values[i].1.get_min_width() {
                        Some(w) => {
                            if w > vw {
                                vw = w;
                            }
                        },
                        None => {
                            proof {
                                lemma_entry_width_bound(values@, i as int);
                                lemma_key_width_nonneg(values@);
                            }
                            return None;
                        },
                    }
                    i = i + 1;
                }
                assert(values@.take(values.len() as int) =~= values@);
                match kw.checked_add(vw) {
                    Some(s) => s.checked_add(WALLS_WIDTH + 1),
                    None => None,
                }
            },
            VidereCell::Arr(values) => {
                let mut vw: usize = 0;
                let mut i: usize = 0;
                while i < values.len()
                    invariant
                        i <= values.len(),
                        vw == max_value_width(values@.take(i as int)),
                        self.spec_min_width() == 2 + max_value_width(values@),
                    decreases values.len() - i,
                {
                    let ghost t = values@.take(i as int + 1);
                    assert(t.drop_last() =~= values@.take(i as int));
                    match values[i].get_min_width() {
                        Some(w) => {
                            if w > vw {
                                vw = w;
                            }
                        },
                        None => {
                            proof {
                                lemma_value_width_bound(values@, i as int);
                            }
                            return None;
                        },
                    }
                    i = i + 1;
                }
                assert(values@.take(values.len() as int) =~= values@);
                vw.checked_add(WALLS_WIDTH)
            },
        }
    }
}

pub const WALLS_WIDTH: usize = 2;

fn border_row(left: &str, right: &str, junction: &str, width: usize, cross: Option<usize>) -> (r: String)
    requires
        left@.len() == 1,
        right@.len() == 1,
        junction@.len() == 1,
        match cross {
            Some(c) => c + 3 <= width,
            None => width >= 2,
        },
    ensures
        r@ == spec_border(left@[0], right@[0], junction@[0], width as int, match cross {
            Some(c) => Some(c as int),
            None => None,
        }),
{
    proof {
        reveal_strlit("─");
        assert("─"@ =~= seq!['─']);
        assert(left@ =~= seq![left@[0]]);
        assert(right@ =~= seq![right@[0]]);
        assert(junction@ =~= seq![junction@[0]]);
    }
    let mut row = String::new();
    row.append(left);
    match cross {
        Some(c) => {
            push_repeat(&mut row, "─", c);
            row.append(junction);
            push_repeat(&mut row, "─", width - c - 3);
        },
        None => {
            push_repeat(&mut row, "─", width - 2);
        },
    }
    row.append(right);
    proof {
        let ghost mid = match cross {
            Some(c) => repeat(seq!['─'], c as int) + seq![junction@[0]] + repeat(seq!['─'], width - c - 3),
            None => repeat(seq!['─'], width - 2),
        };
        assert(row@ =~= seq![left@[0]] + mid + seq![right@[0]]);
    }
    row
}

/// The width of the key column of an object's entries.
fn key_column_width(values: &Vec<(String, VidereValue)>) -> (r: usize)
    ensures
        r == max_key_width(values@),
{
    let mut kw: usize = 0;
    let mut i: usize = 0;
    while i < values.len()
        invariant
            i <= values.len(),
            kw == max_key_width(values@.take(i as int)),
        decreases values.len() - i,
    {
        assert(values@.take(i as int + 1).drop_last() =~= values@.take(i as int));
        let k = str_width(values[i].0.as_str());
        if k > kw {
            kw = k;
        }
        i = i + 1;
    }
    assert(values@.take(values.len() as int) =~= values@);
    kw
}

/// Each key fits the key column.
pub proof fn lemma_key_width_bound(entries: Seq<(String, VidereValue)>, i: int)
    requires
        0 <= i < entries.len(),
    ensures
        max_key_width(entries) >= text_width(entries[i].0@),
    decreases entries.len(),
{
    if i < entries.len() - 1 {
        lemma_key_width_bound(entries.drop_last(), i);
    }
}

/// The widest value of an object is at least as wide as each of its values.
pub proof fn lemma_entry_width_bound(entries: Seq<(String, VidereValue)>, i: int)
    requires
        0 <= i < entries.len(),
    ensures
        max_entry_width(entries) >= entries[i].1.spec_width(),
        max_entry_width(entries) >= 0,
    decreases entries.len(),
{
    if i < entries.len() - 1 {
        lemma_entry_width_bound(entries.drop_last(), i);
    }
}

/// The key column is never of negative width.
pub proof fn lemma_key_width_nonneg(entries: Seq<(String, VidereValue)>)
    ensures
        max_key_width(entries) >= 0,
    decreases entries.len(),
{
    if entries.len() > 0 {
        lemma_key_width_nonneg(entries.drop_last());
    }
}

pub proof fn lemma_entry_width_nonneg(entries: Seq<(String, VidereValue)>)
    ensures
        max_entry_width(entries) >= 0,
    decreases entries.len(),
{
    if entries.len() > 0 {
        lemma_entry_width_nonneg(entries.drop_last());
    }
}

pub proof fn lemma_value_width_nonneg(values: Seq<VidereValue>)
    ensures
        max_value_width(values) >= 0,
    decreases values.len(),
{
    if values.len() > 0 {
        lemma_value_width_nonneg(values.drop_last());
    }
}

/// The widest value of an array is at least as wide as each of its values.
pub proof fn lemma_value_width_bound(values: Seq<VidereValue>, i: int)
    requires
        0 <= i < values.len(),
    ensures
        max_value_width(values) >= values[i].spec_width(),
        max_value_width(values) >= 0,
    decreases values.len(),
{
    if i < values.len() - 1 {
        lemma_value_width_bound(values.drop_last(), i);
    }
}

pub proof fn lemma_count_concat(a: Seq<char>, b: Seq<char>, ch: char)
    ensures
        count_char(a + b, ch) == count_char(a, ch) + count_char(b, ch),
    decreases b.len(),
{
    if b.len() == 0 {
        assert(a + b =~= a);
    } else {
        assert((a + b).drop_last() =~= a + b.drop_last());
        lemma_count_concat(a, b.drop_last(), ch);
    }
}

pub proof fn lemma_repeat_len(x: char, n: int)
    requires
        n >= 0,
    ensures
        repeat(seq![x], n).len() == n,
    decreases n,
{
    if n > 0 {
        lemma_repeat_len(x, n - 1);
        assert(repeat(seq![x], n) == repeat(seq![x], n - 1) + seq![x]);
    }
}

pub proof fn lemma_count_single(x: char, ch: char)
    ensures
        count_char(seq![x], ch) == if x == ch {
            1nat
        } else {
            0nat
        },
{
    assert(seq![x].drop_last() =~= Seq::<char>::empty());
    assert(seq![x].last() == x);
    assert(count_char(Seq::<char>::empty(), ch) == 0);
}

pub proof fn lemma_count_repeat(x: char, n: int, ch: char)
    requires
        x != ch,
    ensures
        count_char(repeat(seq![x], n), ch) == 0,
    decreases n,
{
    if n > 0 {
        lemma_count_repeat(x, n - 1, ch);
        assert(repeat(seq![x], n) == repeat(seq![x], n - 1) + seq![x]);
        lemma_count_concat(repeat(seq![x], n - 1), seq![x], ch);
        lemma_count_single(x, ch);
    } else {
        assert(repeat(seq![x], n) == Seq::<char>::empty());
    }
}

/// Every row of a cell drawn `width` columns wide, at least as wide as the
/// cell needs, takes `width` columns: the borders are `width` box glyphs,
/// and each entry's row is its walls, its key and value, and the spaces
/// that pad them.
pub proof fn lemma_rows_width(c: VidereCell, width: int)
    requires
        width >= c.spec_min_width(),
    ensures
        c.spec_rows(width).len() == c.len() + 2,
        c.spec_rows(width)[0].len() == width,
        c.spec_rows(width)[c.len() as int + 1].len() == width,
        forall|i: int| 0 <= i < c.len() ==> #[trigger] row_columns(c, i, width) == width,
{
    let rows = c.spec_rows(width);
    assert(rows[0] == spec_top_row(width, c.cross()));
    assert(rows[c.len() as int + 1] == spec_bottom_row(width, c.cross()));
    match c {
        VidereCell::Obj(values) => {
            let k = c.key_width();
            lemma_key_width_nonneg(values@);
            lemma_entry_width_nonneg(values@);
            lemma_repeat_len('─', k);
            lemma_repeat_len('─', width - k - 3);
            assert forall|i: int| 0 <= i < c.len() implies #[trigger] row_columns(c, i, width) == width by {
                let v = c.value_at(i);
                lemma_key_width_bound(values@, i);
                lemma_entry_width_bound(values@, i);
                let key = values@[i].0@;
                lemma_repeat_len(' ', k - text_width(key));
                lemma_repeat_len(' ', width - v.spec_width() - 3 - k);
            }
        },
        VidereCell::Arr(values) => {
            lemma_value_width_nonneg(values@);
            lemma_repeat_len('─', width - 2);
            assert forall|i: int| 0 <= i < c.len() implies #[trigger] row_columns(c, i, width) == width by {
                let v = c.value_at(i);
                lemma_value_width_bound(values@, i);
                lemma_repeat_len(' ', width - v.spec_width() - 2);
            }
        },
    }
}

/// The top border of an object's cell has exactly one down-facing junction,
/// that of an array's none; the rows between the borders are one per entry.
pub proof fn lemma_border_shape(c: VidereCell, width: int)
    requires
        width >= c.spec_min_width(),
    ensures
        count_char(c.spec_rows(width)[0], '┬') == if c is Obj {
            1nat
        } else {
            0nat
        },
        count_char(c.spec_rows(width)[c.len() as int + 1], '┴') == if c is Obj {
            1nat
        } else {
            0nat
        },
        c.spec_rows(width).len() - 2 == c.len(),
{
    assert(c.spec_rows(width)[0] == spec_top_row(width, c.cross()));
    assert(c.spec_rows(width)[c.len() as int + 1] == spec_bottom_row(width, c.cross()));
    lemma_border_junctions('╭', '╮', '┬', width, c.cross());
    lemma_border_junctions('╰', '╯', '┴', width, c.cross());
}

/// A border holds its junction once where it has a separator, else never.
pub proof fn lemma_border_junctions(left: char, right: char, junction: char, width: int, cross: Option<int>)
    requires
        left != junction,
        right != junction,
        junction != '─',
    ensures
        count_char(spec_border(left, right, junction, width, cross), junction) == if cross is Some {
            1nat
        } else {
            0nat
        },
{
    let row = spec_border(left, right, junction, width, cross);
    lemma_count_single(left, junction);
    lemma_count_single(right, junction);
    match cross {
        Some(k) => {
            let a = repeat(seq!['─'], k);
            let b = repeat(seq!['─'], width - k - 3);
            lemma_count_single(junction, junction);
            lemma_count_repeat('─', k, junction);
            lemma_count_repeat('─', width - k - 3, junction);
            lemma_count_concat(seq![left], a, junction);
            lemma_count_concat(seq![left] + a, seq![junction], junction);
            lemma_count_concat(seq![left] + a + seq![junction], b, junction);
            lemma_count_concat(seq![left] + a + seq![junction] + b, seq![right], junction);
            assert(row =~= seq![left] + a + seq![junction] + b + seq![right]);
        },
        None => {
            let a = repeat(seq!['─'], width - 2);
            lemma_count_repeat('─', width - 2, junction);
            lemma_count_concat(seq![left], a, junction);
            lemma_count_concat(seq![left] + a, seq![right], junction);
            assert(row =~= seq![left] + a + seq![right]);
        },
    }
}

/// A text without `ch` counts no `ch`.
pub proof fn lemma_count_absent(s: Seq<char>, ch: char)
    requires
        forall|i: int| 0 <= i < s.len() ==> s[i] != ch,
    ensures
        count_char(s, ch) == 0,
    decreases s.len(),
{
    if s.len() > 0 {
        lemma_count_absent(s.drop_last(), ch);
    }
}

/// A value whose own text holds no line break.
pub open spec fn value_single_line(v: VidereValue) -> bool {
    match v {
        VidereValue::Number(n) => count_char(n@, '\n') == 0,
        VidereValue::String(t) => count_char(t@, '\n') == 0,
        _ => true,
    }
}

/// A cell whose keys and values hold no line break.
pub open spec fn cell_single_line(c: VidereCell) -> bool {
    match c {
        VidereCell::Obj(es) => forall|i: int|
            0 <= i < es@.len() ==> count_char((#[trigger] es@[i]).0@, '\n') == 0 && value_single_line(es@[i].1),
        VidereCell::Arr(vs) => forall|i: int| 0 <= i < vs@.len() ==> value_single_line(#[trigger] vs@[i]),
    }
}

pub proof fn lemma_text_single_line(v: VidereValue)
    requires
        value_single_line(v),
    ensures
        count_char(v.spec_text(), '\n') == 0,
        count_char(wall_for(v), '\n') == 0,
{
    lemma_count_absent(wall_for(v), '\n');
    match v {
        VidereValue::String(t) => {
            lemma_count_single('"', '\n');
            lemma_count_concat(seq!['"'], t@, '\n');
            lemma_count_concat(seq!['"'] + t@, seq!['"'], '\n');
        },
        VidereValue::Number(_) => {},
        _ => {
            lemma_count_absent(v.spec_text(), '\n');
        },
    }
}

pub proof fn lemma_border_single_line(left: char, right: char, junction: char, width: int, cross: Option<int>)
    requires
        left != '\n',
        right != '\n',
        junction != '\n',
    ensures
        count_char(spec_border(left, right, junction, width, cross), '\n') == 0,
{
    let row = spec_border(left, right, junction, width, cross);
    lemma_count_single(left, '\n');
    lemma_count_single(right, '\n');
    match cross {
        Some(k) => {
            let a = repeat(seq!['─'], k);
            let b = repeat(seq!['─'], width - k - 3);
            lemma_count_single(junction, '\n');
            lemma_count_repeat('─', k, '\n');
            lemma_count_repeat('─', width - k - 3, '\n');
            lemma_count_concat(seq![left], a, '\n');
            lemma_count_concat(seq![left] + a, seq![junction], '\n');
            lemma_count_concat(seq![left] + a + seq![junction], b, '\n');
            lemma_count_concat(seq![left] + a + seq![junction] + b, seq![right], '\n');
            assert(row =~= seq![left] + a + seq![junction] + b + seq![right]);
        },
        None => {
            let a = repeat(seq!['─'], width - 2);
            lemma_count_repeat('─', width - 2, '\n');
            lemma_count_concat(seq![left], a, '\n');
            lemma_count_concat(seq![left] + a, seq![right], '\n');
            assert(row =~= seq![left] + a + seq![right]);
        },
    }
}

/// The rows of a cell whose keys and values hold no line break hold none.
pub proof fn lemma_rows_single_line(c: VidereCell, width: int)
    requires
        cell_single_line(c),
    ensures
        forall|j: int| 0 <= j < c.spec_rows(width).len() ==> count_char(#[trigger] c.spec_rows(width)[j], '\n') == 0,
{
    let rows = c.spec_rows(width);
    lemma_border_single_line('╭', '╮', '┬', width, c.cross());
    lemma_border_single_line('╰', '╯', '┴', width, c.cross());
    assert(rows[0] == spec_top_row(width, c.cross()));
    assert(rows[c.len() as int + 1] == spec_bottom_row(width, c.cross()));
    lemma_count_single('│', '\n');
    assert forall|j: int| 0 <= j < rows.len() implies count_char(#[trigger] rows[j], '\n') == 0 by {
        if 1 <= j <= c.len() {
            let i = j - 1;
            assert(rows[j] == c.spec_row(i, width));
            let v = c.value_at(i);
            match c {
                VidereCell::Obj(es) => {
                    assert(count_char(es@[i].0@, '\n') == 0 && value_single_line(es@[i].1));
                    lemma_text_single_line(v);
                    let key = es@[i].0@;
                    let p1 = spaces(c.key_width() - text_width(key));
                    let p2 = spaces(width - v.spec_width() - 3 - c.key_width());
                    lemma_count_repeat(' ', c.key_width() - text_width(key), '\n');
                    lemma_count_repeat(' ', width - v.spec_width() - 3 - c.key_width(), '\n');
                    lemma_count_concat(seq!['│'], key, '\n');
                    lemma_count_concat(seq!['│'] + key, p1, '\n');
                    lemma_count_concat(seq!['│'] + key + p1, seq!['│'], '\n');
                    lemma_count_concat(seq!['│'] + key + p1 + seq!['│'], p2, '\n');
                    lemma_count_concat(seq!['│'] + key + p1 + seq!['│'] + p2, v.spec_text(), '\n');
                    lemma_count_concat(seq!['│'] + key + p1 + seq!['│'] + p2 + v.spec_text(), wall_for(v), '\n');
                },
                VidereCell::Arr(vs) => {
                    assert(value_single_line(vs@[i]));
                    lemma_text_single_line(v);
                    let p = spaces(width - v.spec_width() - 2);
                    lemma_count_repeat(' ', width - v.spec_width() - 2, '\n');
                    lemma_count_concat(seq!['│'], p, '\n');
                    lemma_count_concat(seq!['│'] + p, v.spec_text(), '\n');
                    lemma_count_concat(seq!['│'] + p + v.spec_text(), wall_for(v), '\n');
                },
            }
        }
    }
}

/// A cell drawn for `v` has a "from" row for each array or object among the
/// first `n` values directly inside `v`.
pub proof fn lemma_cell_refs(c: VidereCell, v: JsonValue, n: int, offset: int)
    requires
        cell_matches(c, v),
        0 <= n <= c.len(),
    ensures
        c.ref_rows(n, offset).len() == forest_nodes_at(v.children().take(n), 0).len(),
    decreases n,
{
    let kids = v.children();
    if n == 0 {
        assert(kids.take(0) =~= Seq::<JsonValue>::empty());
    } else {
        lemma_cell_refs(c, v, n - 1, offset);
        assert(kids.take(n).drop_last() =~= kids.take(n - 1));
        assert(kids.take(n).last() == kids[n - 1]);
        assert(c.value_at(n - 1).is_ref() == kids[n - 1].is_composite());
        assert(forest_nodes_at(kids.take(n), 0) == forest_nodes_at(kids.take(n - 1), 0) + nodes_at(kids[n - 1], 0));
        assert(nodes_at(kids[n - 1], 0).len() == if kids[n - 1].is_composite() { 1int } else { 0int });
    }
}

/// Two values that stand for the same tree value are drawn alike.
pub proof fn lemma_values_alike(a: VidereValue, b: VidereValue, v: JsonValue)
    requires
        value_matches(a, v),
        value_matches(b, v),
    ensures
        a.spec_width() == b.spec_width(),
        a.spec_text() == b.spec_text(),
        a.is_ref() == b.is_ref(),
{
}

/// Two object cells drawn for the same entries have the same column widths.
pub proof fn lemma_entries_alike(e1: Seq<(String, VidereValue)>, e2: Seq<(String, VidereValue)>, o: Seq<(String, JsonValue)>)
    requires
        e1.len() == o.len(),
        e2.len() == o.len(),
        forall|i: int| 0 <= i < o.len() ==> (#[trigger] e1[i]).0@ == o[i].0@ && value_matches(e1[i].1, o[i].1),
        forall|i: int| 0 <= i < o.len() ==> (#[trigger] e2[i]).0@ == o[i].0@ && value_matches(e2[i].1, o[i].1),
    ensures
        max_key_width(e1) == max_key_width(e2),
        max_entry_width(e1) == max_entry_width(e2),
    decreases o.len(),
{
    if o.len() > 0 {
        let n = o.len() - 1;
        assert(e1[n].0@ == o[n].0@ && value_matches(e1[n].1, o[n].1));
        assert(e2[n].0@ == o[n].0@ && value_matches(e2[n].1, o[n].1));
        lemma_values_alike(e1[n].1, e2[n].1, o[n].1);
        assert forall|i: int| 0 <= i < n implies (#[trigger] e1.drop_last()[i]).0@ == o.drop_last()[i].0@
            && value_matches(e1.drop_last()[i].1, o.drop_last()[i].1) by {
            assert(e1[i].0@ == o[i].0@ && value_matches(e1[i].1, o[i].1));
        }
        assert forall|i: int| 0 <= i < n implies (#[trigger] e2.drop_last()[i]).0@ == o.drop_last()[i].0@
            && value_matches(e2.drop_last()[i].1, o.drop_last()[i].1) by {
            assert(e2[i].0@ == o[i].0@ && value_matches(e2[i].1, o[i].1));
        }
        lemma_entries_alike(e1.drop_last(), e2.drop_last(), o.drop_last());
    }
}

/// Two array cells drawn for the same elements have the same value width.
pub proof fn lemma_elements_alike(v1: Seq<VidereValue>, v2: Seq<VidereValue>, a: Seq<JsonValue>)
    requires
        v1.len() == a.len(),
        v2.len() == a.len(),
        forall|i: int| 0 <= i < a.len() ==> value_matches(#[trigger] v1[i], a[i]),
        forall|i: int| 0 <= i < a.len() ==> value_matches(#[trigger] v2[i], a[i]),
    ensures
        max_value_width(v1) == max_value_width(v2),
    decreases a.len(),
{
    if a.len() > 0 {
        let n = a.len() - 1;
        assert(value_matches(v1[n], a[n]));
        assert(value_matches(v2[n], a[n]));
        lemma_values_alike(v1[n], v2[n], a[n]);
        assert forall|i: int| 0 <= i < n implies value_matches(#[trigger] v1.drop_last()[i], a.drop_last()[i]) by {
            assert(value_matches(v1[i], a[i]));
        }
        assert forall|i: int| 0 <= i < n implies value_matches(#[trigger] v2.drop_last()[i], a.drop_last()[i]) by {
            assert(value_matches(v2[i], a[i]));
        }
        lemma_elements_alike(v1.drop_last(), v2.drop_last(), a.drop_last());
    }
}

/// Two cells drawn for the same array or object have the same size, rows
/// and "from" rows.
pub proof fn lemma_cells_alike(c1: VidereCell, c2: VidereCell, v: JsonValue)
    requires
        cell_matches(c1, v),
        cell_matches(c2, v),
    ensures
        c1.len() == c2.len(),
        c1.spec_min_width() == c2.spec_min_width(),
        c1.spec_height() == c2.spec_height(),
        forall|w: int| #[trigger] c1.spec_rows(w) == c2.spec_rows(w),
        forall|n: int, off: int| 0 <= n <= c1.len() ==> #[trigger] c1.ref_rows(n, off) == c2.ref_rows(n, off),
{
    match (c1, c2, v) {
        (VidereCell::Obj(e1), VidereCell::Obj(e2), JsonValue::Object(o)) => {
            lemma_entries_alike(e1@, e2@, o@);
        },
        (VidereCell::Arr(v1), VidereCell::Arr(v2), JsonValue::Array(a)) => {
            lemma_elements_alike(v1@, v2@, a@);
        },
        _ => {},
    }
    assert forall|i: int| 0 <= i < c1.len() implies c1.value_at(i).spec_width() == c2.value_at(i).spec_width()
        && c1.value_at(i).spec_text() == c2.value_at(i).spec_text() && c1.value_at(i).is_ref() == c2.value_at(
        i,
    ).is_ref() by {
        match (c1, c2, v) {
            (VidereCell::Obj(e1), VidereCell::Obj(e2), JsonValue::Object(o)) => {
                assert(e1@[i].0@ == o@[i].0@ && value_matches(e1@[i].1, o@[i].1));
                assert(e2@[i].0@ == o@[i].0@ && value_matches(e2@[i].1, o@[i].1));
                lemma_values_alike(e1@[i].1, e2@[i].1, o@[i].1);
            },
            (VidereCell::Arr(v1), VidereCell::Arr(v2), JsonValue::Array(a)) => {
                assert(value_matches(v1@[i], a@[i]));
                assert(value_matches(v2@[i], a@[i]));
                lemma_values_alike(v1@[i], v2@[i], a@[i]);
            },
            _ => {},
        }
    }
    assert forall|w: int| #[trigger] c1.spec_rows(w) == c2.spec_rows(w) by {
        assert forall|i: int| 0 <= i < c1.len() implies c1.spec_row(i, w) == c2.spec_row(i, w) by {
            match (c1, c2, v) {
                (VidereCell::Obj(e1), VidereCell::Obj(e2), JsonValue::Object(o)) => {
                    assert(e1@[i].0@ == o@[i].0@);
                    assert(e2@[i].0@ == o@[i].0@);
                },
                _ => {},
            }
        }
        assert(Seq::new(c1.len(), |i: int| c1.spec_row(i, w)) =~= Seq::new(c2.len(), |i: int| c2.spec_row(i, w)));
    }
    assert forall|n: int, off: int| 0 <= n <= c1.len() implies #[trigger] c1.ref_rows(n, off) == c2.ref_rows(n, off) by {
        lemma_ref_rows_alike(c1, c2, n, off);
    }
}

pub proof fn lemma_ref_rows_alike(c1: VidereCell, c2: VidereCell, n: int, off: int)
    requires
        0 <= n <= c1.len(),
        forall|i: int| 0 <= i < c1.len() ==> c1.value_at(i).is_ref() == c2.value_at(i).is_ref(),
    ensures
        c1.ref_rows(n, off) == c2.ref_rows(n, off),
    decreases n,
{
    if n > 0 {
        lemma_ref_rows_alike(c1, c2, n - 1, off);
    }
}

/// The "from" rows of a cell's first `n` entries lie below its top border
/// and above its bottom border.
pub proof fn lemma_ref_rows_in_cell(c: VidereCell, n: int, offset: int)
    requires
        0 <= n <= c.len(),
        0 <= offset,
        offset + c.spec_height() <= usize::MAX,
    ensures
        forall|i: int| 0 <= i < c.ref_rows(n, offset).len() ==> offset < #[trigger] c.ref_rows(n, offset)[i] < offset + c.spec_height() - 1,
    decreases n,
{
    if n > 0 {
        lemma_ref_rows_in_cell(c, n - 1, offset);
        let prev = c.ref_rows(n - 1, offset);
        let tail: Seq<usize> = if c.value_at(n - 1).is_ref() {
            seq![(offset + n) as usize]
        } else {
            seq![]
        };
        assert(c.ref_rows(n, offset) == prev + tail);
        assert forall|i: int| 0 <= i < c.ref_rows(n, offset).len() implies offset < #[trigger] c.ref_rows(n, offset)[i]
            < offset + c.spec_height() - 1 by {
            if i < prev.len() {
                assert(c.ref_rows(n, offset)[i] == prev[i]);
            } else {
                assert(c.ref_rows(n, offset)[i] == tail[i - prev.len()]);
            }
        }
    }
}

} // verus!
