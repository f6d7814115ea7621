use videre::{Display, Glyph, JsonValue, LayerConnector, NumberText, VidereCell, VidereLayer, VidereMap, VidereValue};

fn number(s: &str) -> NumberText {
    NumberText::new(s.to_string()).unwrap()
}

fn num(s: &str) -> JsonValue {
    JsonValue::Number(number(s))
}

fn entry(k: &str, v: JsonValue) -> (String, JsonValue) {
    (k.to_string(), v)
}

fn lines(rows: &[&str]) -> String {
    let mut out = String::new();
    for r in rows {
        out.push_str(r);
        out.push('\n');
    }
    out
}

#[test]
fn nested_object_scenario() {
    let obj = vec![
        entry("a", num("1")),
        entry("b", JsonValue::Object(vec![entry("c", num("2"))])),
    ];
    let map = VidereMap::from_json_obj(&obj);
    assert_eq!(map.layers.len(), 2);
    assert_eq!(map.layers[0].cells.len(), 1);
    assert_eq!(map.layers[1].cells.len(), 1);
    let text = map.as_table_string().unwrap();
    let expected = lines(&[
        "╭─┬──╮╭╭─┬─╮",
        "│a│ 1│││c│2│",
        "│b│{}├╯╰─┴─╯",
        "╰─┴──╯      ",
    ]);
    assert_eq!(text, expected);
}

#[test]
fn empty_array_cell() {
    let cell = VidereCell::Arr(vec![]);
    assert_eq!(cell.get_min_width(), Some(2));
    assert_eq!(cell.get_height(), Some(2));
    let (rows, from) = cell.get_rows(2, 0);
    assert_eq!(rows, vec!["╭╮".to_string(), "╰╯".to_string()]);
    assert!(from.is_empty());
    assert!(!rows[0].contains('┬'));
}

#[test]
fn empty_array_in_object() {
    let obj = vec![entry("e", JsonValue::Array(vec![]))];
    let map = VidereMap::from_json_obj(&obj);
    let text = map.as_table_string().unwrap();
    let expected = lines(&["╭─┬──╮╭╭╮", "│e│[]├╯╰╯", "╰─┴──╯   "]);
    assert_eq!(text, expected);
}

#[test]
fn two_nested_objects_get_their_own_paths() {
    let obj = vec![
        entry("x", JsonValue::Object(vec![entry("p", num("1"))])),
        entry("y", JsonValue::Object(vec![entry("q", num("2"))])),
    ];
    let map = VidereMap::from_json_obj(&obj);
    let text = map.as_table_string().unwrap();
    let expected = lines(&[
        "╭─┬──╮╭╭─┬─╮",
        "│x│{}├╯│p│1│",
        "│y│{}├╮╰─┴─╯",
        "╰─┴──╯╰╭─┬─╮",
        "       │q│2│",
        "       ╰─┴─╯",
    ]);
    assert_eq!(text, expected);
}

#[test]
fn overlapping_upward_paths_use_two_lanes() {
    let mut con = LayerConnector::new(7, vec![4, 5]);
    con.set_to(vec![0, 2]);
    assert!(con.resolve());
    let rows: Vec<String> = (0..7).map(|i| con.get_row(i)).collect();
    assert_eq!(rows, vec!["╭─", "│ ", "│╭", "││", "╯│", "─╯", "  "]);
}

#[test]
fn no_pairs_give_no_lanes() {
    let mut con = LayerConnector::new(3, vec![]);
    con.set_to(vec![0]);
    assert!(con.resolve());
    assert_eq!(con.get_row(0), "");
    assert_eq!(con.get_row(2), "");
}

#[test]
fn level_pair_still_takes_one_lane() {
    let mut con = LayerConnector::new(3, vec![1]);
    con.set_to(vec![1]);
    assert!(con.resolve());
    assert_eq!(con.get_row(0), " ");
    assert_eq!(con.get_row(1), "─");
    assert_eq!(con.get_row(2), " ");
}

#[test]
fn downward_path_turns_down_then_forward() {
    let mut con = LayerConnector::new(4, vec![1]);
    con.set_to(vec![3]);
    assert!(con.resolve());
    let rows: Vec<String> = (0..4).map(|i| con.get_row(i)).collect();
    assert_eq!(rows, vec![" ", "╮", "│", "╰"]);
}

#[test]
fn path_out_of_the_grid_fails() {
    let mut con = LayerConnector::new(2, vec![5]);
    con.set_to(vec![0]);
    assert!(!con.resolve());
}

#[test]
fn value_widths_and_texts() {
    assert_eq!(VidereValue::Number(number("12.5")).get_min_width(), Some(4));
    assert_eq!(VidereValue::String("ab".to_string()).get_min_width(), Some(4));
    assert_eq!(VidereValue::String("日本".to_string()).get_min_width(), Some(6));
    assert_eq!(VidereValue::Bool(true).get_min_width(), Some(4));
    assert_eq!(VidereValue::Bool(false).get_min_width(), Some(5));
    assert_eq!(VidereValue::Null.get_min_width(), Some(4));
    assert_eq!(VidereValue::Array.get_min_width(), Some(2));
    assert_eq!(VidereValue::Object.get_min_width(), Some(2));
    assert_eq!(VidereValue::String("ab".to_string()).to_text(), "\"ab\"");
    assert_eq!(VidereValue::Bool(false).to_text(), "false");
    assert_eq!(VidereValue::Null.to_text(), "null");
    assert_eq!(VidereValue::Array.to_text(), "[]");
    assert_eq!(VidereValue::Object.to_text(), "{}");
    assert!(VidereValue::Array.is_reference());
    assert!(!VidereValue::Null.is_reference());
}

#[test]
fn wide_characters_are_measured_in_columns() {
    let cell = VidereCell::Obj(vec![("日".to_string(), VidereValue::String("本".to_string()))]);
    assert_eq!(cell.get_min_width(), Some(2 + 2 + 1 + 4));
    let (rows, _) = cell.get_rows(9, 0);
    assert_eq!(rows[0], "╭──┬────╮");
    assert_eq!(rows[1], "│日│\"本\"│");
    assert_eq!(rows[2], "╰──┴────╯");
}

#[test]
fn object_rows_pad_keys_and_right_align_values() {
    let cell = VidereCell::Obj(vec![
        ("id".to_string(), VidereValue::Number(number("7"))),
        ("k".to_string(), VidereValue::Null),
        ("sub".to_string(), VidereValue::Array),
    ]);
    assert_eq!(cell.get_min_width(), Some(2 + 3 + 1 + 4));
    assert_eq!(cell.get_height(), Some(5));
    let (rows, from) = cell.get_rows(11, 10);
    assert_eq!(
        rows,
        vec![
            "╭───┬─────╮".to_string(),
            "│id │    7│".to_string(),
            "│k  │ null│".to_string(),
            "│sub│   []├".to_string(),
            "╰───┴─────╯".to_string(),
        ]
    );
    assert_eq!(from, vec![13]);
    assert_eq!(rows[0].matches('┬').count(), 1);
}

#[test]
fn borders_match_their_width() {
    assert_eq!(VidereCell::get_top_row(6, Some(1)), "╭─┬──╮");
    assert_eq!(VidereCell::get_bottom_row(6, Some(1)), "╰─┴──╯");
    assert_eq!(VidereCell::get_top_row(4, None), "╭──╮");
    assert_eq!(VidereCell::get_bottom_row(4, None), "╰──╯");
}

#[test]
fn every_row_has_the_cell_width() {
    let cell = VidereCell::Arr(vec![
        VidereValue::Bool(true),
        VidereValue::String("xyz".to_string()),
        VidereValue::Object,
    ]);
    let w = cell.get_min_width().unwrap();
    assert_eq!(w, 7);
    let (rows, from) = cell.get_rows(w, 0);
    assert_eq!(rows.len(), 5);
    for r in &rows {
        assert_eq!(r.chars().count(), w);
    }
    assert_eq!(rows[1], "│ true│");
    assert_eq!(rows[2], "│\"xyz\"│");
    assert_eq!(rows[3], "│   {}├");
    assert_eq!(from, vec![3]);
}

#[test]
fn layers_are_padded_to_the_shared_height() {
    let obj = vec![
        entry("a", JsonValue::Array(vec![num("1"), num("2"), num("3")])),
        entry("b", JsonValue::Bool(true)),
    ];
    let map = VidereMap::from_json_obj(&obj);
    assert_eq!(map.get_height(), Some(5));
    assert_eq!(map.layers[0].get_min_height(), Some(4));
    assert_eq!(map.layers[1].get_min_height(), Some(5));
    let text = map.as_table_string().unwrap();
    let expected = lines(&[
        "╭─┬────╮╭╭─╮",
        "│a│  []├╯│1│",
        "│b│true│ │2│",
        "╰─┴────╯ │3│",
        "         ╰─╯",
    ]);
    assert_eq!(text, expected);
    for line in text.lines() {
        assert_eq!(line.chars().count(), 12);
    }
}

#[test]
fn each_from_row_pairs_with_a_cell_of_the_next_layer() {
    let obj = vec![
        entry("a", JsonValue::Object(vec![entry("x", JsonValue::Array(vec![num("1")]))])),
        entry("b", JsonValue::Array(vec![JsonValue::Object(vec![]), JsonValue::Null])),
        entry("c", num("3")),
    ];
    let map = VidereMap::from_json_obj(&obj);
    assert_eq!(map.layers.len(), 3);
    assert_eq!(map.layers[0].cells.len(), 1);
    assert_eq!(map.layers[1].cells.len(), 2);
    assert_eq!(map.layers[2].cells.len(), 2);
    match &map.layers[1].cells[0] {
        VidereCell::Obj(es) => assert_eq!(es[0].0, "x"),
        VidereCell::Arr(_) => panic!("the first cell of layer 1 is the object under a"),
    }
    match &map.layers[2].cells[0] {
        VidereCell::Arr(vs) => assert_eq!(vs.len(), 1),
        VidereCell::Obj(_) => panic!("the first cell of layer 2 is the array under x"),
    }
    assert!(map.as_table_string().is_some());
}

#[test]
fn rendering_twice_gives_the_same_text() {
    let obj = vec![
        entry("k", JsonValue::String("v".to_string())),
        entry("n", JsonValue::Object(vec![entry("m", JsonValue::Array(vec![]))])),
    ];
    let first = VidereMap::from_json_obj(&obj).as_table_string().unwrap();
    let second = VidereMap::from_json_obj(&obj).as_table_string().unwrap();
    assert_eq!(first, second);
    let map = VidereMap::from_json_obj(&obj);
    assert_eq!(map.as_table_string(), map.as_table_string());
}

#[test]
fn layer_rows_carry_the_connector_prefix() {
    let mut layer = VidereLayer::new();
    layer.cells.push(VidereCell::Arr(vec![VidereValue::Null]));
    let con = LayerConnector::new(4, vec![2]);
    let (rows, from) = layer.get_rows(4, con).unwrap();
    assert_eq!(rows, vec!["╭╭────╮", "││null│", "╯╰────╯", "       "]);
    assert!(from.is_empty());
}

#[test]
fn glyph_texts() {
    assert_eq!(Glyph::Space.as_str(), " ");
    assert_eq!(Glyph::TurnUp.as_str(), "╯");
    assert_eq!(Glyph::ForwardFromDown.as_str(), "╰");
}

#[test]
fn display_is_blank() {
    let d = Display::new((3, 2));
    assert_eq!(d.0, vec!["   ".to_string(), "   ".to_string()]);
}

fn text(s: &str) -> JsonValue {
    JsonValue::String(s.to_string())
}

#[test]
fn sample_document_renders_with_even_lines() {
    let long = JsonValue::Array(vec![
        text("text_a"),
        text("text_b"),
        text("text_c"),
        text("text_d"),
        text("text_e"),
        text("text_f"),
        text("text_g"),
        text("text_h"),
        JsonValue::Array(vec![text("FIRST")]),
        JsonValue::Array(vec![text("SECOND")]),
        JsonValue::Array(vec![text("THIRD"), JsonValue::Null]),
    ]);
    let example = JsonValue::Object(vec![
        entry("test", text("This is some test data")),
        entry("empty_table", JsonValue::Object(vec![])),
        entry("empty_array", JsonValue::Array(vec![])),
        entry(
            "nested_table",
            JsonValue::Object(vec![
                entry("array", JsonValue::Array(vec![text("data")])),
                entry("string", text("MY_STRING")),
                entry("data", num("5")),
            ]),
        ),
    ]);
    let obj = vec![entry("long_array_example", long), entry("example", example)];
    let map = VidereMap::from_json_obj(&obj);
    assert_eq!(map.layers.len(), 4);
    assert_eq!(map.layers[1].cells.len(), 2);
    assert_eq!(map.layers[2].cells.len(), 6);
    assert_eq!(map.layers[3].cells.len(), 1);
    let table = map.as_table_string().unwrap();
    let rows: Vec<&str> = table.lines().collect();
    assert_eq!(rows.len(), 13 + 6);
    let width = rows[0].chars().count();
    for r in &rows {
        assert_eq!(r.chars().count(), width);
    }
    assert!(rows[0].starts_with("╭──────────────────┬──╮"));
}

#[test]
fn number_text_is_checked() {
    assert!(NumberText::new("-1.5e+3".to_string()).is_some());
    assert!(NumberText::new("".to_string()).is_none());
    assert!(NumberText::new("1\n2".to_string()).is_none());
    assert!(NumberText::new("１".to_string()).is_none());
    assert_eq!(VidereValue::Number(number("-1.5e+3")).to_text(), "-1.5e+3");
    assert_eq!(VidereValue::Number(number("-1.5e+3")).get_min_width(), Some(7));
}

#[test]
fn values_are_placed_in_layers_that_do_not_exist_yet() {
    let mut map = VidereMap::from_json_obj(&vec![]);
    assert_eq!(map.layers.len(), 1);
    let v = VidereValue::from_json_val(&mut map, 2, &JsonValue::Array(vec![num("1")]));
    assert!(matches!(v, VidereValue::Array));
    assert_eq!(map.layers.len(), 4);
    assert_eq!(map.layers[1].cells.len(), 0);
    assert_eq!(map.layers[2].cells.len(), 0);
    assert_eq!(map.layers[3].cells.len(), 1);
    let s = VidereValue::from_json_val(&mut map, 9, &JsonValue::Null);
    assert!(matches!(s, VidereValue::Null));
    assert_eq!(map.layers.len(), 4);
    let idx = map.add_obj_to_layer(6, &vec![entry("k", JsonValue::Object(vec![]))]);
    assert_eq!(idx, 0);
    assert_eq!(map.layers.len(), 8);
    assert_eq!(map.layers[6].cells.len(), 1);
    assert_eq!(map.layers[7].cells.len(), 1);
    let idx = map.add_arr_to_layer(3, &vec![]);
    assert_eq!(idx, 1);
}

#[test]
fn unpaired_anchors_abort_the_render() {
    let obj = vec![entry("a", JsonValue::Object(vec![]))];
    let mut map = VidereMap::from_json_obj(&obj);
    assert!(map.as_table_string().is_some());
    map.layers[1].cells.push(VidereCell::Arr(vec![]));
    assert!(map.as_table_string().is_none());
}
