//! The layout model: position costs, derived caches, swaps and the
//! starting-layout override.

use klo::errors::KloError;
use klo::geometry::{Finger, Position};
use klo::klo_options::KloOptions;
use klo::layout::{
    apply_swap, copy_blueprint, default_blueprint, get_key_pos, Blueprint, Layout,
};

fn pos(row: usize, slot: usize, layer: usize) -> Position {
    Position { row, slot, layer }
}

fn cell(s: &str) -> Vec<String> {
    vec![s.to_string()]
}

fn options_with(starting_layout: &str, base_layout: Option<String>) -> KloOptions {
    KloOptions {
        num_layouts: 1,
        filename: "out.txt".to_string(),
        steps: 0,
        prerandomize: 0,
        controlled: false,
        quiet: true,
        verbose: false,
        controlled_tail: false,
        anneal: 0,
        anneal_step: 0,
        limit_ngrams: 0,
        starting_layout: starting_layout.to_string(),
        ngrams_config: "ngrams.config".to_string(),
        alphabet: "abcdefghijklmnopqrstuvwxyz".to_string(),
        base_layout,
    }
}

#[test]
fn position_cost_is_table_plus_layer() {
    assert_eq!(Layout::single_key_position_cost(pos(2, 3, 0)), 3);
    assert_eq!(Layout::single_key_position_cost(pos(1, 3, 0)), 5);
    assert_eq!(Layout::single_key_position_cost(pos(1, 9, 0)), 9);
    assert_eq!(Layout::single_key_position_cost(pos(0, 0, 0)), 80);
    // the layer surcharge is added on top
    assert_eq!(Layout::single_key_position_cost(pos(2, 3, 2)), 3 + 9);
    assert_eq!(Layout::single_key_position_cost(pos(2, 3, 1)), 3 + 20);
}

#[test]
fn position_cost_is_pure() {
    let p = pos(3, 7, 4);
    let first = Layout::single_key_position_cost(p);
    let second = Layout::single_key_position_cost(p);
    assert_eq!(first, second);
    assert_eq!(first, 10 + 29);
}

#[test]
fn from_blueprint_maps_characters() {
    let bp: Blueprint = vec![vec![cell("e"), cell("t"), cell("")]];
    let layout = Layout::from_blueprint(bp);
    assert_eq!(layout.char_position('e'), Some(pos(0, 0, 0)));
    assert_eq!(layout.char_position('t'), Some(pos(0, 1, 0)));
    assert_eq!(layout.char_position('z'), None);
    assert_eq!(layout.char_finger_of('e'), Some(Finger::PinkyLeft));
    assert_eq!(layout.char_finger_of('z'), None);
    // slot 0 of the top row belongs to the left hand
    assert_eq!(layout.position_is_left(pos(0, 0, 0)), Some(true));
    assert_eq!(layout.position_is_left(pos(3, 3, 3)), None);
}

#[test]
fn from_blueprint_prefers_cheaper_cell() {
    // 'e' appears at (0, 0) costing 80 and at (1, 3) costing 5
    let bp: Blueprint = vec![
        vec![cell("e")],
        vec![cell(""), cell(""), cell(""), cell("e")],
    ];
    let layout = Layout::from_blueprint(bp);
    assert_eq!(layout.char_position('e'), Some(pos(1, 3, 0)));
}

#[test]
fn from_blueprint_ties_go_to_first_cell() {
    // slots 3 and 4 of the home row both cost 3
    let bp: Blueprint = vec![
        vec![],
        vec![],
        vec![cell(""), cell(""), cell(""), cell("e"), cell("e")],
    ];
    let layout = Layout::from_blueprint(bp);
    assert_eq!(layout.char_position('e'), Some(pos(2, 3, 0)));
}

#[test]
fn get_key_pos_finds_last_occurrence() {
    let bp: Blueprint = vec![vec![cell("e"), cell(""), cell("e")]];
    assert_eq!(get_key_pos(&bp, 'e'), Some((0, 2)));
    assert_eq!(get_key_pos(&bp, 'q'), None);
}

#[test]
fn apply_swap_exchanges_cells() {
    let bp: Blueprint = vec![vec![cell("e"), cell("t")]];
    let swapped = apply_swap(&bp, 'e', 't');
    assert_eq!(swapped[0][0][0], "t");
    assert_eq!(swapped[0][1][0], "e");
    // the input is untouched
    assert_eq!(bp[0][0][0], "e");
}

#[test]
fn apply_swap_twice_restores_blueprint() {
    let bp: Blueprint = vec![vec![cell("e"), cell("t"), cell("a")]];
    let once = apply_swap(&bp, 'e', 'a');
    let twice = apply_swap(&once, 'e', 'a');
    assert_eq!(twice, bp);
}

#[test]
fn apply_swap_with_missing_character_changes_nothing() {
    let bp: Blueprint = vec![vec![cell("e"), cell("t")]];
    assert_eq!(apply_swap(&bp, 'e', 'z'), bp);
    assert_eq!(apply_swap(&bp, 'e', 'e'), bp);
}

#[test]
fn copy_blueprint_is_deep() {
    let bp: Blueprint = vec![vec![cell("e"), cell("t")]];
    let copy = copy_blueprint(&bp);
    assert_eq!(copy, bp);
}

#[test]
fn default_blueprint_has_device_geometry() {
    let bp = default_blueprint();
    assert_eq!(bp.len(), 5);
    assert_eq!(bp[0].len(), 14);
    assert_eq!(bp[1].len(), 14);
    assert_eq!(bp[2].len(), 14);
    assert_eq!(bp[3].len(), 13);
    assert_eq!(bp[4].len(), 8);
    // home row letters and the thumb-row space
    assert_eq!(bp[2][1][0], "u");
    assert_eq!(bp[4][3][0], " ");
    assert_eq!(bp[0][1][0], "1");
}

#[test]
fn debug_print_renders_first_layers() {
    let bp: Blueprint = vec![vec![cell("e"), vec![], cell("t")]];
    let layout = Layout::from_blueprint(bp);
    let lines = layout.debug_print();
    assert_eq!(lines, vec!["e t".to_string()]);
}

#[test]
fn merge_layout_string_writes_offset_rows() {
    let base = Layout::from_blueprint(default_blueprint());
    let merged = base.merge_layout_string("ab\ncd").unwrap();
    assert_eq!(merged.blueprint[1][1][0], "a");
    assert_eq!(merged.blueprint[1][2][0], "b");
    assert_eq!(merged.blueprint[2][1][0], "c");
    assert_eq!(merged.blueprint[2][2][0], "d");
    // untouched cells keep their base contents
    assert_eq!(merged.blueprint[4][3][0], " ");
}

#[test]
fn merge_layout_string_strips_spaces() {
    let base = Layout::from_blueprint(default_blueprint());
    let merged = base.merge_layout_string("a b\nc d").unwrap();
    assert_eq!(merged.blueprint[1][1][0], "a");
    assert_eq!(merged.blueprint[1][2][0], "b");
    assert_eq!(merged.blueprint[2][1][0], "c");
}

#[test]
fn merge_layout_string_rejects_overflow() {
    let base = Layout::from_blueprint(default_blueprint());
    // fourteen characters push past the last slot of row one
    let too_wide = "abcdefghijklmn";
    assert_eq!(
        base.merge_layout_string(too_wide).unwrap_err(),
        KloError::ConfigError
    );
    // a sixth line lands below the last row
    assert_eq!(
        base.merge_layout_string("a\nb\nc\nd\ne").unwrap_err(),
        KloError::ConfigError
    );
}

#[test]
fn get_base_layout_parses_supplied_text() {
    let text = "[[[\"a\"],[\"b\"]]]".to_string();
    let layout = Layout::get_base_layout(&Some(text)).unwrap();
    assert_eq!(layout.char_position('a'), Some(pos(0, 0, 0)));
    assert_eq!(layout.char_position('b'), Some(pos(0, 1, 0)));
}

#[test]
fn get_base_layout_rejects_bad_text() {
    assert_eq!(
        Layout::get_base_layout(&Some("not a layout".to_string())).unwrap_err(),
        KloError::ConfigError
    );
    // six rows do not fit the five-row device
    let six_rows = "[[],[],[],[],[],[]]".to_string();
    assert_eq!(
        Layout::get_base_layout(&Some(six_rows)).unwrap_err(),
        KloError::ConfigError
    );
}

#[test]
fn from_args_builds_starting_layout() {
    let options = options_with("xy", None);
    let layout = Layout::from_args(&options).unwrap();
    assert_eq!(layout.blueprint[1][1][0], "x");
    assert_eq!(layout.blueprint[1][2][0], "y");
}

#[test]
fn post_parse_checks_rebalances_annealing() {
    let mut options = options_with("", None);
    options.steps = 10000;
    options.anneal = 5;
    options.anneal_step = 2000;
    options.post_parse_checks();
    // half the budget spread over six levels
    assert_eq!(options.anneal_step, 5000 / 6);

    let mut ok = options_with("", None);
    ok.steps = 10000;
    ok.anneal = 4;
    ok.anneal_step = 1000;
    ok.post_parse_checks();
    assert_eq!(ok.anneal_step, 1000);
}
