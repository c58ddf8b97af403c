//! End-to-end scenarios for the execution engine, driving it the way a host
//! would: advance, answer input requests, drain output.

use piet::cmd_options::CmdOptions;
use piet::command::InputRequest;
use piet::interpreter::Interpreter;

const LIGHT_RED: (u8, u8, u8) = (0xFF, 0xC0, 0xC0);
const RED: (u8, u8, u8) = (0xFF, 0x00, 0x00);
const DARK_RED: (u8, u8, u8) = (0xC0, 0x00, 0x00);
const LIGHT_YELLOW: (u8, u8, u8) = (0xFF, 0xFF, 0xC0);
const DARK_YELLOW: (u8, u8, u8) = (0xC0, 0xC0, 0x00);
const GREEN: (u8, u8, u8) = (0x00, 0xFF, 0x00);
const BLUE: (u8, u8, u8) = (0x00, 0x00, 0xFF);
const DARK_BLUE: (u8, u8, u8) = (0x00, 0x00, 0xC0);
const DARK_CYAN: (u8, u8, u8) = (0x00, 0xC0, 0xC0);
const LIGHT_CYAN: (u8, u8, u8) = (0xC0, 0xFF, 0xFF);
const LIGHT_MAGENTA: (u8, u8, u8) = (0xFF, 0xC0, 0xFF);
const BLACK: (u8, u8, u8) = (0x00, 0x00, 0x00);

fn options(max_steps: u128, unlimited: bool) -> CmdOptions {
    CmdOptions {
        verbose: false,
        codel_size: 1,
        max_steps,
        unlimited_steps: unlimited,
        unknown_white: false,
        file_path: String::new(),
    }
}

/// Run to completion at end of input, collecting all output.
fn run_to_end(engine: &mut Interpreter, cap: u32) -> Vec<u8> {
    let mut out: Vec<u8> = Vec::new();
    let mut calls: u32 = 0;
    while engine.is_alive() && calls < cap {
        engine.advance();
        match engine.pending_input() {
            Some(InputRequest::Byte) => engine.provide_input_byte(None),
            Some(InputRequest::NumberLine) => engine.provide_input_line(None),
            None => {},
        }
        out.extend(engine.take_output());
        calls += 1;
    }
    out
}

#[test]
fn single_red_codel_halts_after_eight_toggles() {
    let grid = vec![vec![RED]];
    let mut engine = Interpreter::from_rgb_rows(grid, &options(0, true));
    let out = run_to_end(&mut engine, 50);
    assert!(!engine.is_alive());
    assert!(out.is_empty());
    assert_eq!(engine.steps_taken(), 9);
}

#[test]
fn push_then_underflowing_multiply_keeps_the_push() {
    let grid = vec![vec![LIGHT_RED, RED, LIGHT_YELLOW]];
    let mut engine = Interpreter::from_rgb_rows(grid, &options(0, true));
    engine.advance();
    assert_eq!(engine.stack_values(), vec![1]);
    engine.advance();
    assert_eq!(engine.stack_values(), vec![1]);
    assert!(engine.take_output().is_empty());
    assert_eq!(engine.position(), (2, 0));
}

#[test]
fn push_push_add_prints_three() {
    let grid = vec![
        vec![LIGHT_RED, RED, DARK_RED, DARK_YELLOW, LIGHT_RED],
        vec![BLACK, RED, BLACK, BLACK, BLACK],
    ];
    let mut engine = Interpreter::from_rgb_rows(grid, &options(5, false));
    let out = run_to_end(&mut engine, 20);
    assert!(!engine.is_alive());
    assert_eq!(out, b"3".to_vec());
}

#[test]
fn division_by_zero_is_a_no_op_and_zero_is_printed() {
    let grid = vec![
        vec![LIGHT_RED, RED, DARK_RED, GREEN, BLUE, DARK_CYAN],
        vec![LIGHT_RED, BLACK, BLACK, BLACK, BLACK, BLACK],
        vec![LIGHT_RED, BLACK, BLACK, BLACK, BLACK, BLACK],
        vec![LIGHT_RED, BLACK, BLACK, BLACK, BLACK, BLACK],
        vec![LIGHT_RED, BLACK, BLACK, BLACK, BLACK, BLACK],
    ];
    let mut engine = Interpreter::from_rgb_rows(grid, &options(6, false));
    let mut out: Vec<u8> = Vec::new();
    // push 5, push 1, not (-> 0), divide (no-op), out-number
    for _ in 0..6 {
        engine.advance();
        out.extend(engine.take_output());
    }
    assert_eq!(out, b"0".to_vec());
    assert_eq!(engine.stack_values(), vec![5]);
    assert!(!engine.is_alive());
}

#[test]
fn in_char_then_out_char_reproduces_the_byte() {
    let grid = vec![vec![LIGHT_RED, LIGHT_MAGENTA, DARK_BLUE]];
    let mut engine = Interpreter::from_rgb_rows(grid, &options(0, true));
    engine.advance();
    assert_eq!(engine.pending_input(), Some(InputRequest::Byte));
    engine.provide_input_byte(Some(65));
    assert_eq!(engine.stack_values(), vec![65]);
    engine.advance();
    assert_eq!(engine.take_output(), b"A".to_vec());
    assert!(engine.stack_values().is_empty());
}

#[test]
fn in_number_parses_a_line_and_out_number_prints_it() {
    let grid = vec![vec![LIGHT_RED, DARK_BLUE, LIGHT_CYAN]];
    let mut engine = Interpreter::from_rgb_rows(grid, &options(0, true));
    engine.advance();
    assert_eq!(engine.pending_input(), Some(InputRequest::NumberLine));
    engine.provide_input_line(Some(b"  -42\n".to_vec()));
    assert_eq!(engine.stack_values(), vec![-42]);
    engine.advance();
    assert_eq!(engine.take_output(), b"-42".to_vec());
}

#[test]
fn in_number_with_garbage_is_a_no_op() {
    let grid = vec![vec![LIGHT_RED, DARK_BLUE, LIGHT_CYAN]];
    let mut engine = Interpreter::from_rgb_rows(grid, &options(0, true));
    engine.advance();
    engine.provide_input_line(Some(b"not a number".to_vec()));
    assert!(engine.stack_values().is_empty());
}

#[test]
fn all_black_grid_halts_within_eight_toggles() {
    let grid = vec![vec![BLACK, BLACK], vec![BLACK, BLACK]];
    let mut engine = Interpreter::from_rgb_rows(grid, &options(0, true));
    let out = run_to_end(&mut engine, 50);
    assert!(!engine.is_alive());
    assert!(out.is_empty());
    assert_eq!(engine.steps_taken(), 9);
}

#[test]
fn step_limit_stops_the_engine_after_that_many_calls() {
    let grid = vec![vec![RED]];
    let mut engine = Interpreter::from_rgb_rows(grid, &options(3, false));
    engine.advance();
    assert!(engine.is_alive());
    engine.advance();
    assert!(engine.is_alive());
    engine.advance();
    assert!(!engine.is_alive());
}

#[test]
fn push_uses_the_size_of_the_region_being_left() {
    // a 2x2 light-red region pushes 4 when it is left
    let grid = vec![
        vec![LIGHT_RED, LIGHT_RED, RED],
        vec![LIGHT_RED, LIGHT_RED, BLACK],
    ];
    let mut engine = Interpreter::from_rgb_rows(grid, &options(0, true));
    engine.advance();
    assert_eq!(engine.stack_values(), vec![4]);
}

#[test]
fn white_transit_suppresses_the_instruction() {
    let white: (u8, u8, u8) = (0xFF, 0xFF, 0xFF);
    let grid = vec![vec![LIGHT_RED, white, RED]];
    let mut engine = Interpreter::from_rgb_rows(grid, &options(0, true));
    engine.advance();
    // the machine slid across white onto the red codel without executing
    assert_eq!(engine.position(), (2, 0));
    assert!(engine.stack_values().is_empty());
}

#[test]
fn same_colored_but_disconnected_cells_form_distinct_regions() {
    // the two light-red cells touch only diagonally through red, so the
    // region being left holds one codel, not two
    let grid = vec![vec![LIGHT_RED, RED, LIGHT_RED]];
    let mut engine = Interpreter::from_rgb_rows(grid, &options(0, true));
    engine.advance();
    assert_eq!(engine.stack_values(), vec![1]);
}

#[test]
fn an_l_shaped_region_counts_all_its_codels() {
    let grid = vec![
        vec![LIGHT_RED, LIGHT_RED, RED],
        vec![LIGHT_RED, BLACK, BLACK],
    ];
    let mut engine = Interpreter::from_rgb_rows(grid, &options(0, true));
    engine.advance();
    assert_eq!(engine.stack_values(), vec![3]);
}

#[test]
fn a_blocked_white_slide_still_moves_and_toggles() {
    let white: (u8, u8, u8) = (0xFF, 0xFF, 0xFF);
    let grid = vec![vec![LIGHT_RED, white, BLACK]];
    let mut engine = Interpreter::from_rgb_rows(grid, &options(0, true));
    engine.advance();
    // the machine slid onto the white codel and stopped against black
    assert_eq!(engine.position(), (1, 0));
    assert!(engine.is_alive());
    assert!(engine.stack_values().is_empty());
}

#[test]
fn unknown_colors_follow_the_unknown_white_option() {
    let odd: (u8, u8, u8) = (1, 2, 3);
    let grid = vec![vec![LIGHT_RED, odd, RED]];
    let mut opts = options(0, true);
    opts.unknown_white = true;
    let mut engine = Interpreter::from_rgb_rows(grid.clone(), &opts);
    engine.advance();
    // read as white: the machine slides through without an instruction
    assert_eq!(engine.position(), (2, 0));
    assert!(engine.stack_values().is_empty());
    // read as black: the cell blocks and the machine cannot move
    let mut engine = Interpreter::from_rgb_rows(grid, &options(0, true));
    engine.advance();
    assert_eq!(engine.position(), (0, 0));
}

#[test]
fn an_enclosed_white_area_halts_by_the_toggle_rule() {
    // a blocked slide inside white moves without clearing the toggle count,
    // so the machine cannot bounce between the two white codels forever
    let white: (u8, u8, u8) = (0xFF, 0xFF, 0xFF);
    let grid = vec![vec![white, white, BLACK]];
    let mut engine = Interpreter::from_rgb_rows(grid, &options(0, true));
    let out = run_to_end(&mut engine, 50);
    assert!(!engine.is_alive());
    assert!(out.is_empty());
    assert_eq!(engine.steps_taken(), 12);
}

#[test]
fn dead_engine_ignores_further_calls() {
    let grid = vec![vec![RED]];
    let mut engine = Interpreter::from_rgb_rows(grid, &options(1, false));
    engine.advance();
    assert!(!engine.is_alive());
    engine.advance();
    assert!(!engine.is_alive());
    assert_eq!(engine.steps_taken(), 1);
}

