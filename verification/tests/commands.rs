//! Unit tests for the instruction set: decoding and the exact stack,
//! pointer, and guard semantics of every command.

use piet::command::{Command, InputRequest};
use piet::counters::{CodelChooser, DirectionPointer};

fn run(
    cmd: Command,
    stack: Vec<i64>,
    block_size: usize,
) -> (Vec<i64>, DirectionPointer, CodelChooser, Vec<u8>, Option<InputRequest>) {
    let mut stack = stack;
    let mut dp = DirectionPointer::Right;
    let mut cc = CodelChooser::Left;
    let eff = cmd.execute(&mut stack, &mut dp, &mut cc, block_size);
    (stack, dp, cc, eff.output, eff.request)
}

#[test]
fn decode_matches_table() {
    assert_eq!(Command::from((0, 1)), Some(Command::Add));
    assert_eq!(Command::from((0, 2)), Some(Command::Divide));
    assert_eq!(Command::from((0, 3)), Some(Command::Greater));
    assert_eq!(Command::from((0, 4)), Some(Command::Duplicate));
    assert_eq!(Command::from((0, 5)), Some(Command::InChar));
    assert_eq!(Command::from((1, 0)), Some(Command::Push));
    assert_eq!(Command::from((1, 1)), Some(Command::Subtract));
    assert_eq!(Command::from((1, 2)), Some(Command::Mod));
    assert_eq!(Command::from((1, 3)), Some(Command::Pointer));
    assert_eq!(Command::from((1, 4)), Some(Command::Roll));
    assert_eq!(Command::from((1, 5)), Some(Command::OutNumber));
    assert_eq!(Command::from((2, 0)), Some(Command::Pop));
    assert_eq!(Command::from((2, 1)), Some(Command::Multiply));
    assert_eq!(Command::from((2, 2)), Some(Command::Not));
    assert_eq!(Command::from((2, 3)), Some(Command::Switch));
    assert_eq!(Command::from((2, 4)), Some(Command::InNumber));
    assert_eq!(Command::from((2, 5)), Some(Command::OutChar));
    assert_eq!(Command::from((0, 0)), None);
    assert_eq!(Command::from((3, 1)), None);
    assert_eq!(Command::from((1, 6)), None);
}

#[test]
fn push_pushes_block_size() {
    let (stack, _, _, out, req) = run(Command::Push, vec![], 7);
    assert_eq!(stack, vec![7]);
    assert!(out.is_empty());
    assert!(req.is_none());
}

#[test]
fn pop_discards_top_and_ignores_empty() {
    let (stack, _, _, _, _) = run(Command::Pop, vec![1, 2], 0);
    assert_eq!(stack, vec![1]);
    let (stack, _, _, _, _) = run(Command::Pop, vec![], 0);
    assert_eq!(stack, Vec::<i64>::new());
}

#[test]
fn add_sub_mul() {
    let (stack, _, _, _, _) = run(Command::Add, vec![10, 4], 0);
    assert_eq!(stack, vec![14]);
    let (stack, _, _, _, _) = run(Command::Subtract, vec![10, 4], 0);
    assert_eq!(stack, vec![6]);
    let (stack, _, _, _, _) = run(Command::Multiply, vec![10, 4], 0);
    assert_eq!(stack, vec![40]);
}

#[test]
fn arithmetic_wraps_at_the_edges() {
    let (stack, _, _, _, _) = run(Command::Add, vec![i64::MAX, 1], 0);
    assert_eq!(stack, vec![i64::MIN]);
    let (stack, _, _, _, _) = run(Command::Subtract, vec![i64::MIN, 1], 0);
    assert_eq!(stack, vec![i64::MAX]);
    let (stack, _, _, _, _) = run(Command::Multiply, vec![i64::MAX, 2], 0);
    assert_eq!(stack, vec![-2]);
}

#[test]
fn underflow_is_a_no_op() {
    let (stack, _, _, _, _) = run(Command::Add, vec![3], 0);
    assert_eq!(stack, vec![3]);
    let (stack, _, _, _, _) = run(Command::Multiply, vec![1], 0);
    assert_eq!(stack, vec![1]);
}

#[test]
fn divide_truncates_toward_zero() {
    let (stack, _, _, _, _) = run(Command::Divide, vec![7, 2], 0);
    assert_eq!(stack, vec![3]);
    let (stack, _, _, _, _) = run(Command::Divide, vec![-7, 2], 0);
    assert_eq!(stack, vec![-3]);
    let (stack, _, _, _, _) = run(Command::Divide, vec![7, -2], 0);
    assert_eq!(stack, vec![-3]);
    let (stack, _, _, _, _) = run(Command::Divide, vec![-7, -2], 0);
    assert_eq!(stack, vec![3]);
    let (stack, _, _, _, _) = run(Command::Divide, vec![i64::MIN, -1], 0);
    assert_eq!(stack, vec![i64::MIN]);
}

#[test]
fn divide_by_zero_restores_the_stack() {
    let (stack, _, _, _, _) = run(Command::Divide, vec![5, 0], 0);
    assert_eq!(stack, vec![5, 0]);
}

#[test]
fn modulo_is_euclidean() {
    let (stack, _, _, _, _) = run(Command::Mod, vec![7, 3], 0);
    assert_eq!(stack, vec![1]);
    let (stack, _, _, _, _) = run(Command::Mod, vec![-7, 3], 0);
    assert_eq!(stack, vec![2]);
    let (stack, _, _, _, _) = run(Command::Mod, vec![7, -3], 0);
    assert_eq!(stack, vec![1]);
    let (stack, _, _, _, _) = run(Command::Mod, vec![5, 0], 0);
    assert_eq!(stack, vec![5, 0]);
}

#[test]
fn not_and_greater() {
    let (stack, _, _, _, _) = run(Command::Not, vec![0], 0);
    assert_eq!(stack, vec![1]);
    let (stack, _, _, _, _) = run(Command::Not, vec![-3], 0);
    assert_eq!(stack, vec![0]);
    let (stack, _, _, _, _) = run(Command::Greater, vec![5, 3], 0);
    assert_eq!(stack, vec![1]);
    let (stack, _, _, _, _) = run(Command::Greater, vec![3, 5], 0);
    assert_eq!(stack, vec![0]);
}

#[test]
fn pointer_rotates_clockwise_modulo_four() {
    let (stack, dp, _, _, _) = run(Command::Pointer, vec![1], 0);
    assert_eq!(stack, Vec::<i64>::new());
    assert_eq!(dp, DirectionPointer::Down);
    let (_, dp, _, _, _) = run(Command::Pointer, vec![4], 0);
    assert_eq!(dp, DirectionPointer::Right);
    let (_, dp, _, _, _) = run(Command::Pointer, vec![-1], 0);
    assert_eq!(dp, DirectionPointer::Up);
    let (_, dp, _, _, _) = run(Command::Pointer, vec![-2], 0);
    assert_eq!(dp, DirectionPointer::Left);
    let (_, dp, _, _, _) = run(Command::Pointer, vec![7], 0);
    assert_eq!(dp, DirectionPointer::Up);
}

#[test]
fn switch_flips_on_odd_values_including_negative_odds() {
    let (_, _, cc, _, _) = run(Command::Switch, vec![1], 0);
    assert_eq!(cc, CodelChooser::Right);
    let (_, _, cc, _, _) = run(Command::Switch, vec![2], 0);
    assert_eq!(cc, CodelChooser::Left);
    let (_, _, cc, _, _) = run(Command::Switch, vec![-3], 0);
    assert_eq!(cc, CodelChooser::Right);
}

#[test]
fn duplicate_copies_the_top() {
    let (stack, _, _, _, _) = run(Command::Duplicate, vec![9], 0);
    assert_eq!(stack, vec![9, 9]);
    let (stack, _, _, _, _) = run(Command::Duplicate, vec![], 0);
    assert_eq!(stack, Vec::<i64>::new());
}

#[test]
fn roll_rotates_toward_the_top() {
    let (stack, _, _, _, _) = run(Command::Roll, vec![1, 2, 3, 4, 5, 3, 1], 0);
    assert_eq!(stack, vec![1, 2, 5, 3, 4]);
}

#[test]
fn roll_with_negative_count_rotates_away_from_the_top() {
    let (stack, _, _, _, _) = run(Command::Roll, vec![1, 2, 3, 4, 5, 3, -1], 0);
    assert_eq!(stack, vec![1, 2, 4, 5, 3]);
}

#[test]
fn roll_guards_restore_the_operands() {
    let (stack, _, _, _, _) = run(Command::Roll, vec![1, 2, 0, 1], 0);
    assert_eq!(stack, vec![1, 2, 0, 1]);
    let (stack, _, _, _, _) = run(Command::Roll, vec![1, 2, -2, 1], 0);
    assert_eq!(stack, vec![1, 2, -2, 1]);
    let (stack, _, _, _, _) = run(Command::Roll, vec![1, 2, 9, 1], 0);
    assert_eq!(stack, vec![1, 2, 9, 1]);
}

#[test]
fn out_number_writes_decimal() {
    let (stack, _, _, out, _) = run(Command::OutNumber, vec![-123], 0);
    assert_eq!(stack, Vec::<i64>::new());
    assert_eq!(out, b"-123".to_vec());
    let (_, _, _, out, _) = run(Command::OutNumber, vec![0], 0);
    assert_eq!(out, b"0".to_vec());
    let (_, _, _, out, _) = run(Command::OutNumber, vec![i64::MIN], 0);
    assert_eq!(out, b"-9223372036854775808".to_vec());
}

#[test]
fn out_char_writes_utf8_and_restores_invalid_values() {
    let (stack, _, _, out, _) = run(Command::OutChar, vec![65], 0);
    assert_eq!(stack, Vec::<i64>::new());
    assert_eq!(out, b"A".to_vec());
    let (_, _, _, out, _) = run(Command::OutChar, vec![0x20AC], 0);
    assert_eq!(out, vec![0xE2, 0x82, 0xAC]);
    let (_, _, _, out, _) = run(Command::OutChar, vec![0x1F600], 0);
    assert_eq!(out, vec![0xF0, 0x9F, 0x98, 0x80]);
    let (stack, _, _, out, _) = run(Command::OutChar, vec![0xD800], 0);
    assert_eq!(stack, vec![0xD800]);
    assert!(out.is_empty());
    let (stack, _, _, _, _) = run(Command::OutChar, vec![-1], 0);
    assert_eq!(stack, vec![-1]);
}

#[test]
fn input_commands_request_input() {
    let (stack, _, _, out, req) = run(Command::InChar, vec![1], 0);
    assert_eq!(stack, vec![1]);
    assert!(out.is_empty());
    assert_eq!(req, Some(InputRequest::Byte));
    let (_, _, _, _, req) = run(Command::InNumber, vec![], 0);
    assert_eq!(req, Some(InputRequest::NumberLine));
}
