//! The instruction set of the stack machine: decoding from color deltas and
//! the exact semantics of every instruction, including the guards that turn
//! underflow, division by zero, and invalid characters into no-ops.

use vstd::prelude::*;

use crate::codec::{
    dec_bytes, is_unicode_scalar, push_dec_i64, push_utf8, utf8_bytes, check_unicode_scalar,
};
use crate::counters::{flipped, rotated_cw, turn_direction_pointer, CodelChooser, DirectionPointer};

verus! {

/// The seventeen instructions, decoded from a (light, hue) delta.
#[derive(Clone, Copy, PartialEq, Eq, Structural, Debug)]
pub enum Command {
    Push,
    Pop,
    Add,
    Subtract,
    Multiply,
    Divide,
    Mod,
    Not,
    Greater,
    Pointer,
    Switch,
    Duplicate,
    Roll,
    InNumber,
    InChar,
    OutNumber,
    OutChar,
}

/// What an input instruction asks the host for: one byte, or one line that
/// should hold a decimal number.
#[derive(Clone, Copy, PartialEq, Eq, Structural, Debug)]
pub enum InputRequest {
    Byte,
    NumberLine,
}

/// What executing one instruction hands back to the engine: bytes destined
/// for standard output, and possibly a request for input.
pub struct CommandEffect {
    pub output: Vec<u8>,
    pub request: Option<InputRequest>,
}

/// The instruction table, keyed by `(light difference, hue difference)`.
/// `(0, 0)` and out-of-range deltas decode to no instruction.
pub open spec fn spec_command_from(diffs: (u8, u8)) -> Option<Command> {
    match diffs {
        (0u8, 1u8) => Some(Command::Add),
        (0u8, 2u8) => Some(Command::Divide),
        (0u8, 3u8) => Some(Command::Greater),
        (0u8, 4u8) => Some(Command::Duplicate),
        (0u8, 5u8) => Some(Command::InChar),
        (1u8, 0u8) => Some(Command::Push),
        (1u8, 1u8) => Some(Command::Subtract),
        (1u8, 2u8) => Some(Command::Mod),
        (1u8, 3u8) => Some(Command::Pointer),
        (1u8, 4u8) => Some(Command::Roll),
        (1u8, 5u8) => Some(Command::OutNumber),
        (2u8, 0u8) => Some(Command::Pop),
        (2u8, 1u8) => Some(Command::Multiply),
        (2u8, 2u8) => Some(Command::Not),
        (2u8, 3u8) => Some(Command::Switch),
        (2u8, 4u8) => Some(Command::InNumber),
        (2u8, 5u8) => Some(Command::OutChar),
        _ => None,
    }
}

impl Command {
    /// Decode a (light, hue) delta into an instruction per the table.
    pub fn from(diffs: (u8, u8)) -> (r: Option<Command>)
        ensures
            r == spec_command_from(diffs),
    {
        match diffs {
            (0, 1) => Some(Command::Add),
            (0, 2) => Some(Command::Divide),
            (0, 3) => Some(Command::Greater),
            (0, 4) => Some(Command::Duplicate),
            (0, 5) => Some(Command::InChar),
            (1, 0) => Some(Command::Push),
            (1, 1) => Some(Command::Subtract),
            (1, 2) => Some(Command::Mod),
            (1, 3) => Some(Command::Pointer),
            (1, 4) => Some(Command::Roll),
            (1, 5) => Some(Command::OutNumber),
            (2, 0) => Some(Command::Pop),
            (2, 1) => Some(Command::Multiply),
            (2, 2) => Some(Command::Not),
            (2, 3) => Some(Command::Switch),
            (2, 4) => Some(Command::InNumber),
            (2, 5) => Some(Command::OutChar),
            _ => None,
        }
    }
}

/// The Euclidean remainder of a negative value, in terms of the remainder of
/// its magnitude.
proof fn lemma_mod_of_negative(a: int, d: int)
    requires
        d > 0,
        a < 0,
    ensures
        a % d == (if (-a) % d == 0 {
            0int
        } else {
            d - (-a) % d
        }),
{
    let q = (-a) / d;
    let e = (-a) % d;
    vstd::arithmetic::div_mod::lemma_fundamental_div_mod(-a, d);
    assert(-a == d * q + e);
    if e == 0 {
        assert(a == d * (-q) + 0) by {
            vstd::arithmetic::mul::lemma_mul_unary_negation(d, q);
        }
        vstd::arithmetic::div_mod::lemma_fundamental_div_mod_converse_mod(a, d, -q, 0);
    } else {
        assert(a == d * (-q - 1) + (d - e)) by {
            vstd::arithmetic::mul::lemma_mul_is_distributive_sub(d, -q, 1);
            vstd::arithmetic::mul::lemma_mul_unary_negation(d, q);
            vstd::arithmetic::mul::lemma_mul_basics(d);
        }
        vstd::arithmetic::div_mod::lemma_fundamental_div_mod_converse_mod(a, d, -q - 1, d - e);
    }
}

/// Truncated division with the single overflowing quotient wrapped: dividing
/// the smallest value by minus one yields the smallest value again.
pub open spec fn wrap_trunc_div_i64(b: i64, a: i64) -> i64
    recommends
        a != 0,
{
    if b == i64::MIN && a == -1 {
        i64::MIN
    } else {
        let x = b as int;
        let d = a as int;
        let q = if x == 0 {
            0int
        } else if x > 0 && d > 0 {
            x / d
        } else if x < 0 && d < 0 {
            (x * -1) / (d * -1)
        } else if x < 0 {
            ((x * -1) / d) * -1
        } else {
            (x / (d * -1)) * -1
        };
        q as i64
    }
}

/// The Euclidean remainder, always in `[0, |a|)`.
pub open spec fn euclid_mod_i64(b: i64, a: i64) -> i64
    recommends
        a != 0,
{
    ((b as int) % (a as int)) as i64
}

/// Truncated division, wrapping on the single overflowing case.
fn div_wrapped(b: i64, a: i64) -> (q: i64)
    requires
        a != 0,
    ensures
        q == wrap_trunc_div_i64(b, a),
{
    proof {
        let x = b as int;
        let d = a as int;
        if x > 0 && d > 0 {
            vstd::arithmetic::div_mod::lemma_div_pos_is_pos(x, d);
            vstd::arithmetic::div_mod::lemma_div_nonincreasing(x, d);
        }
        if x < 0 && d < 0 {
            vstd::arithmetic::div_mod::lemma_div_pos_is_pos(x * -1, d * -1);
            vstd::arithmetic::div_mod::lemma_div_nonincreasing(x * -1, d * -1);
            if d < -1 {
                vstd::arithmetic::div_mod::lemma_div_is_ordered(x * -1, 0x8000_0000_0000_0000, d * -1);
                vstd::arithmetic::div_mod::lemma_div_is_ordered_by_denominator(
                    0x8000_0000_0000_0000,
                    2,
                    d * -1,
                );
            }
        }
        if x < 0 && d > 0 {
            vstd::arithmetic::div_mod::lemma_div_pos_is_pos(x * -1, d);
            vstd::arithmetic::div_mod::lemma_div_nonincreasing(x * -1, d);
        }
        if x > 0 && d < 0 {
            vstd::arithmetic::div_mod::lemma_div_pos_is_pos(x, d * -1);
            vstd::arithmetic::div_mod::lemma_div_nonincreasing(x, d * -1);
        }
    }
    match b.checked_div(a) {
        Some(q) => q,
        None => i64::MIN,
    }
}

/// The Euclidean remainder, 0 on the single overflowing case (which is also
/// its mathematical value).
fn mod_euclid(b: i64, a: i64) -> (r: i64)
    requires
        a != 0,
    ensures
        r == euclid_mod_i64(b, a),
{
    proof {
        let x = b as int;
        let d = a as int;
        if d > 0 {
            vstd::arithmetic::div_mod::lemma_mod_division_less_than_divisor(x, d);
        }
    }
    match b.checked_rem_euclid(a) {
        Some(r) => r,
        None => 0,
    }
}

/// The number of clockwise quarter turns the Pointer instruction performs for
/// a popped value: its residue modulo four.
pub open spec fn pointer_turns(a: i64) -> nat {
    ((a as int) % 4) as nat
}

/// Whether the Switch instruction flips the codel chooser for a popped value:
/// exactly when the value is odd, negative odd values included.
pub open spec fn switch_flips(a: i64) -> bool {
    (a as int) % 2 == 1
}

/// The stack after rolling: with `rolls` and `depth` already popped and the
/// guards passed, the top `depth` entries of `s0` rotate toward the top by
/// `rolls` (negative `rolls` rotate away from the top).
pub open spec fn rolled_stack(s0: Seq<i64>, depth: int, rolls: int) -> Seq<i64>
    recommends
        0 < depth <= s0.len(),
{
    let m = s0.len() as int;
    let k = (depth - (rolls % depth)) % depth;
    s0.subrange(0, m - depth) + s0.subrange(m - depth + k, m) + s0.subrange(
        m - depth,
        m - depth + k,
    )
}

/// The machine-visible result of one instruction: the new stack, the new
/// pointers, the bytes written, and any input request.
pub struct ExecOutcome {
    pub stack: Seq<i64>,
    pub dp: DirectionPointer,
    pub cc: CodelChooser,
    pub output: Seq<u8>,
    pub request: Option<InputRequest>,
}

/// An outcome that only replaces the stack.
pub open spec fn stack_only(stack: Seq<i64>, dp: DirectionPointer, cc: CodelChooser) -> ExecOutcome {
    ExecOutcome { stack, dp, cc, output: Seq::empty(), request: None }
}

/// The exact semantics of every instruction: an
/// instruction whose preconditions fail leaves the stack exactly as it was.
/// `a` names the topmost value, `b` the second.
pub open spec fn spec_execute(
    cmd: Command,
    stack: Seq<i64>,
    dp: DirectionPointer,
    cc: CodelChooser,
    block_size: usize,
) -> ExecOutcome {
    let n = stack.len() as int;
    let a = stack[n - 1];
    let b = stack[n - 2];
    let rest1 = stack.subrange(0, n - 1);
    let rest2 = stack.subrange(0, n - 2);
    match cmd {
        Command::Push => stack_only(stack.push(block_size as i64), dp, cc),
        Command::Pop => if n == 0 {
            stack_only(stack, dp, cc)
        } else {
            stack_only(rest1, dp, cc)
        },
        Command::Add => if n < 2 {
            stack_only(stack, dp, cc)
        } else {
            stack_only(rest2.push(b.wrapping_add(a)), dp, cc)
        },
        Command::Subtract => if n < 2 {
            stack_only(stack, dp, cc)
        } else {
            stack_only(rest2.push(b.wrapping_sub(a)), dp, cc)
        },
        Command::Multiply => if n < 2 {
            stack_only(stack, dp, cc)
        } else {
            stack_only(rest2.push(b.wrapping_mul(a)), dp, cc)
        },
        Command::Divide => if n < 2 || a == 0 {
            stack_only(stack, dp, cc)
        } else {
            stack_only(rest2.push(wrap_trunc_div_i64(b, a)), dp, cc)
        },
        Command::Mod => if n < 2 || a == 0 {
            stack_only(stack, dp, cc)
        } else {
            stack_only(rest2.push(euclid_mod_i64(b, a)), dp, cc)
        },
        Command::Not => if n == 0 {
            stack_only(stack, dp, cc)
        } else {
            stack_only(rest1.push(if a == 0 { 1i64 } else { 0i64 }), dp, cc)
        },
        Command::Greater => if n < 2 {
            stack_only(stack, dp, cc)
        } else {
            stack_only(rest2.push(if b > a { 1i64 } else { 0i64 }), dp, cc)
        },
        Command::Pointer => if n == 0 {
            stack_only(stack, dp, cc)
        } else {
            stack_only(rest1, rotated_cw(dp, pointer_turns(a)), cc)
        },
        Command::Switch => if n == 0 {
            stack_only(stack, dp, cc)
        } else {
            stack_only(rest1, dp, if switch_flips(a) { flipped(cc) } else { cc })
        },
        Command::Duplicate => if n == 0 {
            stack_only(stack, dp, cc)
        } else {
            stack_only(stack.push(a), dp, cc)
        },
        Command::Roll => if n < 2 || b <= 0 || n - 2 < b {
            stack_only(stack, dp, cc)
        } else {
            stack_only(rolled_stack(rest2, b as int, a as int), dp, cc)
        },
        Command::InNumber => ExecOutcome {
            stack,
            dp,
            cc,
            output: Seq::empty(),
            request: Some(InputRequest::NumberLine),
        },
        Command::InChar => ExecOutcome {
            stack,
            dp,
            cc,
            output: Seq::empty(),
            request: Some(InputRequest::Byte),
        },
        Command::OutNumber => if n == 0 {
            stack_only(stack, dp, cc)
        } else {
            ExecOutcome { stack: rest1, dp, cc, output: dec_bytes(a), request: None }
        },
        Command::OutChar => if n == 0 || !is_unicode_scalar(a as int) {
            stack_only(stack, dp, cc)
        } else {
            ExecOutcome { stack: rest1, dp, cc, output: utf8_bytes(a as int), request: None }
        },
    }
}

impl Command {
    /// Execute one instruction against the stack and the two pointers.
    /// `block_size` is the codel count of the region the machine is leaving,
    /// which is what Push pushes.  Returns the bytes written and any input
    /// request; instructions whose preconditions fail leave everything
    /// unchanged.
    pub fn execute(
        &self,
        stack: &mut Vec<i64>,
        dp: &mut DirectionPointer,
        cc: &mut CodelChooser,
        block_size: usize,
    ) -> (eff: CommandEffect)
        ensures
            ({
                let o = spec_execute(*self, old(stack)@, *old(dp), *old(cc), block_size);
                &&& final(stack)@ == o.stack
                &&& *final(dp) == o.dp
                &&& *final(cc) == o.cc
                &&& eff.output@ == o.output
                &&& eff.request == o.request
            }),
    {
        let quiet = CommandEffect { output: Vec::new(), request: None };
        match self {
            Command::Push => {
                let v: i64 = #[verifier::truncate] (block_size as i64);
                stack.push(v);
                quiet
            },
            Command::Pop => {
                let popped = stack.pop();
                proof {
                    if popped is Some {
                        assert(stack@ =~= old(stack)@.subrange(0, old(stack)@.len() - 1));
                    }
                }
                quiet
            },
            Command::Duplicate => {
                if stack.len() > 0 {
                    let a = stack[stack.len() - 1];
                    stack.push(a);
                }
                quiet
            },
            Command::Add => {
                if stack.len() >= 2 {
                    let a = stack.pop().unwrap();
                    let b = stack.pop().unwrap();
                    stack.push(b.wrapping_add(a));
                    proof {
                        assert(stack@ =~= old(stack)@.subrange(0, old(stack)@.len() - 2).push(
                            stack@[stack@.len() - 1],
                        ));
                    }
                }
                quiet
            },
            Command::Subtract => {
                if stack.len() >= 2 {
                    let a = stack.pop().unwrap();
                    let b = stack.pop().unwrap();
                    stack.push(b.wrapping_sub(a));
                    proof {
                        assert(stack@ =~= old(stack)@.subrange(0, old(stack)@.len() - 2).push(
                            stack@[stack@.len() - 1],
                        ));
                    }
                }
                quiet
            },
            Command::Multiply => {
                if stack.len() >= 2 {
                    let a = stack.pop().unwrap();
                    let b = stack.pop().unwrap();
                    stack.push(b.wrapping_mul(a));
                    proof {
                        assert(stack@ =~= old(stack)@.subrange(0, old(stack)@.len() - 2).push(
                            stack@[stack@.len() - 1],
                        ));
                    }
                }
                quiet
            },
            Command::Divide => {
                if stack.len() >= 2 {
                    let a = stack[stack.len() - 1];
                    if a != 0 {
                        let b = stack[stack.len() - 2];
                        let q = div_wrapped(b, a);
                        stack.pop();
                        stack.pop();
                        stack.push(q);
                        proof {
                            assert(stack@ =~= old(stack)@.subrange(
                                0,
                                old(stack)@.len() - 2,
                            ).push(stack@[stack@.len() - 1]));
                        }
                    }
                }
                quiet
            },
            Command::Mod => {
                if stack.len() >= 2 {
                    let a = stack[stack.len() - 1];
                    if a != 0 {
                        let b = stack[stack.len() - 2];
                        let r = mod_euclid(b, a);
                        stack.pop();
                        stack.pop();
                        stack.push(r);
                        proof {
                            assert(stack@ =~= old(stack)@.subrange(
                                0,
                                old(stack)@.len() - 2,
                            ).push(stack@[stack@.len() - 1]));
                        }
                    }
                }
                quiet
            },
            Command::Not => {
                match stack.pop() {
                    Some(a) => {
                        stack.push(if a == 0 { 1 } else { 0 });
                    },
                    None => {},
                }
                quiet
            },
            Command::Greater => {
                if stack.len() >= 2 {
                    let a = stack.pop().unwrap();
                    let b = stack.pop().unwrap();
                    stack.push(if b > a { 1 } else { 0 });
                    proof {
                        assert(stack@ =~= old(stack)@.subrange(0, old(stack)@.len() - 2).push(
                            stack@[stack@.len() - 1],
                        ));
                    }
                }
                quiet
            },
            Command::Pointer => {
                match stack.pop() {
                    Some(a) => {
                        let r = a % 4;
                        proof {
                            if a < 0 {
                                lemma_mod_of_negative(a as int, 4);
                            }
                        }
                        let turns: u32 = if r < 0 {
                            (r + 4) as u32
                        } else {
                            r as u32
                        };
                        assert(turns as nat == pointer_turns(a));
                        turn_direction_pointer(dp, turns);
                    },
                    None => {},
                }
                quiet
            },
            Command::Switch => {
                match stack.pop() {
                    Some(a) => {
                        let r = a % 2;
                        proof {
                            if a < 0 {
                                lemma_mod_of_negative(a as int, 2);
                            }
                        }
                        assert((r != 0) == switch_flips(a));
                        if r != 0 {
                            *cc = match cc {
                                CodelChooser::Left => CodelChooser::Right,
                                CodelChooser::Right => CodelChooser::Left,
                            };
                        }
                    },
                    None => {},
                }
                quiet
            },
            Command::Roll => {
                roll(stack);
                quiet
            },
            Command::InNumber => CommandEffect {
                output: Vec::new(),
                request: Some(InputRequest::NumberLine),
            },
            Command::InChar => CommandEffect { output: Vec::new(), request: Some(InputRequest::Byte) },
            Command::OutNumber => {
                match stack.pop() {
                    Some(a) => {
                        let mut out: Vec<u8> = Vec::new();
                        push_dec_i64(&mut out, a);
                        CommandEffect { output: out, request: None }
                    },
                    None => quiet,
                }
            },
            Command::OutChar => {
                match stack.pop() {
                    Some(a) => {
                        if check_unicode_scalar(a) {
                            let mut out: Vec<u8> = Vec::new();
                            push_utf8(&mut out, a as u32);
                            CommandEffect { output: out, request: None }
                        } else {
                            stack.push(a);
                            proof {
                                assert(stack@ =~= old(stack)@);
                            }
                            quiet
                        }
                    },
                    None => quiet,
                }
            },
        }
    }
}

/// The Roll instruction: pop `rolls` and `depth`; when `depth` is positive
/// and the remaining stack is at least `depth` deep, rotate the top `depth`
/// entries toward the top by `rolls`; otherwise leave the stack untouched.
fn roll(stack: &mut Vec<i64>)
    ensures
        ({
            let n = old(stack)@.len() as int;
            let a = old(stack)@[n - 1];
            let b = old(stack)@[n - 2];
            if n < 2 || b <= 0 || n - 2 < b {
                final(stack)@ == old(stack)@
            } else {
                final(stack)@ == rolled_stack(old(stack)@.subrange(0, n - 2), b as int, a as int)
            }
        }),
{
    let n = stack.len();
    if n < 2 {
        return;
    }
    let rolls = stack[n - 1];
    let depth = stack[n - 2];
    if depth <= 0 {
        return;
    }
    if (depth as u64) > ((n - 2) as u64) {
        return;
    }
    let d = depth as usize;
    let m = n - 2;
    let r = rolls % depth;
    let k: usize = if r > 0 {
        d - (r as usize)
    } else {
        (-r) as usize
    };
    proof {
        let dd = depth as int;
        let em = (rolls as int) % dd;
        vstd::arithmetic::div_mod::lemma_mod_division_less_than_divisor(rolls as int, dd);
        vstd::arithmetic::div_mod::lemma_mod_self_0(dd);
        if rolls < 0 {
            lemma_mod_of_negative(rolls as int, dd);
            vstd::arithmetic::div_mod::lemma_mod_division_less_than_divisor(-(rolls as int), dd);
        }
        if 0 < dd - em < dd {
            vstd::arithmetic::div_mod::lemma_small_mod((dd - em) as nat, dd as nat);
        }
        if em == 0 {
            assert((dd - em) % dd == 0);
        }
        assert(k as int == (dd - em) % dd);
    }
    let ghost s0 = stack@.subrange(0, m as int);
    let mut rolled: Vec<i64> = Vec::new();
    let mut j: usize = 0;
    while j < m - d
        invariant
            m - d <= stack@.len(),
            rolled@ == stack@.subrange(0, j as int),
            0 <= j <= m - d,
        decreases m - d - j,
    {
        rolled.push(stack[j]);
        proof {
            assert(rolled@ =~= stack@.subrange(0, j as int + 1));
        }
        j = j + 1;
    }
    let mut j: usize = m - d + k;
    while j < m
        invariant
            k < d <= m <= stack@.len(),
            m - d + k <= j <= m,
            rolled@ == stack@.subrange(0, (m - d) as int) + stack@.subrange(
                (m - d + k) as int,
                j as int,
            ),
        decreases m - j,
    {
        rolled.push(stack[j]);
        proof {
            assert(rolled@ =~= stack@.subrange(0, (m - d) as int) + stack@.subrange(
                (m - d + k) as int,
                j as int + 1,
            ));
        }
        j = j + 1;
    }
    let mut j: usize = m - d;
    while j < m - d + k
        invariant
            k < d <= m <= stack@.len(),
            m - d <= j <= m - d + k,
            rolled@ == stack@.subrange(0, (m - d) as int) + stack@.subrange(
                (m - d + k) as int,
                m as int,
            ) + stack@.subrange((m - d) as int, j as int),
        decreases m - d + k - j,
    {
        rolled.push(stack[j]);
        proof {
            assert(rolled@ =~= stack@.subrange(0, (m - d) as int) + stack@.subrange(
                (m - d + k) as int,
                m as int,
            ) + stack@.subrange((m - d) as int, j as int + 1));
        }
        j = j + 1;
    }
    proof {
        assert(s0.subrange(0, (m - d) as int) =~= stack@.subrange(0, (m - d) as int));
        assert(s0.subrange((m - d + k) as int, m as int) =~= stack@.subrange(
            (m - d + k) as int,
            m as int,
        ));
        assert(s0.subrange((m - d) as int, (m - d + k) as int) =~= stack@.subrange(
            (m - d) as int,
            (m - d + k) as int,
        ));
    }
    *stack = rolled;
}

} // verus!
