//! The abstract tape machine: the mathematical semantics the engine is
//! verified against.
//!
//! A [`MachineState`] holds the tape, both pointers, the input queue, the
//! output sequence and the loop stack as mathematical values. [`step`] gives
//! the meaning of one fetch-execute step, [`run_fuel`] iterates it until the
//! instruction pointer leaves the sequence or a step fails. The engine's
//! `eval` promises that its result and final state are exactly what
//! `run_fuel` yields for some number of steps.

use vstd::prelude::*;

use crate::EvalError;
use crate::instractions::Instractions;

verus! {

/// The whole state of the machine between two steps, over mathematical
/// values.
pub ghost struct MachineState {
    /// The tape: a fixed-length sequence of byte cells.
    pub memory: Seq<u8>,
    /// Index of the cell the value instructions act on.
    pub memory_pointer: int,
    /// Index of the next instruction to execute; equal to the sequence
    /// length exactly when the run has terminated normally.
    pub instruction_pointer: int,
    /// Bytes not yet consumed by input instructions, front first.
    pub input: Seq<u8>,
    /// Characters produced so far, oldest first.
    pub output: Seq<char>,
    /// Entry positions of the loops currently open, outermost first.
    pub loop_stack: Seq<int>,
}

impl MachineState {
    /// The state a run starts from: a zeroed tape of `cells` cells, both
    /// pointers at zero, the given input, nothing produced, no open loop.
    pub open spec fn initial(cells: nat, input: Seq<u8>) -> MachineState {
        MachineState {
            memory: Seq::new(cells, |i: int| 0u8),
            memory_pointer: 0,
            instruction_pointer: 0,
            input,
            output: Seq::empty(),
            loop_stack: Seq::empty(),
        }
    }

    /// Well-formedness with respect to an instruction sequence: both
    /// pointers in range, and every recorded loop entry a valid position.
    pub open spec fn inv(self, code: Seq<Instractions>) -> bool {
        &&& 0 <= self.memory_pointer < self.memory.len()
        &&& 0 <= self.instruction_pointer <= code.len()
        &&& forall|k: int|
            0 <= k < self.loop_stack.len() ==> 0 <= #[trigger] self.loop_stack[k] < code.len()
    }
}

/// Position of the loop end matching the loop begin a forward scan started
/// at, or `None` if the sequence ends first. `i` is the scan position and
/// `depth` the number of loop begins passed and not yet closed; the scan is
/// seeded at the begin itself with `depth == 0`, and the match is the end
/// that would bring the depth back to zero. The scan is a pure function of
/// the sequence: it reads no machine state and in particular never touches
/// the real loop stack.
pub open spec fn find_match_from(code: Seq<Instractions>, i: int, depth: int) -> Option<int>
    decreases code.len() - i,
{
    if i < 0 || i >= code.len() {
        None
    } else if code[i] == Instractions::EndLoop && depth == 1 {
        Some(i)
    } else if code[i] == Instractions::EndLoop {
        find_match_from(code, i + 1, depth - 1)
    } else if code[i] == Instractions::BeginLoop {
        find_match_from(code, i + 1, depth + 1)
    } else {
        find_match_from(code, i + 1, depth)
    }
}

/// A found match lies within the sequence, at or after the scan position,
/// and is a loop end.
pub proof fn lemma_find_match_in_range(code: Seq<Instractions>, i: int, depth: int)
    requires
        find_match_from(code, i, depth) is Some,
    ensures
        i <= find_match_from(code, i, depth)->Some_0 < code.len(),
        code[find_match_from(code, i, depth)->Some_0] == Instractions::EndLoop,
    decreases code.len() - i,
{
    let j = find_match_from(code, i, depth)->Some_0;
    if !(code[i] == Instractions::EndLoop && depth == 1) {
        if code[i] == Instractions::EndLoop {
            lemma_find_match_in_range(code, i + 1, depth - 1);
        } else if code[i] == Instractions::BeginLoop {
            lemma_find_match_in_range(code, i + 1, depth + 1);
        } else {
            lemma_find_match_in_range(code, i + 1, depth);
        }
    }
}

/// One fetch-execute step at `s.instruction_pointer`. Returns the error, if
/// the step fails, together with the follow-on state; a failing step leaves
/// the state unchanged, so the engine's concrete state matches it field for
/// field. The forced post-dispatch increment of the instruction pointer is
/// part of the step, which is why a jump targets the position *before* the
/// one execution resumes at. A loop begin over a nonzero cell opens the
/// loop, recording its entry for the matching end to pop; over a zero cell
/// it skips past the matching end and the loop is never opened, so the
/// stack holds exactly one entry per currently open loop.
pub open spec fn step(code: Seq<Instractions>, s: MachineState) -> (Option<EvalError>,
    MachineState) {
    let ip = s.instruction_pointer;
    let cell = s.memory[s.memory_pointer];
    match code[ip] {
        Instractions::PtrIncr => if s.memory_pointer + 1 < s.memory.len() {
            (
                None,
                MachineState {
                    memory_pointer: s.memory_pointer + 1,
                    instruction_pointer: ip + 1,
                    ..s
                },
            )
        } else {
            (Some(EvalError::MemoryOverflow), s)
        },
        Instractions::PtrDecr => if s.memory_pointer >= 1 {
            (
                None,
                MachineState {
                    memory_pointer: s.memory_pointer - 1,
                    instruction_pointer: ip + 1,
                    ..s
                },
            )
        } else {
            (Some(EvalError::MemoryUnderflow), s)
        },
        Instractions::ValIncr => if cell < 255 {
            (
                None,
                MachineState {
                    memory: s.memory.update(s.memory_pointer, (cell + 1) as u8),
                    instruction_pointer: ip + 1,
                    ..s
                },
            )
        } else {
            (Some(EvalError::MemoryOutOfRange), s)
        },
        Instractions::ValDecr => if cell > 0 {
            (
                None,
                MachineState {
                    memory: s.memory.update(s.memory_pointer, (cell - 1) as u8),
                    instruction_pointer: ip + 1,
                    ..s
                },
            )
        } else {
            (Some(EvalError::MemoryOutOfRange), s)
        },
        Instractions::PutChar => (
            None,
            MachineState { output: s.output.push(cell as char), instruction_pointer: ip + 1, ..s },
        ),
        Instractions::GetChar => if s.input.len() > 0 {
            (
                None,
                MachineState {
                    memory: s.memory.update(s.memory_pointer, s.input.first()),
                    input: s.input.drop_first(),
                    instruction_pointer: ip + 1,
                    ..s
                },
            )
        } else {
            (Some(EvalError::InputExhausted), s)
        },
        Instractions::BeginLoop => if cell == 0 {
            match find_match_from(code, ip, 0) {
                Some(j) => (
                    None,
                    MachineState { instruction_pointer: j + 1, ..s },
                ),
                None => (Some(EvalError::UnbalancedBracket), s),
            }
        } else {
            (
                None,
                MachineState {
                    loop_stack: s.loop_stack.push(ip),
                    instruction_pointer: ip + 1,
                    ..s
                },
            )
        },
        Instractions::EndLoop => if s.loop_stack.len() == 0 {
            (Some(EvalError::UnbalancedBracket), s)
        } else if cell != 0 {
            (
                None,
                MachineState { instruction_pointer: s.loop_stack.last() + 1, ..s },
            )
        } else {
            (
                None,
                MachineState {
                    loop_stack: s.loop_stack.drop_last(),
                    instruction_pointer: ip + 1,
                    ..s
                },
            )
        },
        // A decoded program never contains `Nop`; were one present it would
        // do nothing.
        Instractions::Nop => (
            None,
            MachineState { instruction_pointer: ip + 1, ..s },
        ),
    }
}

/// A successful step preserves well-formedness.
pub proof fn lemma_step_preserves_inv(code: Seq<Instractions>, s: MachineState)
    requires
        s.inv(code),
        0 <= s.instruction_pointer < code.len(),
        step(code, s).0 is None,
    ensures
        step(code, s).1.inv(code),
        step(code, s).1.memory.len() == s.memory.len(),
{
    let ip = s.instruction_pointer;
    if code[ip] == Instractions::BeginLoop && s.memory[s.memory_pointer] == 0 {
        if find_match_from(code, ip, 0) is Some {
            lemma_find_match_in_range(code, ip, 0);
        }
    }
}

/// The run, as iterated stepping with a step budget: `None` while `fuel`
/// steps have not yet brought the machine to a halt, otherwise the result of
/// the run and the state it halted in. Reaching the end of the sequence is a
/// success exactly when no loop is still open; a failing step halts the run
/// at once. Since each step is deterministic, the halt result is the same
/// for every budget large enough to reach it.
pub open spec fn run_fuel(code: Seq<Instractions>, s: MachineState, fuel: nat) -> Option<
    (Result<(), EvalError>, MachineState),
>
    decreases fuel,
{
    if !(0 <= s.instruction_pointer < code.len()) {
        if s.loop_stack.len() == 0 {
            Some((Ok(()), s))
        } else {
            Some((Err(EvalError::UnbalancedBracket), s))
        }
    } else if fuel == 0 {
        None
    } else {
        match step(code, s) {
            (Some(e), t) => Some((Err(e), t)),
            (None, t) => run_fuel(code, t, (fuel - 1) as nat),
        }
    }
}

/// The state after exactly `n` successful steps, or `None` when the run
/// halts — normally or on a failing step — in fewer than `n`.
pub open spec fn advance(code: Seq<Instractions>, s: MachineState, n: nat) -> Option<MachineState>
    decreases n,
{
    if n == 0 {
        Some(s)
    } else if !(0 <= s.instruction_pointer < code.len()) {
        None
    } else {
        match step(code, s) {
            (Some(e), t) => None,
            (None, t) => advance(code, t, (n - 1) as nat),
        }
    }
}

/// A run of `n` successful steps followed by one more successful step is a
/// run of `n + 1` successful steps.
pub proof fn lemma_advance_extend(code: Seq<Instractions>, s: MachineState, n: nat, t: MachineState)
    requires
        advance(code, s, n) == Some(t),
        0 <= t.instruction_pointer < code.len(),
        step(code, t).0 is None,
    ensures
        advance(code, s, n + 1) == Some(step(code, t).1),
    decreases n,
{
    if n > 0 {
        let u = step(code, s).1;
        assert(advance(code, s, n) == advance(code, u, (n - 1) as nat));
        lemma_advance_extend(code, u, (n - 1) as nat, t);
        assert(advance(code, s, n + 1) == advance(code, u, n));
    } else {
        assert(s == t);
        assert(advance(code, s, n + 1) == advance(code, step(code, t).1, 0));
    }
}

/// A pointer increment executed at the last valid memory index fails with
/// `MemoryOverflow` and leaves the machine — the memory pointer included —
/// unchanged.
pub proof fn lemma_pointer_increment_at_last_cell_fails(code: Seq<Instractions>, s: MachineState)
    requires
        0 <= s.instruction_pointer < code.len(),
        code[s.instruction_pointer] == Instractions::PtrIncr,
        s.memory_pointer + 1 >= s.memory.len(),
    ensures
        step(code, s) == (Some(EvalError::MemoryOverflow), s),
{
}

/// A pointer decrement executed at memory index zero fails with
/// `MemoryUnderflow` and leaves the machine — the memory pointer included —
/// unchanged.
pub proof fn lemma_pointer_decrement_at_cell_zero_fails(code: Seq<Instractions>, s: MachineState)
    requires
        0 <= s.instruction_pointer < code.len(),
        code[s.instruction_pointer] == Instractions::PtrDecr,
        s.memory_pointer == 0,
    ensures
        step(code, s) == (Some(EvalError::MemoryUnderflow), s),
{
}

/// A value increment on a cell holding 255 fails with `MemoryOutOfRange`
/// and leaves the machine — the cell still holding 255 — unchanged.
pub proof fn lemma_value_increment_at_max_fails(code: Seq<Instractions>, s: MachineState)
    requires
        0 <= s.instruction_pointer < code.len(),
        code[s.instruction_pointer] == Instractions::ValIncr,
        s.memory[s.memory_pointer] == 255,
    ensures
        step(code, s) == (Some(EvalError::MemoryOutOfRange), s),
{
}

/// A value decrement on a cell holding 0 fails with `MemoryOutOfRange` and
/// leaves the machine — the cell still holding 0 — unchanged.
pub proof fn lemma_value_decrement_at_zero_fails(code: Seq<Instractions>, s: MachineState)
    requires
        0 <= s.instruction_pointer < code.len(),
        code[s.instruction_pointer] == Instractions::ValDecr,
        s.memory[s.memory_pointer] == 0,
    ensures
        step(code, s) == (Some(EvalError::MemoryOutOfRange), s),
{
}

/// An input instruction on an empty input queue fails with `InputExhausted`
/// and leaves the machine — the memory in particular — unchanged.
pub proof fn lemma_input_on_empty_queue_fails(code: Seq<Instractions>, s: MachineState)
    requires
        0 <= s.instruction_pointer < code.len(),
        code[s.instruction_pointer] == Instractions::GetChar,
        s.input.len() == 0,
    ensures
        step(code, s) == (Some(EvalError::InputExhausted), s),
{
}

/// A loop begin over a zero cell skips the whole body — nested loops
/// included — in a single step: the instruction pointer lands just past
/// the matching end, so no instruction inside the body executes, and
/// nothing else changes — not the tape, the pointers, the input, the
/// output, nor the loop stack: the skipped loop is never opened.
pub proof fn lemma_zero_guard_skips_body(code: Seq<Instractions>, s: MachineState)
    requires
        0 <= s.instruction_pointer < code.len(),
        code[s.instruction_pointer] == Instractions::BeginLoop,
        s.memory[s.memory_pointer] == 0,
        find_match_from(code, s.instruction_pointer, 0) is Some,
    ensures
        step(code, s) == (
            None::<EvalError>,
            MachineState {
                instruction_pointer: find_match_from(code, s.instruction_pointer, 0)->Some_0 + 1,
                ..s
            },
        ),
{
}

/// The same skip seen at the level of a whole run: executing from the loop
/// begin is executing from just past the matching end, one step later —
/// the run resumes directly at the instruction after the skipped loop.
pub proof fn lemma_zero_guard_skip_in_run(code: Seq<Instractions>, s: MachineState, fuel: nat)
    requires
        0 <= s.instruction_pointer < code.len(),
        code[s.instruction_pointer] == Instractions::BeginLoop,
        s.memory[s.memory_pointer] == 0,
        find_match_from(code, s.instruction_pointer, 0) is Some,
    ensures
        run_fuel(code, s, fuel + 1) == run_fuel(
            code,
            MachineState {
                instruction_pointer: find_match_from(code, s.instruction_pointer, 0)->Some_0 + 1,
                ..s
            },
            fuel,
        ),
{
    lemma_zero_guard_skips_body(code, s);
}

/// A program that opens a loop it never closes fails: on a fresh machine,
/// whatever the tape size and the input, the lone loop begin finds no
/// matching end and the run halts at once with `UnbalancedBracket`, the
/// machine otherwise untouched.
pub proof fn lemma_unmatched_begin_fails(cells: nat, input: Seq<u8>)
    requires
        cells > 0,
    ensures
        ({
            let code = seq![Instractions::BeginLoop];
            let s0 = MachineState::initial(cells, input);
            run_fuel(code, s0, 1) == Some(
                (Err::<(), EvalError>(EvalError::UnbalancedBracket), s0),
            )
        }),
{
    let code = seq![Instractions::BeginLoop];
    let s0 = MachineState::initial(cells, input);
    assert(s0.memory[0] == 0);
    assert(find_match_from(code, 1, 1) is None);
    assert(find_match_from(code, 0, 0) is None);
}

/// A balanced loop skipped over a zero guard closes cleanly: the empty
/// loop runs to successful completion, no loop left open at the end.
pub proof fn lemma_skipped_loop_leaves_no_open_loop(cells: nat, input: Seq<u8>)
    requires
        cells > 0,
    ensures
        ({
            let code = seq![Instractions::BeginLoop, Instractions::EndLoop];
            let s0 = MachineState::initial(cells, input);
            run_fuel(code, s0, 2) == Some(
                (Ok::<(), EvalError>(()), MachineState { instruction_pointer: 2, ..s0 }),
            )
        }),
{
    let code = seq![Instractions::BeginLoop, Instractions::EndLoop];
    let s0 = MachineState::initial(cells, input);
    let s1 = MachineState { instruction_pointer: 2, ..s0 };
    assert(s0.memory[0] == 0);
    assert(find_match_from(code, 1, 1) == Some(1int));
    assert(find_match_from(code, 0, 0) == Some(1int));
    assert(step(code, s0) == (None::<EvalError>, s1));
    assert(run_fuel(code, s1, 1) == Some((Ok::<(), EvalError>(()), s1)));
}

/// A stray loop end after a skipped loop still fails: the skip left no
/// stale entry behind, so the extra end finds no open loop to pop.
pub proof fn lemma_stray_end_after_skipped_loop_fails(cells: nat, input: Seq<u8>)
    requires
        cells > 0,
    ensures
        ({
            let code = seq![Instractions::BeginLoop, Instractions::EndLoop, Instractions::EndLoop];
            let s0 = MachineState::initial(cells, input);
            run_fuel(code, s0, 2) == Some(
                (
                    Err::<(), EvalError>(EvalError::UnbalancedBracket),
                    MachineState { instruction_pointer: 2, ..s0 },
                ),
            )
        }),
{
    let code = seq![Instractions::BeginLoop, Instractions::EndLoop, Instractions::EndLoop];
    let s0 = MachineState::initial(cells, input);
    let s1 = MachineState { instruction_pointer: 2, ..s0 };
    assert(s0.memory[0] == 0);
    assert(find_match_from(code, 1, 1) == Some(1int));
    assert(find_match_from(code, 0, 0) == Some(1int));
    assert(step(code, s0) == (None::<EvalError>, s1));
    assert(step(code, s1) == (Some(EvalError::UnbalancedBracket), s1));
    assert(run_fuel(code, s1, 1) == Some(
        (Err::<(), EvalError>(EvalError::UnbalancedBracket), s1),
    ));
}

/// A program that closes a loop it never opened fails: on a fresh machine,
/// whatever the tape size and the input, the lone loop end finds no open
/// loop to pop and the run halts at once with `UnbalancedBracket`, the
/// machine otherwise untouched.
pub proof fn lemma_lone_end_fails(cells: nat, input: Seq<u8>)
    requires
        cells > 0,
    ensures
        ({
            let code = seq![Instractions::EndLoop];
            let s0 = MachineState::initial(cells, input);
            run_fuel(code, s0, 1) == Some(
                (Err::<(), EvalError>(EvalError::UnbalancedBracket), s0),
            )
        }),
{
}

/// The round trip from a count to a character: a program of `n` value
/// increments followed by one output instruction, run on a fresh machine,
/// halts successfully having produced exactly one character, whose code is
/// `n`, with the cell holding `n` and every loop closed.
pub proof fn lemma_increment_then_output_round_trip(n: nat, cells: nat, input: Seq<u8>)
    requires
        n < 255,
        cells > 0,
    ensures
        ({
            let code = Seq::new(n, |i: int| Instractions::ValIncr).push(Instractions::PutChar);
            let s0 = MachineState::initial(cells, input);
            run_fuel(code, s0, n + 1) == Some(
                (
                    Ok::<(), EvalError>(()),
                    MachineState {
                        memory: s0.memory.update(0, n as u8),
                        instruction_pointer: n + 1 as int,
                        output: seq![((n as u8) as char)],
                        ..s0
                    },
                ),
            )
        }),
{
    let code = Seq::new(n, |i: int| Instractions::ValIncr).push(Instractions::PutChar);
    let s0 = MachineState::initial(cells, input);
    lemma_increment_run_tail(n, cells, input, 0);
    assert(s0.memory.update(0, 0u8) =~= s0.memory);
    assert(MachineState { memory: s0.memory.update(0, 0u8), instruction_pointer: 0, ..s0 }
        == s0);
    assert(s0.output.push((n as u8) as char) =~= seq![((n as u8) as char)]);
}

/// The tail of the increment-then-output run: with `k` increments already
/// applied and the pointer past them, the remaining `n - k` increments and
/// the final output instruction complete the run.
proof fn lemma_increment_run_tail(n: nat, cells: nat, input: Seq<u8>, k: nat)
    requires
        n < 255,
        cells > 0,
        k <= n,
    ensures
        ({
            let code = Seq::new(n, |i: int| Instractions::ValIncr).push(Instractions::PutChar);
            let s0 = MachineState::initial(cells, input);
            run_fuel(
                code,
                MachineState {
                    memory: s0.memory.update(0, k as u8),
                    instruction_pointer: k as int,
                    ..s0
                },
                ((n - k) + 1) as nat,
            ) == Some(
                (
                    Ok::<(), EvalError>(()),
                    MachineState {
                        memory: s0.memory.update(0, n as u8),
                        instruction_pointer: n + 1 as int,
                        output: s0.output.push((n as u8) as char),
                        ..s0
                    },
                ),
            )
        }),
    decreases n - k,
{
    let code = Seq::new(n, |i: int| Instractions::ValIncr).push(Instractions::PutChar);
    let s0 = MachineState::initial(cells, input);
    let sk = MachineState {
        memory: s0.memory.update(0, k as u8),
        instruction_pointer: k as int,
        ..s0
    };
    if k == n {
        let sf = MachineState {
            memory: s0.memory.update(0, n as u8),
            instruction_pointer: n + 1 as int,
            output: s0.output.push((n as u8) as char),
            ..s0
        };
        assert(code[k as int] == Instractions::PutChar);
        assert(step(code, sk) == (None::<EvalError>, sf));
        assert(run_fuel(code, sf, 0) == Some((Ok::<(), EvalError>(()), sf)));
    } else {
        let snext = MachineState {
            memory: s0.memory.update(0, (k + 1) as u8),
            instruction_pointer: k + 1 as int,
            ..s0
        };
        assert(code[k as int] == Instractions::ValIncr);
        assert(sk.memory[0] == k as u8);
        assert(s0.memory.update(0, k as u8).update(0, (k + 1) as u8) =~= s0.memory.update(
            0,
            (k + 1) as u8,
        ));
        assert(step(code, sk) == (None::<EvalError>, snext));
        lemma_increment_run_tail(n, cells, input, k + 1);
    }
}

/// The characters a countdown loop outputs: the codes `c`, `c - 1`, down
/// to `1`, in that order.
pub open spec fn countdown_chars(c: nat) -> Seq<char>
    decreases c,
{
    if c == 0 {
        Seq::empty()
    } else {
        seq![((c as u8) as char)] + countdown_chars((c - 1) as nat)
    }
}

/// The countdown program: set the cell to `n`, then loop {output the cell,
/// decrement it}, with the zero test at the loop end.
pub open spec fn countdown_program(n: nat) -> Seq<Instractions> {
    Seq::new(n, |i: int| Instractions::ValIncr) + seq![
        Instractions::BeginLoop,
        Instractions::PutChar,
        Instractions::ValDecr,
        Instractions::EndLoop,
    ]
}

/// Loop correctness: the countdown program over a cell set to `n` halts
/// successfully after exactly `n` iterations of the loop body — one output
/// per iteration, counting down from `n` to 1 — with the cell back at zero
/// and the loop stack empty.
pub proof fn lemma_countdown_loop_runs_n_iterations(n: nat, cells: nat, input: Seq<u8>)
    requires
        1 <= n <= 255,
        cells > 0,
    ensures
        ({
            let code = countdown_program(n);
            let s0 = MachineState::initial(cells, input);
            run_fuel(code, s0, (n + 1 + 3 * n) as nat) == Some(
                (
                    Ok::<(), EvalError>(()),
                    MachineState {
                        memory: s0.memory.update(0, 0u8),
                        instruction_pointer: n + 4 as int,
                        output: countdown_chars(n),
                        ..s0
                    },
                ),
            )
        }),
{
    let s0 = MachineState::initial(cells, input);
    lemma_countdown_increments(n, cells, input, 0);
    assert(s0.memory.update(0, 0u8) =~= s0.memory);
    assert(MachineState { memory: s0.memory.update(0, 0u8), instruction_pointer: 0, ..s0 }
        == s0);
}

/// The opening stretch of the countdown run: with `k` increments already
/// applied, the remaining increments raise the cell to `n`, the loop begin
/// opens the loop, and the body runs its `n` iterations to the end.
proof fn lemma_countdown_increments(n: nat, cells: nat, input: Seq<u8>, k: nat)
    requires
        1 <= n <= 255,
        cells > 0,
        k <= n,
    ensures
        ({
            let code = countdown_program(n);
            let s0 = MachineState::initial(cells, input);
            run_fuel(
                code,
                MachineState {
                    memory: s0.memory.update(0, k as u8),
                    instruction_pointer: k as int,
                    ..s0
                },
                ((n - k) + 1 + 3 * n) as nat,
            ) == Some(
                (
                    Ok::<(), EvalError>(()),
                    MachineState {
                        memory: s0.memory.update(0, 0u8),
                        instruction_pointer: n + 4 as int,
                        output: countdown_chars(n),
                        ..s0
                    },
                ),
            )
        }),
    decreases n - k,
{
    let code = countdown_program(n);
    let s0 = MachineState::initial(cells, input);
    let sk = MachineState {
        memory: s0.memory.update(0, k as u8),
        instruction_pointer: k as int,
        ..s0
    };
    assert(code.len() == n + 4);
    assert(sk.memory[0] == k as u8);
    if k == n {
        assert(code[n as int] == Instractions::BeginLoop);
        let sb = MachineState {
            memory: s0.memory.update(0, n as u8),
            instruction_pointer: n + 1 as int,
            output: s0.output,
            loop_stack: seq![n as int],
            ..s0
        };
        assert(sk.loop_stack.push(n as int) =~= seq![n as int]);
        assert(step(code, sk) == (None::<EvalError>, sb));
        assert(run_fuel(code, sk, ((n - k) + 1 + 3 * n) as nat) == run_fuel(
            code,
            sb,
            (3 * n) as nat,
        ));
        lemma_countdown_body(n, cells, input, n, s0.output);
        assert(s0.output + countdown_chars(n) =~= countdown_chars(n));
        assert(MachineState {
            memory: s0.memory.update(0, 0u8),
            instruction_pointer: n + 4 as int,
            output: s0.output + countdown_chars(n),
            ..s0
        } == (MachineState {
            memory: s0.memory.update(0, 0u8),
            instruction_pointer: n + 4 as int,
            output: countdown_chars(n),
            ..s0
        }));
    } else {
        assert(code[k as int] == Instractions::ValIncr);
        let sk1 = MachineState {
            memory: s0.memory.update(0, (k + 1) as u8),
            instruction_pointer: k + 1 as int,
            ..s0
        };
        assert(s0.memory.update(0, k as u8).update(0, (k + 1) as u8) =~= s0.memory.update(
            0,
            (k + 1) as u8,
        ));
        assert(step(code, sk) == (None::<EvalError>, sk1));
        assert(run_fuel(code, sk, ((n - k) + 1 + 3 * n) as nat) == run_fuel(
            code,
            sk1,
            ((n - (k + 1)) + 1 + 3 * n) as nat,
        ));
        lemma_countdown_increments(n, cells, input, k + 1);
    }
}

/// One loop pass per remaining count: from the body's first instruction
/// with the cell holding `c` and the loop open, the run outputs `c` down to
/// `1` — exactly `c` more iterations — closes the loop, and halts.
proof fn lemma_countdown_body(n: nat, cells: nat, input: Seq<u8>, c: nat, out: Seq<char>)
    requires
        1 <= n <= 255,
        cells > 0,
        1 <= c <= 255,
    ensures
        ({
            let code = countdown_program(n);
            let s0 = MachineState::initial(cells, input);
            run_fuel(
                code,
                MachineState {
                    memory: s0.memory.update(0, c as u8),
                    instruction_pointer: n + 1 as int,
                    output: out,
                    loop_stack: seq![n as int],
                    ..s0
                },
                (3 * c) as nat,
            ) == Some(
                (
                    Ok::<(), EvalError>(()),
                    MachineState {
                        memory: s0.memory.update(0, 0u8),
                        instruction_pointer: n + 4 as int,
                        output: out + countdown_chars(c),
                        ..s0
                    },
                ),
            )
        }),
    decreases c,
{
    let code = countdown_program(n);
    let s0 = MachineState::initial(cells, input);
    let bc = MachineState {
        memory: s0.memory.update(0, c as u8),
        instruction_pointer: n + 1 as int,
        output: out,
        loop_stack: seq![n as int],
        ..s0
    };
    assert(code.len() == n + 4);
    assert(code[n + 1 as int] == Instractions::PutChar);
    assert(code[n + 2 as int] == Instractions::ValDecr);
    assert(code[n + 3 as int] == Instractions::EndLoop);
    assert(bc.memory[0] == c as u8);

    let s_put = MachineState {
        instruction_pointer: n + 2 as int,
        output: out.push((c as u8) as char),
        ..bc
    };
    assert(step(code, bc) == (None::<EvalError>, s_put));

    let s_dec = MachineState {
        memory: s0.memory.update(0, (c - 1) as u8),
        instruction_pointer: n + 3 as int,
        ..s_put
    };
    assert(s_put.memory.update(0, ((c as u8) - 1) as u8) =~= s0.memory.update(0, (c - 1) as u8));
    assert(step(code, s_put) == (None::<EvalError>, s_dec));
    assert(s_dec.memory[0] == (c - 1) as u8);
    assert(run_fuel(code, bc, (3 * c) as nat) == run_fuel(code, s_put, (3 * c - 1) as nat));
    assert(run_fuel(code, s_put, (3 * c - 1) as nat) == run_fuel(code, s_dec, (3 * c - 2) as nat));

    if c == 1 {
        let s_end = MachineState {
            memory: s0.memory.update(0, 0u8),
            instruction_pointer: n + 4 as int,
            output: out.push((c as u8) as char),
            ..s0
        };
        assert(seq![n as int].drop_last() =~= s0.loop_stack);
        assert(step(code, s_dec) == (None::<EvalError>, s_end));
        assert(countdown_chars(0) =~= Seq::<char>::empty());
        assert(out + countdown_chars(c) =~= out.push((c as u8) as char));
        assert(s_end == (MachineState {
            memory: s0.memory.update(0, 0u8),
            instruction_pointer: n + 4 as int,
            output: out + countdown_chars(c),
            ..s0
        }));
        assert(run_fuel(code, s_dec, (3 * c - 2) as nat) == run_fuel(code, s_end, 0));
        assert(run_fuel(code, s_end, 0) == Some((Ok::<(), EvalError>(()), s_end)));
    } else {
        let s_next = MachineState {
            memory: s0.memory.update(0, (c - 1) as u8),
            instruction_pointer: n + 1 as int,
            output: out.push((c as u8) as char),
            loop_stack: seq![n as int],
            ..s0
        };
        assert(step(code, s_dec) == (None::<EvalError>, s_next));
        assert(run_fuel(code, s_dec, (3 * c - 2) as nat) == run_fuel(
            code,
            s_next,
            (3 * (c - 1)) as nat,
        ));
        lemma_countdown_body(n, cells, input, (c - 1) as nat, out.push((c as u8) as char));
        assert(out.push((c as u8) as char) + countdown_chars((c - 1) as nat) =~= out
            + countdown_chars(c));
    }
}

/// The run halts: some step budget suffices to reach normal termination or
/// a failing step. False exactly for the runs that go on forever.
pub open spec fn halts(code: Seq<Instractions>, s: MachineState) -> bool {
    exists|n: nat| run_fuel(code, s, n) is Some
}

/// Deterministic output from deterministic input: two budgets that both see
/// the run halt see the same result and the same final state, so the
/// outcome a run halts with is unique.
pub proof fn lemma_run_outcome_unique(code: Seq<Instractions>, s: MachineState, n1: nat, n2: nat)
    requires
        run_fuel(code, s, n1) is Some,
        run_fuel(code, s, n2) is Some,
    ensures
        run_fuel(code, s, n1) == run_fuel(code, s, n2),
{
    if n1 <= n2 {
        lemma_run_fuel_monotone(code, s, n1, n2);
    } else {
        lemma_run_fuel_monotone(code, s, n2, n1);
    }
}

/// Once the run has halted within some budget, any larger budget yields the
/// same outcome: stepping is deterministic and a halt is terminal.
pub proof fn lemma_run_fuel_monotone(code: Seq<Instractions>, s: MachineState, n: nat, m: nat)
    requires
        run_fuel(code, s, n) is Some,
        n <= m,
    ensures
        run_fuel(code, s, m) == run_fuel(code, s, n),
    decreases n,
{
    if 0 <= s.instruction_pointer < code.len() {
        match step(code, s) {
            (Some(e), t) => {},
            (None, t) => {
                lemma_run_fuel_monotone(code, t, (n - 1) as nat, (m - 1) as nat);
            },
        }
    }
}

} // verus!
