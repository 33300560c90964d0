//! The engine: owns the decoded instruction sequence and the machine state,
//! and runs the fetch-execute loop to completion or first error.

use vstd::prelude::*;

use std::collections::VecDeque;

use crate::EvalError;
use crate::instractions::Instractions;
use crate::instractions::spec_decode_program;
use crate::machine::MachineState;
use crate::machine::advance;
use crate::machine::find_match_from;
use crate::machine::lemma_advance_extend;
use crate::machine::halts;
use crate::machine::lemma_find_match_in_range;
use crate::machine::lemma_run_fuel_monotone;
use crate::machine::lemma_step_preserves_inv;
use crate::machine::run_fuel;
use crate::machine::step;

verus! {

/// Number of byte cells on the tape.
pub const MEMORY_CELLS: usize = 256;

/// What a character of the input text contributes to the input queue: its
/// low eight bits.
pub open spec fn input_byte(c: char) -> u8 {
    (c as u32) as u8
}

/// The engine. Built once per run from a source text and an input text;
/// mutated only by its own execution; discarded after the caller has read
/// [`Self::output_buffer`].
pub struct Interpreter {
    memory: Vec<u8>,
    instructions: Vec<Instractions>,
    memory_pointer: usize,
    instruction_pointer: usize,
    input_buffer: VecDeque<u8>,
    /// The characters produced so far, oldest first. Readable after `eval`
    /// whether it succeeded or failed: partial output is intentional.
    pub output_buffer: Vec<char>,
    loop_stack: Vec<usize>,
}

impl Interpreter {
    /// The instruction sequence the engine executes.
    pub closed spec fn instructions(self) -> Seq<Instractions> {
        self.instructions@
    }

    /// The engine's state as a value of the abstract machine.
    pub closed spec fn state(self) -> MachineState {
        MachineState {
            memory: self.memory@,
            memory_pointer: self.memory_pointer as int,
            instruction_pointer: self.instruction_pointer as int,
            input: self.input_buffer@,
            output: self.output_buffer@,
            loop_stack: self.loop_stack@.map_values(|v: usize| v as int),
        }
    }

    /// A well-formed engine: the abstract state is well-formed for the
    /// instruction sequence and the tape has its fixed capacity.
    pub open spec fn wf(self) -> bool {
        &&& self.state().inv(self.instructions())
        &&& self.state().memory.len() == MEMORY_CELLS
    }

    /// The produced output, tied to the model: the returned buffer is the
    /// `output_buffer` field itself, and its view is exactly the abstract
    /// state's output sequence — so what a caller reads here is what the
    /// contracts over [`Self::state`] say was produced.
    pub fn output(&self) -> (r: &Vec<char>)
        ensures
            r@ == self.state().output,
    {
        &self.output_buffer
    }

    /// Parse the source text into the instruction sequence, ignoring
    /// unrecognized symbols, and return a new engine: zeroed tape, both
    /// pointers at zero, the input text queued byte by byte, nothing
    /// produced, no open loop. Any pair of texts is accepted; construction
    /// never fails.
    pub fn new(source: &str, buffer: String) -> (r: Self)
        ensures
            r.wf(),
            r.instructions() == spec_decode_program(source@),
            r.state() == MachineState::initial(
                MEMORY_CELLS as nat,
                buffer@.map_values(|c: char| input_byte(c)),
            ),
    {
        let mut instructions: Vec<Instractions> = Vec::new();
        let n = source.unicode_len();
        for i in 0..n
            invariant
                n == source@.len(),
                instructions@ == spec_decode_program(source@.take(i as int)),
        {
            let c = source.get_char(i);
            let instruction = Instractions::from(c);
            proof {
                assert(source@.take(i + 1).drop_last() =~= source@.take(i as int));
                assert(source@.take(i + 1).last() == source@[i as int]);
            }
            if !matches!(instruction, Instractions::Nop) {
                instructions.push(instruction);
            }
        }
        proof {
            assert(source@.take(n as int) =~= source@);
        }

        let input_str = buffer.as_str();
        let m = input_str.unicode_len();
        let mut input_buffer: VecDeque<u8> = VecDeque::new();
        for i in 0..m
            invariant
                m == buffer@.len(),
                input_str@ == buffer@,
                input_buffer@ == buffer@.take(i as int).map_values(|c: char| input_byte(c)),
        {
            let c = input_str.get_char(i);
            let code: u32 = c as u32;
            input_buffer.push_back(code as u8);
            proof {
                assert(buffer@.take(i + 1).map_values(|c: char| input_byte(c)) =~= buffer@.take(
                    i as int,
                ).map_values(|c: char| input_byte(c)).push(input_byte(buffer@[i as int])));
            }
        }
        proof {
            assert(buffer@.take(m as int) =~= buffer@);
        }

        let mut memory: Vec<u8> = Vec::new();
        let mut k: usize = 0;
        while k < MEMORY_CELLS
            invariant
                k <= MEMORY_CELLS,
                memory@ =~= Seq::new(k as nat, |i: int| 0u8),
            decreases MEMORY_CELLS - k,
        {
            memory.push(0);
            k = k + 1;
        }

        let r = Self {
            memory,
            instructions,
            memory_pointer: 0,
            instruction_pointer: 0,
            input_buffer,
            output_buffer: Vec::new(),
            loop_stack: Vec::new(),
        };
        proof {
            assert(r.state().loop_stack =~= Seq::<int>::empty());
            assert(r.state() == MachineState::initial(
                MEMORY_CELLS as nat,
                buffer@.map_values(|c: char| input_byte(c)),
            ));
        }
        r
    }

    /// Run the fetch-execute loop until the instruction pointer leaves the
    /// sequence or a step fails. The result and the final state are exactly
    /// what the abstract machine yields after some number of steps from the
    /// starting state: success exactly when the whole sequence ran with no
    /// failing step and no loop left open, otherwise the first error, with
    /// everything produced up to that point still readable.
    ///
    /// Proof callers must know that the run halts, since this loop carries a
    /// termination measure: the remaining distance to the halt. A caller
    /// that cannot show a halt uses [`Self::eval_fuel`] with a step budget
    /// of its choosing, as a run without a bound can go on forever.
    #[verifier::loop_isolation(false)]
    pub fn eval(&mut self) -> (r: Result<(), EvalError>)
        requires
            old(self).wf(),
            halts(old(self).instructions(), old(self).state()),
        ensures
            final(self).wf(),
            final(self).instructions() == old(self).instructions(),
            exists|n: nat|
                run_fuel(old(self).instructions(), old(self).state(), n) == Some(
                    (r, final(self).state()),
                ),
            r is Ok ==> final(self).state().instruction_pointer == old(self).instructions().len() && final(self).state().loop_stack.len() == 0,
    {
        let ghost code = self.instructions@;
        let ghost init = self.state();
        let ghost mut steps: nat = 0;
        let ghost bound: nat = choose|n: nat| run_fuel(code, init, n) is Some;

        while self.instruction_pointer < self.instructions.len()
            invariant
                self.wf(),
                self.instructions@ == code,
                run_fuel(code, init, bound) is Some,
                steps <= bound,
                forall|m: nat|
                    run_fuel(code, init, steps + m) == #[trigger] run_fuel(code, self.state(), m),
            decreases bound - steps,
        {
            proof {
                if steps >= bound {
                    lemma_run_fuel_monotone(code, init, bound, steps);
                    assert(run_fuel(code, init, steps + 0) == run_fuel(code, self.state(), 0));
                    assert(false);
                }
            }
            let ghost pre = self.state();
            match self.step_once() {
                Err(e) => {
                    proof {
                        assert(run_fuel(code, pre, 1) == Some(
                            (Err::<(), EvalError>(e), self.state()),
                        ));
                        assert(run_fuel(code, init, steps + 1) == run_fuel(code, pre, 1));
                    }
                    return Err(e);
                },
                Ok(()) => {},
            }
            proof {
                assert forall|m: nat|
                    run_fuel(code, init, (steps + 1) + m) == #[trigger] run_fuel(
                        code,
                        self.state(),
                        m,
                    ) by {
                    assert(run_fuel(code, init, steps + (m + 1)) == run_fuel(code, pre, m + 1));
                    assert(run_fuel(code, pre, m + 1) == run_fuel(code, self.state(), m));
                };
                steps = steps + 1;
            }
        }

        if self.loop_stack.len() != 0 {
            proof {
                assert(run_fuel(code, init, steps + 0) == run_fuel(code, self.state(), 0));
                assert(run_fuel(code, self.state(), 0) == Some(
                    (Err::<(), EvalError>(EvalError::UnbalancedBracket), self.state()),
                ));
            }
            return Err(EvalError::UnbalancedBracket);
        }
        proof {
            assert(run_fuel(code, init, steps + 0) == run_fuel(code, self.state(), 0));
            assert(run_fuel(code, self.state(), 0) == Some((Ok::<(), EvalError>(()), self.state())));
        }
        Ok(())
    }

    /// Run the fetch-execute loop for at most `fuel` steps. Unlike
    /// [`Self::eval`] this never needs a halting argument: it returns
    /// `Some` with the run's result once the machine halts within the
    /// budget, and `None` with the machine left exactly `fuel` steps
    /// further along when it does not — so a caller can keep going, or
    /// give a runaway program up, at its own choosing.
    #[verifier::loop_isolation(false)]
    pub fn eval_fuel(&mut self, fuel: u64) -> (finished: Option<Result<(), EvalError>>)
        requires
            old(self).wf(),
        ensures
            final(self).wf(),
            final(self).instructions() == old(self).instructions(),
            match finished {
                Some(r) => exists|n: nat|
                    n <= fuel && run_fuel(old(self).instructions(), old(self).state(), n) == Some(
                        (r, final(self).state()),
                    ),
                None => run_fuel(old(self).instructions(), old(self).state(), fuel as nat)
                    is None && advance(old(self).instructions(), old(self).state(), fuel as nat)
                    == Some(final(self).state()) && forall|m: nat|
                    run_fuel(old(self).instructions(), old(self).state(), fuel as nat + m) == #[trigger] run_fuel(
                        old(self).instructions(),
                        final(self).state(),
                        m,
                    ),
            },
    {
        let ghost code = self.instructions@;
        let ghost init = self.state();
        let mut used: u64 = 0;

        while used < fuel && self.instruction_pointer < self.instructions.len()
            invariant
                self.wf(),
                self.instructions@ == code,
                used <= fuel,
                advance(code, init, used as nat) == Some(self.state()),
                forall|m: nat|
                    run_fuel(code, init, used as nat + m) == #[trigger] run_fuel(code, self.state(), m),
            decreases fuel - used,
        {
            let ghost pre = self.state();
            match self.step_once() {
                Err(e) => {
                    proof {
                        assert(run_fuel(code, pre, 1) == Some(
                            (Err::<(), EvalError>(e), self.state()),
                        ));
                        assert(run_fuel(code, init, used as nat + 1) == run_fuel(code, pre, 1));
                    }
                    return Some(Err(e));
                },
                Ok(()) => {},
            }
            proof {
                lemma_advance_extend(code, init, used as nat, pre);
                assert forall|m: nat|
                    run_fuel(code, init, (used as nat + 1) + m) == #[trigger] run_fuel(
                        code,
                        self.state(),
                        m,
                    ) by {
                    assert(run_fuel(code, init, used as nat + (m + 1)) == run_fuel(code, pre, m + 1));
                    assert(run_fuel(code, pre, m + 1) == run_fuel(code, self.state(), m));
                };
            }
            used = used + 1;
        }

        if self.instruction_pointer < self.instructions.len() {
            // The budget ran out first: the machine is still running.
            proof {
                assert(run_fuel(code, init, fuel as nat) == run_fuel(code, self.state(), 0));
            }
            return None;
        }
        if self.loop_stack.len() != 0 {
            proof {
                assert(run_fuel(code, init, used as nat) == run_fuel(code, self.state(), 0));
                assert(run_fuel(code, self.state(), 0) == Some(
                    (Err::<(), EvalError>(EvalError::UnbalancedBracket), self.state()),
                ));
            }
            return Some(Err(EvalError::UnbalancedBracket));
        }
        proof {
            assert(run_fuel(code, init, used as nat) == run_fuel(code, self.state(), 0));
            assert(run_fuel(code, self.state(), 0) == Some((Ok::<(), EvalError>(()), self.state())));
        }
        Some(Ok(()))
    }

    /// One fetch-execute cycle: dispatch on the current instruction, then
    /// apply the forced post-dispatch increment of the instruction pointer —
    /// also after a jump has already moved it, which is why jumps target the
    /// position before the one execution resumes at. The outcome is exactly
    /// one abstract [`step`].
    fn step_once(&mut self) -> (r: Result<(), EvalError>)
        requires
            old(self).wf(),
            old(self).state().instruction_pointer < old(self).instructions().len(),
        ensures
            final(self).wf(),
            final(self).instructions() == old(self).instructions(),
            match r {
                Ok(()) => step(old(self).instructions(), old(self).state()) == (
                    None::<EvalError>,
                    final(self).state(),
                ),
                Err(e) => step(old(self).instructions(), old(self).state()) == (
                    Some(e),
                    final(self).state(),
                ),
            },
    {
        let ghost code = self.instructions@;
        let ghost pre = self.state();
        let instr = self.instructions[self.instruction_pointer];
        let result: Result<(), EvalError> = match instr {
            Instractions::PtrIncr => self.pointer_increment(),
            Instractions::PtrDecr => self.pointer_decrement(),
            Instractions::ValIncr => self.value_increment(),
            Instractions::ValDecr => self.value_decrement(),
            Instractions::PutChar => self.put_char(),
            Instractions::GetChar => self.get_char(),
            Instractions::BeginLoop => self.begin_loop(),
            Instractions::EndLoop => self.end_loop(),
            // A decoded sequence never holds `Nop`; it would do nothing.
            Instractions::Nop => Ok(()),
        };
        match result {
            Err(e) => {
                proof {
                    assert(step(code, pre) == (Some(e), self.state()));
                }
                return Err(e);
            },
            Ok(()) => {},
        }
        // Every successful dispatch leaves the pointer on a position inside
        // the sequence, so the forced increment stays in range.
        let len = self.instructions.len();
        proof {
            assert(self.instruction_pointer < len);
        }
        self.instruction_pointer = self.instruction_pointer + 1;
        proof {
            assert(step(code, pre) == (None::<EvalError>, self.state()));
            lemma_step_preserves_inv(code, pre);
        }
        Ok(())
    }

    /// Move the memory pointer one cell up; fails with `MemoryOverflow`, and
    /// changes nothing, when the pointer already sits on the last cell.
    fn pointer_increment(&mut self) -> (r: Result<(), EvalError>)
        requires
            old(self).wf(),
        ensures
            final(self).wf(),
            final(self).instructions() == old(self).instructions(),
            match r {
                Ok(()) => old(self).state().memory_pointer + 1 < old(self).state().memory.len()
                    && final(self).state() == (MachineState {
                    memory_pointer: old(self).state().memory_pointer + 1,
                    ..old(self).state()
                }),
                Err(e) => e == EvalError::MemoryOverflow && old(self).state().memory_pointer + 1
                    >= old(self).state().memory.len() && final(self).state() == old(self).state(),
            },
    {
        if self.memory_pointer + 1 < self.memory.len() {
            self.memory_pointer = self.memory_pointer + 1;
            Ok(())
        } else {
            Err(EvalError::MemoryOverflow)
        }
    }

    /// Move the memory pointer one cell down; fails with `MemoryUnderflow`,
    /// and changes nothing, when the pointer already sits on cell zero.
    fn pointer_decrement(&mut self) -> (r: Result<(), EvalError>)
        requires
            old(self).wf(),
        ensures
            final(self).wf(),
            final(self).instructions() == old(self).instructions(),
            match r {
                Ok(()) => old(self).state().memory_pointer >= 1 && final(self).state()
                    == (MachineState {
                    memory_pointer: old(self).state().memory_pointer - 1,
                    ..old(self).state()
                }),
                Err(e) => e == EvalError::MemoryUnderflow && old(self).state().memory_pointer == 0
                    && final(self).state() == old(self).state(),
            },
    {
        match self.memory_pointer.checked_sub(1) {
            Some(memory_pointer) => {
                self.memory_pointer = memory_pointer;
                Ok(())
            },
            None => Err(EvalError::MemoryUnderflow),
        }
    }

    /// Add one to the current cell; fails with `MemoryOutOfRange`, and
    /// changes nothing, when the cell already holds 255.
    fn value_increment(&mut self) -> (r: Result<(), EvalError>)
        requires
            old(self).wf(),
        ensures
            final(self).wf(),
            final(self).instructions() == old(self).instructions(),
            match r {
                Ok(()) => old(self).state().memory[old(self).state().memory_pointer] < 255 && final(self).state() == (MachineState {
                    memory: old(self).state().memory.update(
                        old(self).state().memory_pointer,
                        (old(self).state().memory[old(self).state().memory_pointer] + 1) as u8,
                    ),
                    ..old(self).state()
                }),
                Err(e) => e == EvalError::MemoryOutOfRange && old(self).state().memory[old(self).state().memory_pointer] == 255 && final(self).state() == old(self).state(),
            },
    {
        match self.memory[self.memory_pointer].checked_add(1) {
            Some(value) => {
                self.memory[self.memory_pointer] = value;
                Ok(())
            },
            None => Err(EvalError::MemoryOutOfRange),
        }
    }

    /// Take one from the current cell; fails with `MemoryOutOfRange`, and
    /// changes nothing, when the cell already holds 0.
    fn value_decrement(&mut self) -> (r: Result<(), EvalError>)
        requires
            old(self).wf(),
        ensures
            final(self).wf(),
            final(self).instructions() == old(self).instructions(),
            match r {
                Ok(()) => old(self).state().memory[old(self).state().memory_pointer] > 0 && final(self).state() == (MachineState {
                    memory: old(self).state().memory.update(
                        old(self).state().memory_pointer,
                        (old(self).state().memory[old(self).state().memory_pointer] - 1) as u8,
                    ),
                    ..old(self).state()
                }),
                Err(e) => e == EvalError::MemoryOutOfRange && old(self).state().memory[old(self).state().memory_pointer] == 0 && final(self).state() == old(self).state(),
            },
    {
        match self.memory[self.memory_pointer].checked_sub(1) {
            Some(value) => {
                self.memory[self.memory_pointer] = value;
                Ok(())
            },
            None => Err(EvalError::MemoryOutOfRange),
        }
    }

    /// Append the current cell, widened to a character, to the output
    /// sequence. Never fails.
    fn put_char(&mut self) -> (r: Result<(), EvalError>)
        requires
            old(self).wf(),
        ensures
            final(self).wf(),
            final(self).instructions() == old(self).instructions(),
            r is Ok,
            final(self).state() == (MachineState {
                output: old(self).state().output.push(
                    old(self).state().memory[old(self).state().memory_pointer] as char,
                ),
                ..old(self).state()
            }),
    {
        let c = self.memory[self.memory_pointer];
        self.output_buffer.push(c as char);
        Ok(())
    }

    /// Pop the front of the input queue into the current cell; fails with
    /// `InputExhausted`, and changes nothing — in particular not the tape —
    /// when the queue is empty.
    fn get_char(&mut self) -> (r: Result<(), EvalError>)
        requires
            old(self).wf(),
        ensures
            final(self).wf(),
            final(self).instructions() == old(self).instructions(),
            match r {
                Ok(()) => old(self).state().input.len() > 0 && final(self).state()
                    == (MachineState {
                    memory: old(self).state().memory.update(
                        old(self).state().memory_pointer,
                        old(self).state().input.first(),
                    ),
                    input: old(self).state().input.drop_first(),
                    ..old(self).state()
                }),
                Err(e) => e == EvalError::InputExhausted && old(self).state().input.len() == 0
                    && final(self).state() == old(self).state(),
            },
    {
        match self.input_buffer.pop_front() {
            Some(input) => {
                self.memory[self.memory_pointer] = input;
                proof {
                    assert(self.state().input =~= old(self).state().input.drop_first());
                }
                Ok(())
            },
            None => Err(EvalError::InputExhausted),
        }
    }

    /// Open a loop, or skip it: when the current cell is nonzero, record
    /// the entry position on the loop stack — one entry per currently open
    /// loop, for the matching end to pop — and enter the body; when the
    /// cell is zero, move the instruction pointer onto the matching loop
    /// end so that the forced increment resumes just past it, skipping the
    /// body entirely without opening the loop. Fails with
    /// `UnbalancedBracket`, changing nothing, when no matching end exists
    /// before the sequence ends.
    fn begin_loop(&mut self) -> (r: Result<(), EvalError>)
        requires
            old(self).wf(),
            old(self).state().instruction_pointer < old(self).instructions().len(),
            old(self).instructions()[old(self).state().instruction_pointer]
                == Instractions::BeginLoop,
        ensures
            final(self).wf(),
            final(self).instructions() == old(self).instructions(),
            match r {
                Ok(()) => final(self).state().instruction_pointer < old(self).instructions().len()
                    && if old(self).state().memory[old(self).state().memory_pointer] == 0 {
                    find_match_from(
                        old(self).instructions(),
                        old(self).state().instruction_pointer,
                        0,
                    ) == Some(final(self).state().instruction_pointer) && final(self).state()
                        == (MachineState {
                        instruction_pointer: final(self).state().instruction_pointer,
                        ..old(self).state()
                    })
                } else {
                    final(self).state() == (MachineState {
                        loop_stack: old(self).state().loop_stack.push(
                            old(self).state().instruction_pointer,
                        ),
                        ..old(self).state()
                    })
                },
                Err(e) => e == EvalError::UnbalancedBracket && old(self).state().memory[old(self).state().memory_pointer] == 0 && find_match_from(
                    old(self).instructions(),
                    old(self).state().instruction_pointer,
                    0,
                ) is None && final(self).state() == old(self).state(),
            },
    {
        if self.memory[self.memory_pointer] == 0 {
            match self.jump_to_corresponding_loop_end() {
                Ok(()) => {
                    proof {
                        lemma_find_match_in_range(
                            self.instructions@,
                            old(self).state().instruction_pointer,
                            0,
                        );
                    }
                    Ok(())
                },
                Err(e) => Err(e),
            }
        } else {
            self.loop_stack.push(self.instruction_pointer);
            proof {
                assert(self.state().loop_stack =~= old(self).state().loop_stack.push(
                    old(self).state().instruction_pointer,
                ));
            }
            Ok(())
        }
    }

    /// The forward scan of the jump: find the loop end matching the loop
    /// begin at the current instruction pointer, skipping nested pairs by
    /// depth counting, and commit the pointer there. The scan works on a
    /// private counter and never touches the real loop stack, whose entries
    /// belong to the loops that are actually open. Fails with
    /// `UnbalancedBracket`, leaving the engine unchanged, when the sequence
    /// ends before the match.
    #[verifier::loop_isolation(false)]
    fn jump_to_corresponding_loop_end(&mut self) -> (r: Result<(), EvalError>)
        requires
            old(self).wf(),
            old(self).state().instruction_pointer < old(self).instructions().len(),
            old(self).instructions()[old(self).state().instruction_pointer]
                == Instractions::BeginLoop,
        ensures
            final(self).wf(),
            final(self).instructions() == old(self).instructions(),
            match r {
                Ok(()) => find_match_from(
                    old(self).instructions(),
                    old(self).state().instruction_pointer,
                    0,
                ) == Some(final(self).state().instruction_pointer) && final(self).state()
                    == (MachineState {
                    instruction_pointer: final(self).state().instruction_pointer,
                    ..old(self).state()
                }),
                Err(e) => e == EvalError::UnbalancedBracket && find_match_from(
                    old(self).instructions(),
                    old(self).state().instruction_pointer,
                    0,
                ) is None && final(self).state() == old(self).state(),
            },
    {
        let ghost code = self.instructions@;
        let ghost start = self.instruction_pointer as int;
        let ghost pre = self.state();
        let mut scan_pointer: usize = self.instruction_pointer;
        let mut depth: usize = 0;
        while scan_pointer < self.instructions.len()
            invariant
                self.wf(),
                self.instructions@ == code,
                self.state() == pre,
                start <= scan_pointer,
                depth <= scan_pointer,
                start == scan_pointer ==> depth == 0,
                start < scan_pointer ==> depth >= 1,
                code[start] == Instractions::BeginLoop,
                find_match_from(code, start, 0) == find_match_from(
                    code,
                    scan_pointer as int,
                    depth as int,
                ),
            decreases self.instructions@.len() - scan_pointer,
        {
            match self.instructions[scan_pointer] {
                Instractions::BeginLoop => {
                    depth = depth + 1;
                },
                Instractions::EndLoop => {
                    if depth == 1 {
                        self.instruction_pointer = scan_pointer;
                        return Ok(());
                    }
                    depth = depth - 1;
                },
                _ => {},
            }
            scan_pointer = scan_pointer + 1;
        }
        Err(EvalError::UnbalancedBracket)
    }

    /// Close a loop: pop its entry position; when the current cell is
    /// nonzero, put the entry back and move the instruction pointer onto the
    /// loop begin, so that the forced increment re-enters the body. Fails
    /// with `UnbalancedBracket`, changing nothing, when no loop is open.
    fn end_loop(&mut self) -> (r: Result<(), EvalError>)
        requires
            old(self).wf(),
            old(self).state().instruction_pointer < old(self).instructions().len(),
        ensures
            final(self).wf(),
            final(self).instructions() == old(self).instructions(),
            match r {
                Ok(()) => final(self).state().instruction_pointer < old(self).instructions().len()
                    && old(self).state().loop_stack.len() > 0 && if old(self).state().memory[old(self).state().memory_pointer] != 0 {
                    final(self).state() == (MachineState {
                        instruction_pointer: old(self).state().loop_stack.last(),
                        ..old(self).state()
                    })
                } else {
                    final(self).state() == (MachineState {
                        loop_stack: old(self).state().loop_stack.drop_last(),
                        ..old(self).state()
                    })
                },
                Err(e) => e == EvalError::UnbalancedBracket && old(self).state().loop_stack.len()
                    == 0 && final(self).state() == old(self).state(),
            },
    {
        let loop_begin = match self.loop_stack.pop() {
            Some(pointer) => pointer,
            None => {
                return Err(EvalError::UnbalancedBracket);
            },
        };
        proof {
            assert(self.state().loop_stack =~= old(self).state().loop_stack.drop_last());
            assert(old(self).state().loop_stack.last() == loop_begin as int);
            assert(0 <= old(self).state().loop_stack.last() < self.instructions@.len());
        }
        if self.memory[self.memory_pointer] != 0 {
            self.instruction_pointer = loop_begin;
            self.loop_stack.push(loop_begin);
            proof {
                assert(self.state().loop_stack =~= old(self).state().loop_stack);
            }
        }
        Ok(())
    }
}

} // verus!

