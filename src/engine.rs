use vstd::prelude::*;
use crate::instruction::{Instruction, Node, node_of, nodes_of, lemma_nodes_index};

verus! {

/// Contains the state of the program.
pub struct Engine {
    /// Current cursor/pointer index.
    pub pointer: usize,
    /// The tape that contains all the cells.
    pub tape: Vec<u8>,
}

/// Settings that determine how the interpreter should behave.
#[derive(Debug, Clone, Copy, PartialEq, Eq, Structural)]
pub struct RuntimeSettings {
    /// If `true`, the output is flushed on every print instruction, otherwise the output is buffered.
    pub should_flush: bool,
    /// Stop execution on EOF.
    pub quit_on_eof: bool,
}

impl Default for RuntimeSettings {
    fn default() -> (r: Self)
        ensures
            r.should_flush,
            !r.quit_on_eof,
    {
        RuntimeSettings { should_flush: true, quit_on_eof: false }
    }
}

/// The number of cells of a default tape.
pub const DEFAULT_TAPE_LENGTH: usize = 30000;

/// The cell value after adding `d` to `v`, modulo 256.
pub open spec fn wrap(v: u8, d: int) -> u8 {
    ((v + d) % 256) as u8
}

/// The cursor after `>`: one cell on, or back to the first cell from the last.
pub open spec fn next_index(p: int, len: int) -> int {
    if p == len - 1 {
        0
    } else {
        p + 1
    }
}

/// The cursor after `<`: one cell back, or on to the last cell from the first.
pub open spec fn prev_index(p: int, len: int) -> int {
    if p == 0 {
        len - 1
    } else {
        p - 1
    }
}

/// The tape, the cursor and the instructions still to run, in the order in
/// which they will run.
pub struct Machine {
    pub tape: Seq<u8>,
    pub pointer: int,
    pub pending: Seq<Node>,
}

/// One instruction of the machine, without its input and output: the first
/// pending instruction is taken off, and
/// - `+` and `-` add one to or take one from the current cell, modulo 256;
/// - `>` and `<` move the cursor, wrapping at both ends of the tape;
/// - a loop over a cell that holds 0 is skipped, and over any other cell it is
///   followed by its body and then by itself again, so that the cell is checked
///   each time before the body runs;
/// - `.` and `,` change nothing here: their input and output are handled apart.
pub open spec fn advance(m: Machine) -> Machine {
    if m.pending.len() == 0 {
        m
    } else {
        let rest = m.pending.drop_first();
        let c = m.tape[m.pointer];
        match m.pending[0] {
            Node::Inc => Machine {
                tape: m.tape.update(m.pointer, wrap(c, 1)),
                pointer: m.pointer,
                pending: rest,
            },
            Node::Dec => Machine {
                tape: m.tape.update(m.pointer, wrap(c, -1)),
                pointer: m.pointer,
                pending: rest,
            },
            Node::Next => Machine {
                tape: m.tape,
                pointer: next_index(m.pointer, m.tape.len() as int),
                pending: rest,
            },
            Node::Prev => Machine {
                tape: m.tape,
                pointer: prev_index(m.pointer, m.tape.len() as int),
                pending: rest,
            },
            Node::Loop(body) => Machine {
                tape: m.tape,
                pointer: m.pointer,
                pending: if c == 0 {
                    rest
                } else {
                    body + m.pending
                },
            },
            _ => Machine { tape: m.tape, pointer: m.pointer, pending: rest },
        }
    }
}

/// The cursor of the machine points at a cell of its tape.
pub open spec fn machine_wf(m: Machine) -> bool {
    0 <= m.pointer < m.tape.len()
}

/// A run over in-memory input and output: the machine, the input not read
/// yet, the output written so far, and whether the run stopped at the end of
/// input.
pub struct Session {
    pub machine: Machine,
    pub input: Seq<u8>,
    pub output: Seq<u8>,
    pub stopped: bool,
}

pub open spec fn is_done(s: Session) -> bool {
    s.stopped || s.machine.pending.len() == 0
}

/// One instruction of a run with its input and output: `.` appends the current
/// cell to the output; `,` stores the next input byte in the current cell, and
/// at the end of input leaves the cell as it is and either goes on or, with
/// `quit_on_eof`, stops the run.
pub open spec fn session_step(s: Session, quit_on_eof: bool) -> Session {
    let m = s.machine;
    let n = advance(m);
    if is_done(s) {
        s
    } else if m.pending[0] is Print {
        Session { machine: n, input: s.input, output: s.output.push(m.tape[m.pointer]), stopped: false }
    } else if m.pending[0] is Read && s.input.len() > 0 {
        Session {
            machine: Machine { tape: n.tape.update(n.pointer, s.input[0]), pointer: n.pointer, pending: n.pending },
            input: s.input.drop_first(),
            output: s.output,
            stopped: false,
        }
    } else if m.pending[0] is Read && quit_on_eof {
        Session { machine: n, input: s.input, output: s.output, stopped: true }
    } else {
        Session { machine: n, input: s.input, output: s.output, stopped: false }
    }
}

/// The run after at most `n` instructions: it ends early when no instruction
/// is left or the input ran out under `quit_on_eof`.
pub open spec fn run_for(s: Session, quit_on_eof: bool, n: nat) -> Session
    decreases n,
{
    if n == 0 || is_done(s) {
        s
    } else {
        run_for(session_step(s, quit_on_eof), quit_on_eof, (n - 1) as nat)
    }
}

/// The run of `program` on a tape and cursor, with the given input.
pub open spec fn start(tape: Seq<u8>, pointer: int, program: Seq<Node>, input: Seq<u8>) -> Session {
    Session {
        machine: Machine { tape, pointer, pending: program },
        input,
        output: seq![],
        stopped: false,
    }
}

proof fn lemma_run_for_last(s: Session, q: bool, n: nat)
    ensures
        run_for(s, q, n + 1) == if is_done(run_for(s, q, n)) {
            run_for(s, q, n)
        } else {
            session_step(run_for(s, q, n), q)
        },
    decreases n,
{
    if is_done(s) {
        assert(run_for(s, q, n + 1) == s);
        assert(run_for(s, q, n) == s);
    } else if n == 0 {
        assert(run_for(session_step(s, q), q, 0) == session_step(s, q));
    } else {
        lemma_run_for_last(session_step(s, q), q, (n - 1) as nat);
        assert((n + 1 - 1) as nat == n);
    }
}

proof fn lemma_run_for_done(s: Session, q: bool, n: nat, k: nat)
    requires
        is_done(run_for(s, q, n)),
        n <= k,
    ensures
        run_for(s, q, k) == run_for(s, q, n),
    decreases k,
{
    if n < k {
        lemma_run_for_done(s, q, n, (k - 1) as nat);
        lemma_run_for_last(s, q, (k - 1) as nat);
    }
}

/// The step limit of [`Engine::run`] was reached before the program ended.
#[derive(Debug, Clone, Copy, PartialEq, Eq, Structural)]
pub struct OutOfSteps;

/// What the caller of [`Execution::step`] is to do next.
#[derive(Debug, Clone, Copy, PartialEq, Eq, Structural)]
pub enum Action {
    /// Nothing: call `step` again.
    Proceed,
    /// Write the byte to the output, then flush the output if `flush` is set.
    Output { byte: u8, flush: bool },
    /// Flush the output first if `flush_first` is set, then read one byte and
    /// hand the outcome to [`Execution::deliver`].
    Input { flush_first: bool },
    /// The program has ended.
    Finish,
}

/// The node view of a work stack whose top is its last element: the pending
/// instructions in the order in which they run.
pub open spec fn stack_nodes(s: Seq<&Instruction>) -> Seq<Node>
    decreases s.len(),
{
    if s.len() == 0 {
        seq![]
    } else {
        seq![node_of(*s.last())] + stack_nodes(s.drop_last())
    }
}

/// A run of a program in progress: the work stack of instructions still to
/// run, walked without recursion however deeply loops nest.
pub struct Execution<'a> {
    stack: Vec<&'a Instruction>,
    settings: RuntimeSettings,
}

proof fn lemma_stack_push(s: Seq<&Instruction>, x: &Instruction)
    ensures
        stack_nodes(s.push(x)) == seq![node_of(*x)] + stack_nodes(s),
{
    assert(s.push(x).drop_last() == s);
}

impl<'a> Execution<'a> {
    /// The instructions still to run, in the order in which they run.
    pub closed spec fn pending(&self) -> Seq<Node> {
        stack_nodes(self.stack@)
    }

    pub closed spec fn settings(&self) -> RuntimeSettings {
        self.settings
    }

    /// Pushes `body` so that its first instruction is on top.
    fn push_all(&mut self, body: &'a Vec<Instruction>)
        ensures
            final(self).pending() == nodes_of(body@) + old(self).pending(),
            final(self).settings() == old(self).settings(),
    {
        proof {
            lemma_nodes_index(body@);
        }
        let ghost start = self.pending();
        let mut j: usize = body.len();
        while j > 0
            invariant
                j <= body@.len(),
                nodes_of(body@).len() == body@.len(),
                forall|i: int| 0 <= i < body@.len() ==> nodes_of(body@)[i] == node_of(#[trigger] body@[i]),
                self.pending() == nodes_of(body@).subrange(j as int, body@.len() as int) + start,
                self.settings() == old(self).settings(),
            decreases j,
        {
            j -= 1;
            let ghost before = self.stack@;
            self.stack.push(&body[j]);
            proof {
                lemma_stack_push(before, &body@[j as int]);
                let ns = nodes_of(body@);
                assert(ns.subrange(j as int, ns.len() as int) == seq![ns[j as int]] + ns.subrange(
                    j + 1,
                    ns.len() as int,
                ));
            }
        }
        assert(nodes_of(body@).subrange(0, body@.len() as int) == nodes_of(body@));
    }

    /// Starts a run of `instructions`.
    pub fn new(instructions: &'a Vec<Instruction>, settings: RuntimeSettings) -> (r: Self)
        ensures
            r.pending() == nodes_of(instructions@),
            r.settings() == settings,
    {
        let mut r = Execution { stack: Vec::new(), settings };
        proof {
            assert(r.pending() == Seq::<Node>::empty());
        }
        r.push_all(instructions);
        proof {
            assert(nodes_of(instructions@) + Seq::<Node>::empty() == nodes_of(instructions@));
        }
        r
    }

    /// Starts a run of one instruction.
    pub fn single(instruction: &'a Instruction, settings: RuntimeSettings) -> (r: Self)
        ensures
            r.pending() == seq![node_of(*instruction)],
            r.settings() == settings,
    {
        let mut stack: Vec<&'a Instruction> = Vec::new();
        stack.push(instruction);
        let r = Execution { stack, settings };
        proof {
            lemma_stack_push(Seq::empty(), instruction);
            assert(Seq::<&Instruction>::empty().push(instruction) == r.stack@);
        }
        r
    }

    /// Whether no instruction is left to run.
    pub fn is_finished(&self) -> (r: bool)
        ensures
            r == (self.pending().len() == 0),
    {
        self.stack.len() == 0
    }

    /// Runs the next instruction. `+`, `-`, `>`, `<` and loops act on `engine` as
    /// [`advance`] says; `.` and `,` are taken off and handed to the caller as an
    /// [`Action`], whose flushing follows the settings.
    pub fn step(&mut self, engine: &mut Engine) -> (a: Action)
        requires
            old(engine).wf(),
        ensures
            final(engine).wf(),
            final(self).settings() == old(self).settings(),
            ({
                let m = Machine {
                    tape: old(engine).tape@,
                    pointer: old(engine).pointer as int,
                    pending: old(self).pending(),
                };
                let n = advance(m);
                &&& final(engine).tape@ == n.tape
                &&& final(engine).pointer == n.pointer
                &&& final(self).pending() == n.pending
                &&& a == if m.pending.len() == 0 {
                    Action::Finish
                } else if m.pending[0] is Print {
                    Action::Output {
                        byte: m.tape[m.pointer],
                        flush: old(self).settings().should_flush,
                    }
                } else if m.pending[0] is Read {
                    Action::Input { flush_first: !old(self).settings().should_flush }
                } else {
                    Action::Proceed
                }
            }),
    {
        let ghost before = self.stack@;
        let current = match self.stack.pop() {
            Some(i) => i,
            None => {
                return Action::Finish;
            },
        };
        assert(before.drop_last() == self.stack@);
        let p = engine.pointer;
        match current {
            Instruction::Loop(inner) => {
                if engine.tape[p] != 0 {
                    // the loop goes back on the stack under its body, so that its
                    // condition is checked again when the body is done
                    self.stack.push(current);
                    proof {
                        lemma_stack_push(before.drop_last(), current);
                    }
                    self.push_all(inner);
                }
                Action::Proceed
            },
            Instruction::Inc => {
                let v = engine.tape[p];
                engine.tape[p] = v.wrapping_add(1);
                Action::Proceed
            },
            Instruction::Dec => {
                let v = engine.tape[p];
                engine.tape[p] = v.wrapping_sub(1);
                Action::Proceed
            },
            Instruction::Next => {
                engine.next();
                Action::Proceed
            },
            Instruction::Prev => {
                engine.prev();
                Action::Proceed
            },
            Instruction::Print => Action::Output { byte: engine.tape[p], flush: self.settings.should_flush },
            Instruction::Read => Action::Input { flush_first: !self.settings.should_flush },
        }
    }

    /// Hands over the outcome of the read that an [`Action::Input`] asked for. A
    /// byte is stored in the current cell. At the end of input the cell keeps its
    /// value, and the whole run ends if `quit_on_eof` is set. Returns whether the
    /// run goes on.
    pub fn deliver(&mut self, engine: &mut Engine, input: Option<u8>) -> (go_on: bool)
        requires
            old(engine).wf(),
        ensures
            final(engine).pointer == old(engine).pointer,
            final(engine).tape@ == match input {
                Some(b) => old(engine).tape@.update(old(engine).pointer as int, b),
                None => old(engine).tape@,
            },
            final(engine).wf(),
            go_on == !(input is None && old(self).settings().quit_on_eof),
            go_on ==> final(self).pending() == old(self).pending(),
            !go_on ==> final(self).pending().len() == 0,
            final(self).settings() == old(self).settings(),
    {
        match input {
            Some(b) => {
                let p = engine.pointer;
                engine.tape[p] = b;
                true
            },
            None => {
                if self.settings.quit_on_eof {
                    self.stack.clear();
                    false
                } else {
                    true
                }
            },
        }
    }
}

impl Engine {
    /// The cursor points at a cell of the tape, so the tape has at least one cell.
    pub open spec fn wf(&self) -> bool {
        self.pointer < self.tape.len()
    }

    /// Runs Brainfuck instructions on this tape, reading from `input` and
    /// appending what they print to `output`, for at most `max_steps`
    /// instructions. Returns `Err(OutOfSteps)` if the program has not ended by
    /// then; stopping at the end of input under `quit_on_eof` is a clean end.
    pub fn run(
        &mut self,
        instructions: &Vec<Instruction>,
        input: &[u8],
        output: &mut Vec<u8>,
        settings: RuntimeSettings,
        max_steps: u64,
    ) -> (r: Result<(), OutOfSteps>)
        requires
            old(self).wf(),
        ensures
            ({
                let end = run_for(
                    start(old(self).tape@, old(self).pointer as int, nodes_of(instructions@), input@),
                    settings.quit_on_eof,
                    max_steps as nat,
                );
                &&& final(self).tape@ == end.machine.tape
                &&& final(self).pointer == end.machine.pointer
                &&& final(output)@ == old(output)@ + end.output
                &&& (r is Ok <==> is_done(end))
            }),
    {
        let ghost q = settings.quit_on_eof;
        let ghost init = start(self.tape@, self.pointer as int, nodes_of(instructions@), input@);
        let ghost out0 = output@;
        let ghost mut produced: Seq<u8> = seq![];
        let mut exec = Execution::new(instructions, settings);
        let mut consumed: usize = 0;
        let mut steps: u64 = 0;
        assert(input@.subrange(0, input@.len() as int) == input@);
        while steps < max_steps
            invariant
                self.wf(),
                consumed <= input@.len(),
                steps <= max_steps,
                exec.settings() == settings,
                q == settings.quit_on_eof,
                init == start(old(self).tape@, old(self).pointer as int, nodes_of(instructions@), input@),
                out0 == old(output)@,
                run_for(init, q, steps as nat) == (Session {
                    machine: Machine {
                        tape: self.tape@,
                        pointer: self.pointer as int,
                        pending: exec.pending(),
                    },
                    input: input@.subrange(consumed as int, input@.len() as int),
                    output: produced,
                    stopped: false,
                }),
                output@ == out0 + produced,
            decreases max_steps - steps,
        {
            let ghost cur = run_for(init, q, steps as nat);
            proof {
                lemma_run_for_last(init, q, steps as nat);
            }
            let action = exec.step(self);
            match action {
                Action::Finish => {
                    proof {
                        lemma_run_for_done(init, q, steps as nat, max_steps as nat);
                    }
                    return Ok(());
                },
                Action::Proceed => {},
                Action::Output { byte, .. } => {
                    output.push(byte);
                    proof {
                        produced = produced.push(byte);
                    }
                },
                Action::Input { .. } => {
                    if consumed < input.len() {
                        let b = input[consumed];
                        proof {
                            assert(cur.input[0] == b);
                            assert(cur.input.drop_first() == input@.subrange(
                                consumed + 1,
                                input@.len() as int,
                            ));
                        }
                        consumed += 1;
                        exec.deliver(self, Some(b));
                    } else {
                        let go_on = exec.deliver(self, None);
                        if !go_on {
                            proof {
                                lemma_run_for_done(init, q, (steps + 1) as nat, max_steps as nat);
                            }
                            return Ok(());
                        }
                    }
                },
            }
            steps += 1;
        }
        if exec.is_finished() {
            Ok(())
        } else {
            Err(OutOfSteps)
        }
    }

    /// Shift pointer to the next cell or wraps around.
    pub fn next(&mut self)
        requires
            old(self).wf(),
        ensures
            final(self).tape == old(self).tape,
            final(self).pointer == next_index(old(self).pointer as int, old(self).tape.len() as int),
            final(self).wf(),
    {
        if self.pointer == self.tape.len() - 1 {
            self.pointer = 0;
        } else {
            self.pointer += 1;
        }
    }

    /// Shift pointer to the previous cell or wraps around.
    pub fn prev(&mut self)
        requires
            old(self).wf(),
        ensures
            final(self).tape == old(self).tape,
            final(self).pointer == prev_index(old(self).pointer as int, old(self).tape.len() as int),
            final(self).wf(),
    {
        if self.pointer == 0 {
            self.pointer = self.tape.len() - 1;
        } else {
            self.pointer -= 1;
        }
    }
}

} // verus!

verus! {

impl Default for Engine {
    /// An engine with the cursor on the first of 30 000 cells that all hold 0.
    fn default() -> (r: Self)
        ensures
            r.wf(),
            r.pointer == 0,
            r.tape@ == Seq::new(DEFAULT_TAPE_LENGTH as nat, |i: int| 0u8),
    {
        let tape = vec![0u8; DEFAULT_TAPE_LENGTH];
        assert(tape@ =~= Seq::new(DEFAULT_TAPE_LENGTH as nat, |i: int| 0u8));
        Engine { pointer: 0, tape }
    }
}

/// How often `n` occurs in `s`.
pub open spec fn count_of(s: Seq<Node>, n: Node) -> int
    decreases s.len(),
{
    if s.len() == 0 {
        0
    } else {
        count_of(s.drop_first(), n) + if s[0] == n {
            1int
        } else {
            0
        }
    }
}

/// Whether every instruction of `s` is `+` or `-`.
pub open spec fn only_inc_dec(s: Seq<Node>) -> bool {
    forall|i: int| 0 <= i < s.len() ==> (#[trigger] s[i] == Node::Inc || s[i] == Node::Dec)
}

/// Any sequence of `+` and `-` run on one cell leaves it at its value plus the
/// number of `+` minus the number of `-`, modulo 256, and changes nothing else.
pub proof fn lemma_inc_dec_wrap(s: Session, quit_on_eof: bool)
    requires
        machine_wf(s.machine),
        !s.stopped,
        only_inc_dec(s.machine.pending),
    ensures
        ({
            let m = s.machine;
            let end = run_for(s, quit_on_eof, m.pending.len());
            let c = m.tape[m.pointer];
            &&& end.machine.pending.len() == 0
            &&& end.machine.pointer == m.pointer
            &&& end.machine.tape == m.tape.update(
                m.pointer,
                ((c + count_of(m.pending, Node::Inc) - count_of(m.pending, Node::Dec)) % 256) as u8,
            )
            &&& end.input == s.input
            &&& end.output == s.output
            &&& !end.stopped
        }),
    decreases s.machine.pending.len(),
{
    let m = s.machine;
    let p = m.pointer;
    let c = m.tape[p];
    if m.pending.len() == 0 {
        assert(m.tape.update(p, ((c + 0) % 256) as u8) == m.tape);
    } else {
        let s2 = session_step(s, quit_on_eof);
        let rest = m.pending.drop_first();
        assert(only_inc_dec(rest)) by {
            assert forall|i: int| 0 <= i < rest.len() implies (#[trigger] rest[i] == Node::Inc
                || rest[i] == Node::Dec) by {
                assert(rest[i] == m.pending[i + 1]);
            }
        }
        assert(m.pending[0] == Node::Inc || m.pending[0] == Node::Dec);
        lemma_inc_dec_wrap(s2, quit_on_eof);
        let d: int = if m.pending[0] == Node::Inc {
            1
        } else {
            -1
        };
        let c2 = wrap(c, d);
        assert(s2.machine.tape == m.tape.update(p, c2));
        assert(s2.machine.pending == rest);
        let k = count_of(rest, Node::Inc) - count_of(rest, Node::Dec);
        assert(count_of(m.pending, Node::Inc) - count_of(m.pending, Node::Dec) == d + k);
        assert(((c2 + k) % 256) == ((c + d + k) % 256)) by {
            vstd::arithmetic::div_mod::lemma_add_mod_noop(c + d, k, 256);
            vstd::arithmetic::div_mod::lemma_mod_twice(c + d, 256);
            vstd::arithmetic::div_mod::lemma_add_mod_noop(c2 as int, k, 256);
        }
        assert(m.tape.update(p, c2).update(p, ((c2 + k) % 256) as u8) == m.tape.update(
            p,
            ((c + d + k) % 256) as u8,
        ));
    }
}

/// At the end of input, without `quit_on_eof`, `,` leaves the current cell and
/// the whole tape as they were, and the run goes on with the next instruction.
pub proof fn lemma_read_at_end_of_input(s: Session)
    requires
        !is_done(s),
        s.machine.pending[0] == Node::Read,
        s.input.len() == 0,
    ensures
        session_step(s, false) == (Session {
            machine: Machine {
                tape: s.machine.tape,
                pointer: s.machine.pointer,
                pending: s.machine.pending.drop_first(),
            },
            input: s.input,
            output: s.output,
            stopped: false,
        }),
{
}

/// A loop checks its cell each time it comes to run, the first time included:
/// over a cell that holds 0 it is skipped; over any other cell its body runs
/// and then the loop itself comes again.
pub proof fn lemma_loop_check(m: Machine, body: Seq<Node>)
    requires
        machine_wf(m),
        m.pending.len() > 0,
        m.pending[0] == Node::Loop(body),
    ensures
        m.tape[m.pointer] == 0 ==> advance(m) == (Machine {
            tape: m.tape,
            pointer: m.pointer,
            pending: m.pending.drop_first(),
        }),
        m.tape[m.pointer] != 0 ==> advance(m) == (Machine {
            tape: m.tape,
            pointer: m.pointer,
            pending: body + m.pending,
        }),
{
}

} // verus!
