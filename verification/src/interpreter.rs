use crate::vm::memory::Memory;
use crate::vm::pointer::{wrapping_dec, wrapping_inc, Pointer};
use vstd::prelude::*;

verus! {

/// A failed run: the input source could not supply a requested byte, a `[`
/// has no matching `]` before the end of the program, or a `]` has no
/// enclosing loop.  The two loop errors carry the line and column reported
/// for diagnostics.
#[derive(Debug, PartialEq, Eq, Structural)]
pub enum BrainFuckError {
    InputExhausted,
    NoMatchingEndToLoop(usize, usize),
    NoMatchingStartToLoop(usize, usize),
}

/// The failure cases of the abstract machine, with unbounded coordinates.
pub ghost enum ErrKind {
    InputExhausted,
    UnmatchedEnd { line: int, col: int },
    UnmatchedStart { line: int, col: int },
}

/// The abstract failure a concrete error value stands for.
pub open spec fn err_view(e: BrainFuckError) -> ErrKind {
    match e {
        BrainFuckError::InputExhausted => ErrKind::InputExhausted,
        BrainFuckError::NoMatchingEndToLoop(line, col) => ErrKind::UnmatchedEnd {
            line: line as int,
            col: col as int,
        },
        BrainFuckError::NoMatchingStartToLoop(line, col) => ErrKind::UnmatchedStart {
            line: line as int,
            col: col as int,
        },
    }
}

/// Bookkeeping for one currently active loop: the instruction index of its
/// `[` and the line and column recorded there.
pub ghost struct LoopFrame {
    pub ip: int,
    pub line: int,
    pub col: int,
}

/// The full state of the abstract machine: the infinite tape, the data
/// position, the instruction pointer with its line/column, how many input
/// bytes were consumed, the output so far, and the stack of active loops.
pub ghost struct MachineState {
    pub tape: Map<int, u8>,
    pub pos: int,
    pub ip: int,
    pub line: int,
    pub col: int,
    pub next_in: int,
    pub out: Seq<u8>,
    pub frames: Seq<LoopFrame>,
}

/// What one machine step yields: a next state, normal termination with the
/// accumulated output, or a failure.
pub ghost enum Outcome {
    Running(MachineState),
    Done(Seq<u8>),
    Failed(ErrKind),
}

/// What a forward scan for a matching `]` yields: the index of the matching
/// `]` with the line/column bookkeeping at that point, or nothing before the
/// end of the program.
pub ghost enum ScanResult {
    Found { ip: int, line: int, col: int },
    NotFound,
}

/// The all-zero infinite tape.
pub open spec fn zero_tape() -> Map<int, u8> {
    Map::total(|a: int| 0u8)
}

/// The machine state at the start of a run.
pub open spec fn init_state() -> MachineState {
    MachineState {
        tape: zero_tape(),
        pos: 0,
        ip: 0,
        line: 1,
        col: 1,
        next_in: 0,
        out: Seq::empty(),
        frames: Seq::empty(),
    }
}

/// The forward scan a zero-entered `[` performs: starting at `i` with the
/// scanner's line/column bookkeeping and a nesting count, find the `]` that
/// closes the loop.  `[` deepens the nesting, `]` either closes a nested
/// loop or — at count zero — is the match; newlines advance the line.
pub open spec fn find_loop_end(
    code: Seq<u8>,
    i: int,
    line: int,
    col: int,
    count: int,
) -> ScanResult
    decreases code.len() - i,
{
    if i < 0 || i >= code.len() {
        ScanResult::NotFound
    } else if code[i] == 93u8 && count == 0 {
        ScanResult::Found { ip: i, line, col }
    } else if code[i] == 93u8 {
        find_loop_end(code, i + 1, line, col + 1, count - 1)
    } else if code[i] == 91u8 {
        find_loop_end(code, i + 1, line, col + 1, count + 1)
    } else if code[i] == 10u8 {
        find_loop_end(code, i + 1, line + 1, 1, count)
    } else {
        find_loop_end(code, i + 1, line, col + 1, count)
    }
}

/// One step of the abstract machine on `code` with input source `input`.
/// This is the reference semantics of the language: each public fact about
/// `execute` is stated against it.
pub open spec fn step(code: Seq<u8>, input: Seq<u8>, s: MachineState) -> Outcome {
    if s.ip < 0 || s.ip >= code.len() {
        Outcome::Done(s.out)
    } else {
        let c = code[s.ip];
        if c == 62u8 {  // `>`
            Outcome::Running(MachineState { pos: s.pos + 1, ip: s.ip + 1, col: s.col + 1, ..s })
        } else if c == 60u8 {  // `<`
            Outcome::Running(MachineState { pos: s.pos - 1, ip: s.ip + 1, col: s.col + 1, ..s })
        } else if c == 43u8 {  // `+`
            Outcome::Running(
                MachineState {
                    tape: s.tape.insert(s.pos, wrapping_inc(s.tape[s.pos])),
                    ip: s.ip + 1,
                    col: s.col + 1,
                    ..s
                },
            )
        } else if c == 45u8 {  // `-`
            Outcome::Running(
                MachineState {
                    tape: s.tape.insert(s.pos, wrapping_dec(s.tape[s.pos])),
                    ip: s.ip + 1,
                    col: s.col + 1,
                    ..s
                },
            )
        } else if c == 46u8 {  // `.`
            Outcome::Running(
                MachineState { out: s.out.push(s.tape[s.pos]), ip: s.ip + 1, col: s.col + 1, ..s },
            )
        } else if c == 44u8 {  // `,`
            if s.next_in < input.len() {
                Outcome::Running(
                    MachineState {
                        tape: s.tape.insert(s.pos, input[s.next_in]),
                        next_in: s.next_in + 1,
                        ip: s.ip + 1,
                        col: s.col + 1,
                        ..s
                    },
                )
            } else {
                Outcome::Failed(ErrKind::InputExhausted)
            }
        } else if c == 91u8 {  // `[`
            if s.tape[s.pos] == 0 {
                match find_loop_end(code, s.ip + 1, s.line, s.col, 0) {
                    ScanResult::Found { ip, line, col } => Outcome::Running(
                        MachineState { ip: ip + 1, line, col: col + 1, ..s },
                    ),
                    ScanResult::NotFound => Outcome::Failed(
                        ErrKind::UnmatchedEnd { line: s.line, col: s.col },
                    ),
                }
            } else {
                Outcome::Running(
                    MachineState {
                        frames: s.frames.push(LoopFrame { ip: s.ip, line: s.line, col: s.col }),
                        ip: s.ip + 1,
                        col: s.col + 1,
                        ..s
                    },
                )
            }
        } else if c == 93u8 {  // `]`
            if s.frames.len() == 0 {
                Outcome::Failed(ErrKind::UnmatchedStart { line: s.line, col: s.col })
            } else if s.tape[s.pos] == 0 {
                Outcome::Running(
                    MachineState { frames: s.frames.drop_last(), ip: s.ip + 1, col: s.col + 1, ..s },
                )
            } else {
                let f = s.frames.last();
                Outcome::Running(MachineState { ip: f.ip + 1, line: f.line, col: f.col + 1, ..s })
            }
        } else if c == 10u8 {  // newline
            Outcome::Running(MachineState { line: s.line + 1, col: 1, ip: s.ip + 1, ..s })
        } else {
            Outcome::Running(MachineState { ip: s.ip + 1, col: s.col + 1, ..s })
        }
    }
}

/// The machine after `n` steps from the initial state; `Done` and `Failed`
/// outcomes are absorbing.
pub open spec fn run(code: Seq<u8>, input: Seq<u8>, n: nat) -> Outcome
    decreases n,
{
    if n == 0 {
        Outcome::Running(init_state())
    } else {
        match run(code, input, (n - 1) as nat) {
            Outcome::Running(s) => step(code, input, s),
            o => o,
        }
    }
}

/// Unfolds one step of `run`.
pub proof fn lemma_run_step(code: Seq<u8>, input: Seq<u8>, n: nat)
    ensures
        run(code, input, n) is Running ==> run(code, input, n + 1) == step(
            code,
            input,
            run(code, input, n)->Running_0,
        ),
        !(run(code, input, n) is Running) ==> run(code, input, n + 1) == run(code, input, n),
{
}

/// Once a run has finished or failed, more steps change nothing.
pub proof fn lemma_outcome_absorbs(code: Seq<u8>, input: Seq<u8>, n: nat, m: nat)
    requires
        n <= m,
        !(run(code, input, n) is Running),
    ensures
        run(code, input, m) == run(code, input, n),
    decreases m,
{
    if m > n {
        lemma_outcome_absorbs(code, input, n, (m - 1) as nat);
    }
}

/// A run has at most one final outcome: any two step counts at which it has
/// finished or failed show the same result.  Together with the contract of
/// `execute`, this pins the returned value down completely.
pub proof fn lemma_outcome_unique(code: Seq<u8>, input: Seq<u8>, n: nat, m: nat)
    requires
        !(run(code, input, n) is Running),
        !(run(code, input, m) is Running),
    ensures
        run(code, input, n) == run(code, input, m),
{
    if n <= m {
        lemma_outcome_absorbs(code, input, n, m);
    } else {
        lemma_outcome_absorbs(code, input, m, n);
    }
}

/// The forward scan of the inner loop of `execute`, proved to compute
/// `find_loop_end`.
fn scan_loop_end(code: &[u8], start: usize, line: usize, col: usize) -> (r: Option<
    (usize, usize, usize),
>)
    requires
        start <= code@.len(),
        code@.len() < usize::MAX,
        line <= start,
        col <= start,
    ensures
        match r {
            Some(t) => find_loop_end(code@, start as int, line as int, col as int, 0)
                == (ScanResult::Found { ip: t.0 as int, line: t.1 as int, col: t.2 as int })
                && t.0 < code@.len() && t.1 <= t.0 + 1 && t.2 <= t.0,
            None => find_loop_end(code@, start as int, line as int, col as int, 0)
                is NotFound,
        },
{
    let mut i = start;
    let mut l = line;
    let mut c = col;
    let mut count: usize = 0;
    while i < code.len()
        invariant
            start <= i <= code@.len(),
            code@.len() < usize::MAX,
            l <= i + 1,
            c <= i,
            count <= i,
            find_loop_end(code@, start as int, line as int, col as int, 0) == find_loop_end(
                code@,
                i as int,
                l as int,
                c as int,
                count as int,
            ),
        decreases code@.len() - i,
    {
        let ch = code[i];
        if ch == 93u8 {
            if count == 0 {
                return Some((i, l, c));
            }
            count = count - 1;
        } else if ch == 91u8 {
            count = count + 1;
        } else if ch == 10u8 {
            l = l + 1;
            c = 0;
        }
        c = c + 1;
        i = i + 1;
    }
    None
}

/// Runs the program `code` against the input byte source `input` for at
/// most `max_steps` machine steps and returns the accumulated output, or
/// the failure that ended the run; `None` means the budget was spent with
/// the program still running.  A terminating program stops at its own end,
/// whatever the budget, so a caller that wants the full run passes
/// `u64::MAX`.
///
/// The contract states that the returned value is the outcome the abstract
/// machine reaches after some number of steps; by `lemma_outcome_unique`
/// that outcome is the only one the machine can ever reach, so the result is
/// pinned down exactly.
pub fn execute(code: &[u8], input: &[u8], max_steps: u64) -> (r: Option<
    Result<Vec<u8>, BrainFuckError>,
>)
    requires
        code@.len() < usize::MAX,
    ensures
        match r {
            Some(Ok(out)) => exists|n: nat| run(code@, input@, n) == Outcome::Done(out@),
            Some(Err(e)) => exists|n: nat|
                run(code@, input@, n) == Outcome::Failed(err_view(e)),
            None => run(code@, input@, max_steps as nat) is Running,
        },
{
    let mut line: usize = 1;
    let mut column: usize = 1;
    let mut index: usize = 0;
    let mut output: Vec<u8> = Vec::new();
    let mut input_index: usize = 0;

    let memory = Memory::new();
    let mut pointer = Pointer::new(memory);

    let mut scopes: Vec<(usize, usize, usize)> = Vec::new();

    let mut steps_done: u64 = 0;
    let ghost mut st: MachineState = init_state();

    proof {
        assert(run(code@, input@, 0) == Outcome::Running(init_state()));
    }

    while index < code.len() && steps_done < max_steps
        invariant
            code@.len() < usize::MAX,
            index <= code@.len(),
            line <= index + 1,
            column <= index + 1,
            input_index <= input@.len(),
            steps_done <= max_steps,
            pointer.wf(),
            run(code@, input@, steps_done as nat) == Outcome::Running(st),
            st.ip == index as int,
            st.line == line as int,
            st.col == column as int,
            st.next_in == input_index as int,
            st.out == output@,
            st.pos == pointer.addr(),
            forall|a: int| st.tape.dom().contains(a),
            forall|a: int| st.tape[a] == pointer.cell(a),
            st.frames.len() == scopes@.len(),
            forall|q: int|
                0 <= q < scopes@.len() ==> #[trigger] st.frames[q] == (LoopFrame {
                    ip: (scopes@[q].0) as int,
                    line: (scopes@[q].1) as int,
                    col: (scopes@[q].2) as int,
                }),
            forall|q: int|
                0 <= q < scopes@.len() ==> (#[trigger] scopes@[q]).0 < code@.len()
                    && scopes@[q].1 <= scopes@[q].0 + 1 && scopes@[q].2 <= scopes@[q].0 + 1,
        decreases max_steps - steps_done,
    {
        let ghost pre = st;
        proof {
            lemma_run_step(code@, input@, steps_done as nat);
        }
        match code[index] {
            62u8 => {  // `>`
                pointer.right();
                column = column + 1;
                index = index + 1;
                steps_done = steps_done + 1;
                proof {
                    st = step(code@, input@, pre)->Running_0;
                }
            },
            60u8 => {  // `<`
                pointer.left();
                column = column + 1;
                index = index + 1;
                steps_done = steps_done + 1;
                proof {
                    st = step(code@, input@, pre)->Running_0;
                }
            },
            43u8 => {  // `+`
                pointer.inc();
                column = column + 1;
                index = index + 1;
                steps_done = steps_done + 1;
                proof {
                    st = step(code@, input@, pre)->Running_0;
                    assert forall|a: int| st.tape[a] == pointer.cell(a) by {
                        if a != pre.pos {
                            assert(st.tape[a] == pre.tape[a]);
                        }
                    }
                }
            },
            45u8 => {  // `-`
                pointer.dec();
                column = column + 1;
                index = index + 1;
                steps_done = steps_done + 1;
                proof {
                    st = step(code@, input@, pre)->Running_0;
                    assert forall|a: int| st.tape[a] == pointer.cell(a) by {
                        if a != pre.pos {
                            assert(st.tape[a] == pre.tape[a]);
                        }
                    }
                }
            },
            46u8 => {  // `.`
                output.push(pointer.get());
                column = column + 1;
                index = index + 1;
                steps_done = steps_done + 1;
                proof {
                    st = step(code@, input@, pre)->Running_0;
                }
            },
            44u8 => {  // `,`
                if input_index < input.len() {
                    let byte = input[input_index];
                    pointer.set(byte);
                    input_index = input_index + 1;
                    column = column + 1;
                    index = index + 1;
                    steps_done = steps_done + 1;
                    proof {
                        st = step(code@, input@, pre)->Running_0;
                        assert forall|a: int| st.tape[a] == pointer.cell(a) by {
                            if a != pre.pos {
                                assert(st.tape[a] == pre.tape[a]);
                            }
                        }
                    }
                } else {
                    proof {
                        assert(run(code@, input@, steps_done as nat + 1) == Outcome::Failed(
                            ErrKind::InputExhausted,
                        ));
                    }
                    return Some(Err(BrainFuckError::InputExhausted));
                }
            },
            91u8 => {  // `[`
                if pointer.get() == 0 {
                    match scan_loop_end(code, index + 1, line, column) {
                        Some(t) => {
                            index = t.0 + 1;
                            line = t.1;
                            column = t.2 + 1;
                            steps_done = steps_done + 1;
                            proof {
                                st = step(code@, input@, pre)->Running_0;
                            }
                        },
                        None => {
                            proof {
                                assert(run(code@, input@, steps_done as nat + 1)
                                    == Outcome::Failed(
                                    ErrKind::UnmatchedEnd {
                                        line: line as int,
                                        col: column as int,
                                    },
                                ));
                            }
                            return Some(Err(BrainFuckError::NoMatchingEndToLoop(line, column)));
                        },
                    }
                } else {
                    scopes.push((index, line, column));
                    column = column + 1;
                    index = index + 1;
                    steps_done = steps_done + 1;
                    proof {
                        st = step(code@, input@, pre)->Running_0;
                    }
                }
            },
            93u8 => {  // `]`
                if scopes.len() == 0 {
                    proof {
                        assert(run(code@, input@, steps_done as nat + 1) == Outcome::Failed(
                            ErrKind::UnmatchedStart { line: line as int, col: column as int },
                        ));
                    }
                    return Some(Err(BrainFuckError::NoMatchingStartToLoop(line, column)));
                }
                if pointer.get() == 0 {
                    scopes.pop();
                    column = column + 1;
                    index = index + 1;
                    steps_done = steps_done + 1;
                    proof {
                        st = step(code@, input@, pre)->Running_0;
                    }
                } else {
                    let f = scopes[scopes.len() - 1];
                    index = f.0 + 1;
                    line = f.1;
                    column = f.2 + 1;
                    steps_done = steps_done + 1;
                    proof {
                        assert(pre.frames.last() == (LoopFrame {
                            ip: f.0 as int,
                            line: f.1 as int,
                            col: f.2 as int,
                        }));
                        st = step(code@, input@, pre)->Running_0;
                    }
                }
            },
            10u8 => {  // newline
                line = line + 1;
                column = 1;
                index = index + 1;
                steps_done = steps_done + 1;
                proof {
                    st = step(code@, input@, pre)->Running_0;
                }
            },
            _ => {
                column = column + 1;
                index = index + 1;
                steps_done = steps_done + 1;
                proof {
                    st = step(code@, input@, pre)->Running_0;
                }
            },
        }
    }
    if index < code.len() {
        return None;
    }
    proof {
        lemma_run_step(code@, input@, steps_done as nat);
        assert(run(code@, input@, steps_done as nat + 1) == Outcome::Done(output@));
    }
    Some(Ok(output))
}

/// Net bracket nesting depth of the first `i` bytes of `code`: `[` opens a
/// level, `]` closes one.
pub open spec fn bracket_depth(code: Seq<u8>, i: int) -> int
    decreases i,
{
    if i <= 0 {
        0
    } else {
        let d = bracket_depth(code, i - 1);
        if code[i - 1] == 91u8 {
            d + 1
        } else if code[i - 1] == 93u8 {
            d - 1
        } else {
            d
        }
    }
}

/// Properly nested brackets: every `[` has a matching `]` and vice versa —
/// the nesting depth never goes negative and ends at zero.
pub open spec fn balanced(code: Seq<u8>) -> bool {
    &&& bracket_depth(code, code.len() as int) == 0
    &&& forall|i: int| 0 <= i <= code.len() ==> #[trigger] bracket_depth(code, i) >= 0
}

/// If the nesting depth drops below `-count` somewhere ahead, the scan for
/// a matching `]` succeeds.
proof fn lemma_scan_finds(code: Seq<u8>, i: int, line: int, col: int, count: int)
    requires
        0 <= i <= code.len(),
        count >= 0,
        bracket_depth(code, code.len() as int) - bracket_depth(code, i) < -count,
    ensures
        find_loop_end(code, i, line, col, count) is Found,
    decreases code.len() - i,
{
    if i == code.len() {
        assert(false);
    } else if code[i] == 93u8 && count == 0 {
    } else if code[i] == 93u8 {
        assert(bracket_depth(code, i + 1) == bracket_depth(code, i) - 1);
        lemma_scan_finds(code, i + 1, line, col + 1, count - 1);
    } else if code[i] == 91u8 {
        assert(bracket_depth(code, i + 1) == bracket_depth(code, i) + 1);
        lemma_scan_finds(code, i + 1, line, col + 1, count + 1);
    } else if code[i] == 10u8 {
        assert(bracket_depth(code, i + 1) == bracket_depth(code, i));
        lemma_scan_finds(code, i + 1, line + 1, 1, count);
    } else {
        assert(bracket_depth(code, i + 1) == bracket_depth(code, i));
        lemma_scan_finds(code, i + 1, line, col + 1, count);
    }
}

/// What a successful scan found: a `]` ahead of the start, at nesting depth
/// exactly one below the depth the scan started from.
proof fn lemma_scan_found_props(code: Seq<u8>, i: int, line: int, col: int, count: int)
    requires
        0 <= i <= code.len(),
        count >= 0,
    ensures
        find_loop_end(code, i, line, col, count) matches ScanResult::Found { ip, line: l2, col: c2 }
            ==> i <= ip < code.len() && code[ip] == 93u8 && bracket_depth(code, ip + 1)
            == bracket_depth(code, i) - count - 1,
    decreases code.len() - i,
{
    if 0 <= i < code.len() {
        if code[i] == 93u8 && count == 0 {
            assert(bracket_depth(code, i + 1) == bracket_depth(code, i) - 1);
        } else if code[i] == 93u8 {
            assert(bracket_depth(code, i + 1) == bracket_depth(code, i) - 1);
            lemma_scan_found_props(code, i + 1, line, col + 1, count - 1);
        } else if code[i] == 91u8 {
            assert(bracket_depth(code, i + 1) == bracket_depth(code, i) + 1);
            lemma_scan_found_props(code, i + 1, line, col + 1, count + 1);
        } else if code[i] == 10u8 {
            assert(bracket_depth(code, i + 1) == bracket_depth(code, i));
            lemma_scan_found_props(code, i + 1, line + 1, 1, count);
        } else {
            assert(bracket_depth(code, i + 1) == bracket_depth(code, i));
            lemma_scan_found_props(code, i + 1, line, col + 1, count);
        }
    }
}

/// The invariant a run of a balanced program maintains: the loop-frame
/// stack mirrors the bracket nesting depth at the instruction pointer, and
/// each frame records the `[` that opened its nesting level.
pub open spec fn balanced_inv(code: Seq<u8>, s: MachineState) -> bool {
    &&& 0 <= s.ip <= code.len()
    &&& bracket_depth(code, s.ip) == s.frames.len()
    &&& forall|q: int|
        0 <= q < s.frames.len() ==> 0 <= (#[trigger] s.frames[q]).ip < code.len()
            && code[s.frames[q].ip] == 91u8 && bracket_depth(code, s.frames[q].ip) == q
}

/// One step of a balanced program preserves the invariant and can fail
/// only for want of input.
proof fn lemma_step_preserves_balanced_inv(code: Seq<u8>, input: Seq<u8>, s: MachineState)
    requires
        balanced(code),
        balanced_inv(code, s),
    ensures
        match step(code, input, s) {
            Outcome::Running(s2) => balanced_inv(code, s2),
            Outcome::Done(_) => true,
            Outcome::Failed(e) => e is InputExhausted,
        },
{
    if 0 <= s.ip < code.len() {
        let c = code[s.ip];
        if c == 91u8 {
            assert(bracket_depth(code, s.ip + 1) == bracket_depth(code, s.ip) + 1);
            if s.tape[s.pos] == 0 {
                assert(bracket_depth(code, code.len() as int) == 0);
                assert(bracket_depth(code, s.ip) >= 0);
                lemma_scan_finds(code, s.ip + 1, s.line, s.col, 0);
                lemma_scan_found_props(code, s.ip + 1, s.line, s.col, 0);
            }
        } else if c == 93u8 {
            assert(bracket_depth(code, s.ip + 1) == bracket_depth(code, s.ip) - 1);
            assert(bracket_depth(code, s.ip + 1) >= 0);
            assert(s.frames.len() >= 1);
            if s.tape[s.pos] != 0 {
                let f = s.frames.last();
                assert(bracket_depth(code, f.ip) == s.frames.len() - 1);
                assert(code[f.ip] == 91u8);
                assert(bracket_depth(code, f.ip + 1) == s.frames.len());
            }
        } else {
            assert(bracket_depth(code, s.ip + 1) == bracket_depth(code, s.ip));
        }
    }
}

/// Bracket matching is well-formed: however many steps a program with
/// properly nested brackets runs, it never reaches an unmatched-loop
/// failure — the only failure it can show is input exhaustion.
pub proof fn lemma_balanced_never_unmatched(code: Seq<u8>, input: Seq<u8>, n: nat)
    requires
        balanced(code),
    ensures
        match run(code, input, n) {
            Outcome::Running(s) => balanced_inv(code, s),
            Outcome::Done(_) => true,
            Outcome::Failed(e) => e is InputExhausted,
        },
    decreases n,
{
    if n == 0 {
        assert(bracket_depth(code, 0) == 0);
    } else {
        lemma_balanced_never_unmatched(code, input, (n - 1) as nat);
        match run(code, input, (n - 1) as nat) {
            Outcome::Running(s) => lemma_step_preserves_balanced_inv(code, input, s),
            _ => (),
        }
    }
}

/// Loop semantics: `[ BODY ]` behaves as a while-loop on the current cell.
/// A `[` reached with a zero cell runs BODY zero times — the instruction
/// pointer lands just past the matching `]`; with a nonzero cell it records
/// a loop frame and enters BODY.  A `]` repeats BODY — the pointer returns
/// to just after the recorded `[` — exactly when the cell it reads is
/// nonzero, and discards the frame and moves on exactly when that cell is
/// zero.  None of these control steps touches the tape, the data position,
/// the input or the output.
pub proof fn lemma_loop_while_semantics(code: Seq<u8>, input: Seq<u8>, s: MachineState)
    requires
        0 <= s.ip < code.len(),
    ensures
        code[s.ip] == 93u8 && s.frames.len() > 0 && s.tape[s.pos] != 0 ==> step(code, input, s)
            == Outcome::Running(
            MachineState {
                ip: s.frames.last().ip + 1,
                line: s.frames.last().line,
                col: s.frames.last().col + 1,
                ..s
            },
        ),
        code[s.ip] == 93u8 && s.frames.len() > 0 && s.tape[s.pos] == 0 ==> step(code, input, s)
            == Outcome::Running(
            (MachineState { frames: s.frames.drop_last(), ip: s.ip + 1, col: s.col + 1, ..s }),
        ),
        code[s.ip] == 91u8 && s.tape[s.pos] != 0 ==> step(code, input, s) == Outcome::Running(
            (MachineState {
                frames: s.frames.push(LoopFrame { ip: s.ip, line: s.line, col: s.col }),
                ip: s.ip + 1,
                col: s.col + 1,
                ..s
            }),
        ),
        code[s.ip] == 91u8 && s.tape[s.pos] == 0 ==> (match find_loop_end(
            code,
            s.ip + 1,
            s.line,
            s.col,
            0,
        ) {
            ScanResult::Found { ip, line, col } => step(code, input, s) == Outcome::Running(
                (MachineState { ip: ip + 1, line, col: col + 1, ..s }),
            ),
            ScanResult::NotFound => step(code, input, s) == Outcome::Failed(
                (ErrKind::UnmatchedEnd { line: s.line, col: s.col }),
            ),
        }),
{
}

/// A program with none of `,`, `.`, `[`, `]`.
pub open spec fn straightline(code: Seq<u8>) -> bool {
    forall|i: int|
        0 <= i < code.len() ==> #[trigger] code[i] != 44u8 && code[i] != 46u8 && code[i] != 91u8
            && code[i] != 93u8
}

/// Direct simulation of the data position after the first `k` instructions
/// of a straightline program.
pub open spec fn sim_pos(code: Seq<u8>, k: int) -> int
    decreases k,
{
    if k <= 0 {
        0
    } else {
        let p = sim_pos(code, k - 1);
        if code[k - 1] == 62u8 {
            p + 1
        } else if code[k - 1] == 60u8 {
            p - 1
        } else {
            p
        }
    }
}

/// Direct simulation of wrapping byte arithmetic on an infinite
/// zero-initialised tape, after the first `k` instructions of a
/// straightline program.
pub open spec fn sim_tape(code: Seq<u8>, k: int) -> Map<int, u8>
    decreases k,
{
    if k <= 0 {
        zero_tape()
    } else {
        let t = sim_tape(code, k - 1);
        let p = sim_pos(code, k - 1);
        if code[k - 1] == 43u8 {
            t.insert(p, wrapping_inc(t[p]))
        } else if code[k - 1] == 45u8 {
            t.insert(p, wrapping_dec(t[p]))
        } else {
            t
        }
    }
}

/// For a program with no input, output or loop instructions, the machine
/// state after its first `n` instructions matches the direct simulation of
/// wrapping arithmetic on an infinite zero-initialised tape, instruction by
/// instruction, and nothing is read or written.
pub proof fn lemma_straightline_simulation(code: Seq<u8>, input: Seq<u8>, n: nat)
    requires
        straightline(code),
        n <= code.len(),
    ensures
        run(code, input, n) matches Outcome::Running(s) && s.ip == n && s.pos == sim_pos(
            code,
            n as int,
        ) && s.tape == sim_tape(code, n as int) && s.out == Seq::<u8>::empty() && s.frames
            == Seq::<LoopFrame>::empty() && s.next_in == 0,
    decreases n,
{
    if n > 0 {
        lemma_straightline_simulation(code, input, (n - 1) as nat);
        lemma_run_step(code, input, (n - 1) as nat);
        let s = run(code, input, (n - 1) as nat)->Running_0;
        assert(code[n - 1] != 44u8 && code[n - 1] != 46u8 && code[n - 1] != 91u8 && code[n - 1]
            != 93u8);
        assert(sim_pos(code, n as int) == if code[n - 1] == 62u8 {
            sim_pos(code, n - 1) + 1
        } else if code[n - 1] == 60u8 {
            sim_pos(code, n - 1) - 1
        } else {
            sim_pos(code, n - 1)
        });
        assert(sim_tape(code, n as int) == if code[n - 1] == 43u8 {
            sim_tape(code, n - 1).insert(
                sim_pos(code, n - 1),
                wrapping_inc(sim_tape(code, n - 1)[sim_pos(code, n - 1)]),
            )
        } else if code[n - 1] == 45u8 {
            sim_tape(code, n - 1).insert(
                sim_pos(code, n - 1),
                wrapping_dec(sim_tape(code, n - 1)[sim_pos(code, n - 1)]),
            )
        } else {
            sim_tape(code, n - 1)
        });
    }
}

/// A straightline program always terminates, one machine step past its
/// last instruction, with no output; its whole effect is the simulated
/// tape, which `lemma_straightline_simulation` exposes.
pub proof fn lemma_straightline_terminates(code: Seq<u8>, input: Seq<u8>)
    requires
        straightline(code),
    ensures
        run(code, input, code.len() + 1) == Outcome::Done(Seq::<u8>::empty()),
{
    lemma_straightline_simulation(code, input, code.len());
    lemma_run_step(code, input, code.len());
}

} // verus!
