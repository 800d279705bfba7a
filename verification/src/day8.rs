//! An instruction execution and repair engine.
//!
//! A program is an ordered sequence of instructions; an executor runs
//! it one instruction at a time, keeping a visited set to detect
//! infinite loops, and classifies each run as terminated (the pointer
//! reached exactly the program length) or looped (the pointer was
//! about to re-enter an already executed line).  A jump that leaves
//! the range `[0, N]` in any other way is a malformed program and is
//! reported as a fatal error, never executed.  The repair search flips
//! one no-op/jump instruction at a time and reports the accumulator of
//! the first flip whose run terminates normally.

use vstd::prelude::*;
use vstd::set_lib::lemma_len_subset;
use vstd::set_lib::lemma_int_range;
use vstd::set_lib::set_int_range;
use vstd::string::StrSliceExecFns;
use crate::text;

verus! {

/// One machine instruction with its signed argument.
#[derive(Clone, Copy, PartialEq, Eq, Structural, Debug)]
pub enum Instruction {
    NoOp(i32),
    Acc(i32),
    Jump(i32),
}

/// Classification of the line under the instruction pointer.
#[derive(Clone, Copy, PartialEq, Eq, Structural, Debug)]
pub enum NextState {
    Valid,
    Loop,
    Terminated,
}

/// How a run from a fresh state ended, with the final accumulator.
#[derive(Clone, Copy, PartialEq, Eq, Structural, Debug)]
pub enum RunOutcome {
    Terminated(i64),
    Looped(i64),
}

/// Fatal error of a single run: the pointer left `[0, N]` other than
/// by landing exactly on `N`.
#[derive(Clone, Copy, PartialEq, Eq, Structural, Debug)]
pub enum ExecError {
    MalformedProgram,
}

/// Error of the repair search: no single flip makes the program
/// terminate normally.
#[derive(Clone, Copy, PartialEq, Eq, Structural, Debug)]
pub enum RepairError {
    NoRepairFound,
}

/// Mathematical outcome of a run: termination, loop detection (each
/// with the accumulator), or a malformed jump.
pub ghost enum RunResult {
    Terminated(int),
    Looped(int),
    Malformed,
}

/// Where the pointer goes when `i` executes at line `line`.
pub open spec fn step_target(i: Instruction, line: int) -> int {
    match i {
        Instruction::NoOp(_) => line + 1,
        Instruction::Acc(_) => line + 1,
        Instruction::Jump(v) => line + v,
    }
}

/// The accumulator after `i` executes.
pub open spec fn step_acc(i: Instruction, acc: int) -> int {
    match i {
        Instruction::Acc(v) => acc + v,
        _ => acc,
    }
}

/// Outcome of running `prog` from pointer `line`, accumulator `acc`
/// and visited set `visited`.  Total because the visited set grows
/// with every step and stays inside the program's index range.
pub open spec fn run_from(
    prog: Seq<Instruction>,
    line: int,
    acc: int,
    visited: Set<int>,
) -> RunResult
    decreases prog.len() - visited.len()
        when visited.finite() && visited.subset_of(set_int_range(0, prog.len() as int))
{
    if line == prog.len() {
        RunResult::Terminated(acc)
    } else if !(0 <= line < prog.len()) {
        RunResult::Malformed
    } else if visited.contains(line) {
        RunResult::Looped(acc)
    } else {
        proof {
            lemma_int_range(0, prog.len() as int);
            lemma_len_subset(visited.insert(line), set_int_range(0, prog.len() as int));
        }
        run_from(
            prog,
            step_target(prog[line], line),
            step_acc(prog[line], acc),
            visited.insert(line),
        )
    }
}

/// How many instructions a run from this state executes.
pub open spec fn run_steps(prog: Seq<Instruction>, line: int, visited: Set<int>) -> int
    decreases prog.len() - visited.len()
        when visited.finite() && visited.subset_of(set_int_range(0, prog.len() as int))
{
    if line == prog.len() {
        0
    } else if !(0 <= line < prog.len()) {
        0
    } else if visited.contains(line) {
        0
    } else {
        proof {
            lemma_int_range(0, prog.len() as int);
            lemma_len_subset(visited.insert(line), set_int_range(0, prog.len() as int));
        }
        1 + run_steps(prog, step_target(prog[line], line), visited.insert(line))
    }
}

/// Outcome of running `prog` from the initial state: pointer 0,
/// accumulator 0, nothing visited.
pub open spec fn spec_execute(prog: Seq<Instruction>) -> RunResult {
    run_from(prog, 0, 0, Set::empty())
}

/// A no-op becomes a jump and a jump a no-op; accumulates are fixed.
pub open spec fn flip(i: Instruction) -> Instruction {
    match i {
        Instruction::NoOp(v) => Instruction::Jump(v),
        Instruction::Acc(v) => Instruction::Acc(v),
        Instruction::Jump(v) => Instruction::NoOp(v),
    }
}

/// Only no-ops and jumps are flip candidates.
pub open spec fn flippable(i: Instruction) -> bool {
    !(i is Acc)
}

/// `prog` with the instruction at `k` flipped, its argument kept.
pub open spec fn flip_at(prog: Seq<Instruction>, k: int) -> Seq<Instruction> {
    prog.update(k, flip(prog[k]))
}

/// Flip candidate `k` repairs `prog`: its line can be flipped and the
/// flipped copy terminates normally.
pub open spec fn candidate_ok(prog: Seq<Instruction>, k: int) -> bool {
    flippable(prog[k]) && spec_execute(flip_at(prog, k)) is Terminated
}

/// The accumulator carried by a terminated or looped outcome.
pub open spec fn result_acc(r: RunResult) -> int {
    match r {
        RunResult::Terminated(a) => a,
        RunResult::Looped(a) => a,
        RunResult::Malformed => 0,
    }
}

/// `acc` can absorb `slack` more accumulate instructions without
/// leaving the i64 range.
pub open spec fn acc_room(acc: int, slack: int) -> bool {
    i64::MIN + slack * 0x8000_0000 <= acc && acc <= i64::MAX - slack * 0x8000_0000
}

/// A mutable execution table: the program, a visited flag per line,
/// the pointer and the accumulator.
pub struct Instructions {
    pub acc: i64,
    pub line: usize,
    pub instructions: Vec<(Instruction, bool)>,
}

impl Instructions {
    /// The stored program, without the visited flags.
    pub open spec fn prog(self) -> Seq<Instruction> {
        self.instructions@.map_values(|e: (Instruction, bool)| e.0)
    }

    /// The set of already-executed line numbers.
    pub open spec fn visited(self) -> Set<int> {
        Set::new(|i: int| 0 <= i < self.instructions@.len() && self.instructions@[i].1)
    }

    /// What a run from the current state yields.
    pub open spec fn outcome(self) -> RunResult {
        run_from(self.prog(), self.line as int, self.acc as int, self.visited())
    }

    /// A fresh state: pointer 0, accumulator 0, nothing visited.
    pub open spec fn is_fresh(self) -> bool {
        self.acc == 0 && self.line == 0 && self.visited() == Set::<int>::empty()
    }
}

/// The visited set of a table is always a finite subset of the
/// program's index range.
pub proof fn lemma_visited_wf(m: Instructions)
    ensures
        m.visited().finite(),
        m.visited().subset_of(set_int_range(0, m.prog().len() as int)),
        m.visited().len() <= m.prog().len(),
{
    lemma_int_range(0, m.prog().len() as int);
    lemma_len_subset(m.visited(), set_int_range(0, m.prog().len() as int));
}

impl Instructions {
    /// Classifies the line under the pointer: past the table, already
    /// visited, or runnable.
    pub fn get_state(&self) -> (r: NextState)
        ensures
            r == (if self.line >= self.instructions@.len() {
                NextState::Terminated
            } else if self.instructions@[self.line as int].1 {
                NextState::Loop
            } else {
                NextState::Valid
            }),
    {
        if self.line >= self.instructions.len() {
            NextState::Terminated
        } else if self.instructions[self.line].1 {
            NextState::Loop
        } else {
            NextState::Valid
        }
    }

    /// Executes the single instruction under the pointer: marks the
    /// line visited, then applies it.  A jump whose target leaves
    /// `[0, N]` is refused as malformed and moves nothing.
    pub fn next(&mut self) -> (r: Result<(), ExecError>)
        requires
            old(self).line < old(self).instructions@.len(),
            i64::MIN <= step_acc(
                old(self).prog()[old(self).line as int],
                old(self).acc as int,
            ) <= i64::MAX,
        ensures
            final(self).prog() == old(self).prog(),
            final(self).visited() == old(self).visited().insert(old(self).line as int),
            ({
                let inst = old(self).prog()[old(self).line as int];
                let t = step_target(inst, old(self).line as int);
                if 0 <= t <= old(self).prog().len() {
                    r is Ok && final(self).line == t && final(self).acc == step_acc(
                        inst,
                        old(self).acc as int,
                    )
                } else {
                    r is Err && final(self).line == old(self).line && final(self).acc == old(
                        self,
                    ).acc
                }
            }),
    {
        let idx = self.line;
        let n = self.instructions.len();
        let inst = self.instructions[idx].0;
        self.instructions.set(idx, (inst, true));
        proof {
            assert(self.prog() =~= old(self).prog());
            assert(self.visited() =~= old(self).visited().insert(idx as int));
        }
        match inst {
            Instruction::NoOp(_) => {
                self.line = idx + 1;
                Ok(())
            },
            Instruction::Acc(num) => {
                self.acc = self.acc + num as i64;
                self.line = idx + 1;
                Ok(())
            },
            Instruction::Jump(num) => {
                if num >= 0 {
                    let ahead = num as usize;
                    if ahead <= n - idx {
                        self.line = idx + ahead;
                        Ok(())
                    } else {
                        Err(ExecError::MalformedProgram)
                    }
                } else {
                    let back = (-(num as i64)) as usize;
                    if back <= idx {
                        self.line = idx - back;
                        Ok(())
                    } else {
                        Err(ExecError::MalformedProgram)
                    }
                }
            },
        }
    }

    /// Runs until the machine terminates, detects a loop, or refuses a
    /// malformed jump, and reports which, leaving the final state in
    /// place.
    fn run_to_end(&mut self) -> (r: Result<bool, ExecError>)
        requires
            acc_room(old(self).acc as int, old(self).prog().len() - old(self).visited().len()),
        ensures
            final(self).prog() == old(self).prog(),
            match r {
                Ok(true) => old(self).outcome() == RunResult::Terminated(final(self).acc as int)
                    && final(self).line == old(self).prog().len(),
                Ok(false) => old(self).outcome() == RunResult::Looped(final(self).acc as int),
                Err(_) => old(self).outcome() == RunResult::Malformed,
            },
    {
        loop
            invariant
                self.prog() == old(self).prog(),
                self.outcome() == old(self).outcome(),
                acc_room(self.acc as int, self.prog().len() - self.visited().len()),
            decreases self.prog().len() - self.visited().len(),
        {
            proof {
                lemma_visited_wf(*self);
            }
            match self.get_state() {
                NextState::Terminated => {
                    if self.line == self.instructions.len() {
                        return Ok(true);
                    } else {
                        return Err(ExecError::MalformedProgram);
                    }
                },
                NextState::Loop => {
                    return Ok(false);
                },
                NextState::Valid => {
                    proof {
                        lemma_int_range(0, self.prog().len() as int);
                        lemma_len_subset(
                            self.visited().insert(self.line as int),
                            set_int_range(0, self.prog().len() as int),
                        );
                    }
                    let ghost pre = *self;
                    let res = self.next();
                    proof {
                        lemma_visited_wf(*self);
                        assert(pre.outcome() == run_from(
                            pre.prog(),
                            step_target(pre.prog()[pre.line as int], pre.line as int),
                            step_acc(pre.prog()[pre.line as int], pre.acc as int),
                            pre.visited().insert(pre.line as int),
                        ));
                    }
                    match res {
                        Ok(()) => {
                        },
                        Err(e) => {
                            return Err(e);
                        },
                    }
                },
            }
        }
    }

    /// Runs a state that is known not to reach a malformed jump;
    /// reports true on normal termination and false on a detected
    /// loop, leaving the final accumulator in `acc`.
    pub fn iterate_until_terminated(&mut self) -> (r: bool)
        requires
            !(old(self).outcome() is Malformed),
            acc_room(old(self).acc as int, old(self).prog().len() - old(self).visited().len()),
        ensures
            final(self).prog() == old(self).prog(),
            r == (old(self).outcome() is Terminated),
            old(self).outcome() == (if r {
                RunResult::Terminated(final(self).acc as int)
            } else {
                RunResult::Looped(final(self).acc as int)
            }),
            r ==> final(self).line == old(self).prog().len(),
    {
        match self.run_to_end() {
            Ok(b) => b,
            Err(_) => {
                proof {
                    assert(false);
                }
                false
            },
        }
    }

    /// Flips the no-op/jump instruction at `line`, keeping its
    /// argument and visited flag; reports whether anything changed.
    pub fn negate_instruction_at_line(&mut self, line: usize) -> (r: bool)
        requires
            line < old(self).instructions@.len(),
        ensures
            final(self).acc == old(self).acc,
            final(self).line == old(self).line,
            final(self).visited() == old(self).visited(),
            final(self).prog() == flip_at(old(self).prog(), line as int),
            r == flippable(old(self).prog()[line as int]),
    {
        let entry = self.instructions[line];
        let r = match entry.0 {
            Instruction::NoOp(num) => {
                self.instructions.set(line, (Instruction::Jump(num), entry.1));
                true
            },
            Instruction::Acc(_) => {
                false
            },
            Instruction::Jump(num) => {
                self.instructions.set(line, (Instruction::NoOp(num), entry.1));
                true
            },
        };
        proof {
            assert(self.prog() =~= flip_at(old(self).prog(), line as int));
            assert(self.visited() =~= old(self).visited());
        }
        r
    }

    /// Clears every visited flag and puts pointer and accumulator back
    /// to the initial state.
    pub fn reset_state(&mut self)
        ensures
            final(self).prog() == old(self).prog(),
            final(self).is_fresh(),
    {
        let n = self.instructions.len();
        let mut k: usize = 0;
        while k < n
            invariant
                k <= n,
                n == self.instructions@.len(),
                self.prog() == old(self).prog(),
                self.acc == old(self).acc,
                forall|j: int| 0 <= j < k ==> !self.instructions@[j].1,
            decreases n - k,
        {
            let inst = self.instructions[k].0;
            self.instructions.set(k, (inst, false));
            proof {
                assert(self.prog() =~= old(self).prog());
            }
            k = k + 1;
        }
        self.acc = 0;
        self.line = 0;
        proof {
            assert(self.visited() =~= Set::<int>::empty());
        }
    }
}

// ------------------------------------------------------------------
// parsing
// ------------------------------------------------------------------

/// Shape of one instruction line: a three-letter opcode, a separator
/// column, a sign column, and a digit string whose value fits an i32
/// argument.  Any sign other than '+' makes the argument negative.
pub open spec fn wf_inst_text(s: Seq<char>) -> bool {
    &&& s.len() >= 6
    &&& ((s[0] == 'n' && s[1] == 'o' && s[2] == 'p') || (s[0] == 'a' && s[1] == 'c' && s[2] == 'c')
        || (s[0] == 'j' && s[1] == 'm' && s[2] == 'p'))
    &&& text::is_digits(s.subrange(5, s.len() as int))
    &&& text::dec_value(s.subrange(5, s.len() as int)) <= i32::MAX
}

/// The signed argument of an instruction line.
pub open spec fn inst_arg(s: Seq<char>) -> int {
    if s[4] == '+' {
        text::dec_value(s.subrange(5, s.len() as int))
    } else {
        -text::dec_value(s.subrange(5, s.len() as int))
    }
}

/// The instruction a well-formed line denotes.
pub open spec fn parse_inst(s: Seq<char>) -> Instruction {
    if s[0] == 'n' {
        Instruction::NoOp(inst_arg(s) as i32)
    } else if s[0] == 'a' {
        Instruction::Acc(inst_arg(s) as i32)
    } else {
        Instruction::Jump(inst_arg(s) as i32)
    }
}

/// Every line of the listing is a well-formed instruction.
pub open spec fn wf_listing(s: Seq<char>) -> bool {
    forall|i: int|
        0 <= i < text::spec_lines(s).len() ==> wf_inst_text(#[trigger] text::spec_lines(s)[i])
}

/// The program a listing denotes, one instruction per line.
pub open spec fn parse_listing(s: Seq<char>) -> Seq<Instruction> {
    text::spec_lines(s).map_values(|l: Seq<char>| parse_inst(l))
}

impl Instruction {
    /// Parses one instruction line.
    pub fn parse(inst: &str) -> (r: Instruction)
        requires
            wf_inst_text(inst@),
        ensures
            r == parse_inst(inst@),
    {
        let n = inst.unicode_len();
        let c0 = inst.get_char(0);
        let sign = inst.get_char(4);
        let value: u64 = match text::parse_u64_range(inst, 5, n) {
            Some(v) => v,
            None => {
                proof {
                    assert(false);
                }
                0
            },
        };
        let num: i32 = if sign == '+' {
            value as i32
        } else {
            -(value as i32)
        };
        if c0 == 'n' {
            Instruction::NoOp(num)
        } else if c0 == 'a' {
            Instruction::Acc(num)
        } else {
            Instruction::Jump(num)
        }
    }
}

impl Instructions {
    /// Parses an instruction listing into a fresh execution table.
    pub fn parse(input: &str) -> (r: Instructions)
        requires
            wf_listing(input@),
        ensures
            r.prog() == parse_listing(input@),
            r.is_fresh(),
    {
        let lines = text::split_lines(input);
        let mut table: Vec<(Instruction, bool)> = Vec::new();
        let mut i: usize = 0;
        while i < lines.len()
            invariant
                i <= lines@.len(),
                lines.deep_view() == text::spec_lines(input@),
                wf_listing(input@),
                table@.len() == i,
                forall|j: int|
                    0 <= j < i ==> table@[j] == (parse_inst(text::spec_lines(input@)[j]), false),
            decreases lines@.len() - i,
        {
            proof {
                assert(lines@[i as int]@ == lines.deep_view()[i as int]);
            }
            let inst = Instruction::parse(lines[i].as_str());
            table.push((inst, false));
            i = i + 1;
        }
        let r = Instructions { acc: 0, line: 0, instructions: table };
        proof {
            assert(r.prog() =~= parse_listing(input@));
            assert(r.visited() =~= Set::<int>::empty());
        }
        r
    }
}

// ------------------------------------------------------------------
// whole runs and the repair search
// ------------------------------------------------------------------

/// Runs `program` from a fresh state and classifies the outcome.
pub fn execute(program: &Vec<Instruction>) -> (r: Result<RunOutcome, ExecError>)
    requires
        program@.len() < 0x1_0000_0000,
    ensures
        match r {
            Ok(RunOutcome::Terminated(a)) => spec_execute(program@) == RunResult::Terminated(
                a as int,
            ),
            Ok(RunOutcome::Looped(a)) => spec_execute(program@) == RunResult::Looped(a as int),
            Err(ExecError::MalformedProgram) => spec_execute(program@) == RunResult::Malformed,
        },
{
    let mut table: Vec<(Instruction, bool)> = Vec::new();
    let mut k: usize = 0;
    while k < program.len()
        invariant
            k <= program@.len(),
            table@.len() == k,
            forall|j: int| 0 <= j < k ==> table@[j] == (program@[j], false),
        decreases program@.len() - k,
    {
        table.push((program[k], false));
        k = k + 1;
    }
    let mut run = Instructions { acc: 0, line: 0, instructions: table };
    proof {
        assert(run.prog() =~= program@);
        assert(run.visited() =~= Set::<int>::empty());
    }
    match run.run_to_end() {
        Ok(true) => Ok(RunOutcome::Terminated(run.acc)),
        Ok(false) => Ok(RunOutcome::Looped(run.acc)),
        Err(e) => Err(e),
    }
}

/// Finds the lowest-numbered repairable line of `program`: flips it on
/// an independent copy, runs the copy, and returns the accumulator of
/// the first copy that terminates normally.  A candidate whose run
/// loops or is malformed only disqualifies itself.
pub fn repair(program: &Vec<Instruction>) -> (r: Result<i64, RepairError>)
    requires
        program@.len() < 0x1_0000_0000,
    ensures
        match r {
            Ok(a) => exists|k: int|
                0 <= k < program@.len() && #[trigger] candidate_ok(program@, k) && spec_execute(
                    flip_at(program@, k),
                ) == RunResult::Terminated(a as int) && (forall|j: int|
                    0 <= j < k ==> !candidate_ok(program@, j)),
            Err(RepairError::NoRepairFound) => forall|k: int|
                0 <= k < program@.len() ==> !candidate_ok(program@, k),
        },
{
    let n = program.len();
    let mut k: usize = 0;
    while k < n
        invariant
            k <= n,
            n == program@.len(),
            program@.len() < 0x1_0000_0000,
            forall|j: int| 0 <= j < k ==> !candidate_ok(program@, j),
        decreases n - k,
    {
        let flipped: Option<Instruction> = match program[k] {
            Instruction::NoOp(v) => Some(Instruction::Jump(v)),
            Instruction::Acc(_) => None,
            Instruction::Jump(v) => Some(Instruction::NoOp(v)),
        };
        match flipped {
            Some(f) => {
                let mut copy: Vec<Instruction> = Vec::new();
                let mut t: usize = 0;
                while t < n
                    invariant
                        t <= n,
                        n == program@.len(),
                        copy@.len() == t,
                        forall|j: int| 0 <= j < t ==> copy@[j] == program@[j],
                    decreases n - t,
                {
                    copy.push(program[t]);
                    t = t + 1;
                }
                copy.set(k, f);
                proof {
                    assert(copy@ =~= flip_at(program@, k as int));
                }
                match execute(&copy) {
                    Ok(RunOutcome::Terminated(a)) => {
                        proof {
                            assert(f == flip(program@[k as int]));
                            assert(flippable(program@[k as int]));
                            assert(candidate_ok(program@, k as int));
                            assert(spec_execute(flip_at(program@, k as int))
                                == RunResult::Terminated(a as int));
                        }
                        return Ok(a);
                    },
                    _ => {
                        proof {
                            assert(!(spec_execute(flip_at(program@, k as int)) is Terminated));
                            assert(!candidate_ok(program@, k as int));
                        }
                    },
                }
            },
            None => {
                proof {
                    assert(!flippable(program@[k as int]));
                    assert(!candidate_ok(program@, k as int));
                }
            },
        }
        k = k + 1;
    }
    Err(RepairError::NoRepairFound)
}

// ------------------------------------------------------------------
// the in-place repair scan
// ------------------------------------------------------------------

/// The accumulator found by the in-place repair scan: candidate lines
/// are tried in ascending order; a flippable line is run with its
/// instruction flipped; at the first line that cannot be flipped the
/// unmodified program is run instead, once; the first run that
/// terminates normally ends the scan.
pub open spec fn scan_from(prog: Seq<Instruction>, m: int, clean_done: bool) -> Option<int>
    decreases prog.len() - m,
{
    if m < 0 || m >= prog.len() {
        None
    } else if flippable(prog[m]) {
        if spec_execute(flip_at(prog, m)) is Terminated {
            Some(result_acc(spec_execute(flip_at(prog, m))))
        } else {
            scan_from(prog, m + 1, clean_done)
        }
    } else if !clean_done {
        if spec_execute(prog) is Terminated {
            Some(result_acc(spec_execute(prog)))
        } else {
            scan_from(prog, m + 1, true)
        }
    } else {
        scan_from(prog, m + 1, clean_done)
    }
}

impl Instructions {
    /// Searches in place for the first scan candidate that makes the
    /// stored program terminate, leaving that run's accumulator (and
    /// its end-of-program pointer) behind; the program itself is put
    /// back unmodified.
    pub fn iterate_until_terminated_with_corruption(&mut self)
        requires
            old(self).is_fresh(),
            old(self).prog().len() < 0x1_0000_0000,
            scan_from(old(self).prog(), 0, false) is Some,
        ensures
            final(self).prog() == old(self).prog(),
            scan_from(old(self).prog(), 0, false) == Some(final(self).acc as int),
            final(self).line == old(self).prog().len(),
    {
        let ghost prog0 = old(self).prog();
        let mut mutate_line: usize = 0;
        let mut clean_run: bool = false;
        loop
            invariant
                prog0 == old(self).prog(),
                self.prog() == prog0,
                prog0.len() < 0x1_0000_0000,
                self.is_fresh(),
                mutate_line <= prog0.len(),
                scan_from(prog0, mutate_line as int, clean_run) == scan_from(prog0, 0, false),
                scan_from(prog0, 0, false) is Some,
            decreases prog0.len() - mutate_line,
        {
            let ghost m_entry = mutate_line as int;
            let ghost clean_at_entry = clean_run;
            proof {
                assert(mutate_line < prog0.len());
            }
            let changed = self.negate_instruction_at_line(mutate_line);
            if !changed && !clean_run {
                clean_run = true;
                proof {
                    assert(self.prog() =~= prog0);
                }
            } else if !changed {
                proof {
                    assert(self.prog() =~= prog0);
                    assert(!flippable(prog0[m_entry]));
                    assert(scan_from(prog0, m_entry, true) == scan_from(prog0, m_entry + 1, true));
                }
                mutate_line = mutate_line + 1;
                continue;
            }
            let ghost candidate = self.prog();
            proof {
                if changed {
                    assert(candidate == flip_at(prog0, m_entry));
                } else {
                    assert(candidate =~= prog0);
                }
                lemma_visited_wf(*self);
            }
            let res = self.run_to_end();
            let terminated = match res {
                Ok(true) => true,
                _ => false,
            };
            proof {
                if terminated {
                    assert(spec_execute(candidate) == RunResult::Terminated(self.acc as int));
                } else {
                    assert(!(spec_execute(candidate) is Terminated));
                }
                if changed {
                    assert(flippable(prog0[m_entry]));
                    if terminated {
                        assert(scan_from(prog0, m_entry, clean_at_entry) == Some(
                            result_acc(spec_execute(flip_at(prog0, m_entry))),
                        ));
                        assert(scan_from(prog0, m_entry, clean_at_entry) == Some(
                            self.acc as int,
                        ));
                    } else {
                        assert(scan_from(prog0, m_entry, clean_at_entry) == scan_from(
                            prog0,
                            m_entry + 1,
                            clean_at_entry,
                        ));
                    }
                } else {
                    assert(!flippable(prog0[m_entry]));
                    assert(!clean_at_entry);
                    if terminated {
                        assert(scan_from(prog0, m_entry, false) == Some(
                            result_acc(spec_execute(prog0)),
                        ));
                        assert(scan_from(prog0, m_entry, false) == Some(self.acc as int));
                    } else {
                        assert(scan_from(prog0, m_entry, false) == scan_from(
                            prog0,
                            m_entry + 1,
                            true,
                        ));
                    }
                }
            }
            self.negate_instruction_at_line(mutate_line);
            proof {
                assert(self.prog() =~= prog0);
            }
            mutate_line = mutate_line + 1;
            if terminated {
                proof {
                    assert(scan_from(prog0, 0, false) == Some(self.acc as int));
                }
                return;
            }
            self.reset_state();
        }
    }

}

// ------------------------------------------------------------------
// task entry points
// ------------------------------------------------------------------

/// Answer of the first task: the accumulator at the moment the parsed
/// program terminates or is about to re-enter a visited line.
pub fn task1(input: &str) -> (r: i64)
    requires
        wf_listing(input@),
        parse_listing(input@).len() < 0x1_0000_0000,
        !(spec_execute(parse_listing(input@)) is Malformed),
    ensures
        spec_execute(parse_listing(input@)) == (if spec_execute(parse_listing(input@))
            is Terminated {
            RunResult::Terminated(r as int)
        } else {
            RunResult::Looped(r as int)
        }),
{
    let mut parsed = Instructions::parse(input);
    let _terminated = parsed.iterate_until_terminated();
    parsed.acc
}

/// Answer of the second task: the accumulator of the run picked by
/// the repair scan.
pub fn task2(input: &str) -> (r: i64)
    requires
        wf_listing(input@),
        parse_listing(input@).len() < 0x1_0000_0000,
        scan_from(parse_listing(input@), 0, false) is Some,
    ensures
        scan_from(parse_listing(input@), 0, false) == Some(r as int),
{
    let mut parsed = Instructions::parse(input);
    parsed.iterate_until_terminated_with_corruption();
    parsed.acc
}

// ------------------------------------------------------------------
// laws
// ------------------------------------------------------------------

/// True when no instruction of `prog` is a jump.
pub open spec fn straightline(prog: Seq<Instruction>) -> bool {
    forall|i: int| 0 <= i < prog.len() ==> !((#[trigger] prog[i]) is Jump)
}

/// Sum of the accumulate arguments from line `k` on.
pub open spec fn acc_sum_from(prog: Seq<Instruction>, k: int) -> int
    decreases prog.len() - k,
{
    if k < 0 || k >= prog.len() {
        0
    } else {
        step_acc(prog[k], 0) + acc_sum_from(prog, k + 1)
    }
}

proof fn lemma_straightline_run(prog: Seq<Instruction>, k: int, acc: int, visited: Set<int>)
    requires
        straightline(prog),
        0 <= k <= prog.len(),
        visited.finite(),
        visited.subset_of(set_int_range(0, prog.len() as int)),
        forall|j: int| k <= j < prog.len() ==> !visited.contains(j),
    ensures
        run_from(prog, k, acc, visited) == RunResult::Terminated(acc + acc_sum_from(prog, k)),
        run_steps(prog, k, visited) == prog.len() - k,
    decreases prog.len() - k,
{
    if k < prog.len() {
        lemma_int_range(0, prog.len() as int);
        lemma_len_subset(visited.insert(k), set_int_range(0, prog.len() as int));
        assert(step_acc(prog[k], acc) == acc + step_acc(prog[k], 0));
        assert(step_target(prog[k], k) == k + 1);
        lemma_straightline_run(prog, k + 1, step_acc(prog[k], acc), visited.insert(k));
    }
}

/// Law: a program of no-ops and accumulates only always terminates,
/// with the sum of its accumulate arguments, after exactly one step
/// per line — so never more than the program's length in steps.
pub proof fn lemma_straightline_terminates(prog: Seq<Instruction>)
    requires
        straightline(prog),
    ensures
        spec_execute(prog) == RunResult::Terminated(acc_sum_from(prog, 0)),
        run_steps(prog, 0, Set::empty()) == prog.len(),
{
    lemma_straightline_run(prog, 0, 0, Set::empty());
}

/// Law: every run executes each line at most once: its step count
/// never exceeds the number of not-yet-visited lines.
pub proof fn lemma_run_steps_bounded(prog: Seq<Instruction>, line: int, visited: Set<int>)
    requires
        visited.finite(),
        visited.subset_of(set_int_range(0, prog.len() as int)),
    ensures
        run_steps(prog, line, visited) <= prog.len() - visited.len(),
    decreases prog.len() - visited.len(),
{
    lemma_int_range(0, prog.len() as int);
    lemma_len_subset(visited, set_int_range(0, prog.len() as int));
    if 0 <= line < prog.len() && !visited.contains(line) {
        lemma_len_subset(visited.insert(line), set_int_range(0, prog.len() as int));
        lemma_run_steps_bounded(prog, step_target(prog[line], line), visited.insert(line));
    }
}

/// Law: the executor is a pure function of its program: two runs of
/// the same unmodified program yield the same outcome.
pub proof fn lemma_execute_deterministic(
    prog: Seq<Instruction>,
    first: RunResult,
    second: RunResult,
)
    requires
        first == spec_execute(prog),
        second == spec_execute(prog),
    ensures
        first == second,
{
}

/// Law: a repair candidate differs from its program in exactly the
/// flipped line, argument kept; `repair`'s contract then pins its
/// result to the accumulator of an independent run of that copy.
pub proof fn lemma_flip_changes_one_line(prog: Seq<Instruction>, k: int)
    requires
        0 <= k < prog.len(),
    ensures
        flip_at(prog, k).len() == prog.len(),
        flip_at(prog, k)[k] == flip(prog[k]),
        forall|j: int| 0 <= j < prog.len() && j != k ==> flip_at(prog, k)[j] == prog[j],
{
}

/// Law: a jump that lands exactly on the program length terminates
/// the run normally; only targets outside `[0, N]` are malformed.
pub proof fn lemma_jump_to_end_terminates(
    prog: Seq<Instruction>,
    line: int,
    acc: int,
    visited: Set<int>,
    v: i32,
)
    requires
        visited.finite(),
        visited.subset_of(set_int_range(0, prog.len() as int)),
        0 <= line < prog.len(),
        !visited.contains(line),
        prog[line] == Instruction::Jump(v),
        line + v == prog.len(),
    ensures
        run_from(prog, line, acc, visited) == RunResult::Terminated(acc),
{
    assert(step_target(prog[line], line) == prog.len());
    assert(run_from(prog, prog.len() as int, acc, visited.insert(line))
        == RunResult::Terminated(acc));
}

/// Law: the empty program terminates immediately with accumulator 0.
pub proof fn lemma_empty_program_terminates(prog: Seq<Instruction>)
    requires
        prog.len() == 0,
    ensures
        spec_execute(prog) == RunResult::Terminated(0),
{
}

/// The calendar day this module solves.
pub struct Day8 {}

impl Day8 {
    /// The day's number.
    pub fn get_day_number(&self) -> (r: usize)
        ensures
            r == 8,
    {
        8
    }
}

} // verus!
