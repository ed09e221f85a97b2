//! General laws of the machine's step semantics, stated and proved over the
//! model: pass length of loop-free programs, the clearing effect of the
//! end-of-pass reset, variable pre-initialization, the wrapping overflow
//! policy, and the invalid-jump fault.

use vstd::prelude::*;

use crate::engine::{
    boot_from, booted, exec_at, step_result, step_state, wrap16, Instr, Model, VmFault,
};

verus! {

/// A fresh machine model over program `ixs`: both registers zero, empty
/// stack, empty frame — the state a machine is constructed in and returns to
/// after every completed pass.
pub open spec fn fresh_model(ixs: Seq<Instr>) -> Model {
    Model { ip: 0, sp: 0, frame: Map::empty(), stack: Seq::empty(), ixs }
}

/// The frame pre-scan moves neither the instruction pointer nor the program.
pub proof fn lemma_boot_from_keeps(m: Model, i: nat)
    ensures
        boot_from(m, i).ip == m.ip,
        boot_from(m, i).ixs == m.ixs,
    decreases m.ixs.len() - i,
{
    if i < m.ixs.len() {
        let m1 = match m.ixs[i as int] {
            Instr::WriteVar(n) => if m.frame.contains_key(n) {
                m
            } else {
                Model {
                    frame: m.frame.insert(n, m.sp),
                    sp: m.sp + 1,
                    stack: m.stack.push(0),
                    ..m
                }
            },
            _ => m,
        };
        lemma_boot_from_keeps(m1, i + 1);
    }
}

/// Whether the program holds no `ConditionLoop`.
pub open spec fn loop_free(ixs: Seq<Instr>) -> bool {
    forall|i: int| 0 <= i < ixs.len() ==> !(ixs[i] is ConditionLoop)
}

/// The model after `n` steps from `m`.
pub open spec fn run_n(m: Model, n: nat) -> Model
    decreases n,
{
    if n == 0 {
        m
    } else {
        step_state(run_n(m, (n - 1) as nat))
    }
}

/// Whether each of the first `n` steps from `m` returns without a fault.
pub open spec fn steps_ok(m: Model, n: nat) -> bool
    decreases n,
{
    n == 0 || (steps_ok(m, (n - 1) as nat) && step_result(run_n(m, (n - 1) as nat)) is Ok)
}

/// A fault-free step on an instruction other than `ConditionLoop` advances
/// the instruction pointer by exactly one, and resets the machine exactly
/// when that advance reaches the end of the program.
pub proof fn lemma_straight_step(m: Model)
    requires
        m.ip < m.ixs.len(),
        !(m.ixs[m.ip as int] is ConditionLoop),
        step_result(m) is Ok,
    ensures
        step_state(m).ixs == m.ixs,
        m.ip + 1 < m.ixs.len() ==> step_state(m).ip == m.ip + 1,
        m.ip + 1 == m.ixs.len() ==> step_state(m) == fresh_model(m.ixs),
{
    if m.ip == 0 {
        lemma_boot_from_keeps(m, 0);
    }
    if m.ip + 1 == m.ixs.len() {
        assert(step_state(m) =~= fresh_model(m.ixs));
    }
}

/// For a program with no `ConditionLoop`, the number of step calls to reach
/// the first reset equals the program length exactly: from a fresh machine,
/// after `n` fault-free steps with `n` below the length the instruction
/// pointer stands at `n` (so no earlier step reset the machine), and the
/// step numbered exactly the program length returns the machine to fresh.
pub proof fn lemma_loop_free_first_reset(ixs: Seq<Instr>, n: nat)
    requires
        0 < ixs.len(),
        loop_free(ixs),
        n <= ixs.len(),
        steps_ok(fresh_model(ixs), n),
    ensures
        run_n(fresh_model(ixs), n).ixs == ixs,
        n < ixs.len() ==> run_n(fresh_model(ixs), n).ip == n,
        n == ixs.len() ==> run_n(fresh_model(ixs), n) == fresh_model(ixs),
    decreases n,
{
    if n > 0 {
        lemma_loop_free_first_reset(ixs, (n - 1) as nat);
        let prev = run_n(fresh_model(ixs), (n - 1) as nat);
        lemma_straight_step(prev);
    }
}

/// Whether a step on model `m` runs its instruction to the end of the
/// program, triggering the automatic reset.
pub open spec fn step_resets(m: Model) -> bool {
    exec_at(booted(m)) matches Ok((s, v)) && s.ip == s.ixs.len()
}

/// The reset clears everything, regardless of prior contents: a step that
/// reaches the end of the program leaves an empty stack, both registers at
/// zero, an empty variable frame, and the program unchanged — so each pass
/// begins from the same fresh state and the reset is idempotent.
pub proof fn lemma_reset_clears(m: Model)
    requires
        step_resets(m),
    ensures
        step_result(m) is Ok,
        step_state(m) == fresh_model(m.ixs),
        step_state(m).ip == 0,
        step_state(m).sp == 0,
        step_state(m).stack =~= Seq::<u16>::empty(),
        step_state(m).frame =~= Map::<Seq<char>, nat>::empty(),
{
    if m.ip == 0 {
        lemma_boot_from_keeps(m, 0);
    }
    assert(step_state(m) =~= fresh_model(m.ixs));
}

/// Whether the program writes the named variable anywhere.
pub open spec fn writes_var(ixs: Seq<Instr>, n: Seq<char>) -> bool {
    exists|i: int| 0 <= i < ixs.len() && ixs[i] == Instr::WriteVar(n)
}

/// Every variable slot the frame knows lies inside the stack and holds zero
/// (and the stack pointer is consistent) — the shape the pre-scan builds from
/// a fresh state.
pub open spec fn frame_zeroed(m: Model) -> bool {
    &&& m.sp == m.stack.len()
    &&& forall|k: Seq<char>|
        m.frame.contains_key(k) ==> m.frame[k] < m.stack.len() && m.stack[#[trigger] m.frame[k] as int]
            == 0
}

proof fn lemma_boot_from_zeroed(m: Model, i: nat)
    requires
        frame_zeroed(m),
    ensures
        frame_zeroed(boot_from(m, i)),
    decreases m.ixs.len() - i,
{
    if i < m.ixs.len() {
        let m1 = match m.ixs[i as int] {
            Instr::WriteVar(n) => if m.frame.contains_key(n) {
                m
            } else {
                Model {
                    frame: m.frame.insert(n, m.sp),
                    sp: m.sp + 1,
                    stack: m.stack.push(0),
                    ..m
                }
            },
            _ => m,
        };
        assert(frame_zeroed(m1));
        lemma_boot_from_zeroed(m1, i + 1);
    }
}

proof fn lemma_boot_from_covers(m: Model, i: nat, n: Seq<char>)
    requires
        m.frame.contains_key(n) || exists|j: int|
            i <= j < m.ixs.len() && m.ixs[j] == Instr::WriteVar(n),
    ensures
        boot_from(m, i).frame.contains_key(n),
    decreases m.ixs.len() - i,
{
    if i < m.ixs.len() {
        let m1 = match m.ixs[i as int] {
            Instr::WriteVar(nm) => if m.frame.contains_key(nm) {
                m
            } else {
                Model {
                    frame: m.frame.insert(nm, m.sp),
                    sp: m.sp + 1,
                    stack: m.stack.push(0),
                    ..m
                }
            },
            _ => m,
        };
        if m.frame.contains_key(n) || m.ixs[i as int] == Instr::WriteVar(n) {
            assert(m1.frame.contains_key(n));
            lemma_boot_from_covers(m1, i + 1, n);
        } else {
            let j = choose|j: int| i <= j < m.ixs.len() && m.ixs[j] == Instr::WriteVar(n);
            assert(i + 1 <= j < m1.ixs.len() && m1.ixs[j] == Instr::WriteVar(n));
            lemma_boot_from_covers(m1, i + 1, n);
        }
    }
}

/// Variable pre-initialization: for any program that writes a variable
/// anywhere, the frame pre-scan of a fresh pass gives that variable a slot
/// inside the stack holding zero before the first instruction executes —
/// wherever in the program its write appears.
pub proof fn lemma_preinit(ixs: Seq<Instr>, n: Seq<char>)
    requires
        writes_var(ixs, n),
    ensures
        ({
            let b = booted(fresh_model(ixs));
            &&& b.frame.contains_key(n)
            &&& b.frame[n] < b.stack.len()
            &&& b.stack[b.frame[n] as int] == 0
        }),
{
    let m = fresh_model(ixs);
    lemma_boot_from_zeroed(m, 0);
    lemma_boot_from_covers(m, 0, n);
}

/// Reading a variable before any write to it yields 0, not a fault: on a
/// fresh machine whose first instruction reads a variable that the program
/// writes only later, the first step succeeds, yields no value, and pushes
/// zero onto the stack.
pub proof fn lemma_read_before_write_is_zero(ixs: Seq<Instr>, n: Seq<char>)
    requires
        0 < ixs.len(),
        ixs[0] == Instr::ReadVar(n),
        writes_var(ixs, n),
    ensures
        step_result(fresh_model(ixs)) == Ok::<Option<u16>, VmFault>(None),
        1 < ixs.len() ==> step_state(fresh_model(ixs)).stack.last() == 0,
{
    let m = fresh_model(ixs);
    lemma_boot_from_keeps(m, 0);
    lemma_preinit(ixs, n);
}

/// The overflow policy: `Add` and `Multiply` wrap at 16 bits, consistently.
/// With two operands available, either instruction succeeds, yields no value,
/// and replaces the two top values with their wrapped sum or product.
pub proof fn lemma_arith_wraps(m: Model)
    requires
        m.ip < m.ixs.len(),
        m.ixs[m.ip as int] is Add || m.ixs[m.ip as int] is Multiply,
        booted(m).stack.len() >= 2,
    ensures
        step_result(m) == Ok::<Option<u16>, VmFault>(None),
        ({
            let b = booted(m);
            let s = exec_at(b)->Ok_0.0;
            let l = b.stack.last();
            let r = b.stack[b.stack.len() - 2];
            s.stack == b.stack.drop_last().drop_last().push(
                if m.ixs[m.ip as int] is Add {
                    wrap16(l + r)
                } else {
                    wrap16(l * r)
                },
            )
        }),
{
    if m.ip == 0 {
        lemma_boot_from_keeps(m, 0);
    }
}

/// An invalid jump — a taken `ConditionLoop` whose offset is greater than
/// `ip + 1` — raises `VmFault::InvalidJump` and leaves the machine exactly as
/// the pre-scan left it: the instruction pointer never silently underflows.
pub proof fn lemma_invalid_jump_faults(m: Model, k: u16)
    requires
        m.ip < m.ixs.len(),
        m.ixs[m.ip as int] == Instr::ConditionLoop(k),
        booted(m).stack.len() > 0,
        booted(m).stack.last() != 0,
        k > m.ip + 1,
    ensures
        step_result(m) == Err::<Option<u16>, VmFault>(VmFault::InvalidJump),
        step_state(m) == booted(m),
{
    if m.ip == 0 {
        lemma_boot_from_keeps(m, 0);
    }
}

} // verus!

