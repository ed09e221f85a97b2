//! A minimal resumable bytecode interpreter: a stack-based virtual machine
//! that executes one instruction per call to [`ByteCodeEngine::run`] and keeps
//! all execution state (instruction pointer, stack, variable bindings) between
//! calls. When the instruction pointer reaches the end of the program the
//! machine resets itself, so the same loaded program can be re-run
//! indefinitely by continuing to call `run`.

use vstd::prelude::*;

verus! {

/// One bytecode instruction. Values are 16-bit unsigned integers; variables
/// are named and live in fixed slots of the machine's stack.
pub enum Instruction {
    /// Push the literal `val`.
    LoadVal { val: u16 },
    /// Pop the top of the stack into the named variable's slot.
    WriteVar { name: String },
    /// Push the value currently stored in the named variable's slot.
    ReadVar { name: String },
    /// Pop two values, push their sum (wrapping at 16 bits).
    Add,
    /// Pop two values, push their product (wrapping at 16 bits).
    Multiply,
    /// Pop two values, push 1 if they differ and 0 if they are equal.
    CmpNe,
    /// Pop a condition; if it is non-zero, move the instruction pointer
    /// backward by `offset` (counted before the unconditional advance, so the
    /// net jump is `offset - 1` instructions back).
    ConditionLoop { offset: u16 },
    /// Pop a value and yield it to the caller for this step.
    ReturnValue,
}

/// The specification-level image of an [`Instruction`]: names become
/// character sequences.
pub ghost enum Instr {
    LoadVal(u16),
    WriteVar(Seq<char>),
    ReadVar(Seq<char>),
    Add,
    Multiply,
    CmpNe,
    ConditionLoop(u16),
    ReturnValue,
}

impl View for Instruction {
    type V = Instr;

    open spec fn view(&self) -> Instr {
        match self {
            Instruction::LoadVal { val } => Instr::LoadVal(*val),
            Instruction::WriteVar { name } => Instr::WriteVar(name@),
            Instruction::ReadVar { name } => Instr::ReadVar(name@),
            Instruction::Add => Instr::Add,
            Instruction::Multiply => Instr::Multiply,
            Instruction::CmpNe => Instr::CmpNe,
            Instruction::ConditionLoop { offset } => Instr::ConditionLoop(*offset),
            Instruction::ReturnValue => Instr::ReturnValue,
        }
    }
}

impl DeepView for Instruction {
    type V = Instr;

    open spec fn deep_view(&self) -> Instr {
        self@
    }
}

/// A fault raised by [`ByteCodeEngine::run`]. All faults are unrecoverable
/// programmer errors (a malformed program or an out-of-range jump); a faulting
/// step leaves the machine exactly as the frame pre-scan left it, with the
/// faulting instruction not executed.
#[derive(Clone, Copy, Debug, PartialEq, Eq, Structural)]
pub enum VmFault {
    /// A pop on an empty stack; a variable write whose pop would consume the
    /// variable's own backing slot or reach one already consumed; or a
    /// variable read of a slot whose backing cell earlier pops have consumed.
    StackUnderflow,
    /// A read or write of a variable name for which no `WriteVar` occurs
    /// anywhere in the program, so the pre-scan gave it no slot.
    UnresolvedVariable,
    /// A `ConditionLoop` taken with an offset greater than `ip + 1`, which
    /// would drive the instruction pointer below zero.
    InvalidJump,
}

/// The mathematical state of the machine: instruction pointer, stack pointer,
/// variable frame (name to slot index), operand stack, and loaded program.
#[verifier::ext_equal]
pub ghost struct Model {
    pub ip: nat,
    pub sp: nat,
    pub frame: Map<Seq<char>, nat>,
    pub stack: Seq<u16>,
    pub ixs: Seq<Instr>,
}

/// The variable frame denoted by an association list of (name, slot) pairs.
spec fn frame_of(sf: Seq<(String, u16)>) -> Map<Seq<char>, nat>
    decreases sf.len(),
{
    if sf.len() == 0 {
        Map::empty()
    } else {
        frame_of(sf.drop_last()).insert(sf.last().0@, sf.last().1 as nat)
    }
}

/// A name is in the frame exactly when some pair of the association list
/// carries it.
proof fn lemma_frame_of_contains(sf: Seq<(String, u16)>, n: Seq<char>)
    ensures
        frame_of(sf).contains_key(n) <==> (exists|i: int| 0 <= i < sf.len() && sf[i].0@ == n),
    decreases sf.len(),
{
    if sf.len() > 0 {
        lemma_frame_of_contains(sf.drop_last(), n);
        if sf.last().0@ == n {
            assert(sf[sf.len() - 1].0@ == n);
        } else if frame_of(sf).contains_key(n) {
            let i = choose|i: int| 0 <= i < sf.drop_last().len() && sf.drop_last()[i].0@ == n;
            assert(sf[i].0@ == n);
        } else {
            assert(forall|i: int|
                0 <= i < sf.drop_last().len() ==> sf.drop_last()[i].0@ == sf[i].0@);
        }
    }
}

/// With no name bound twice, the frame maps each listed name to its listed
/// slot.
proof fn lemma_frame_of_value(sf: Seq<(String, u16)>, i: int)
    requires
        0 <= i < sf.len(),
        forall|p: int, q: int| 0 <= p < q < sf.len() ==> sf[p].0@ != sf[q].0@,
    ensures
        frame_of(sf).contains_key(sf[i].0@),
        frame_of(sf)[sf[i].0@] == sf[i].1 as nat,
    decreases sf.len(),
{
    if i == sf.len() - 1 {
    } else {
        assert(forall|p: int, q: int|
            0 <= p < q < sf.drop_last().len() ==> sf.drop_last()[p].0@ != sf.drop_last()[q].0@);
        lemma_frame_of_value(sf.drop_last(), i);
        assert(sf[i].0@ != sf.last().0@);
    }
}

/// Appending a pair to the association list inserts its binding into the
/// frame.
proof fn lemma_frame_of_push(sf: Seq<(String, u16)>, p: (String, u16))
    ensures
        frame_of(sf.push(p)) == frame_of(sf).insert(p.0@, p.1 as nat),
{
    assert(sf.push(p).drop_last() =~= sf);
    assert(sf.push(p).last() == p);
}

/// 16-bit wrapping arithmetic: the machine's overflow policy for `Add` and
/// `Multiply` is to wrap, consistently, at the width of its values.
pub open spec fn wrap16(v: int) -> u16 {
    (v % 0x10000) as u16
}

/// The frame pre-scan from instruction `i` onward: every `WriteVar` name not
/// yet in the frame gets a fresh slot at the current top of the stack, holding
/// zero. First-use order is program order, and a name already bound keeps its
/// slot, so the scan is idempotent.
pub open spec fn boot_from(m: Model, i: nat) -> Model
    decreases m.ixs.len() - i,
{
    if i >= m.ixs.len() {
        m
    } else {
        let m1 = match m.ixs[i as int] {
            Instr::WriteVar(n) => if m.frame.contains_key(n) {
                m
            } else {
                Model {
                    frame: m.frame.insert(n, m.sp),
                    sp: m.sp + 1,
                    stack: m.stack.push(0),
                    ..m
                }
            },
            _ => m,
        };
        boot_from(m1, i + 1)
    }
}

/// The state after the frame pre-scan, which runs only on the step where the
/// instruction pointer is at the start of the program.
pub open spec fn booted(m: Model) -> Model {
    if m.ip == 0 {
        boot_from(m, 0)
    } else {
        m
    }
}

/// Decode and execute the single instruction at `b.ip` of an already
/// pre-scanned state `b`. On success the result holds the post state, with
/// the unconditional instruction-pointer advance already applied (folded into
/// the jump of a taken `ConditionLoop`, whose net effect is `offset - 1`
/// instructions back), and the step's yielded value. On a fault the state is
/// not touched.
pub open spec fn exec_at(b: Model) -> Result<(Model, Option<u16>), VmFault>
    recommends
        b.ip < b.ixs.len(),
{
    let next = Model { ip: b.ip + 1, ..b };
    match b.ixs[b.ip as int] {
        Instr::LoadVal(v) => Ok((
            Model { sp: next.sp + 1, stack: next.stack.push(v), ..next },
            None,
        )),
        Instr::ReadVar(n) => if !b.frame.contains_key(n) {
            Err(VmFault::UnresolvedVariable)
        } else if b.frame[n] >= b.stack.len() {
            Err(VmFault::StackUnderflow)
        } else {
            Ok((
                Model {
                    sp: next.sp + 1,
                    stack: next.stack.push(b.stack[b.frame[n] as int]),
                    ..next
                },
                None,
            ))
        },
        Instr::WriteVar(n) => if !b.frame.contains_key(n) {
            Err(VmFault::UnresolvedVariable)
        } else if b.frame[n] + 1 >= b.stack.len() {
            Err(VmFault::StackUnderflow)
        } else {
            Ok((
                Model {
                    sp: (next.sp - 1) as nat,
                    stack: next.stack.drop_last().update(b.frame[n] as int, b.stack.last()),
                    ..next
                },
                None,
            ))
        },
        Instr::Add => if b.stack.len() < 2 {
            Err(VmFault::StackUnderflow)
        } else {
            Ok((
                Model {
                    sp: (next.sp - 1) as nat,
                    stack: b.stack.drop_last().drop_last().push(
                        wrap16(b.stack.last() + b.stack[b.stack.len() - 2]),
                    ),
                    ..next
                },
                None,
            ))
        },
        Instr::Multiply => if b.stack.len() < 2 {
            Err(VmFault::StackUnderflow)
        } else {
            Ok((
                Model {
                    sp: (next.sp - 1) as nat,
                    stack: b.stack.drop_last().drop_last().push(
                        wrap16(b.stack.last() * b.stack[b.stack.len() - 2]),
                    ),
                    ..next
                },
                None,
            ))
        },
        Instr::CmpNe => if b.stack.len() < 2 {
            Err(VmFault::StackUnderflow)
        } else {
            Ok((
                Model {
                    sp: (next.sp - 1) as nat,
                    stack: b.stack.drop_last().drop_last().push(
                        if b.stack.last() != b.stack[b.stack.len() - 2] { 1u16 } else { 0u16 },
                    ),
                    ..next
                },
                None,
            ))
        },
        Instr::ConditionLoop(k) => if b.stack.len() == 0 {
            Err(VmFault::StackUnderflow)
        } else if b.stack.last() != 0 && k > b.ip + 1 {
            Err(VmFault::InvalidJump)
        } else {
            Ok((
                Model {
                    ip: if b.stack.last() != 0 { (b.ip + 1 - k) as nat } else { b.ip + 1 },
                    sp: (b.sp - 1) as nat,
                    stack: b.stack.drop_last(),
                    ..b
                },
                None,
            ))
        },
        Instr::ReturnValue => if b.stack.len() == 0 {
            Err(VmFault::StackUnderflow)
        } else {
            Ok((
                Model { sp: (next.sp - 1) as nat, stack: next.stack.drop_last(), ..next },
                Some(b.stack.last()),
            ))
        },
    }
}

/// End-of-pass normalization: when the advanced instruction pointer reaches
/// the program length, every mutable register resets to its construction
/// default, so the next call begins a fresh pass over the same program.
pub open spec fn normalized(s: Model) -> Model {
    if s.ip == s.ixs.len() {
        Model {
            ip: 0,
            sp: 0,
            frame: Map::empty(),
            stack: Seq::empty(),
            ixs: s.ixs,
        }
    } else {
        s
    }
}

/// One full step on model `m`: the frame pre-scan (when `ip == 0`), then
/// decode and execute of exactly one instruction, then the end-of-pass reset.
/// A fault leaves the state exactly as the pre-scan left it.
pub open spec fn step_of(m: Model) -> (Model, Result<Option<u16>, VmFault>) {
    let b = booted(m);
    match exec_at(b) {
        Ok((s, v)) => (normalized(s), Ok(v)),
        Err(f) => (b, Err(f)),
    }
}

/// The machine state after one step on model `m`.
pub open spec fn step_state(m: Model) -> Model {
    step_of(m).0
}

/// The value or fault that one step on model `m` returns.
pub open spec fn step_result(m: Model) -> Result<Option<u16>, VmFault> {
    step_of(m).1
}

/// The virtual machine. Construct it with [`Default::default`], assign a
/// program to `ixs` (directly or with [`ByteCodeEngine::load_program`]), then
/// call [`ByteCodeEngine::run`] repeatedly.
pub struct ByteCodeEngine {
    ip: u16,
    sp: u16,
    sf: Vec<(String, u16)>,
    stack: Vec<u16>,
    pub ixs: Vec<Instruction>,
}

impl View for ByteCodeEngine {
    type V = Model;

    closed spec fn view(&self) -> Model {
        Model {
            ip: self.ip as nat,
            sp: self.sp as nat,
            frame: frame_of(self.sf@),
            stack: self.stack@,
            ixs: self.ixs.deep_view(),
        }
    }
}

/// Linear search of the association list for a variable's slot.
fn frame_lookup(sf: &Vec<(String, u16)>, name: &String) -> (r: Option<u16>)
    requires
        forall|i: int, j: int| 0 <= i < j < sf@.len() ==> sf@[i].0@ != sf@[j].0@,
    ensures
        match r {
            Some(slot) => frame_of(sf@).contains_key(name@) && frame_of(sf@)[name@]
                == slot as nat,
            None => !frame_of(sf@).contains_key(name@),
        },
{
    let mut i: usize = 0;
    while i < sf.len()
        invariant
            i <= sf@.len(),
            forall|p: int, q: int| 0 <= p < q < sf@.len() ==> sf@[p].0@ != sf@[q].0@,
            forall|j: int| 0 <= j < i ==> sf@[j].0@ != name@,
        decreases sf@.len() - i,
    {
        if sf[i].0 == *name {
            proof {
                lemma_frame_of_value(sf@, i as int);
            }
            return Some(sf[i].1);
        }
        i += 1;
    }
    proof {
        lemma_frame_of_contains(sf@, name@);
    }
    None
}

impl ByteCodeEngine {
    /// The machine's internal invariant: the stack pointer counts the live
    /// stack cells, and no variable name has two slots.
    pub closed spec fn wf(&self) -> bool {
        &&& self.sp as nat == self.stack@.len()
        &&& forall|i: int, j: int|
            0 <= i < j < self.sf@.len() ==> self.sf@[i].0@ != self.sf@[j].0@
    }

    /// Execute exactly one instruction and return the value it yields (`Some`
    /// only when a `ReturnValue` executes), or the fault it raises. The whole
    /// behaviour — frame pre-scan, decode and execute, unconditional advance,
    /// end-of-pass reset — is [`step_of`] on the machine's model; a faulting
    /// step leaves the machine exactly as the pre-scan left it. The size
    /// bound is the machine limit that keeps the 16-bit stack pointer in
    /// range through the pre-scan and one push.
    pub fn run(&mut self) -> (r: Result<Option<u16>, VmFault>)
        requires
            old(self).wf(),
            0 < old(self)@.ixs.len(),
            old(self)@.ip < old(self)@.ixs.len(),
            old(self)@.stack.len() + old(self)@.ixs.len() + 1 <= 0xFFFF,
        ensures
            final(self).wf(),
            r == step_result(old(self)@),
            final(self)@ == step_state(old(self)@),
    {
        let ghost m0 = old(self)@;
        if self.ip == 0 {
            let mut i: usize = 0;
            while i < self.ixs.len()
                invariant
                    self.wf(),
                    i <= self.ixs@.len(),
                    self@.ixs == m0.ixs,
                    self@.ip == m0.ip,
                    self@.frame == frame_of(self.sf@),
                    self@.stack.len() <= m0.stack.len() + i,
                    m0.stack.len() + m0.ixs.len() + 1 <= 0xFFFF,
                    boot_from(m0, 0) == boot_from(self@, i as nat),
                decreases self.ixs@.len() - i,
            {
                let ghost pre = self@;
                proof {
                    assert(pre.ixs[i as int] == self.ixs@[i as int]@);
                }
                match &self.ixs[i] {
                    Instruction::WriteVar { name } => {
                        let found = frame_lookup(&self.sf, name);
                        if found.is_none() {
                            let ghost sf_pre = self.sf@;
                            let nm = name.clone();
                            let slot = self.sp;
                            self.stack.push(0);
                            self.sf.push((nm, slot));
                            self.sp = self.sp + 1;
                            proof {
                                lemma_frame_of_contains(sf_pre, pre.ixs[i as int]->WriteVar_0);
                                lemma_frame_of_push(sf_pre, self.sf@.last());
                                assert(self@ =~= (Model {
                                    frame: pre.frame.insert(pre.ixs[i as int]->WriteVar_0, pre.sp),
                                    sp: pre.sp + 1,
                                    stack: pre.stack.push(0),
                                    ..pre
                                }));
                            }
                        }
                    },
                    _ => {
                        proof {
                            assert(!(pre.ixs[i as int] is WriteVar));
                        }
                    },
                }
                proof {
                    assert(boot_from(m0, 0) == boot_from(self@, i as nat + 1));
                }
                i += 1;
            }
            proof {
                assert(boot_from(self@, self@.ixs.len()) == self@);
            }
        }
        let ghost b = booted(m0);
        proof {
            assert(self@ == b);
            assert(b.ip == m0.ip && b.ixs == m0.ixs);
            assert(b.stack.len() <= m0.stack.len() + m0.ixs.len());
        }
        let ip = self.ip;
        let mut next_ip: u16 = ip + 1;
        let mut ret: Option<u16> = None;
        proof {
            assert(b.ixs[b.ip as int] == self.ixs@[ip as int]@);
        }
        match &self.ixs[ip as usize] {
            Instruction::LoadVal { val } => {
                let v = *val;
                self.stack.push(v);
                self.sp = self.sp + 1;
            },
            Instruction::ReadVar { name } => {
                match frame_lookup(&self.sf, name) {
                    None => {
                        return Err(VmFault::UnresolvedVariable);
                    },
                    Some(slot) => {
                        if (slot as usize) < self.stack.len() {
                            let v = self.stack[slot as usize];
                            self.stack.push(v);
                            self.sp = self.sp + 1;
                        } else {
                            return Err(VmFault::StackUnderflow);
                        }
                    },
                }
            },
            Instruction::WriteVar { name } => {
                match frame_lookup(&self.sf, name) {
                    None => {
                        return Err(VmFault::UnresolvedVariable);
                    },
                    Some(slot) => {
                        if (slot as usize) + 1 < self.stack.len() {
                            let v = self.stack.pop().unwrap();
                            self.sp = self.sp - 1;
                            self.stack[slot as usize] = v;
                        } else {
                            return Err(VmFault::StackUnderflow);
                        }
                    },
                }
            },
            Instruction::Add => {
                if self.stack.len() < 2 {
                    return Err(VmFault::StackUnderflow);
                }
                let left = self.stack.pop().unwrap();
                let right = self.stack.pop().unwrap();
                self.sp = self.sp - 2;
                let sum = ((left as u32) + (right as u32)) % 0x10000;
                self.stack.push(sum as u16);
                self.sp = self.sp + 1;
            },
            Instruction::Multiply => {
                if self.stack.len() < 2 {
                    return Err(VmFault::StackUnderflow);
                }
                let left = self.stack.pop().unwrap();
                let right = self.stack.pop().unwrap();
                self.sp = self.sp - 2;
                proof {
                    assert((left as int) * (right as int) <= 0xFFFF * 0xFFFF)
                        by (nonlinear_arith)
                        requires
                            0 <= left as int <= 0xFFFF,
                            0 <= right as int <= 0xFFFF,
                    ;
                }
                let product = ((left as u32) * (right as u32)) % 0x10000;
                self.stack.push(product as u16);
                self.sp = self.sp + 1;
            },
            Instruction::CmpNe => {
                if self.stack.len() < 2 {
                    return Err(VmFault::StackUnderflow);
                }
                let left = self.stack.pop().unwrap();
                let right = self.stack.pop().unwrap();
                self.sp = self.sp - 2;
                let v: u16 = if left != right {
                    1
                } else {
                    0
                };
                self.stack.push(v);
                self.sp = self.sp + 1;
            },
            Instruction::ConditionLoop { offset } => {
                let k = *offset;
                if self.stack.len() == 0 {
                    return Err(VmFault::StackUnderflow);
                }
                let cond = self.stack[self.stack.len() - 1];
                if cond != 0 && k > next_ip {
                    return Err(VmFault::InvalidJump);
                }
                let _ = self.stack.pop();
                self.sp = self.sp - 1;
                if cond != 0 {
                    next_ip = next_ip - k;
                }
            },
            Instruction::ReturnValue => {
                if self.stack.len() == 0 {
                    return Err(VmFault::StackUnderflow);
                }
                let v = self.stack.pop().unwrap();
                self.sp = self.sp - 1;
                ret = Some(v);
            },
        }
        self.ip = next_ip;
        proof {
            let r = exec_at(b);
            assert(r is Ok);
            assert(ret == r->Ok_0.1);
            assert(self@ =~= r->Ok_0.0);
        }
        if (self.ip as usize) == self.ixs.len() {
            self.ip = 0;
            self.sp = 0;
            self.sf = Vec::new();
            self.stack = Vec::new();
        }
        proof {
            let s = exec_at(b)->Ok_0.0;
            if s.ip == s.ixs.len() {
                assert(self@.frame =~= Map::<Seq<char>, nat>::empty());
                assert(self@ =~= normalized(s));
            } else {
                assert(self@ =~= normalized(s));
            }
            assert(self@ == step_state(m0));
            assert(Ok::<Option<u16>, VmFault>(ret) == step_result(m0));
        }
        Ok(ret)
    }

    /// Assign a program to the machine. The `ixs` field is public and may be
    /// assigned directly; this method does the same while carrying the
    /// machine's invariant and model for verified callers.
    pub fn load_program(&mut self, ixs: Vec<Instruction>)
        ensures
            final(self).wf() == old(self).wf(),
            final(self)@ == (Model { ixs: ixs.deep_view(), ..old(self)@ }),
    {
        self.ixs = ixs;
        proof {
            assert(self@ =~= (Model { ixs: self.ixs.deep_view(), ..old(self)@ }));
        }
    }

    /// The instruction pointer: the index of the next instruction to execute.
    pub fn ip(&self) -> (r: u16)
        ensures
            r as nat == self@.ip,
    {
        self.ip
    }

    /// The stack pointer: the count of live values on the stack.
    pub fn sp(&self) -> (r: u16)
        ensures
            r as nat == self@.sp,
    {
        self.sp
    }

    /// The number of values the operand stack holds.
    pub fn stack_len(&self) -> (r: usize)
        ensures
            r as nat == self@.stack.len(),
    {
        self.stack.len()
    }

    /// Whether the variable frame holds no bindings.
    pub fn frame_is_empty(&self) -> (r: bool)
        ensures
            r == (self@.frame =~= Map::<Seq<char>, nat>::empty()),
    {
        let r = self.sf.len() == 0;
        proof {
            if self.sf@.len() == 0 {
                assert(frame_of(self.sf@) =~= Map::<Seq<char>, nat>::empty());
            } else {
                assert(frame_of(self.sf@).contains_key(self.sf@.last().0@));
            }
        }
        r
    }
}

impl Default for ByteCodeEngine {
    /// A fresh machine: empty program, empty stack, empty frame, both
    /// registers zero.
    fn default() -> (r: Self)
        ensures
            r.wf(),
            r@ == (Model {
                ip: 0,
                sp: 0,
                frame: Map::<Seq<char>, nat>::empty(),
                stack: Seq::<u16>::empty(),
                ixs: Seq::<Instr>::empty(),
            }),
    {
        let r = ByteCodeEngine {
            ip: 0,
            sp: 0,
            sf: Vec::new(),
            stack: Vec::new(),
            ixs: Vec::new(),
        };
        proof {
            assert(r@.frame =~= Map::<Seq<char>, nat>::empty());
            assert(r@.stack =~= Seq::<u16>::empty());
            assert(r@.ixs =~= Seq::<Instr>::empty());
        }
        r
    }
}

} // verus!
