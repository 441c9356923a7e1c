//! The intermediate representation that the code generator produces: each
//! function holds an arena of instructions, numbered in the order they were
//! created, and a list of basic blocks that name those instructions in
//! execution order and end in one terminator.
use vstd::prelude::*;
use crate::node::{is_i32, trunc_div};
use crate::types::{Type, size_spec};

verus! {

/// A value an instruction reads: an `i32` constant, the result of the
/// instruction with that number, or the function's parameter at that position.
#[derive(Debug, Clone, Copy, PartialEq, Eq, Structural)]
pub enum Operand {
    Const(i32),
    Inst(usize),
    Param(usize),
}

#[derive(Debug, Clone, Copy, PartialEq, Eq, Structural)]
pub enum ArithOp {
    Add,
    Sub,
    Mul,
    SDiv,
}

/// Signed integer comparisons; each yields 1 when it holds and 0 otherwise.
#[derive(Debug, Clone, Copy, PartialEq, Eq, Structural)]
pub enum CmpPred {
    Eq,
    Ne,
    Slt,
    Sle,
}

#[derive(Debug, PartialEq, Eq)]
pub enum Inst {
    /// A stack slot for a variable of this type and name; yields its address.
    Alloca(Type, String),
    /// Reads a value of this type at the address.
    Load(Operand, Type),
    /// Writes the value (first) at the address (second).
    Store(Operand, Operand),
    Arith(ArithOp, Operand, Operand),
    Cmp(CmpPred, Operand, Operand),
    Neg(Operand),
    /// The address `base + index * size_of(elem)`: base, index, element type.
    Gep(Operand, Operand, Type),
    /// Calls the named function with these arguments.
    Call(String, Vec<Operand>),
}

#[derive(Debug, Clone, Copy, PartialEq, Eq, Structural)]
pub enum Terminator {
    Br(usize),
    /// Goes to the first block when the operand is nonzero, else to the second.
    CondBr(Operand, usize, usize),
    Ret(Option<Operand>),
}

#[derive(Debug, PartialEq, Eq)]
pub struct BasicBlock {
    pub name: String,
    /// Numbers of the instructions of this block, in execution order.
    pub insts: Vec<usize>,
    pub term: Option<Terminator>,
}

#[derive(Debug, PartialEq, Eq)]
pub struct Function {
    pub name: String,
    pub ty: Type,
    pub insts: Vec<Inst>,
    /// Block 0 is the entry block.
    pub blocks: Vec<BasicBlock>,
}

#[derive(Debug, PartialEq, Eq)]
pub struct Module {
    pub name: String,
    pub funcs: Vec<Function>,
}

/// `v` reduced to the range of `i32` by two's-complement wrap-around.
pub open spec fn wrap_i32(v: int) -> int {
    let m = v % 0x1_0000_0000int;
    if m > i32::MAX {
        m - 0x1_0000_0000int
    } else {
        m
    }
}

pub open spec fn arith_spec(op: ArithOp, x: int, y: int) -> Option<int> {
    match op {
        ArithOp::Add => Some(wrap_i32(x + y)),
        ArithOp::Sub => Some(wrap_i32(x - y)),
        ArithOp::Mul => Some(wrap_i32(x * y)),
        ArithOp::SDiv => if y == 0 || !is_i32(trunc_div(x, y)) {
            None
        } else {
            Some(trunc_div(x, y))
        },
    }
}

pub open spec fn cmp_spec(p: CmpPred, x: int, y: int) -> int {
    if match p {
        CmpPred::Eq => x == y,
        CmpPred::Ne => x != y,
        CmpPred::Slt => x < y,
        CmpPred::Sle => x <= y,
    } {
        1
    } else {
        0
    }
}

/// The value that `op` has in every execution, when it depends on constants
/// and arithmetic alone; only instructions numbered below `bound` are read.
pub open spec fn const_value(insts: Seq<Inst>, op: Operand, bound: nat) -> Option<int>
    decreases bound,
{
    match op {
        Operand::Const(c) => Some(c as int),
        Operand::Param(_) => None,
        Operand::Inst(j) => if j < bound && j < insts.len() {
            match insts[j as int] {
                Inst::Arith(o, a, b) => match (
                    const_value(insts, a, j as nat),
                    const_value(insts, b, j as nat),
                ) {
                    (Some(x), Some(y)) => arith_spec(o, x, y),
                    _ => None,
                },
                Inst::Cmp(p, a, b) => match (
                    const_value(insts, a, j as nat),
                    const_value(insts, b, j as nat),
                ) {
                    (Some(x), Some(y)) => Some(cmp_spec(p, x, y)),
                    _ => None,
                },
                Inst::Neg(a) => match const_value(insts, a, j as nat) {
                    Some(x) => Some(wrap_i32(-x)),
                    None => None,
                },
                _ => None,
            }
        } else {
            None
        },
    }
}

/// The constant value of `op` in a function whose instructions are `insts`.
pub open spec fn ir_const(insts: Seq<Inst>, op: Operand) -> Option<int> {
    const_value(insts, op, insts.len())
}

/// Appending instructions does not change what earlier ones compute.
pub proof fn lemma_const_value_prefix(s1: Seq<Inst>, s2: Seq<Inst>, op: Operand, bound: nat)
    requires
        bound <= s1.len() <= s2.len(),
        s2.subrange(0, s1.len() as int) == s1,
    ensures
        const_value(s1, op, bound) == const_value(s2, op, bound),
    decreases bound,
{
    if let Operand::Inst(j) = op {
        if j < bound {
            assert(s1[j as int] == s2.subrange(0, s1.len() as int)[j as int]);
            match s1[j as int] {
                Inst::Arith(o, a, b) => {
                    lemma_const_value_prefix(s1, s2, a, j as nat);
                    lemma_const_value_prefix(s1, s2, b, j as nat);
                },
                Inst::Cmp(p, a, b) => {
                    lemma_const_value_prefix(s1, s2, a, j as nat);
                    lemma_const_value_prefix(s1, s2, b, j as nat);
                },
                Inst::Neg(a) => {
                    lemma_const_value_prefix(s1, s2, a, j as nat);
                },
                _ => {},
            }
        }
    }
}

/// A larger bound does not change a value that a smaller one already fixes.
pub proof fn lemma_const_value_bound(s: Seq<Inst>, op: Operand, b1: nat, b2: nat)
    requires
        b1 <= b2,
        op matches Operand::Inst(j) ==> j < b1,
    ensures
        const_value(s, op, b1) == const_value(s, op, b2),
{
}

/// How far, in bytes, the address that instruction `k` computes lies from its
/// base, when `k` is an address computation with a constant index.
pub open spec fn gep_offset(insts: Seq<Inst>, k: int) -> Option<int> {
    if 0 <= k < insts.len() {
        match insts[k] {
            Inst::Gep(_, idx, elem) => match (ir_const(insts, idx), size_spec(elem@)) {
                (Some(c), Some(s)) => Some(c * s),
                _ => None,
            },
            _ => None,
        }
    } else {
        None
    }
}

/// What a run through straight-line code knows: the value held in each
/// stack slot (a slot is named by the number of its `Alloca`) and the value
/// each instruction yielded. An `Alloca` yields its own number as its address.
pub struct Machine {
    pub mem: Map<int, int>,
    pub vals: Map<int, int>,
}

pub open spec fn operand_value(m: Machine, op: Operand) -> Option<int> {
    match op {
        Operand::Const(c) => Some(c as int),
        Operand::Inst(k) => if m.vals.dom().contains(k as int) {
            Some(m.vals[k as int])
        } else {
            None
        },
        Operand::Param(_) => None,
    }
}

/// The machine after running instruction `k`; `None` where it reads what is
/// unknown, or is an address computation or a call, which it does not model.
#[verifier::opaque]
pub open spec fn exec_inst(m: Machine, inst: Inst, k: int) -> Option<Machine> {
    match inst {
        Inst::Alloca(..) => Some(Machine { mem: m.mem, vals: m.vals.insert(k, k) }),
        Inst::Store(v, a) => match (operand_value(m, v), operand_value(m, a)) {
            (Some(x), Some(p)) => Some(Machine { mem: m.mem.insert(p, x), vals: m.vals }),
            _ => None,
        },
        Inst::Load(a, _) => match operand_value(m, a) {
            Some(p) => if m.mem.dom().contains(p) {
                Some(Machine { mem: m.mem, vals: m.vals.insert(k, m.mem[p]) })
            } else {
                None
            },
            None => None,
        },
        Inst::Arith(o, a, b) => match (operand_value(m, a), operand_value(m, b)) {
            (Some(x), Some(y)) => match arith_spec(o, x, y) {
                Some(r) => Some(Machine { mem: m.mem, vals: m.vals.insert(k, r) }),
                None => None,
            },
            _ => None,
        },
        Inst::Cmp(p, a, b) => match (operand_value(m, a), operand_value(m, b)) {
            (Some(x), Some(y)) => Some(Machine { mem: m.mem, vals: m.vals.insert(k, cmp_spec(p, x, y)) }),
            _ => None,
        },
        Inst::Neg(a) => match operand_value(m, a) {
            Some(x) => Some(Machine { mem: m.mem, vals: m.vals.insert(k, wrap_i32(-x)) }),
            None => None,
        },
        _ => None,
    }
}

/// Runs, in turn, the instructions that `order` names.
pub open spec fn run(m: Machine, insts: Seq<Inst>, order: Seq<usize>) -> Option<Machine>
    decreases order.len(),
{
    if order.len() == 0 {
        Some(m)
    } else {
        match run(m, insts, order.drop_last()) {
            Some(m2) => if order.last() < insts.len() {
                exec_inst(m2, insts[order.last() as int], order.last() as int)
            } else {
                None
            },
            None => None,
        }
    }
}

/// What a load does: it records the value held at its address.
pub proof fn lemma_exec_load(m: Machine, inst: Inst, k: int)
    requires
        inst is Load,
        exec_inst(m, inst, k) is Some,
    ensures
        ({
            let n = exec_inst(m, inst, k)->0;
            let p = operand_value(m, inst->Load_0)->0;
            &&& operand_value(m, inst->Load_0) is Some
            &&& m.mem.dom().contains(p)
            &&& n.mem == m.mem
            &&& n.vals == m.vals.insert(k, m.mem[p])
        }),
{
    reveal(exec_inst);
}

/// What a store does: it sets the value held at its address.
pub proof fn lemma_exec_store(m: Machine, inst: Inst, k: int)
    requires
        inst is Store,
        exec_inst(m, inst, k) is Some,
    ensures
        ({
            let n = exec_inst(m, inst, k)->0;
            &&& operand_value(m, inst->Store_0) is Some
            &&& operand_value(m, inst->Store_1) is Some
            &&& n.vals == m.vals
            &&& n.mem == m.mem.insert(
                operand_value(m, inst->Store_1)->0,
                operand_value(m, inst->Store_0)->0,
            )
        }),
{
    reveal(exec_inst);
}

/// A load reads the value last stored at its address: after a store of `v`
/// at the slot made by `Alloca` number `p`, and then any number of loads, a
/// load from that slot yields the value `v` had when it was stored.
pub proof fn lemma_load_after_store(
    m: Machine,
    insts: Seq<Inst>,
    pre: Seq<usize>,
    s: usize,
    mid: Seq<usize>,
    l: usize,
)
    requires
        s < insts.len(),
        l < insts.len(),
        insts[s as int] matches Inst::Store(_, a) && a == Operand::Inst(
            insts[l as int]->Load_0->Inst_0,
        ),
        insts[l as int] matches Inst::Load(Operand::Inst(p), _) && p < insts.len()
            && insts[p as int] is Alloca,
        forall|i: int| 0 <= i < mid.len() ==> mid[i] < insts.len() && (#[trigger] insts[mid[i] as int]) is Load,
        run(m, insts, pre.push(s) + mid.push(l)) is Some,
    ensures
        ({
            let before = run(m, insts, pre)->0;
            let after = run(m, insts, pre.push(s) + mid.push(l))->0;
            after.vals[l as int] == operand_value(before, insts[s as int]->Store_0)->0
        }),
{
    let a = pre.push(s);
    let full = a + mid.push(l);
    assert(full.drop_last() =~= a + mid);
    assert(run(m, insts, a + mid) is Some);
    let p = insts[l as int]->Load_0->Inst_0;
    lemma_loads_keep(m, insts, a, mid, p as int);
    assert(a.drop_last() =~= pre);
    let m0 = run(m, insts, pre)->0;
    let m1 = run(m, insts, a)->0;
    let m2 = run(m, insts, a + mid)->0;
    lemma_exec_store(m0, insts[s as int], s as int);
    let m3 = run(m, insts, full)->0;
    assert(m3 == exec_inst(m2, insts[l as int], l as int)->0);
    lemma_exec_load(m2, insts[l as int], l as int);
    assert(m1.vals == m0.vals);
    assert(m1.vals.dom().contains(p as int));
    assert(m2.vals[p as int] == m1.vals[p as int]);
}

/// Loads change neither memory nor the address of the slot made by `Alloca`
/// number `p`.
pub proof fn lemma_loads_keep(m: Machine, insts: Seq<Inst>, a: Seq<usize>, b: Seq<usize>, p: int)
    requires
        forall|i: int| 0 <= i < b.len() ==> b[i] < insts.len() && (#[trigger] insts[b[i] as int]) is Load,
        run(m, insts, a + b) is Some,
        0 <= p < insts.len(),
        insts[p] is Alloca,
    ensures
        run(m, insts, a) is Some,
        run(m, insts, a + b)->0.mem == run(m, insts, a)->0.mem,
        run(m, insts, a)->0.vals.dom().contains(p) ==> run(m, insts, a + b)->0.vals.dom().contains(p)
            && run(m, insts, a + b)->0.vals[p] == run(m, insts, a)->0.vals[p],
    decreases b.len(),
{
    if b.len() == 0 {
        assert(a + b =~= a);
    } else {
        let b1 = b.drop_last();
        assert((a + b).drop_last() =~= a + b1);
        assert(run(m, insts, a + b1) is Some);
        assert forall|i: int| 0 <= i < b1.len() implies b1[i] < insts.len() && (#[trigger] insts[b1[i] as int]) is Load by {
            assert(b1[i] == b[i]);
        }
        lemma_loads_keep(m, insts, a, b1, p);
        let k = b.last();
        assert(insts[k as int] is Load);
        let m1 = run(m, insts, a + b1)->0;
        assert(run(m, insts, a + b)->0 == exec_inst(m1, insts[k as int], k as int)->0);
        lemma_exec_load(m1, insts[k as int], k as int);
        assert(p != k);
    }
}

} // verus!
