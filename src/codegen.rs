//! Lowers the abstract syntax tree of each function into basic blocks of the
//! intermediate representation in `ir`.
use vstd::prelude::*;
use crate::error::CompileError;
use crate::ir::{
    ArithOp, BasicBlock, CmpPred, Function, Inst, Machine, Module, Operand, Terminator, ir_const, run,
    operand_value, lemma_load_after_store, gep_offset, wrap_i32, lemma_const_value_bound, const_value,
    lemma_const_value_prefix,
};
use crate::node::{is_i32, AST, BinaryOps, UnaryOps, const_eval, opens_blocks, any_opens_blocks,
    lemma_any_opens_blocks};
use crate::types::{Type, TypeModel, lemma_models_of, size_of, size_spec, size_fits, pointee_spec};

verus! {

broadcast use vstd::std_specs::vec::group_vec_axioms;

/// What a scope knows of a declared variable: its type and the number of the
/// `Alloca` instruction that holds it.
pub struct VarInfo {
    pub ty: Type,
    pub slot: usize,
}

impl VarInfo {
    pub fn new(ty: Type, slot: usize) -> (r: VarInfo)
        ensures
            r.ty == ty,
            r.slot == slot,
    {
        VarInfo { ty, slot }
    }
}

/// A lowered expression: the operand that holds it and its type.
pub struct Value {
    pub op: Operand,
    pub ty: Type,
}

pub struct Codegen {
    /// The functions generated so far.
    pub module: Module,
    /// The function being generated.
    pub func: Function,
    /// Number of parameters of the function being generated.
    pub params: usize,
    /// The block where instructions are appended.
    pub cur: usize,
    /// Variable bindings in declaration order; the innermost scope's come last.
    pub vars: Vec<(String, VarInfo)>,
    /// For each open scope, how many bindings were made before it opened.
    pub scopes: Vec<usize>,
}

pub open spec fn op_ok(op: Operand, n_insts: nat, n_params: nat) -> bool {
    match op {
        Operand::Const(_) => true,
        Operand::Inst(i) => i < n_insts,
        Operand::Param(i) => i < n_params,
    }
}

/// Every operand of an instruction numbered `k` names an earlier instruction.
pub open spec fn inst_ok(inst: Inst, k: nat, np: nat) -> bool {
    match inst {
        Inst::Alloca(..) => true,
        Inst::Load(a, _) => op_ok(a, k, np),
        Inst::Store(v, a) => op_ok(v, k, np) && op_ok(a, k, np),
        Inst::Arith(_, a, b) => op_ok(a, k, np) && op_ok(b, k, np),
        Inst::Cmp(_, a, b) => op_ok(a, k, np) && op_ok(b, k, np),
        Inst::Neg(a) => op_ok(a, k, np),
        Inst::Gep(a, b, _) => op_ok(a, k, np) && op_ok(b, k, np),
        Inst::Call(_, args) => forall|i: int| 0 <= i < args@.len() ==> op_ok(#[trigger] args@[i], k, np),
    }
}

pub open spec fn term_ok(t: Terminator, nb: nat, ni: nat, np: nat) -> bool {
    match t {
        Terminator::Br(b) => b < nb,
        Terminator::CondBr(c, x, y) => op_ok(c, ni, np) && x < nb && y < nb,
        Terminator::Ret(Some(v)) => op_ok(v, ni, np),
        Terminator::Ret(None) => true,
    }
}

/// Instructions and terminators of `f` only name what exists, and every
/// stack slot is allocated in the entry block.
#[verifier::opaque]
pub open spec fn func_ok(f: Function, np: nat) -> bool {
    let ni = f.insts@.len();
    let nb = f.blocks@.len();
    &&& nb > 0
    &&& forall|k: int| 0 <= k < ni ==> inst_ok(#[trigger] f.insts@[k], k as nat, np)
    &&& forall|b: int| 0 <= b < nb ==> (#[trigger] f.blocks@[b].term matches Some(t) ==> term_ok(t, nb, ni, np))
    &&& forall|b: int, j: int|
        0 <= b < nb && 0 <= j < f.blocks@[b].insts@.len() ==> #[trigger] f.blocks@[b].insts@[j] < ni
    &&& forall|k: int|
        0 <= k < ni && (#[trigger] f.insts@[k]) is Alloca ==> f.blocks@[0].insts@.contains(k as usize)
}

/// A finished function: well formed, and every block ends in a terminator.
pub open spec fn func_complete(f: Function, np: nat) -> bool {
    &&& func_ok(f, np)
    &&& forall|b: int| 0 <= b < f.blocks@.len() ==> (#[trigger] f.blocks@[b].term) is Some
}

/// Index of the binding that `name` resolves to: the last one with that name.
pub open spec fn lookup(vars: Seq<(String, VarInfo)>, name: Seq<char>) -> Option<int>
    decreases vars.len(),
{
    if vars.len() == 0 {
        None
    } else if vars.last().0@ == name {
        Some(vars.len() - 1)
    } else {
        lookup(vars.drop_last(), name)
    }
}

pub proof fn lemma_lookup(vars: Seq<(String, VarInfo)>, name: Seq<char>)
    ensures
        lookup(vars, name) matches Some(k) ==> 0 <= k < vars.len() && vars[k].0@ == name,
    decreases vars.len(),
{
    if vars.len() > 0 {
        lemma_lookup(vars.drop_last(), name);
    }
}

/// The storage slot that `name` resolves to.
pub open spec fn slot_of(vars: Seq<(String, VarInfo)>, name: Seq<char>) -> usize {
    vars[lookup(vars, name)->0].1.slot
}

/// Number of `Alloca` instructions for a variable called `name`.
pub open spec fn alloca_count(insts: Seq<Inst>, name: Seq<char>) -> nat
    decreases insts.len(),
{
    if insts.len() == 0 {
        0
    } else {
        alloca_count(insts.drop_last(), name) + match insts.last() {
            Inst::Alloca(_, n) => if n@ == name {
                1nat
            } else {
                0nat
            },
            _ => 0nat,
        }
    }
}

/// Number of declarations of `name` in a tree.
pub open spec fn decl_count(a: AST, name: Seq<char>) -> nat
    decreases a,
{
    match a {
        AST::VariableDecl(_, n, init) => (if n@ == name {
            1nat
        } else {
            0nat
        }) + match init {
            Some(e) => decl_count(*e, name),
            None => 0nat,
        },
        AST::BinaryOp(l, r, _) => decl_count(*l, name) + decl_count(*r, name),
        AST::UnaryOp(e, _) => decl_count(*e, name),
        AST::Load(e) => decl_count(*e, name),
        AST::ExprStmt(e) => decl_count(*e, name),
        AST::Return(Some(e)) => decl_count(*e, name),
        AST::Block(v) => decl_counts(v@, name),
        AST::FuncCall(_, v) => decl_counts(v@, name),
        AST::If(c, t, e) => decl_count(*c, name) + decl_count(*t, name) + decl_count(*e, name),
        AST::For(i, c, s, b) => decl_count(*i, name) + decl_count(*c, name) + decl_count(*s, name)
            + decl_count(*b, name),
        AST::While(c, b) => decl_count(*c, name) + decl_count(*b, name),
        _ => 0,
    }
}

pub open spec fn decl_counts(s: Seq<AST>, name: Seq<char>) -> nat
    decreases s,
{
    if s.len() == 0 {
        0
    } else {
        decl_counts(s.drop_last(), name) + decl_count(s.last(), name)
    }
}

/// Size of a tree, the measure by which lowering terminates; a `while` counts
/// as the `for` loop without init and step that it is lowered as.
pub open spec fn ast_size(a: AST) -> nat
    decreases a,
{
    1 + match a {
        AST::VariableDecl(_, _, Some(e)) => ast_size(*e),
        AST::BinaryOp(l, r, _) => ast_size(*l) + ast_size(*r),
        AST::UnaryOp(e, _) => ast_size(*e),
        AST::Load(e) => ast_size(*e),
        AST::ExprStmt(e) => ast_size(*e),
        AST::Return(Some(e)) => ast_size(*e),
        AST::Block(v) => ast_sizes(v@),
        AST::FuncCall(_, v) => ast_sizes(v@),
        AST::If(c, t, e) => ast_size(*c) + ast_size(*t) + ast_size(*e),
        AST::For(i, c, s, b) => ast_size(*i) + ast_size(*c) + ast_size(*s) + ast_size(*b),
        AST::While(c, b) => ast_size(*c) + ast_size(*b) + 2,
        AST::FuncDef(_, _, b) => ast_size(*b),
        _ => 0,
    }
}

pub open spec fn ast_sizes(s: Seq<AST>) -> nat
    decreases s,
{
    if s.len() == 0 {
        0
    } else {
        ast_sizes(s.drop_last()) + ast_size(s.last())
    }
}

pub proof fn lemma_ast_sizes(s: Seq<AST>, i: int)
    requires
        0 <= i < s.len(),
    ensures
        ast_size(s[i]) <= ast_sizes(s),
    decreases s.len(),
{
    if i < s.len() - 1 {
        lemma_ast_sizes(s.drop_last(), i);
        assert(s.drop_last()[i] == s[i]);
    }
}

pub proof fn lemma_decl_counts(s: Seq<AST>, k: int, name: Seq<char>)
    requires
        0 <= k < s.len(),
    ensures
        decl_counts(s.subrange(0, k), name) + decl_count(s[k], name) == decl_counts(
            s.subrange(0, k + 1),
            name,
        ),
{
    assert(s.subrange(0, k + 1).drop_last() =~= s.subrange(0, k));
}

pub proof fn lemma_alloca_count_push(s: Seq<Inst>, x: Inst)
    ensures
        forall|n: Seq<char>|
            #[trigger] alloca_count(s.push(x), n) == alloca_count(s, n) + match x {
                Inst::Alloca(_, m) => if m@ == n {
                    1nat
                } else {
                    0nat
                },
                _ => 0nat,
            },
{
    assert(s.push(x).drop_last() =~= s);
}

impl Codegen {
    /// The invariant kept between lowering steps.
    pub open spec fn wf(&self) -> bool {
        let ni = self.func.insts@.len();
        &&& func_ok(self.func, self.params as nat)
        &&& self.cur < self.func.blocks@.len()
        &&& self.func.blocks@[self.cur as int].term is None
        &&& forall|i: int|
            0 <= i < self.vars@.len() ==> {
                let s = (#[trigger] self.vars@[i]).1.slot;
                s < ni && self.func.insts@[s as int] is Alloca
            }
        &&& forall|i: int| 0 <= i < self.scopes@.len() ==> #[trigger] self.scopes@[i] <= self.vars@.len()
        &&& forall|i: int, j: int|
            0 <= i <= j < self.scopes@.len() ==> #[trigger] self.scopes@[i] <= #[trigger] self.scopes@[j]
    }

    /// How the state may change in one lowering step: instructions are only
    /// appended, blocks only added, and a terminator once set stays.
    pub open spec fn evolves(&self, next: &Codegen) -> bool {
        &&& next.wf()
        &&& self.func.insts@.len() <= next.func.insts@.len()
        &&& next.func.insts@.subrange(0, self.func.insts@.len() as int) == self.func.insts@
        &&& self.func.blocks@.len() <= next.func.blocks@.len()
        &&& forall|b: int|
            0 <= b < self.func.blocks@.len() && self.func.blocks@[b].term is Some
                ==> #[trigger] next.func.blocks@[b].term == self.func.blocks@[b].term
        &&& next.module == self.module
        &&& next.params == self.params
        &&& next.func.name == self.func.name
        &&& next.func.ty == self.func.ty
    }

    /// No block is left open by a step: a block without terminator, other
    /// than the current one, was already open, and not current, before it.
    pub open spec fn sealed(&self, next: &Codegen) -> bool {
        forall|b: int|
            0 <= b < next.func.blocks@.len() && b != next.cur && (
            #[trigger] next.func.blocks@[b].term) is None ==> b < self.func.blocks@.len() && b
                != self.cur && self.func.blocks@[b].term is None
    }

    /// Blocks left open for later, other than the current one, stay open.
    pub open spec fn untouched(&self, next: &Codegen) -> bool {
        forall|b: int|
            0 <= b < self.func.blocks@.len() && b != self.cur && self.func.blocks@[b].term is None
                ==> (#[trigger] next.func.blocks@[b].term) is None
    }

    /// Allocations made by a step are those of the declarations in `a`.
    pub open spec fn allocates(&self, next: &Codegen, a: AST) -> bool {
        forall|n: Seq<char>|
            #[trigger] alloca_count(next.func.insts@, n) == alloca_count(self.func.insts@, n)
                + decl_count(a, n)
    }

    /// Appends an instruction to the current block.
    fn emit(&mut self, inst: Inst) -> (r: usize)
        requires
            old(self).wf(),
            inst_ok(inst, old(self).func.insts@.len() as nat, old(self).params as nat),
            !(inst is Alloca),
        ensures
            final(self).module == old(self).module,
            old(self).evolves(final(self)),
            r == old(self).func.insts@.len(),
            final(self).func.insts@ == old(self).func.insts@.push(inst),
            final(self).func.blocks@[old(self).cur as int].insts@ == old(self).func.blocks@[old(self).cur as int].insts@.push(r),
            final(self).cur == old(self).cur,
            final(self).vars == old(self).vars,
            final(self).scopes == old(self).scopes,
            final(self).func.blocks@.len() == old(self).func.blocks@.len(),
            forall|b: int| 0 <= b < final(self).func.blocks@.len() ==> #[trigger] final(self).func.blocks@[b].term == old(self).func.blocks@[b].term,
            forall|n: Seq<char>| #[trigger] alloca_count(final(self).func.insts@, n) == alloca_count(
                old(self).func.insts@,
                n,
            ),
    {
        proof {
            lemma_alloca_count_push(self.func.insts@, inst);
        }
        let r = self.func.insts.len();
        self.func.insts.push(inst);
        let cur = self.cur;
        self.func.blocks[cur].insts.push(r);
        proof {
            reveal(func_ok);
            assert(self.func.insts@.subrange(0, r as int) =~= old(self).func.insts@);
            assert forall|k: int|
                0 <= k < self.func.insts@.len() && (#[trigger] self.func.insts@[k]) is Alloca implies self.func.blocks@[0].insts@.contains(
                k as usize,
            ) by {
                assert(self.func.insts@[k] == old(self).func.insts@[k]);
                let j = choose|j: int|
                    0 <= j < old(self).func.blocks@[0].insts@.len() && old(self).func.blocks@[0].insts@[j]
                        == k as usize;
                assert(self.func.blocks@[0].insts@[j] == k as usize);
            }
            assert forall|b: int| 0 <= b < self.func.blocks@.len() implies (
            #[trigger] self.func.blocks@[b].term matches Some(t) ==> term_ok(
                t,
                self.func.blocks@.len() as nat,
                self.func.insts@.len() as nat,
                self.params as nat,
            )) by {
                assert(self.func.blocks@[b].term == old(self).func.blocks@[b].term);
            }
        }
        r
    }

    /// Adds an empty, unterminated block at the end of the function.
    fn new_block(&mut self, name: &str) -> (r: usize)
        requires
            old(self).wf(),
        ensures
            final(self).module == old(self).module,
            old(self).evolves(final(self)),
            r == old(self).func.blocks@.len(),
            final(self).func.blocks@.len() == r + 1,
            final(self).func.blocks@[r as int].term is None,
            forall|b: int| 0 <= b < r ==> #[trigger] final(self).func.blocks@[b] == old(self).func.blocks@[b],
            final(self).func.insts == old(self).func.insts,
            final(self).cur == old(self).cur,
            final(self).vars == old(self).vars,
            final(self).scopes == old(self).scopes,
    {
        let r = self.func.blocks.len();
        self.func.blocks.push(BasicBlock { name: String::from_str(name), insts: Vec::new(), term: None });
        proof {
            reveal(func_ok);
            assert(self.func.blocks@[0] == old(self).func.blocks@[0]);
            assert(self.func.insts@.subrange(0, self.func.insts@.len() as int) =~= self.func.insts@);
            assert forall|b: int| 0 <= b < self.func.blocks@.len() implies (
            #[trigger] self.func.blocks@[b].term matches Some(t) ==> term_ok(
                t,
                self.func.blocks@.len() as nat,
                self.func.insts@.len() as nat,
                self.params as nat,
            )) by {
                if b < r {
                    assert(self.func.blocks@[b] == old(self).func.blocks@[b]);
                }
            }
        }
        r
    }

    /// Ends the current block with `t` and continues in block `next`.
    fn branch_off(&mut self, t: Terminator, next: usize)
        requires
            old(self).wf(),
            term_ok(
                t,
                old(self).func.blocks@.len() as nat,
                old(self).func.insts@.len() as nat,
                old(self).params as nat,
            ),
            next < old(self).func.blocks@.len(),
            next != old(self).cur,
            old(self).func.blocks@[next as int].term is None,
        ensures
            final(self).module == old(self).module,
            old(self).evolves(final(self)),
            old(self).sealed(final(self)),
            final(self).func.blocks@[old(self).cur as int].term == Some(t),
            final(self).cur == next,
            final(self).func.insts == old(self).func.insts,
            final(self).func.blocks@.len() == old(self).func.blocks@.len(),
            forall|b: int|
                0 <= b < final(self).func.blocks@.len() && b != old(self).cur
                    ==> #[trigger] final(self).func.blocks@[b] == old(self).func.blocks@[b],
            final(self).vars == old(self).vars,
            final(self).scopes == old(self).scopes,
    {
        let cur = self.cur;
        self.func.blocks[cur].term = Some(t);
        self.cur = next;
        proof {
            reveal(func_ok);
            assert(self.func.blocks@[0].insts == old(self).func.blocks@[0].insts);
            assert(self.func.insts@.subrange(0, self.func.insts@.len() as int) =~= self.func.insts@);
            assert forall|b: int| 0 <= b < self.func.blocks@.len() implies (
            #[trigger] self.func.blocks@[b].term matches Some(u) ==> term_ok(
                u,
                self.func.blocks@.len() as nat,
                self.func.insts@.len() as nat,
                self.params as nat,
            )) by {
                if b != cur {
                    assert(self.func.blocks@[b] == old(self).func.blocks@[b]);
                }
            }
            assert forall|b: int, j: int|
                0 <= b < self.func.blocks@.len() && 0 <= j < self.func.blocks@[b].insts@.len()
                implies #[trigger] self.func.blocks@[b].insts@[j] < self.func.insts@.len() by {
                if b != cur {
                    assert(self.func.blocks@[b] == old(self).func.blocks@[b]);
                }
            }
        }
    }

    /// Allocates a stack slot at the start of the entry block, wherever the
    /// current block is, so that each declaration has one slot per call.
    fn alloca_in_entry(&mut self, ty: Type, name: String) -> (r: usize)
        requires
            old(self).wf(),
        ensures
            forall|b: int| 1 <= b < final(self).func.blocks@.len() ==> #[trigger] final(self).func.blocks@[b] == old(self).func.blocks@[b],
            final(self).module == old(self).module,
            old(self).evolves(final(self)),
            r == old(self).func.insts@.len(),
            final(self).func.insts@ == old(self).func.insts@.push(Inst::Alloca(ty, name)),
            final(self).func.blocks@[0].insts@ == old(self).func.blocks@[0].insts@.insert(0, r),
            final(self).cur == old(self).cur,
            final(self).vars == old(self).vars,
            final(self).scopes == old(self).scopes,
            final(self).func.blocks@.len() == old(self).func.blocks@.len(),
            forall|b: int| 0 <= b < final(self).func.blocks@.len() ==> #[trigger] final(self).func.blocks@[b].term == old(self).func.blocks@[b].term,
    {
        let r = self.func.insts.len();
        self.func.insts.push(Inst::Alloca(ty, name));
        self.func.blocks[0].insts.insert(0, r);
        proof {
            reveal(func_ok);
            assert forall|k: int|
                0 <= k < self.func.insts@.len() && (#[trigger] self.func.insts@[k]) is Alloca implies self.func.blocks@[0].insts@.contains(
                k as usize,
            ) by {
                if k == r {
                    assert(self.func.blocks@[0].insts@[0] == r);
                } else {
                    assert(self.func.insts@[k] == old(self).func.insts@[k]);
                    let j = choose|j: int|
                        0 <= j < old(self).func.blocks@[0].insts@.len() && old(self).func.blocks@[0].insts@[j]
                            == k as usize;
                    assert(self.func.blocks@[0].insts@[j + 1] == k as usize);
                }
            }
            assert(self.func.insts@.subrange(0, r as int) =~= old(self).func.insts@);
            assert forall|b: int| 0 <= b < self.func.blocks@.len() implies (
            #[trigger] self.func.blocks@[b].term matches Some(t) ==> term_ok(
                t,
                self.func.blocks@.len() as nat,
                self.func.insts@.len() as nat,
                self.params as nat,
            )) by {
                assert(self.func.blocks@[b].term == old(self).func.blocks@[b].term);
            }
            assert forall|b: int, j: int|
                0 <= b < self.func.blocks@.len() && 0 <= j < self.func.blocks@[b].insts@.len()
                implies #[trigger] self.func.blocks@[b].insts@[j] < self.func.insts@.len() by {
                if b == 0 && j > 0 {
                    assert(self.func.blocks@[0].insts@[j] == old(self).func.blocks@[0].insts@[j - 1]);
                }
            }
        }
        r
    }

    /// Index of the binding that `name` resolves to, innermost scope first.
    fn find_var(&self, name: &String) -> (r: Option<usize>)
        ensures
            opt_index(r) == lookup(self.vars@, name@),
            r matches Some(k) ==> k < self.vars@.len(),
    {
        proof {
            lemma_lookup(self.vars@, name@);
        }
        let mut i = self.vars.len();
        assert(self.vars@.subrange(0, i as int) =~= self.vars@);
        while i > 0
            invariant
                i <= self.vars@.len(),
                lookup(self.vars@, name@) == lookup(self.vars@.subrange(0, i as int), name@),
            decreases i,
        {
            proof {
                assert(self.vars@.subrange(0, i as int).drop_last() =~= self.vars@.subrange(
                    0,
                    i - 1,
                ));
            }
            if self.vars[i - 1].0 == *name {
                return Some(i - 1);
            }
            i -= 1;
        }
        None
    }

    /// The storage address of a variable, typed as a pointer to it.
    pub fn gen_var(&self, name: &String) -> (r: Result<Value, CompileError>)
        requires
            self.wf(),
        ensures
            match lookup(self.vars@, name@) {
                Some(k) => r matches Ok(v) && v.op == Operand::Inst(self.vars@[k].1.slot)
                    && v.ty@ == TypeModel::Ptr(Box::new(self.vars@[k].1.ty@)),
                None => r matches Err(CompileError::UndeclaredIdentifier(n)) && n@ == name@,
            },
            r matches Ok(v) ==> op_ok(v.op, self.func.insts@.len() as nat, self.params as nat),
    {
        proof {
            lemma_lookup(self.vars@, name@);
        }
        match self.find_var(name) {
            Some(k) => {
                let info = &self.vars[k].1;
                Ok(Value { op: Operand::Inst(info.slot), ty: Type::Ptr(Box::new(info.ty.duplicate())) })
            },
            None => Err(CompileError::UndeclaredIdentifier(name.clone())),
        }
    }

    /// An `int` constant.
    pub fn make_int(&self, n: i32) -> (r: Value)
        ensures
            r.op == Operand::Const(n),
            r.ty@ == TypeModel::Int,
    {
        Value { op: Operand::Const(n), ty: Type::Int }
    }
}

pub open spec fn opt_index(r: Option<usize>) -> Option<int> {
    match r {
        Some(v) => Some(v as int),
        None => None,
    }
}

/// The node under a `Load`: what `&` takes the address of.
pub fn inside_load(ast: &AST) -> (r: Result<&AST, CompileError>)
    ensures
        match *ast {
            AST::Load(e) => r matches Ok(x) && *x == *e,
            _ => r matches Err(CompileError::NotAddressable),
        },
{
    match ast {
        AST::Load(node) => Ok(&**node),
        _ => Err(CompileError::NotAddressable),
    }
}

/// Declaring other names never moves a variable: as long as no new binding
/// of `n` is made, `n` resolves to the same binding, so `&n` lowers to the
/// same slot each time.
pub proof fn lemma_address_stable(v1: Seq<(String, VarInfo)>, v2: Seq<(String, VarInfo)>, n: String)
    requires
        v1.len() <= v2.len(),
        v2.subrange(0, v1.len() as int) == v1,
        lookup(v1, n@) is Some,
        forall|i: int| v1.len() <= i < v2.len() ==> (#[trigger] v2[i]).0@ != n@,
    ensures
        lookup(v2, n@) == lookup(v1, n@),
        addr_of_var(AST::UnaryOp(Box::new(AST::Load(Box::new(AST::Variable(n)))), UnaryOps::Addr), v2)
            == addr_of_var(
            AST::UnaryOp(Box::new(AST::Load(Box::new(AST::Variable(n)))), UnaryOps::Addr),
            v1,
        ),
    decreases v2.len(),
{
    lemma_lookup(v1, n@);
    if v2.len() == v1.len() {
        assert(v2 =~= v1);
    } else {
        assert(v2.drop_last().subrange(0, v1.len() as int) =~= v1);
        lemma_address_stable(v1, v2.drop_last(), n);
        let k = lookup(v1, n@)->0;
        assert(v2[k] == v1[k]);
    }
}

/// `v = e` stores where `*(&v)` reads: the target of the assignment and the
/// operand of the address-of resolve to the same slot and type.
pub proof fn lemma_store_then_deref_address(vars: Seq<(String, VarInfo)>, n: String)
    requires
        lookup(vars, n@) is Some,
    ensures
        var_target(AST::Variable(n), vars) == addr_of_var(
            AST::UnaryOp(Box::new(AST::Load(Box::new(AST::Variable(n)))), UnaryOps::Addr),
            vars,
        ),
        var_target(AST::Variable(n), vars) == Some(
            (slot_of(vars, n@), vars[lookup(vars, n@)->0].1.ty@),
        ),
{
}

/// `*(&v)` read right after `v = e` yields the value of `e`. The assignment
/// stores at `v`'s slot and reads it back (`gen_assign`), `&v` is that slot
/// (`lemma_store_then_deref_address`), and `*(&v)` loads from it
/// (`gen_unary_op`); a run of those three instructions after any prefix
/// gives the last load the stored value.
pub proof fn lemma_deref_after_assign(
    vars: Seq<(String, VarInfo)>,
    n: String,
    m: Machine,
    insts: Seq<Inst>,
    pre: Seq<usize>,
    st: usize,
    back: usize,
    ld: usize,
)
    requires
        lookup(vars, n@) is Some,
        slot_of(vars, n@) < insts.len(),
        insts[slot_of(vars, n@) as int] is Alloca,
        st < insts.len(),
        back < insts.len(),
        ld < insts.len(),
        insts[st as int] matches Inst::Store(_, a) && a == Operand::Inst(slot_of(vars, n@)),
        insts[back as int] matches Inst::Load(a, _) && a == Operand::Inst(slot_of(vars, n@)),
        insts[ld as int] matches Inst::Load(a, _) && a == Operand::Inst(slot_of(vars, n@)),
        run(m, insts, pre.push(st) + seq![back].push(ld)) is Some,
    ensures
        run(m, insts, pre.push(st) + seq![back].push(ld))->0.vals[ld as int] == operand_value(
            run(m, insts, pre)->0,
            insts[st as int]->Store_0,
        )->0,
{
    lemma_load_after_store(m, insts, pre, st, seq![back], ld);
}

/// `next.vars` is `prev.vars` with one more binding: `name` of type `ty`.
pub open spec fn declared(
    prev: Seq<(String, VarInfo)>,
    next: Seq<(String, VarInfo)>,
    name: Seq<char>,
    ty: TypeModel,
) -> bool {
    &&& next.len() == prev.len() + 1
    &&& next.subrange(0, prev.len() as int) == prev
    &&& next.last().0@ == name
    &&& next.last().1.ty@ == ty
}

pub proof fn lemma_wrap_i32(v: int)
    requires
        is_i32(v),
    ensures
        wrap_i32(v) == v,
{
    if v < 0 {
        assert((v + 0x1_0000_0000int) % 0x1_0000_0000int == v + 0x1_0000_0000int);
        assert(v % 0x1_0000_0000int == (v + 0x1_0000_0000int) % 0x1_0000_0000int);
    } else {
        assert(v % 0x1_0000_0000int == v);
    }
}

pub proof fn lemma_evolves_chain(s0: Codegen, s1: Codegen, s2: Codegen)
    requires
        s0.evolves(&s1),
        s1.evolves(&s2),
    ensures
        s0.evolves(&s2),
{
    lemma_prefix_trans(s0.func.insts@, s1.func.insts@, s2.func.insts@);
    assert forall|b: int|
        0 <= b < s0.func.blocks@.len() && s0.func.blocks@[b].term is Some implies #[trigger] s2.func.blocks@[b].term
        == s0.func.blocks@[b].term by {
        assert(s1.func.blocks@[b].term == s0.func.blocks@[b].term);
    }
}

pub proof fn lemma_untouched_chain(s0: Codegen, s1: Codegen, s2: Codegen)
    requires
        s0.untouched(&s1),
        s1.untouched(&s2),
        s1.cur == s0.cur || s0.func.blocks@.len() <= s1.cur,
        s0.func.blocks@.len() <= s1.func.blocks@.len(),
    ensures
        s0.untouched(&s2),
{
    assert forall|b: int|
        0 <= b < s0.func.blocks@.len() && b != s0.cur && s0.func.blocks@[b].term is None implies (
        #[trigger] s2.func.blocks@[b].term) is None by {
        assert(s1.func.blocks@[b].term is None);
    }
}

pub proof fn lemma_sealed_chain(s0: Codegen, s1: Codegen, s2: Codegen)
    requires
        s0.sealed(&s1),
        s1.sealed(&s2),
    ensures
        s0.sealed(&s2),
{
    assert forall|b: int|
        0 <= b < s2.func.blocks@.len() && b != s2.cur && (
        #[trigger] s2.func.blocks@[b].term) is None implies b < s0.func.blocks@.len() && b != s0.cur
        && s0.func.blocks@[b].term is None by {
        assert(s1.func.blocks@[b].term is None);
    }
}

/// Two chained changes of state make one.
pub proof fn lemma_chain(s0: Codegen, s1: Codegen, s2: Codegen)
    requires
        s0.evolves(&s1),
        s0.sealed(&s1),
        s1.evolves(&s2),
        s1.sealed(&s2),
    ensures
        s0.evolves(&s2),
        s0.sealed(&s2),
{
    lemma_prefix_trans(s0.func.insts@, s1.func.insts@, s2.func.insts@);
    assert forall|b: int|
        0 <= b < s0.func.blocks@.len() && s0.func.blocks@[b].term is Some implies #[trigger] s2.func.blocks@[b].term
        == s0.func.blocks@[b].term by {
        assert(s1.func.blocks@[b].term == s0.func.blocks@[b].term);
    }
    assert forall|b: int|
        0 <= b < s2.func.blocks@.len() && b != s2.cur && (
        #[trigger] s2.func.blocks@[b].term) is None implies b < s0.func.blocks@.len() && b != s0.cur
        && s0.func.blocks@[b].term is None by {
        assert(s1.func.blocks@[b].term is None);
    }
}

/// Two successive steps make one step of a node that holds both.
pub proof fn lemma_steps(s0: Codegen, s1: Codegen, s2: Codegen, a1: AST, a2: AST, a: AST)
    requires
        s0.wf(),
        s0.step(&s1, a1),
        s1.step(&s2, a2),
        forall|n: Seq<char>| #[trigger] decl_count(a, n) == decl_count(a1, n) + decl_count(a2, n),
        !opens_blocks(a) ==> !opens_blocks(a1) && !opens_blocks(a2),
    ensures
        s0.step(&s2, a),
{
    lemma_chain(s0, s1, s2);
    lemma_untouched_chain(s0, s1, s2);
}

/// A step of `a1` is a step of any `a` with the same declarations.
pub proof fn lemma_step_as(s0: Codegen, s1: Codegen, a1: AST, a: AST)
    requires
        s0.wf(),
        s0.step(&s1, a1),
        forall|n: Seq<char>| #[trigger] decl_count(a, n) == decl_count(a1, n),
        !opens_blocks(a) ==> !opens_blocks(a1),
    ensures
        s0.step(&s1, a),
{
    lemma_step_refl(s1);
    lemma_steps(s0, s1, s1, a1, AST::Nil, a);
}

/// A statement made of constant expressions, declarations and control flow:
/// lowering one never fails.
pub open spec fn const_stmt(a: AST) -> bool
    decreases a,
{
    match a {
        AST::Nil => true,
        AST::Return(None) => true,
        AST::Return(Some(e)) => const_eval(*e) is Some,
        AST::ExprStmt(e) => const_eval(*e) is Some,
        AST::VariableDecl(t, _, init) => match init {
            None => true,
            Some(e) => const_eval(*e) is Some && !(t@ is Array) && !(t@ is Func),
        },
        AST::Block(v) => const_stmts(v@),
        AST::If(c, t, e) => const_eval(*c) is Some && const_stmt(*t) && const_stmt(*e),
        AST::For(i, c, st, b) => const_stmt(*i) && (*c is Nil || const_eval(*c) is Some) && (*st is Nil
            || const_eval(*st) is Some) && const_stmt(*b),
        AST::While(c, b) => const_eval(*c) is Some && const_stmt(*b),
        _ => false,
    }
}

pub open spec fn const_stmts(s: Seq<AST>) -> bool
    decreases s,
{
    if s.len() == 0 {
        true
    } else {
        const_stmts(s.drop_last()) && const_stmt(s.last())
    }
}

pub proof fn lemma_const_stmts(s: Seq<AST>)
    ensures
        const_stmts(s) ==> forall|i: int| 0 <= i < s.len() ==> const_stmt(#[trigger] s[i]),
    decreases s.len(),
{
    if s.len() > 0 {
        lemma_const_stmts(s.drop_last());
        if const_stmts(s) {
            assert forall|i: int| 0 <= i < s.len() implies const_stmt(#[trigger] s[i]) by {
                if i < s.len() - 1 {
                    assert(s[i] == s.drop_last()[i]);
                }
            }
        }
    }
}

/// A definition whose lowering never fails: a function type with as many
/// parameter names as types, and a body of constant statements.
pub open spec fn defines_ok(ty: Type, body: AST) -> bool {
    &&& ty@ matches TypeModel::Func(_, ps, ns) && ps.len() == ns.len()
    &&& const_stmt(body)
}

/// What reading a variable from slot `s` of type `t` gives: an array decays
/// to the address of its first element, a function cannot be read, anything
/// else is read at its own type.
pub open spec fn read_shape(r: Result<Value, CompileError>, s: usize, t: TypeModel) -> bool {
    match t {
        TypeModel::Array(e, _) => r matches Ok(v) && v.op == Operand::Inst(s) && v.ty@ == TypeModel::Ptr(e),
        TypeModel::Func(..) => r is Err,
        _ => r matches Ok(v) && v.ty@ == t,
    }
}

/// A definition that lowers without error: a function type with as many
/// parameter names as types, and a body that lowers with the parameters as
/// its bindings.
pub open spec fn def_lowerable(ty: Type, body: AST) -> bool {
    &&& ty@ matches TypeModel::Func(_, ps, ns) && ps.len() == ns.len() && sok(
        body,
        Seq::new(ps.len(), |j: int| (ns[j], ps[j])),
    )
}

/// A constant expression lowers without opening blocks.
pub proof fn lemma_const_no_blocks(a: AST)
    requires
        const_eval(a) is Some,
    ensures
        !opens_blocks(a),
    decreases a,
{
    if let AST::BinaryOp(l, r, _) = a {
        lemma_const_no_blocks(*l);
        lemma_const_no_blocks(*r);
    }
}

/// A state is one step of `Nil` from itself.
pub proof fn lemma_step_refl(s: Codegen)
    requires
        s.wf(),
    ensures
        s.step(&s, AST::Nil),
{
    assert(s.func.insts@.subrange(0, s.func.insts@.len() as int) =~= s.func.insts@);
}

/// Whether `a` names a declared variable (bare or under `Load`): its slot and type.
pub open spec fn var_target(a: AST, vars: Seq<(String, VarInfo)>) -> Option<(usize, TypeModel)> {
    match a {
        AST::Variable(n) => match lookup(vars, n@) {
            Some(k) => Some((vars[k].1.slot, vars[k].1.ty@)),
            None => None,
        },
        AST::Load(e) => match *e {
            AST::Variable(n) => match lookup(vars, n@) {
                Some(k) => Some((vars[k].1.slot, vars[k].1.ty@)),
                None => None,
            },
            _ => None,
        },
        _ => None,
    }
}

/// Whether `a` is `&v` for a declared variable `v`: its slot and type.
pub open spec fn addr_of_var(a: AST, vars: Seq<(String, VarInfo)>) -> Option<(usize, TypeModel)> {
    match a {
        AST::UnaryOp(e, UnaryOps::Addr) => if *e is Load {
            var_target(*e, vars)
        } else {
            None
        },
        _ => None,
    }
}

/// A type whose values are read from memory rather than decayed.
pub open spec fn is_scalar(t: TypeModel) -> bool {
    t is Int || t is Ptr
}

pub proof fn lemma_prefix_trans<T>(a: Seq<T>, b: Seq<T>, c: Seq<T>)
    requires
        a.len() <= b.len() <= c.len(),
        b.subrange(0, a.len() as int) == a,
        c.subrange(0, b.len() as int) == b,
    ensures
        c.subrange(0, a.len() as int) == a,
{
    assert(c.subrange(0, a.len() as int) =~= a) by {
        assert forall|k: int| 0 <= k < a.len() implies c[k] == a[k] by {
            assert(c[k] == c.subrange(0, b.len() as int)[k]);
            assert(b[k] == b.subrange(0, a.len() as int)[k]);
        }
    }
}

/// The instruction that an integer operator lowers to.
pub open spec fn int_inst(op: BinaryOps, l: Operand, r: Operand) -> Inst {
    match op {
        BinaryOps::Add => Inst::Arith(ArithOp::Add, l, r),
        BinaryOps::Sub => Inst::Arith(ArithOp::Sub, l, r),
        BinaryOps::Mul => Inst::Arith(ArithOp::Mul, l, r),
        BinaryOps::Div => Inst::Arith(ArithOp::SDiv, l, r),
        BinaryOps::Eq => Inst::Cmp(CmpPred::Eq, l, r),
        BinaryOps::Ne => Inst::Cmp(CmpPred::Ne, l, r),
        BinaryOps::Lt => Inst::Cmp(CmpPred::Slt, l, r),
        _ => Inst::Cmp(CmpPred::Sle, l, r),
    }
}

impl Codegen {
    /// What every successful lowering step of `a` promises.
    pub open spec fn step(&self, next: &Codegen, a: AST) -> bool {
        &&& self.evolves(next)
        &&& self.sealed(next)
        &&& self.untouched(next)
        &&& (next.cur == self.cur || self.func.blocks@.len() <= next.cur)
        &&& self.allocates(next, a)
        &&& next.scopes@ == self.scopes@
        &&& (!opens_blocks(a) ==> next.cur == self.cur && next.func.blocks@.len()
            == self.func.blocks@.len())
    }

    /// `v` names only what exists in this state.
    pub open spec fn value_ok(&self, v: Value) -> bool {
        op_ok(v.op, self.func.insts@.len() as nat, self.params as nat)
    }

    /// Integer arithmetic and comparison.
    pub fn gen_int_binary_op(&mut self, lhs: Value, rhs: Value, op: BinaryOps) -> (r: Result<
        Value,
        CompileError,
    >)
        requires
            old(self).wf(),
            old(self).value_ok(lhs),
            old(self).value_ok(rhs),
        ensures
            final(self).module == old(self).module,
            r is Ok ==> old(self).evolves(final(self)) && old(self).sealed(final(self))
                && old(self).untouched(final(self)),
            r is Ok ==> final(self).cur == old(self).cur && final(self).vars@ == old(self).vars@
                && final(self).scopes@ == old(self).scopes@ && final(self).func.blocks@.len()
                == old(self).func.blocks@.len(),
            r is Ok ==> forall|n: Seq<char>| #[trigger] alloca_count(final(self).func.insts@, n) == alloca_count(
                old(self).func.insts@,
                n,
            ),
            r is Ok <==> op != BinaryOps::Assign && lhs.ty@ == TypeModel::Int && rhs.ty@ == TypeModel::Int,
            r is Err ==> r == Err::<Value, CompileError>(CompileError::UnsupportedOperands),
            r matches Ok(v) ==> final(self).value_ok(v) && v.ty@ == TypeModel::Int,
            r matches Ok(v) ==> v.op == Operand::Inst((final(self).func.insts@.len() - 1) as usize)
                && final(self).func.insts@.last() == int_inst(op, lhs.op, rhs.op)
                && final(self).func.insts@.len() == old(self).func.insts@.len() + 1,
    {
        if !matches!(lhs.ty, Type::Int) || !matches!(rhs.ty, Type::Int) {
            return Err(CompileError::UnsupportedOperands);
        }
        let inst = match op {
            BinaryOps::Add => Inst::Arith(ArithOp::Add, lhs.op, rhs.op),
            BinaryOps::Sub => Inst::Arith(ArithOp::Sub, lhs.op, rhs.op),
            BinaryOps::Mul => Inst::Arith(ArithOp::Mul, lhs.op, rhs.op),
            BinaryOps::Div => Inst::Arith(ArithOp::SDiv, lhs.op, rhs.op),
            BinaryOps::Eq => Inst::Cmp(CmpPred::Eq, lhs.op, rhs.op),
            BinaryOps::Ne => Inst::Cmp(CmpPred::Ne, lhs.op, rhs.op),
            BinaryOps::Lt => Inst::Cmp(CmpPred::Slt, lhs.op, rhs.op),
            BinaryOps::Le => Inst::Cmp(CmpPred::Sle, lhs.op, rhs.op),
            BinaryOps::Assign => return Err(CompileError::UnsupportedOperands),
        };
        let k = self.emit(inst);
        Ok(Value { op: Operand::Inst(k), ty: Type::Int })
    }

    /// Pointer plus or minus an integer: an address computation scaled by the
    /// size of the pointee.
    pub fn gen_ptr_binary_op(&mut self, base: Value, index: Value, op: BinaryOps) -> (r: Result<
        Value,
        CompileError,
    >)
        requires
            old(self).wf(),
            old(self).value_ok(base),
            old(self).value_ok(index),
            base.ty is Ptr,
        ensures
            final(self).module == old(self).module,
            r is Ok ==> old(self).evolves(final(self)) && old(self).sealed(final(self))
                && old(self).untouched(final(self)),
            r is Ok ==> final(self).cur == old(self).cur && final(self).vars@ == old(self).vars@
                && final(self).scopes@ == old(self).scopes@ && final(self).func.blocks@.len()
                == old(self).func.blocks@.len(),
            r is Ok ==> forall|n: Seq<char>| #[trigger] alloca_count(final(self).func.insts@, n) == alloca_count(
                old(self).func.insts@,
                n,
            ),
            r is Ok <==> (op == BinaryOps::Add || op == BinaryOps::Sub) && !(index.ty is Ptr),
            r is Err ==> r == Err::<Value, CompileError>(CompileError::UnsupportedPointerOp),
            r matches Ok(v) ==> final(self).value_ok(v) && v.ty@ == base.ty@,
            r is Ok ==> (ir_const(old(self).func.insts@, index.op) matches Some(c) ==> gep_offset(
                final(self).func.insts@,
                final(self).func.insts@.len() - 1,
            ) == match size_spec(pointee_spec(base.ty@)->0) {
                Some(s) => Some((if op == BinaryOps::Add {
                    c
                } else {
                    wrap_i32(0 - c)
                }) * s),
                None => None,
            }),
            r matches Ok(v) ==> v.op == Operand::Inst((final(self).func.insts@.len() - 1) as usize)
                && (final(self).func.insts@.last() matches Inst::Gep(b, i, elem) && b == base.op
                && Some(elem@) == pointee_spec(base.ty@) && (op == BinaryOps::Add ==> i == index.op)
                && (op == BinaryOps::Sub ==> i == Operand::Inst((final(self).func.insts@.len() - 2) as usize)
                    && final(self).func.insts@[final(self).func.insts@.len() - 2] == Inst::Arith(
                    ArithOp::Sub,
                    Operand::Const(0),
                    index.op,
                ))),
    {
        if matches!(index.ty, Type::Ptr(_)) {
            return Err(CompileError::UnsupportedPointerOp);
        }
        let elem = match &base.ty {
            Type::Ptr(e) => e.duplicate(),
            _ => Type::Int,
        };
        let ghost s0 = *self;
        let idx = match op {
            BinaryOps::Add => index.op,
            BinaryOps::Sub => {
                let k = self.emit(Inst::Arith(ArithOp::Sub, Operand::Const(0), index.op));
                Operand::Inst(k)
            },
            _ => return Err(CompileError::UnsupportedPointerOp),
        };
        let ghost s1 = *self;
        let k = self.emit(Inst::Gep(base.op, idx, elem));
        proof {
            assert(s0.func.insts@.subrange(0, s0.func.insts@.len() as int) =~= s0.func.insts@);
            lemma_prefix_trans(s0.func.insts@, s1.func.insts@, self.func.insts@);
            if op == BinaryOps::Sub {
                assert(self.func.insts@[self.func.insts@.len() - 2] == s1.func.insts@.last());
            }
            let n0 = s0.func.insts.len();
            let n2 = self.func.insts.len();
            if let Some(c) = ir_const(s0.func.insts@, index.op) {
                lemma_const_value_prefix(s0.func.insts@, self.func.insts@, index.op, n0 as nat);
                lemma_const_value_bound(self.func.insts@, index.op, n0 as nat, (n2 - 1) as nat);
                lemma_const_value_bound(self.func.insts@, index.op, n0 as nat, n2 as nat);
                assert(self.func.insts@[n2 - 1] == self.func.insts@.last());
                if op == BinaryOps::Sub {
                    assert(self.func.insts@[n0 as int] == s1.func.insts@.last());
                    assert(idx == Operand::Inst(n0));
                    assert(self.func.insts@[n0 as int] == Inst::Arith(ArithOp::Sub, Operand::Const(0), index.op));
                    assert(const_value(self.func.insts@, index.op, n0 as nat) == Some(c));
                    assert(const_value(self.func.insts@, Operand::Const(0), n0 as nat) == Some(0int));
                    assert(const_value(self.func.insts@, idx, n2 as nat) == Some(wrap_i32(0 - c)));
                }
            }
        }
        Ok(Value { op: Operand::Inst(k), ty: base.ty })
    }
}

impl Codegen {
    /// A change that lowers nothing that declares or branches.
    pub open spec fn quiet(&self, next: &Codegen) -> bool {
        &&& self.step(next, AST::Nil)
        &&& next.vars@ == self.vars@
    }

    /// Reads the value at `addr`; an array is not read but decays to a
    /// pointer to its first element.
    fn load_from(&mut self, addr: Value) -> (r: Result<Value, CompileError>)
        requires
            old(self).wf(),
            old(self).value_ok(addr),
        ensures
            final(self).module == old(self).module,
            r is Ok ==> old(self).quiet(final(self)),
            r matches Ok(v) ==> final(self).value_ok(v),
            match addr.ty@ {
                TypeModel::Ptr(t) => match *t {
                    TypeModel::Array(e, _) => r matches Ok(v) && v.op == addr.op && v.ty@
                        == TypeModel::Ptr(e) && final(self).func.insts@ == old(self).func.insts@,
                    TypeModel::Func(..) => r matches Err(CompileError::Unsupported),
                    _ => r matches Ok(v) && v.ty@ == *t && (v.op matches Operand::Inst(k) && k
                        == old(self).func.insts@.len()) && final(self).func.insts@.len()
                        == old(self).func.insts@.len() + 1 && (final(self).func.insts@.last() matches Inst::Load(
                        x,
                        lt,
                    ) && x == addr.op && lt@ == *t) && final(self).func.blocks@[old(self).cur as int].insts@
                        == old(self).func.blocks@[old(self).cur as int].insts@.push(
                        old(self).func.insts@.len() as usize,
                    ),
                },
                _ => r matches Err(CompileError::NotPointer),
            },
    {
        proof {
            lemma_step_refl(*self);
        }
        match addr.ty {
            Type::Ptr(t) => match *t {
                Type::Array(e, n) => {
                    assert((*t)@ == TypeModel::Array(Box::new(e@), n as nat));
                    assert(addr.ty@ == TypeModel::Ptr(Box::new((*t)@)));
                    Ok(Value { op: addr.op, ty: Type::Ptr(e) })
                },
                Type::Func(..) => Err(CompileError::Unsupported),
                t => {
                    let ty = t.duplicate();
                    let ghost tm = t@;
                    assert(addr.ty@ == TypeModel::Ptr(Box::new(tm)));
                    let k = self.emit(Inst::Load(addr.op, t));
                    assert(self.func.insts@.last() matches Inst::Load(x, lt) && x == addr.op && lt@ == tm);
                    assert(ty@ == tm);
                    Ok(Value { op: Operand::Inst(k), ty })
                },
            },
            _ => Err(CompileError::NotPointer),
        }
    }

    /// Lowers a node that must produce a value.
    pub fn gen_value(&mut self, a: &AST) -> (r: Result<Value, CompileError>)
        requires
            old(self).wf(),
        ensures
            final(self).module == old(self).module,
            ety(*a, env(old(self).vars@)) matches Some(t) ==> (r matches Ok(v) && v.ty@ == t),
            r is Ok ==> old(self).step(final(self), *a),
            r is Ok ==> final(self).vars@ == old(self).vars@,
            r matches Ok(v) ==> final(self).value_ok(v),
            const_eval(*a) matches Some(c) ==> r matches Ok(v) && ir_const(
                final(self).func.insts@,
                v.op,
            ) == Some(c) && v.ty@ == TypeModel::Int,
            addr_of_var(*a, old(self).vars@) matches Some((s, t)) ==> r matches Ok(v) && v.op
                == Operand::Inst(s) && v.ty@ == TypeModel::Ptr(Box::new(t)),
            addr_of_var(*a, old(self).vars@) is Some ==> *final(self) == *old(self),
            *a is Load ==> (var_target(*a, old(self).vars@) matches Some((s, t)) ==> read_shape(r, s, t)),
            *a matches AST::Int(n) ==> (r matches Ok(v) && v.op == Operand::Const(n)),
        decreases ast_size(*a), 3nat,
    {
        match self.gen(a) {
            Ok(Some(v)) => Ok(v),
            Ok(None) => Err(CompileError::NotAnExpression),
            Err(e) => Err(e),
        }
    }

    /// Lowers one node; expressions give their value, statements `None`.
    pub fn gen(&mut self, a: &AST) -> (r: Result<Option<Value>, CompileError>)
        requires
            old(self).wf(),
        ensures
            r is Ok ==> (*a matches AST::If(c, t, e) ==> old(self).if_shape(final(self), *c, *t, *e)),
            r is Ok ==> (*a matches AST::For(i, c, st, b) ==> old(self).loop_shape(final(self), *i, *c, *b, *st)),
            r is Ok ==> (*a matches AST::While(c, b) ==> old(self).loop_shape(final(self), AST::Nil, *c, *b, AST::Nil)),
            *a matches AST::FuncCall(n, _) ==> (!old(self).has_func(n@) ==> (r matches Err(CompileError::UndefinedFunction(m)) && m@ == n@)),
            final(self).module == old(self).module,
            ety(*a, env(old(self).vars@)) matches Some(t) ==> (r matches Ok(Some(v)) && v.ty@ == t),
            sok(*a, env(old(self).vars@)) ==> r is Ok,
            r is Ok ==> old(self).step(final(self), *a),
            r is Ok ==> match *a {
                AST::VariableDecl(ty, name, _) => declared(
                    old(self).vars@,
                    final(self).vars@,
                    name@,
                    ty@,
                ),
                _ => final(self).vars@ == old(self).vars@,
            },
            r matches Ok(Some(v)) ==> final(self).value_ok(v),
            r matches Ok(Some(_)) ==> !(*a is VariableDecl),
            const_stmt(*a) ==> r is Ok,
            const_eval(*a) matches Some(c) ==> r matches Ok(Some(v)) && ir_const(
                final(self).func.insts@,
                v.op,
            ) == Some(c) && v.ty@ == TypeModel::Int,
            addr_of_var(*a, old(self).vars@) matches Some((s, t)) ==> r matches Ok(Some(v)) && v.op
                == Operand::Inst(s) && v.ty@ == TypeModel::Ptr(Box::new(t)),
            addr_of_var(*a, old(self).vars@) is Some ==> *final(self) == *old(self),
            *a is Load ==> (var_target(*a, old(self).vars@) matches Some((s, t)) ==> read_shape(
                match r {
                    Ok(Some(v)) => Ok(v),
                    Ok(None) => Err(CompileError::NotAnExpression),
                    Err(e) => Err(e),
                },
                s,
                t,
            )),
            *a matches AST::Int(n) ==> (r matches Ok(Some(v)) && v.op == Operand::Const(n)),
        decreases ast_size(*a), 2nat,
    {
        proof {
            lemma_step_refl(*self);
        }
        match a {
            AST::Int(n) => Ok(Some(self.make_int(*n))),
            AST::BinaryOp(l, r, op) => {
                let v = self.gen_binary_op(l, r, *op)?;
                Ok(Some(v))
            },
            AST::UnaryOp(e, op) => {
                let v = self.gen_unary_op(e, *op)?;
                Ok(Some(v))
            },
            AST::Load(e) => {
                let v = self.gen_load(e)?;
                Ok(Some(v))
            },
            AST::Variable(name) => {
                proof {
                    lemma_env_lookup(self.vars@, name@);
                    lemma_lookup(self.vars@, name@);
                }
                let v = self.gen_var(name)?;
                Ok(Some(v))
            },
            AST::FuncCall(name, args) => {
                let v = self.gen_call(name, args)?;
                Ok(Some(v))
            },
            AST::Block(v) => {
                self.gen_block(v)?;
                Ok(None)
            },
            AST::VariableDecl(ty, name, init) => {
                self.gen_local_var_decl(ty, name, init)?;
                Ok(None)
            },
            AST::Return(v) => {
                self.gen_return(v)?;
                Ok(None)
            },
            AST::If(c, t, e) => {
                self.gen_if(c, t, e)?;
                Ok(None)
            },
            AST::For(i, c, st, b) => {
                self.gen_for(i, c, st, b)?;
                Ok(None)
            },
            AST::While(c, b) => {
                self.gen_while(c, b)?;
                Ok(None)
            },
            AST::ExprStmt(e) => {
                let ghost s0 = *self;
                self.gen_value(e)?;
                proof {
                    lemma_step_as(s0, *self, **e, *a);
                }
                Ok(None)
            },
            AST::Nil => Ok(None),
            _ => Err(CompileError::Unsupported),
        }
    }

    /// Lowers `lhs op rhs`; assignment stores, pointers move by whole elements.
    #[verifier::rlimit(80)]
    pub fn gen_binary_op(&mut self, lhs: &AST, rhs: &AST, op: BinaryOps) -> (r: Result<
        Value,
        CompileError,
    >)
        requires
            old(self).wf(),
        ensures
            final(self).module == old(self).module,
            ety(AST::BinaryOp(Box::new(*lhs), Box::new(*rhs), op), env(old(self).vars@)) matches Some(t) ==> (r matches Ok(v)
                && v.ty@ == t),
            op != BinaryOps::Assign && op != BinaryOps::Add && op != BinaryOps::Sub ==> (ety(*lhs, env(old(self).vars@)) matches Some(tl)
                ==> (ety(*rhs, env(old(self).vars@)) matches Some(tr) ==> (tl is Ptr || tr is Ptr ==> r matches Err(
                CompileError::UnsupportedPointerOp,
            )))),
            r is Ok ==> old(self).step(
                final(self),
                AST::BinaryOp(Box::new(*lhs), Box::new(*rhs), op),
            ),
            r is Ok ==> final(self).vars@ == old(self).vars@,
            r matches Ok(v) ==> final(self).value_ok(v),
            const_eval(AST::BinaryOp(Box::new(*lhs), Box::new(*rhs), op)) matches Some(c)
                ==> r matches Ok(v) && ir_const(final(self).func.insts@, v.op) == Some(c) && v.ty@
                == TypeModel::Int,
            op != BinaryOps::Assign && op != BinaryOps::Add && op != BinaryOps::Sub && *lhs is Load ==> (
            var_target(*lhs, old(self).vars@) matches Some((_, t)) ==> (t is Ptr || t is Array ==> (r is Err
                && (const_eval(*rhs) is Some ==> r matches Err(CompileError::UnsupportedPointerOp))))),
            op == BinaryOps::Add && *lhs is Load ==> (*rhs matches AST::Int(k) ==> (var_target(
                *lhs,
                old(self).vars@,
            ) matches Some((s, TypeModel::Array(e, _))) ==> (r matches Ok(v) && v.ty@ == TypeModel::Ptr(e)
                && (final(self).func.insts@.last() matches Inst::Gep(b, i, el) && b == Operand::Inst(s)
                && i == Operand::Const(k) && el@ == *e)))),
        decreases ast_size(*lhs) + ast_size(*rhs) + 1, 1nat,
    {
        if op == BinaryOps::Assign {
            return self.gen_assign(lhs, rhs);
        }
        let ghost s0 = *self;
        let l = self.gen_value(lhs)?;
        let ghost s1 = *self;
        let r = self.gen_value(rhs)?;
        let ghost s2 = *self;
        let ghost whole = AST::BinaryOp(Box::new(*lhs), Box::new(*rhs), op);
        proof {
            lemma_steps(s0, s1, s2, *lhs, *rhs, whole);
            if let Some(c) = const_eval(whole) {
                lemma_const_value_prefix(
                    s1.func.insts@,
                    s2.func.insts@,
                    l.op,
                    s1.func.insts@.len() as nat,
                );
            }
        }
        let res = if matches!(l.ty, Type::Ptr(_)) {
            self.gen_ptr_binary_op(l, r, op)
        } else if matches!(r.ty, Type::Ptr(_)) {
            if op == BinaryOps::Add {
                self.gen_ptr_binary_op(r, l, op)
            } else {
                Err(CompileError::UnsupportedPointerOp)
            }
        } else {
            self.gen_int_binary_op(l, r, op)
        };
        proof {
            if res is Ok {
                lemma_step_refl(s2);
                lemma_steps(s0, s2, *self, whole, AST::Nil, whole);
            }
            if let Some(c) = const_eval(whole) {
                let s3 = *self;
                let k = s2.func.insts.len();
                let x = const_eval(*lhs)->0;
                let y = const_eval(*rhs)->0;
                lemma_const_value_prefix(s1.func.insts@, s2.func.insts@, l.op, s1.func.insts@.len() as nat);
                lemma_const_value_bound(s2.func.insts@, l.op, s1.func.insts@.len() as nat, k as nat);
                lemma_const_value_prefix(s2.func.insts@, s3.func.insts@, l.op, k as nat);
                lemma_const_value_prefix(s2.func.insts@, s3.func.insts@, r.op, k as nat);
                assert(s3.func.insts@[k as int] == s3.func.insts@.last());
                assert(s3.func.insts@[k as int] == int_inst(op, l.op, r.op));
                assert(const_value(s3.func.insts@, l.op, k as nat) == Some(x));
                assert(const_value(s3.func.insts@, r.op, k as nat) == Some(y));
                match op {
                    BinaryOps::Add => lemma_wrap_i32(x + y),
                    BinaryOps::Sub => lemma_wrap_i32(x - y),
                    BinaryOps::Mul => lemma_wrap_i32(x * y),
                    _ => {},
                }
            }
        }
        res
    }

    /// Lowers `lhs = rhs`: the value first, then the destination's address;
    /// the result is the stored value, read back.
    pub fn gen_assign(&mut self, lhs: &AST, rhs: &AST) -> (r: Result<Value, CompileError>)
        requires
            old(self).wf(),
        ensures
            final(self).module == old(self).module,
            ety(AST::BinaryOp(Box::new(*lhs), Box::new(*rhs), BinaryOps::Assign), env(old(self).vars@)) matches Some(t)
                ==> (r matches Ok(v) && v.ty@ == t),
            r is Ok ==> old(self).step(
                final(self),
                AST::BinaryOp(Box::new(*lhs), Box::new(*rhs), BinaryOps::Assign),
            ),
            r is Ok ==> final(self).vars@ == old(self).vars@,
            r matches Ok(v) ==> final(self).value_ok(v),
            r is Ok ==> (var_target(*lhs, old(self).vars@) matches Some((s, _)) ==> {
                let n = final(self).func.insts@.len();
                &&& n >= 2
                &&& final(self).func.insts@[n - 2] matches Inst::Store(_, x)
                &&& x == Operand::Inst(s)
            }),
            r matches Ok(v) ==> (var_target(*lhs, old(self).vars@) matches Some((_, t)) ==> v.ty@ == t),
            r is Ok ==> (const_eval(*rhs) matches Some(c) ==> (final(self).func.insts@[final(self).func.insts@.len()
                - 2] matches Inst::Store(x, _) && ir_const(final(self).func.insts@, x) == Some(c))),
            r matches Ok(v) ==> {
                let n = final(self).func.insts@.len();
                let bl = final(self).func.blocks@[final(self).cur as int].insts@;
                &&& n >= 2
                &&& final(self).func.insts@[n - 2] is Store
                &&& final(self).func.insts@[n - 1] matches Inst::Load(x, t) && x == final(self).func.insts@[n
                    - 2]->Store_1 && t@ == v.ty@
                &&& bl.len() >= 2
                &&& bl[bl.len() - 2] == n - 2
                &&& bl[bl.len() - 1] == n - 1
            },
        decreases ast_size(*lhs) + ast_size(*rhs) + 1, 0nat,
    {
        let ghost s0 = *self;
        let v = self.gen_value(rhs)?;
        let ghost s1 = *self;
        let dst = self.gen_addr(lhs)?;
        let ghost s2 = *self;
        let ghost whole = AST::BinaryOp(Box::new(*lhs), Box::new(*rhs), BinaryOps::Assign);
        proof {
            lemma_steps(s0, s1, s2, *rhs, *lhs, whole);
        }
        proof {
            if dst.ty is Ptr {
                assert(dst.ty@ == TypeModel::Ptr(Box::new((*dst.ty->Ptr_0)@)));
            }
        }
        let ty = match &dst.ty {
            Type::Ptr(t) => match &**t {
                Type::Array(..) | Type::Func(..) => return Err(CompileError::UnsupportedOperands),
                t => t.duplicate(),
            },
            _ => return Err(CompileError::NotPointer),
        };
        self.emit(Inst::Store(v.op, dst.op));
        let ghost s3 = *self;
        let k = self.emit(Inst::Load(dst.op, ty.duplicate()));
        proof {
            lemma_chain(s2, s3, *self);
            lemma_evolves_chain(s1, s2, s3);
            lemma_evolves_chain(s1, s3, *self);
            if let Some(c) = const_eval(*rhs) {
                lemma_const_value_prefix(s1.func.insts@, self.func.insts@, v.op, s1.func.insts@.len() as nat);
                lemma_const_value_bound(self.func.insts@, v.op, s1.func.insts@.len() as nat, self.func.insts@.len() as nat);
            }
            lemma_step_refl(s2);
            lemma_steps(s0, s2, *self, whole, AST::Nil, whole);
            assert(self.func.insts@[self.func.insts@.len() - 2] == s3.func.insts@.last());
        }
        Ok(Value { op: Operand::Inst(k), ty })
    }

    /// Lowers `a` to the address of the storage it denotes.
    pub fn gen_addr(&mut self, a: &AST) -> (r: Result<Value, CompileError>)
        requires
            old(self).wf(),
        ensures
            final(self).module == old(self).module,
            addr_ty(*a, env(old(self).vars@)) matches Some(t) ==> (r matches Ok(v) && v.ty@ == t),
            r is Ok ==> old(self).step(final(self), *a),
            r is Ok ==> final(self).vars@ == old(self).vars@,
            r matches Ok(v) ==> final(self).value_ok(v) && v.ty is Ptr,
            var_target(*a, old(self).vars@) matches Some((s, t)) ==> r matches Ok(v) && v.op
                == Operand::Inst(s) && v.ty@ == TypeModel::Ptr(Box::new(t))
                && final(self).func.insts@ == old(self).func.insts@,
            var_target(*a, old(self).vars@) is Some ==> *final(self) == *old(self),
        decreases ast_size(*a), 1nat,
    {
        proof {
            lemma_step_refl(*self);
        }
        match a {
            AST::Variable(name) => {
                proof {
                    lemma_env_lookup(self.vars@, name@);
                    lemma_lookup(self.vars@, name@);
                }
                self.gen_var(name)
            },
            AST::Load(inner) => {
                let ghost s0 = *self;
                let v = self.gen_addr(inner)?;
                proof {
                    lemma_step_as(s0, *self, **inner, *a);
                }
                Ok(v)
            },
            AST::UnaryOp(x, UnaryOps::Deref) => {
                let v = self.gen_value(x)?;
                if !matches!(v.ty, Type::Ptr(_)) {
                    return Err(CompileError::NotPointer);
                }
                Ok(v)
            },
            _ => Err(CompileError::NotAddressable),
        }
    }

    /// Lowers `Load(a)`: the value stored where `a` denotes.
    pub fn gen_load(&mut self, a: &AST) -> (r: Result<Value, CompileError>)
        requires
            old(self).wf(),
        ensures
            final(self).module == old(self).module,
            ety(AST::Load(Box::new(*a)), env(old(self).vars@)) matches Some(t) ==> (r matches Ok(v) && v.ty@ == t),
            r is Ok ==> old(self).step(final(self), AST::Load(Box::new(*a))),
            r is Ok ==> final(self).vars@ == old(self).vars@,
            r matches Ok(v) ==> final(self).value_ok(v),
            var_target(*a, old(self).vars@) matches Some((s, t)) ==> match t {
                TypeModel::Array(e, _) => r matches Ok(v) && v.op == Operand::Inst(s) && v.ty@
                    == TypeModel::Ptr(e),
                TypeModel::Func(..) => r matches Err(CompileError::Unsupported),
                _ => r matches Ok(v) && v.ty@ == t && (final(self).func.insts@.last() matches Inst::Load(
                    x,
                    lt,
                ) && x == Operand::Inst(s) && lt@ == t),
            },
        decreases ast_size(*a) + 1, 1nat,
    {
        let ghost s0 = *self;
        let addr = self.gen_addr(a)?;
        let ghost s1 = *self;
        let v = self.load_from(addr)?;
        proof {
            lemma_steps(s0, s1, *self, *a, AST::Nil, AST::Load(Box::new(*a)));
        }
        Ok(v)
    }

    /// Lowers a unary operator applied to `a`.
    pub fn gen_unary_op(&mut self, a: &AST, op: UnaryOps) -> (r: Result<Value, CompileError>)
        requires
            old(self).wf(),
        ensures
            op == UnaryOps::Sizeof ==> (sizeof_ty(*a, env(old(self).vars@)) matches Some(t) ==> ((size_spec(t) is None
                || !size_fits(t)) ==> r matches Err(CompileError::NoSize))),
            final(self).module == old(self).module,
            ety(AST::UnaryOp(Box::new(*a), op), env(old(self).vars@)) matches Some(t) ==> (r matches Ok(v) && v.ty@ == t),
            op == UnaryOps::Plus ==> (const_eval(*a) matches Some(c) ==> (r matches Ok(v) && ir_const(
                final(self).func.insts@,
                v.op,
            ) == Some(c))),
            op == UnaryOps::Minus ==> (const_eval(*a) matches Some(c) ==> (r matches Ok(v) && ir_const(
                final(self).func.insts@,
                v.op,
            ) == Some(wrap_i32(-c)) && v.ty@ == TypeModel::Int)),
            op == UnaryOps::Sizeof ==> (const_eval(*a) is Some ==> (r matches Ok(v) && v.op == Operand::Const(4))),
            op == UnaryOps::Sizeof && *a is Load ==> (var_target(*a, old(self).vars@) matches Some((_, t))
                ==> (size_fits(t) ==> (size_spec(t) matches Some(n) ==> (n <= i32::MAX ==> (r matches Ok(v)
                && v.op == Operand::Const(n as i32) && v.ty@ == TypeModel::Int))))),
            r is Ok ==> old(self).step(final(self), AST::UnaryOp(Box::new(*a), op)),
            r is Ok ==> final(self).vars@ == old(self).vars@,
            r matches Ok(v) ==> final(self).value_ok(v),
            op == UnaryOps::Addr ==> (!(*a is Load) ==> r matches Err(CompileError::NotAddressable)),
            op == UnaryOps::Addr && *a is Load ==> (var_target(*a, old(self).vars@) matches Some((s, t))
                ==> (r matches Ok(v) && v.op == Operand::Inst(s) && v.ty@ == TypeModel::Ptr(Box::new(t))
                && *final(self) == *old(self))),
            op == UnaryOps::Deref ==> (addr_of_var(*a, old(self).vars@) matches Some((_, t)) ==> (
            is_scalar(t) ==> final(self).cur == old(self).cur && final(self).func.blocks@[old(
                self,
            ).cur as int].insts@ == old(self).func.blocks@[old(self).cur as int].insts@.push(
                (final(self).func.insts@.len() - 1) as usize,
            ))),
            op == UnaryOps::Deref ==> (addr_of_var(*a, old(self).vars@) matches Some((s, t))
                ==> (is_scalar(t) ==> (r matches Ok(v) && v.ty@ == t && v.op == Operand::Inst(
                (final(self).func.insts@.len() - 1) as usize,
            ) && (final(self).func.insts@.last() matches Inst::Load(x, _) && x == Operand::Inst(s))))),
        decreases ast_size(*a) + 1, 1nat,
    {
        let ghost s0 = *self;
        let ghost whole = AST::UnaryOp(Box::new(*a), op);
        proof {
            lemma_step_refl(*self);
        }
        match op {
            UnaryOps::Plus => {
                let v = self.gen_value(a)?;
                proof {
                    lemma_step_as(s0, *self, *a, whole);
                }
                Ok(v)
            },
            UnaryOps::Minus => {
                let v = self.gen_value(a)?;
                if !matches!(v.ty, Type::Int) {
                    return Err(CompileError::UnsupportedOperands);
                }
                let ghost s1 = *self;
                let k = self.emit(Inst::Neg(v.op));
                proof {
                    if let Some(c) = const_eval(*a) {
                        lemma_const_value_prefix(s1.func.insts@, self.func.insts@, v.op, s1.func.insts@.len() as nat);
                        assert(self.func.insts@[k as int] == Inst::Neg(v.op));
                    }
                    lemma_step_refl(s1);
                    lemma_steps(s0, s1, *self, *a, AST::Nil, whole);
                }
                Ok(Value { op: Operand::Inst(k), ty: Type::Int })
            },
            UnaryOps::Addr => {
                let inner = inside_load(a)?;
                let v = self.gen_addr(inner)?;
                proof {
                    assert forall|n: Seq<char>| #[trigger] decl_count(whole, n) == decl_count(
                        *inner,
                        n,
                    ) by {
                        assert(decl_count(whole, n) == decl_count(*a, n));
                    }
                    assert(opens_blocks(whole) == opens_blocks(*a));
                    lemma_step_as(s0, *self, *inner, whole);
                }
                Ok(v)
            },
            UnaryOps::Deref => {
                let v = self.gen_value(a)?;
                let ghost s1 = *self;
                let r = self.load_from(v)?;
                proof {
                    lemma_steps(s0, s1, *self, *a, AST::Nil, whole);
                }
                Ok(r)
            },
            UnaryOps::Sizeof => {
                let ghost e0 = env(self.vars@);
                proof {
                    assert(ety(whole, e0) == match sizeof_ty(*a, e0) {
                        Some(t) => if size_fits(t) && size_spec(t) is Some && size_spec(t)->0 <= i32::MAX {
                            Some(TypeModel::Int)
                        } else {
                            None
                        },
                        None => None,
                    });
                }
                let ty = match a {
                    AST::Load(inner) => {
                        proof {
                            assert(sizeof_ty(*a, e0) == match addr_ty(**inner, e0) {
                                Some(TypeModel::Ptr(t)) => Some(*t),
                                _ => None,
                            });
                        }
                        let p = self.gen_addr(inner)?;
                        proof {
                            if p.ty is Ptr {
                                assert(p.ty@ == TypeModel::Ptr(Box::new((*p.ty->Ptr_0)@)));
                            }
                        }
                        match p.ty {
                            Type::Ptr(t) => *t,
                            t => t,
                        }
                    },
                    _ => {
                        proof {
                            assert(sizeof_ty(*a, e0) == ety(*a, e0));
                        }
                        self.gen_value(a)?.ty
                    },
                };
                assert(sizeof_ty(*a, e0) matches Some(t) ==> ty@ == t);
                proof {
                    lemma_step_as(s0, *self, *a, whole);
                }
                match size_of(&ty) {
                    Some(n) => if n <= i32::MAX as u64 {
                        Ok(self.make_int(n as i32))
                    } else {
                        Err(CompileError::NoSize)
                    },
                    None => Err(CompileError::NoSize),
                }
            },
        }
    }

    /// Whether a call of `name` finds a function: one exists, and every
    /// function of that name has a function type.
    pub open spec fn callable(&self, name: Seq<char>) -> bool {
        &&& self.has_func(name)
        &&& self.func.name@ == name ==> self.func.ty@ is Func
        &&& forall|i: int|
            0 <= i < self.module.funcs@.len() && (#[trigger] self.module.funcs@[i]).name@ == name
                ==> self.module.funcs@[i].ty@ is Func
    }

    /// Whether a function of this name is being generated or already was.
    pub open spec fn has_func(&self, name: Seq<char>) -> bool {
        self.func.name@ == name || exists|i: int|
            0 <= i < self.module.funcs@.len() && (#[trigger] self.module.funcs@[i]).name@ == name
    }

    /// The type of the function called `name`, the one being generated first.
    fn find_func_type(&self, name: &String) -> (r: Option<&Type>)
        ensures
            r is Some <==> self.has_func(name@),
            r matches Some(t) ==> (self.func.name@ == name@ && *t == self.func.ty) || exists|i: int|
                0 <= i < self.module.funcs@.len() && (#[trigger] self.module.funcs@[i]).name@ == name@
                    && *t == self.module.funcs@[i].ty,
    {
        if self.func.name == *name {
            return Some(&self.func.ty);
        }
        let mut i: usize = 0;
        while i < self.module.funcs.len()
            invariant
                i <= self.module.funcs@.len(),
                self.func.name@ != name@,
                forall|j: int| 0 <= j < i ==> (#[trigger] self.module.funcs@[j]).name@ != name@,
            decreases self.module.funcs.len() - i,
        {
            if self.module.funcs[i].name == *name {
                return Some(&self.module.funcs[i].ty);
            }
            i += 1;
        }
        None
    }

    /// Lowers a call: the callee is resolved first, then the arguments are
    /// lowered from left to right.
    pub fn gen_call(&mut self, name: &String, args: &Vec<AST>) -> (r: Result<Value, CompileError>)
        requires
            old(self).wf(),
        ensures
            old(self).callable(name@) && (forall|k: int| 0 <= k < args@.len() ==> ety(#[trigger] args@[k], env(old(self).vars@)) is Some) ==> r is Ok,
            final(self).module == old(self).module,
            r is Ok ==> old(self).step(final(self), AST::FuncCall(*name, *args)),
            r is Ok ==> final(self).vars@ == old(self).vars@,
            r matches Ok(v) ==> final(self).value_ok(v),
            !old(self).has_func(name@) ==> (r matches Err(CompileError::UndefinedFunction(n)) && n@
                == name@),
            r matches Ok(v) ==> (final(self).func.insts@.last() matches Inst::Call(f, ops) && forall|i: int|
                0 <= i < args@.len() ==> (const_eval(#[trigger] args@[i]) matches Some(c) ==> ir_const(
                final(self).func.insts@,
                ops@[i],
            ) == Some(c))),
            r matches Ok(v) ==> (final(self).func.insts@.last() matches Inst::Call(f, ops) && f@ == name@
                && ops@.len() == args@.len()) && v.op == Operand::Inst(
                (final(self).func.insts@.len() - 1) as usize,
            ),
        decreases ast_sizes(args@) + 1, 1nat,
    {
        let ret = match self.find_func_type(name) {
            Some(Type::Func(ret, _, _)) => ret.duplicate(),
            Some(_) => return Err(CompileError::Unsupported),
            None => return Err(CompileError::UndefinedFunction(name.clone())),
        };
        let ghost s0 = *self;
        let ghost whole = AST::FuncCall(*name, *args);
        let mut ops: Vec<Operand> = Vec::new();
        let mut i: usize = 0;
        proof {
            lemma_step_refl(*self);
            lemma_any_opens_blocks(args@);
            assert(args@.subrange(0, 0) =~= Seq::<AST>::empty());
        }
        while i < args.len()
            invariant
                s0.wf(),
                i <= args@.len(),
                ops@.len() == i,
                s0.evolves(self),
                s0.sealed(self),
                s0.untouched(self),
                self.cur == s0.cur || s0.func.blocks@.len() <= self.cur,
                self.scopes@ == s0.scopes@,
                self.vars@ == s0.vars@,
                forall|n: Seq<char>| #[trigger] alloca_count(self.func.insts@, n) == alloca_count(
                    s0.func.insts@,
                    n,
                ) + decl_counts(args@.subrange(0, i as int), n),
                !any_opens_blocks(args@) ==> self.cur == s0.cur && self.func.blocks@.len()
                    == s0.func.blocks@.len(),
                old(self).has_func(name@),
                self.module == old(self).module,
                self.vars@ == old(self).vars@,
                forall|j: int| 0 <= j < i ==> op_ok(#[trigger] ops@[j], self.func.insts@.len() as nat, self.params as nat),
                forall|j: int|
                    0 <= j < i ==> (const_eval(#[trigger] args@[j]) matches Some(c) ==> ir_const(
                        self.func.insts@,
                        ops@[j],
                    ) == Some(c)),
                !any_opens_blocks(args@) ==> forall|j: int| 0 <= j < args@.len() ==> !opens_blocks(#[trigger] args@[j]),
            decreases args.len() - i,
        {
            proof {
                lemma_ast_sizes(args@, i as int);
            }
            let ghost s1 = *self;
            let v = self.gen_value(&args[i])?;
            proof {
                lemma_chain(s0, s1, *self);
                lemma_untouched_chain(s0, s1, *self);
                assert forall|n: Seq<char>| #[trigger] alloca_count(self.func.insts@, n) == alloca_count(
                    s0.func.insts@,
                    n,
                ) + decl_counts(args@.subrange(0, i + 1), n) by {
                    lemma_decl_counts(args@, i as int, n);
                }
            }
            proof {
                assert forall|j: int| 0 <= j < i implies (const_eval(#[trigger] args@[j]) matches Some(c)
                    ==> ir_const(self.func.insts@, ops@[j]) == Some(c)) by {
                    if const_eval(args@[j]) is Some {
                        lemma_const_value_prefix(s1.func.insts@, self.func.insts@, ops@[j], s1.func.insts@.len() as nat);
                        lemma_const_value_bound(self.func.insts@, ops@[j], s1.func.insts@.len() as nat, self.func.insts@.len() as nat);
                    }
                }
            }
            ops.push(v.op);
            i += 1;
        }
        proof {
            assert(args@.subrange(0, args@.len() as int) =~= args@);
        }
        let ghost s2 = *self;
        let ghost opsv = ops@;
        let k = self.emit(Inst::Call(name.clone(), ops));
        proof {
            lemma_chain(s0, s2, *self);
            assert forall|j: int| 0 <= j < args@.len() implies (const_eval(#[trigger] args@[j]) matches Some(c)
                ==> ir_const(self.func.insts@, opsv[j]) == Some(c)) by {
                if const_eval(args@[j]) is Some {
                    lemma_const_value_prefix(s2.func.insts@, self.func.insts@, opsv[j], s2.func.insts@.len() as nat);
                    lemma_const_value_bound(self.func.insts@, opsv[j], s2.func.insts@.len() as nat, self.func.insts@.len() as nat);
                }
            }
        }
        Ok(Value { op: Operand::Inst(k), ty: ret })
    }
}

/// Size of an optional subtree.
pub open spec fn opt_size(o: Option<Box<AST>>) -> nat {
    match o {
        Some(e) => ast_size(*e),
        None => 0,
    }
}

impl Codegen {
    fn open_scope(&mut self)
        requires
            old(self).wf(),
        ensures
            final(self).module == old(self).module,
            final(self).wf(),
            final(self).scopes@ == old(self).scopes@.push(old(self).vars@.len() as usize),
            final(self).vars == old(self).vars,
            final(self).func == old(self).func,
            final(self).cur == old(self).cur,
            final(self).module == old(self).module,
            final(self).params == old(self).params,
    {
        let n = self.vars.len();
        self.scopes.push(n);
    }

    fn close_scope(&mut self)
        requires
            old(self).wf(),
            old(self).scopes@.len() > 0,
        ensures
            final(self).module == old(self).module,
            final(self).wf(),
            final(self).scopes@ == old(self).scopes@.drop_last(),
            final(self).vars@ == old(self).vars@.subrange(0, old(self).scopes@.last() as int),
            final(self).func == old(self).func,
            final(self).cur == old(self).cur,
            final(self).module == old(self).module,
            final(self).params == old(self).params,
    {
        let m = self.scopes.pop().unwrap();
        self.vars.truncate(m);
    }

    /// Lowers `a` in a scope of its own.
    fn gen_scoped(&mut self, a: &AST) -> (r: Result<(), CompileError>)
        requires
            old(self).wf(),
        ensures
            final(self).module == old(self).module,
            sok(*a, env(old(self).vars@)) ==> r is Ok,
            r is Ok ==> old(self).step(final(self), *a),
            r is Ok ==> final(self).vars@ == old(self).vars@,
            const_stmt(*a) || const_eval(*a) is Some ==> r is Ok,
        decreases ast_size(*a), 3nat,
    {
        let ghost s0 = *self;
        self.open_scope();
        let ghost s1 = *self;
        self.gen(a)?;
        proof {
            assert(self.vars@.subrange(0, s0.vars@.len() as int) =~= s0.vars@);
        }
        let ghost s2 = *self;
        assert(s2.scopes@.last() == s0.vars.len());
        self.close_scope();
        proof {
            assert(self.vars@ == s2.vars@.subrange(0, s0.vars@.len() as int));
            assert(self.scopes@ =~= s0.scopes@);
            assert(s0.func.insts@.subrange(0, s0.func.insts@.len() as int) =~= s0.func.insts@);
            assert(s1.evolves(&*self));
            lemma_chain(s0, s1, *self);
        }
        Ok(())
    }

    /// Lowers the statements of a compound block, in a scope of their own.
    pub fn gen_block(&mut self, block: &Vec<AST>) -> (r: Result<(), CompileError>)
        requires
            old(self).wf(),
        ensures
            final(self).module == old(self).module,
            soks(block@, 0, env(old(self).vars@)) ==> r is Ok,
            r is Ok ==> old(self).step(final(self), AST::Block(*block)),
            r is Ok ==> final(self).vars@ == old(self).vars@,
            const_stmts(block@) ==> r is Ok,
        decreases ast_sizes(block@) + 1, 1nat,
    {
        let ghost s0 = *self;
        let ghost m = s0.vars.len();
        self.open_scope();
        proof {
            lemma_step_refl(s0);
            lemma_any_opens_blocks(block@);
            lemma_const_stmts(block@);
            assert(block@.subrange(0, 0) =~= Seq::<AST>::empty());
        }
        let mut i: usize = 0;
        while i < block.len()
            invariant
                s0.wf(),
                i <= block@.len(),
                s0.evolves(self),
                s0.sealed(self),
                s0.untouched(self),
                self.cur == s0.cur || s0.func.blocks@.len() <= self.cur,
                self.scopes@ == s0.scopes@.push(m),
                m <= self.vars@.len(),
                self.vars@.subrange(0, m as int) == s0.vars@,
                forall|n: Seq<char>| #[trigger] alloca_count(self.func.insts@, n) == alloca_count(
                    s0.func.insts@,
                    n,
                ) + decl_counts(block@.subrange(0, i as int), n),
                !any_opens_blocks(block@) ==> self.cur == s0.cur && self.func.blocks@.len()
                    == s0.func.blocks@.len(),
                !any_opens_blocks(block@) ==> forall|j: int|
                    0 <= j < block@.len() ==> !opens_blocks(#[trigger] block@[j]),
                const_stmts(block@) ==> forall|j: int|
                    0 <= j < block@.len() ==> const_stmt(#[trigger] block@[j]),
                soks(block@, 0, env(s0.vars@)) ==> soks(block@, i as int, env(self.vars@)),
                s0.vars@ == old(self).vars@,
                self.module == old(self).module,
            decreases block.len() - i,
        {
            proof {
                lemma_ast_sizes(block@, i as int);
            }
            let ghost s1 = *self;
            proof {
                if soks(block@, 0, env(s0.vars@)) {
                    assert(soks(block@, i as int, env(self.vars@)));
                    assert(sok(block@[i as int], env(self.vars@)));
                }
            }
            let stmt = &block[i];
            assert(*stmt == block@[i as int]);
            let res = self.gen(stmt);
            proof {
                if soks(block@, 0, env(s0.vars@)) {
                    assert(res is Ok);
                }
            }
            res?;
            proof {
                if soks(block@, 0, env(s0.vars@)) {
                    if let AST::VariableDecl(t, n, _) = block@[i as int] {
                        assert(self.vars@ =~= s1.vars@.push(self.vars@.last()));
                        lemma_env_push(s1.vars@, self.vars@.last());
                    }
                    assert(env(self.vars@) == env_after(block@[i as int], env(s1.vars@)));
                }
                lemma_chain(s0, s1, *self);
                assert forall|n: Seq<char>| #[trigger] alloca_count(self.func.insts@, n) == alloca_count(
                    s0.func.insts@,
                    n,
                ) + decl_counts(block@.subrange(0, i + 1), n) by {
                    lemma_decl_counts(block@, i as int, n);
                }
                assert(self.vars@.subrange(0, m as int) =~= s0.vars@) by {
                    assert(self.vars@.subrange(0, s1.vars@.len() as int).subrange(0, m as int)
                        =~= self.vars@.subrange(0, m as int));
                }
            }
            i += 1;
        }
        proof {
            assert(block@.subrange(0, block@.len() as int) =~= block@);
        }
        let ghost s2 = *self;
        self.close_scope();
        proof {
            assert(self.scopes@ =~= s0.scopes@);
            assert(s2.func.insts@.subrange(0, s2.func.insts@.len() as int) =~= s2.func.insts@);
            assert(s2.evolves(&*self));
            assert(s2.sealed(&*self));
            lemma_chain(s0, s2, *self);
        }
        Ok(())
    }

    /// Lowers a declaration: a slot at the start of the entry block, a new
    /// binding in the innermost scope, then the initializer, if any, stored.
    pub fn gen_local_var_decl(&mut self, ty: &Type, name: &String, init_opt: &Option<Box<AST>>) -> (r:
        Result<(), CompileError>)
        requires
            old(self).wf(),
        ensures
            r is Ok ==> (*init_opt is None ==> {
                let slot = old(self).func.insts@.len();
                &&& final(self).func.blocks@[0].insts@ == old(self).func.blocks@[0].insts@.insert(0, slot as usize)
                &&& forall|b: int| 1 <= b < final(self).func.blocks@.len() ==> #[trigger] final(self).func.blocks@[b]
                    == old(self).func.blocks@[b]
                &&& final(self).func.blocks@.len() == old(self).func.blocks@.len()
                &&& final(self).func.insts@.len() == slot + 1
                &&& final(self).func.insts@.last() matches Inst::Alloca(t, n) && t@ == ty@ && n == *name
            }),
            final(self).module == old(self).module,
            sok(AST::VariableDecl(*ty, *name, *init_opt), env(old(self).vars@)) ==> r is Ok,
            r is Ok ==> old(self).step(final(self), AST::VariableDecl(*ty, *name, *init_opt)),
            r is Ok ==> declared(old(self).vars@, final(self).vars@, name@, ty@),
            r is Ok ==> final(self).vars@.last().1.slot == old(self).func.insts@.len(),
            const_stmt(AST::VariableDecl(*ty, *name, *init_opt)) ==> r is Ok,
        decreases opt_size(*init_opt) + 1, 1nat,
    {
        let ghost s0 = *self;
        let slot = self.alloca_in_entry(ty.duplicate(), name.clone());
        proof {
            lemma_alloca_count_push(s0.func.insts@, self.func.insts@.last());
        }
        let ghost vbefore = self.vars@;
        self.vars.push((name.clone(), VarInfo::new(ty.duplicate(), slot)));
        let ghost s1 = *self;
        proof {
            lemma_env_push(vbefore, self.vars@.last());
            assert(self.vars@ == vbefore.push(self.vars@.last()));
        }
        proof {
            assert(self.vars@.subrange(0, s0.vars@.len() as int) =~= s0.vars@);
            assert(s0.sealed(&s1));
        }
        match init_opt {
            Some(init) => {
                let v = self.gen_value(init)?;
                match ty {
                    Type::Array(..) | Type::Func(..) => {
                        return Err(CompileError::UnsupportedOperands);
                    },
                    _ => {},
                }
                let ghost s2 = *self;
                self.emit(Inst::Store(v.op, Operand::Inst(slot)));
                proof {
                    lemma_chain(s1, s2, *self);
                    lemma_untouched_chain(s1, s2, *self);
                    lemma_chain(s0, s1, *self);
                    lemma_untouched_chain(s0, s1, *self);
                }
            },
            None => {},
        }
        Ok(())
    }

    /// Lowers a `return`; what follows it goes to a fresh block that no
    /// branch reaches.
    pub fn gen_return(&mut self, val: &Option<Box<AST>>) -> (r: Result<(), CompileError>)
        requires
            old(self).wf(),
        ensures
            final(self).module == old(self).module,
            sok(AST::Return(*val), env(old(self).vars@)) ==> r is Ok,
            r is Ok ==> old(self).step(final(self), AST::Return(*val)),
            const_stmt(AST::Return(*val)) ==> r is Ok,
            r is Ok ==> (*val matches Some(e) ==> (const_eval(*e) matches Some(c) ==> (final(self).func.blocks@[old(self).cur as int].term matches Some(Terminator::Ret(Some(x))) && ir_const(
                final(self).func.insts@,
                x,
            ) == Some(c)))),
            r is Ok ==> final(self).vars@ == old(self).vars@,
            r is Ok ==> match *val {
                Some(e) => !opens_blocks(*e) ==> (final(self).func.blocks@[old(self).cur as int].term
                    matches Some(Terminator::Ret(Some(_)))),
                None => final(self).func.blocks@[old(self).cur as int].term == Some(
                    Terminator::Ret(None),
                ),
            },
        decreases opt_size(*val) + 1, 1nat,
    {
        let ghost s0 = *self;
        proof {
            lemma_step_refl(s0);
        }
        let t = match val {
            Some(e) => {
                let v = self.gen_value(e)?;
                Terminator::Ret(Some(v.op))
            },
            None => Terminator::Ret(None),
        };
        let ghost s1 = *self;
        let next = self.new_block("after_return");
        let ghost s2 = *self;
        self.branch_off(t, next);
        proof {
            lemma_prefix_trans(s1.func.insts@, s2.func.insts@, self.func.insts@);
            assert forall|b: int|
                0 <= b < self.func.blocks@.len() && b != self.cur && (
                #[trigger] self.func.blocks@[b].term) is None implies b < s1.func.blocks@.len() && b
                    != s1.cur && s1.func.blocks@[b].term is None by {
                assert(self.func.blocks@[b] == s2.func.blocks@[b]);
                assert(s2.func.blocks@[b] == s1.func.blocks@[b]);
            }
            assert forall|b: int|
                0 <= b < s1.func.blocks@.len() && s1.func.blocks@[b].term is Some implies #[trigger] self.func.blocks@[b].term
                == s1.func.blocks@[b].term by {
                assert(s2.func.blocks@[b] == s1.func.blocks@[b]);
            }
            assert(s1.evolves(&*self));
            assert(s1.sealed(&*self));
            lemma_chain(s0, s1, *self);
            if val is Some {
                let e = val->0;
                if const_eval(*e) is Some {
                    lemma_const_no_blocks(*e);
                    assert(self.func.insts == s1.func.insts);
                }
            }
        }
        Ok(())
    }
}

impl Codegen {
    /// The blocks an `if` lowers to: `then`, `else` and `endif` are the
    /// three blocks numbered from the old block count; the old current block
    /// branches on the condition, and each branch ends by going to `endif`.
    pub open spec fn if_shape(&self, next: &Codegen, cond: AST, then: AST, els: AST) -> bool {
        let n = self.func.blocks@.len();
        &&& next.func.blocks@.len() >= n + 3
        &&& next.cur == n + 2
        &&& !opens_blocks(cond) ==> (next.func.blocks@[self.cur as int].term matches Some(
            Terminator::CondBr(_, t, e),
        ) && t == n && e == n + 1)
        &&& !opens_blocks(then) ==> next.func.blocks@[n as int].term == Some(
            Terminator::Br((n + 2) as usize),
        )
        &&& !opens_blocks(els) ==> next.func.blocks@[n + 1int].term == Some(
            Terminator::Br((n + 2) as usize),
        )
        &&& exists|b: int|
            (b == n || n + 3 <= b < next.func.blocks@.len()) && #[trigger] next.func.blocks@[b].term
                == Some(Terminator::Br((n + 2) as usize))
        &&& exists|b: int|
            (b == n + 1 || n + 3 <= b < next.func.blocks@.len()) && #[trigger] next.func.blocks@[b].term
                == Some(Terminator::Br((n + 2) as usize))
    }

    /// The blocks a loop lowers to: header, body and exit are the three blocks
    /// numbered from the old block count; the header branches on the condition
    /// to the body or the exit, and the body ends by going back to the header.
    pub open spec fn loop_shape(&self, next: &Codegen, init: AST, cond: AST, body: AST, step: AST) -> bool {
        let n = self.func.blocks@.len();
        &&& next.func.blocks@.len() >= n + 3
        &&& next.cur == n + 2
        &&& !opens_blocks(init) ==> next.func.blocks@[self.cur as int].term == Some(
            Terminator::Br(n as usize),
        )
        &&& !opens_blocks(cond) ==> (next.func.blocks@[n as int].term matches Some(
            Terminator::CondBr(_, b, x),
        ) && b == n + 1 && x == n + 2)
        &&& !opens_blocks(body) && !opens_blocks(step) ==> next.func.blocks@[n + 1int].term == Some(
            Terminator::Br(n as usize),
        )
        &&& exists|b: int|
            (b == n + 1 || n + 3 <= b < next.func.blocks@.len()) && #[trigger] next.func.blocks@[b].term
                == Some(Terminator::Br(n as usize))
    }

    /// Lowers `if (cond) then else els`.
    pub fn gen_if(&mut self, cond: &AST, then: &AST, els: &AST) -> (r: Result<(), CompileError>)
        requires
            old(self).wf(),
        ensures
            final(self).module == old(self).module,
            sok(AST::If(Box::new(*cond), Box::new(*then), Box::new(*els)), env(old(self).vars@)) ==> r is Ok,
            r is Ok ==> old(self).step(
                final(self),
                AST::If(Box::new(*cond), Box::new(*then), Box::new(*els)),
            ),
            r is Ok ==> final(self).vars@ == old(self).vars@,
            r is Ok ==> old(self).if_shape(final(self), *cond, *then, *els),
            const_stmt(AST::If(Box::new(*cond), Box::new(*then), Box::new(*els))) ==> r is Ok,
            r is Ok ==> (const_eval(*cond) matches Some(c) ==> (final(self).func.blocks@[old(
                self,
            ).cur as int].term matches Some(Terminator::CondBr(x, _, _)) && ir_const(
                final(self).func.insts@,
                x,
            ) == Some(c))),
        decreases ast_size(*cond) + ast_size(*then) + ast_size(*els) + 1, 1nat,
    {
        let ghost s0 = *self;
        let t = self.new_block("then");
        let ghost sa = *self;
        let e = self.new_block("else");
        let ghost sb = *self;
        let m = self.new_block("endif");
        let ghost s1 = *self;
        let c = self.gen_value(cond)?;
        let ghost s2 = *self;
        self.branch_off(Terminator::CondBr(c.op, t, e), t);
        let ghost s3 = *self;
        self.gen_scoped(then)?;
        let ghost s4 = *self;
        self.branch_off(Terminator::Br(m), e);
        let ghost s5 = *self;
        self.gen_scoped(els)?;
        let ghost s6 = *self;
        self.branch_off(Terminator::Br(m), m);
        let ghost s7 = *self;
        proof {
            let n0 = s0.func.blocks@.len();
            lemma_evolves_chain(s0, sa, sb);
            lemma_evolves_chain(s0, sb, s1);
            lemma_evolves_chain(s0, s1, s2);
            lemma_evolves_chain(s0, s2, s3);
            lemma_evolves_chain(s0, s3, s4);
            lemma_evolves_chain(s0, s4, s5);
            lemma_evolves_chain(s0, s5, s6);
            lemma_evolves_chain(s0, s6, s7);
            lemma_sealed_chain(s5, s6, s7);
            lemma_sealed_chain(s4, s5, s7);
            lemma_sealed_chain(s3, s4, s7);
            lemma_sealed_chain(s2, s3, s7);
            lemma_sealed_chain(s1, s2, s7);
            assert forall|b: int|
                0 <= b < s7.func.blocks@.len() && b != s7.cur && (
                #[trigger] s7.func.blocks@[b].term) is None implies b < n0 && b != s0.cur
                && s0.func.blocks@[b].term is None by {
                assert(s1.func.blocks@[b] == s0.func.blocks@[b]) by {
                    if b < n0 {
                        assert(s1.func.blocks@[b] == sb.func.blocks@[b]);
                        assert(sb.func.blocks@[b] == sa.func.blocks@[b]);
                    }
                }
            }
            assert forall|b: int|
                0 <= b < n0 && b != s0.cur && s0.func.blocks@[b].term is None implies (
                #[trigger] s7.func.blocks@[b].term) is None by {
                assert(sa.func.blocks@[b] == s0.func.blocks@[b]);
                assert(sb.func.blocks@[b] == sa.func.blocks@[b]);
                assert(s1.func.blocks@[b] == sb.func.blocks@[b]);
                assert(s2.func.blocks@[b].term is None);
                assert(s3.func.blocks@[b] == s2.func.blocks@[b]);
                assert(s4.func.blocks@[b].term is None);
                assert(s5.func.blocks@[b] == s4.func.blocks@[b]);
                assert(s6.func.blocks@[b].term is None);
                assert(s7.func.blocks@[b] == s6.func.blocks@[b]);
            }
            assert(s3.func.blocks@[s2.cur as int].term == s7.func.blocks@[s2.cur as int].term);
            lemma_evolves_chain(s2, s3, s4);
            lemma_evolves_chain(s2, s4, s5);
            lemma_evolves_chain(s2, s5, s6);
            lemma_evolves_chain(s2, s6, s7);
            if let Some(cv) = const_eval(*cond) {
                lemma_const_no_blocks(*cond);
                lemma_const_value_prefix(s2.func.insts@, s7.func.insts@, c.op, s2.func.insts@.len() as nat);
                lemma_const_value_bound(s7.func.insts@, c.op, s2.func.insts@.len() as nat, s7.func.insts@.len() as nat);
            }
            assert(s7.func.blocks@[s4.cur as int].term == Some(Terminator::Br(m)));
            assert(s7.func.blocks@[s6.cur as int].term == Some(Terminator::Br(m)));
            if !opens_blocks(*then) {
                assert(s5.func.blocks@[t as int].term == s7.func.blocks@[t as int].term);
            }
            assert(s0.func.insts@ == s1.func.insts@);
        }
        Ok(())
    }

    /// Lowers `for (init; cond; step) body`; an absent condition always holds.
    pub fn gen_for(&mut self, init: &AST, cond: &AST, step: &AST, body: &AST) -> (r: Result<(), CompileError>)
        requires
            old(self).wf(),
        ensures
            final(self).module == old(self).module,
            sok(AST::For(Box::new(*init), Box::new(*cond), Box::new(*step), Box::new(*body)), env(old(self).vars@)) ==> r is Ok,
            r is Ok ==> old(self).step(
                final(self),
                AST::For(Box::new(*init), Box::new(*cond), Box::new(*step), Box::new(*body)),
            ),
            r is Ok ==> final(self).vars@ == old(self).vars@,
            r is Ok ==> old(self).loop_shape(final(self), *init, *cond, *body, *step),
            const_stmt(AST::For(Box::new(*init), Box::new(*cond), Box::new(*step), Box::new(*body)))
                ==> r is Ok,
            r is Ok ==> (*cond is Nil ==> final(self).func.blocks@[old(self).func.blocks@.len() as int].term
                == Some(Terminator::CondBr(Operand::Const(1), (old(self).func.blocks@.len() + 1) as usize, (old(self).func.blocks@.len() + 2) as usize))),
            r is Ok ==> (const_eval(*cond) matches Some(k) ==> (final(self).func.blocks@[old(
                self,
            ).func.blocks@.len() as int].term matches Some(Terminator::CondBr(x, _, _)) && ir_const(
                final(self).func.insts@,
                x,
            ) == Some(k))),
        decreases ast_size(*init) + ast_size(*cond) + ast_size(*step) + ast_size(*body) + 1, 0nat,
    {
        let ghost s0 = *self;
        let h = self.new_block("begin");
        let ghost sa = *self;
        let b = self.new_block("body");
        let ghost sb = *self;
        let x = self.new_block("end");
        let ghost s1 = *self;
        self.gen_scoped(init)?;
        let ghost s2 = *self;
        self.branch_off(Terminator::Br(h), h);
        let ghost s3 = *self;
        proof {
            lemma_step_refl(s3);
        }
        let c = match cond {
            AST::Nil => Operand::Const(1),
            _ => self.gen_value(cond)?.op,
        };
        let ghost s4 = *self;
        self.branch_off(Terminator::CondBr(c, b, x), b);
        let ghost s5 = *self;
        self.gen_scoped(body)?;
        let ghost s6 = *self;
        self.gen_scoped(step)?;
        let ghost s7 = *self;
        self.branch_off(Terminator::Br(h), x);
        let ghost s8 = *self;
        proof {
            let n0 = s0.func.blocks@.len();
            lemma_evolves_chain(s0, sa, sb);
            lemma_evolves_chain(s0, sb, s1);
            lemma_evolves_chain(s0, s1, s2);
            lemma_evolves_chain(s0, s2, s3);
            lemma_evolves_chain(s0, s3, s4);
            lemma_evolves_chain(s0, s4, s5);
            lemma_evolves_chain(s0, s5, s6);
            lemma_evolves_chain(s0, s6, s7);
            lemma_evolves_chain(s0, s7, s8);
            lemma_sealed_chain(s6, s7, s8);
            lemma_sealed_chain(s5, s6, s8);
            lemma_sealed_chain(s4, s5, s8);
            lemma_sealed_chain(s3, s4, s8);
            lemma_sealed_chain(s2, s3, s8);
            lemma_sealed_chain(s1, s2, s8);
            assert forall|k: int|
                0 <= k < s8.func.blocks@.len() && k != s8.cur && (
                #[trigger] s8.func.blocks@[k].term) is None implies k < n0 && k != s0.cur
                && s0.func.blocks@[k].term is None by {
                assert(s1.func.blocks@[k] == s0.func.blocks@[k]) by {
                    if k < n0 {
                        assert(s1.func.blocks@[k] == sb.func.blocks@[k]);
                        assert(sb.func.blocks@[k] == sa.func.blocks@[k]);
                    }
                }
            }
            assert forall|k: int|
                0 <= k < n0 && k != s0.cur && s0.func.blocks@[k].term is None implies (
                #[trigger] s8.func.blocks@[k].term) is None by {
                assert(sa.func.blocks@[k] == s0.func.blocks@[k]);
                assert(sb.func.blocks@[k] == sa.func.blocks@[k]);
                assert(s1.func.blocks@[k] == sb.func.blocks@[k]);
                assert(s2.func.blocks@[k].term is None);
                assert(s3.func.blocks@[k] == s2.func.blocks@[k]);
                assert(s4.func.blocks@[k].term is None);
                assert(s5.func.blocks@[k] == s4.func.blocks@[k]);
                assert(s6.func.blocks@[k].term is None);
                assert(s7.func.blocks@[k].term is None);
                assert(s8.func.blocks@[k] == s7.func.blocks@[k]);
            }
            assert(s3.func.blocks@[s2.cur as int].term == s8.func.blocks@[s2.cur as int].term);
            assert(s5.func.blocks@[s4.cur as int].term == s8.func.blocks@[s4.cur as int].term);
            assert(s8.func.blocks@[s7.cur as int].term == Some(Terminator::Br(h)));
            lemma_evolves_chain(s4, s5, s6);
            lemma_evolves_chain(s4, s6, s7);
            lemma_evolves_chain(s4, s7, s8);
            if let Some(kv) = const_eval(*cond) {
                lemma_const_no_blocks(*cond);
                lemma_const_value_prefix(s4.func.insts@, s8.func.insts@, c, s4.func.insts@.len() as nat);
                lemma_const_value_bound(s8.func.insts@, c, s4.func.insts@.len() as nat, s8.func.insts@.len() as nat);
            }
            assert(s0.func.insts@ == s1.func.insts@);
            assert(s2.func.insts@ == s3.func.insts@);
        }
        Ok(())
    }

    /// Lowers `while (cond) body`, as a `for` loop without init and step.
    pub fn gen_while(&mut self, cond: &AST, body: &AST) -> (r: Result<(), CompileError>)
        requires
            old(self).wf(),
        ensures
            final(self).module == old(self).module,
            sok(AST::While(Box::new(*cond), Box::new(*body)), env(old(self).vars@)) ==> r is Ok,
            r is Ok ==> old(self).step(final(self), AST::While(Box::new(*cond), Box::new(*body))),
            r is Ok ==> final(self).vars@ == old(self).vars@,
            r is Ok ==> old(self).loop_shape(final(self), AST::Nil, *cond, *body, AST::Nil),
            const_stmt(AST::While(Box::new(*cond), Box::new(*body))) ==> r is Ok,
        decreases ast_size(*cond) + ast_size(*body) + 3, 1nat,
    {
        let ghost s0 = *self;
        let nil = AST::Nil;
        assert(const_stmt(nil));
        assert(sok(nil, env(self.vars@)));
        self.gen_for(&nil, cond, &nil, body)?;
        proof {
            assert forall|n: Seq<char>| #[trigger] decl_count(AST::While(Box::new(*cond), Box::new(*body)), n)
                == decl_count(AST::For(Box::new(AST::Nil), Box::new(*cond), Box::new(AST::Nil), Box::new(*body)), n) by {
                assert(decl_count(AST::Nil, n) == 0);
            }
            lemma_step_as(
                s0,
                *self,
                AST::For(Box::new(AST::Nil), Box::new(*cond), Box::new(AST::Nil), Box::new(*body)),
                AST::While(Box::new(*cond), Box::new(*body)),
            );
        }
        Ok(())
    }
}

/// Number of parameters of a function type.
pub open spec fn param_count(t: TypeModel) -> nat {
    match t {
        TypeModel::Func(_, ps, _) => ps.len(),
        _ => 0,
    }
}

/// How many of `names` are `n`.
pub open spec fn name_count(names: Seq<String>, n: Seq<char>) -> nat
    decreases names.len(),
{
    if names.len() == 0 {
        0
    } else {
        name_count(names.drop_last(), n) + if names.last()@ == n {
            1nat
        } else {
            0nat
        }
    }
}

/// A function with an empty, open entry block.
fn empty_function(name: String, ty: Type) -> (r: Function)
    ensures
        r.name == name,
        r.ty == ty,
        r.insts@.len() == 0,
        r.blocks@.len() == 1,
        r.blocks@[0].term is None,
        r.blocks@[0].insts@.len() == 0,
{
    let mut blocks: Vec<BasicBlock> = Vec::new();
    blocks.push(BasicBlock { name: String::from_str("entry"), insts: Vec::new(), term: None });
    Function { name, ty, insts: Vec::new(), blocks }
}

impl Codegen {
    /// A generator for an empty module of this name.
    pub fn new(mod_name: &str) -> (r: Codegen)
        ensures
            r.wf(),
            r.module.name@ == mod_name@,
            r.module.funcs@.len() == 0,
    {
        proof {
            reveal(func_ok);
        }
        Codegen {
            module: Module { name: String::from_str(mod_name), funcs: Vec::new() },
            func: empty_function(String::new(), Type::Int),
            params: 0,
            cur: 0,
            vars: Vec::new(),
            scopes: Vec::new(),
        }
    }

    /// Generates one function and adds it to the module: a slot for each
    /// parameter, the body, and a final `return 0` for a body that falls off
    /// its end.
    pub fn gen_func_def(&mut self, func_ty: &Type, func_name: &String, body: &AST) -> (r: Result<
        (),
        CompileError,
    >)
        requires
            old(self).wf(),
        ensures
            r is Ok ==> final(self).wf(),
            r is Ok ==> final(self).module.funcs@.len() == old(self).module.funcs@.len() + 1,
            r is Ok ==> forall|i: int|
                0 <= i < old(self).module.funcs@.len() ==> #[trigger] final(self).module.funcs@[i]
                    == old(self).module.funcs@[i],
            r is Ok ==> {
                let f = final(self).module.funcs@.last();
                &&& f.name@ == func_name@
                &&& f.ty@ == func_ty@
                &&& func_complete(f, param_count(func_ty@))
                &&& func_ty@ matches TypeModel::Func(_, _, names) && forall|n: Seq<char>|
                    #[trigger] alloca_count(f.insts@, n) == name_count_model(names, n) + decl_count(
                        *body,
                        n,
                    )
            },
            !(func_ty@ is Func) ==> r is Err,
            defines_ok(*func_ty, *body) ==> r is Ok,
            def_lowerable(*func_ty, *body) ==> r is Ok,
            final(self).module.name == old(self).module.name,
            r is Err ==> final(self).module == old(self).module,
    {
        let (ptys, pnames) = match func_ty {
            Type::Func(_, ptys, pnames) => (ptys, pnames),
            _ => return Err(CompileError::Unsupported),
        };
        proof {
            lemma_models_of(ptys@);
        }
        if ptys.len() != pnames.len() {
            return Err(CompileError::Unsupported);
        }
        let np = ptys.len();
        self.func = empty_function(func_name.clone(), func_ty.duplicate());
        self.params = np;
        self.cur = 0;
        self.vars = Vec::new();
        self.scopes = Vec::new();
        proof {
            reveal(func_ok);
        }
        self.open_scope();
        let ghost s0 = *self;
        proof {
            assert(env(self.vars@) =~= Seq::new(0, |j: int| (pnames@[j]@, ptys@[j]@)));
            assert(pnames@.subrange(0, 0) =~= Seq::<String>::empty());
        }
        let mut i: usize = 0;
        while i < np
            invariant
                self.wf(),
                i <= np,
                np == ptys@.len(),
                np == pnames@.len(),
                self.params == np,
                self.cur == 0,
                self.func.blocks@.len() == 1,
                self.func.name == s0.func.name,
                self.func.ty == s0.func.ty,
                self.module == s0.module,
                self.scopes@ == s0.scopes@,
                forall|n: Seq<char>| #[trigger] alloca_count(self.func.insts@, n) == name_count(
                    pnames@.subrange(0, i as int),
                    n,
                ),
                env(self.vars@) == Seq::new(i as nat, |j: int| (pnames@[j]@, ptys@[j]@)),
            decreases np - i,
        {
            let ghost sa = *self;
            let slot = self.alloca_in_entry(ptys[i].duplicate(), pnames[i].clone());
            proof {
                lemma_alloca_count_push(sa.func.insts@, self.func.insts@.last());
                assert(pnames@.subrange(0, i + 1).drop_last() =~= pnames@.subrange(0, i as int));
            }
            self.emit(Inst::Store(Operand::Param(i), Operand::Inst(slot)));
            let ghost vb = self.vars@;
            self.vars.push((pnames[i].clone(), VarInfo::new(ptys[i].duplicate(), slot)));
            proof {
                lemma_env_push(vb, self.vars@.last());
                assert(self.vars@ == vb.push(self.vars@.last()));
                assert(env(self.vars@) =~= Seq::new((i + 1) as nat, |j: int| (pnames@[j]@, ptys@[j]@)));
            }
            i += 1;
        }
        proof {
            assert(pnames@.subrange(0, np as int) =~= pnames@);
            lemma_name_count_model(pnames@);
            if let TypeModel::Func(_, ps, ns) = func_ty@ {
                assert(env(self.vars@) =~= Seq::new(ps.len(), |j: int| (ns[j], ps[j])));
            }
        }
        let ghost s1 = *self;
        self.gen(body)?;
        let ghost s2 = *self;
        let cur = self.cur;
        self.func.blocks[cur].term = Some(Terminator::Ret(Some(Operand::Const(0))));
        proof {
            reveal(func_ok);
            assert(self.func.blocks@[0].insts == s2.func.blocks@[0].insts);
            assert forall|b: int| 0 <= b < self.func.blocks@.len() implies (
            #[trigger] self.func.blocks@[b].term) is Some by {
                if b != cur {
                    assert(self.func.blocks@[b] == s2.func.blocks@[b]);
                }
            }
            assert forall|b: int| 0 <= b < self.func.blocks@.len() implies (
            #[trigger] self.func.blocks@[b].term matches Some(t) ==> term_ok(
                t,
                self.func.blocks@.len() as nat,
                self.func.insts@.len() as nat,
                self.params as nat,
            )) by {
                if b != cur {
                    assert(self.func.blocks@[b] == s2.func.blocks@[b]);
                }
            }
            assert forall|b: int, j: int|
                0 <= b < self.func.blocks@.len() && 0 <= j < self.func.blocks@[b].insts@.len()
                implies #[trigger] self.func.blocks@[b].insts@[j] < self.func.insts@.len() by {
                if b != cur {
                    assert(self.func.blocks@[b] == s2.func.blocks@[b]);
                }
            }
            assert(func_complete(self.func, param_count(func_ty@)));
        }
        let mut done = empty_function(String::new(), Type::Int);
        std::mem::swap(&mut self.func, &mut done);
        self.module.funcs.push(done);
        self.params = 0;
        self.cur = 0;
        self.vars = Vec::new();
        self.scopes = Vec::new();
        Ok(())
    }

    /// Generates every function of a program, in order.
    pub fn gen_program(&mut self, program: &Vec<AST>) -> (r: Result<(), CompileError>)
        requires
            old(self).wf(),
        ensures
            (exists|i: int| 0 <= i < program@.len() && !(#[trigger] program@[i] is FuncDef)) ==> r is Err,
            (forall|i: int|
                0 <= i < program@.len() ==> (#[trigger] program@[i] matches AST::FuncDef(ty, _, b)
                    && defines_ok(ty, *b))) ==> r is Ok,
            (forall|i: int|
                0 <= i < program@.len() ==> (#[trigger] program@[i] matches AST::FuncDef(ty, _, b)
                    && def_lowerable(ty, *b))) ==> r is Ok,
            r is Err ==> final(self).module.funcs@ == old(self).module.funcs@ && final(self).module.name
                == old(self).module.name,
            r is Ok ==> final(self).wf(),
            r is Ok ==> final(self).module.funcs@.len() == old(self).module.funcs@.len()
                + program@.len(),
            r is Ok ==> forall|i: int|
                0 <= i < program@.len() ==> {
                    let f = #[trigger] final(self).module.funcs@[old(self).module.funcs@.len() + i];
                    &&& program@[i] matches AST::FuncDef(ty, name, _)
                    &&& f.name@ == name@
                    &&& f.ty@ == ty@
                    &&& func_complete(f, param_count(ty@))
                },
    {
        let ghost n0 = self.module.funcs@.len();
        let start = self.module.funcs.len();
        let mut i: usize = 0;
        while i < program.len()
            invariant
                self.wf(),
                start == n0,
                self.module.funcs@.subrange(0, n0 as int) == old(self).module.funcs@,
                self.module.name == old(self).module.name,
                i <= program@.len(),
                self.module.funcs@.len() == n0 + i,
                forall|j: int| 0 <= j < i ==> #[trigger] program@[j] is FuncDef,
                forall|j: int|
                    0 <= j < i ==> {
                        let f = #[trigger] self.module.funcs@[n0 + j];
                        &&& program@[j] matches AST::FuncDef(ty, name, _)
                        &&& f.name@ == name@
                        &&& f.ty@ == ty@
                        &&& func_complete(f, param_count(ty@))
                    },
            decreases program.len() - i,
        {
            let ghost before = self.module.funcs@;
            match &program[i] {
                AST::FuncDef(ty, name, body) => {
                    if let Err(e) = self.gen_func_def(ty, name, body) {
                        self.module.funcs.truncate(start);
                        return Err(e);
                    }
                },
                _ => {
                    self.module.funcs.truncate(start);
                    return Err(CompileError::Unsupported);
                },
            }
            proof {
                assert(self.module.funcs@.subrange(0, n0 as int) =~= old(self).module.funcs@) by {
                    assert forall|k: int| 0 <= k < n0 implies self.module.funcs@[k] == old(self).module.funcs@[k] by {
                        assert(self.module.funcs@[k] == before[k]);
                        assert(before[k] == before.subrange(0, n0 as int)[k]);
                    }
                }
            }
            i += 1;
        }
        Ok(())
    }
}

/// How many of `names` are `n`, over their views.
pub open spec fn name_count_model(names: Seq<Seq<char>>, n: Seq<char>) -> nat
    decreases names.len(),
{
    if names.len() == 0 {
        0
    } else {
        name_count_model(names.drop_last(), n) + if names.last() == n {
            1nat
        } else {
            0nat
        }
    }
}

pub proof fn lemma_name_count_model(names: Seq<String>)
    ensures
        forall|n: Seq<char>| #[trigger] name_count(names, n) == name_count_model(
            names.map_values(|s: String| s@),
            n,
        ),
    decreases names.len(),
{
    if names.len() > 0 {
        lemma_name_count_model(names.drop_last());
        let m = names.map_values(|s: String| s@);
        assert(m.drop_last() =~= names.drop_last().map_values(|s: String| s@));
        assert(m.last() == names.last()@);
        assert forall|n: Seq<char>| #[trigger] name_count(names, n) == name_count_model(m, n) by {
            assert(name_count(names.drop_last(), n) == name_count_model(m.drop_last(), n));
        }
    }
}

/// What the lowering needs to know of the bindings in scope: each name and
/// its declared type, innermost last.
pub open spec fn env(vars: Seq<(String, VarInfo)>) -> Seq<(Seq<char>, TypeModel)> {
    vars.map_values(|p: (String, VarInfo)| (p.0@, p.1.ty@))
}

/// Index of the binding that `n` resolves to in `e`: the last one with that name.
pub open spec fn lookup_env(e: Seq<(Seq<char>, TypeModel)>, n: Seq<char>) -> Option<int>
    decreases e.len(),
{
    if e.len() == 0 {
        None
    } else if e.last().0 == n {
        Some(e.len() - 1)
    } else {
        lookup_env(e.drop_last(), n)
    }
}

pub proof fn lemma_env_lookup(vars: Seq<(String, VarInfo)>, n: Seq<char>)
    ensures
        lookup_env(env(vars), n) == lookup(vars, n),
        env(vars).len() == vars.len(),
        forall|k: int| 0 <= k < vars.len() ==> #[trigger] env(vars)[k] == (vars[k].0@, vars[k].1.ty@),
    decreases vars.len(),
{
    if vars.len() > 0 {
        lemma_env_lookup(vars.drop_last(), n);
        assert(env(vars).drop_last() =~= env(vars.drop_last()));
    }
}

pub proof fn lemma_env_push(vars: Seq<(String, VarInfo)>, x: (String, VarInfo))
    ensures
        env(vars.push(x)) == env(vars).push((x.0@, x.1.ty@)),
{
    assert(env(vars.push(x)) =~= env(vars).push((x.0@, x.1.ty@)));
}

/// The type of a value read from a slot of type `t`: an array decays to a
/// pointer to its first element; a function cannot be read.
pub open spec fn read_ty(t: TypeModel) -> Option<TypeModel> {
    match t {
        TypeModel::Array(el, _) => Some(TypeModel::Ptr(el)),
        TypeModel::Func(..) => None,
        _ => Some(t),
    }
}

/// The type of what `sizeof` measures in `x`: the slot's own type when `x`
/// reads a location (so an array keeps its size), else the value's type.
pub open spec fn sizeof_ty(x: AST, e: Seq<(Seq<char>, TypeModel)>) -> Option<TypeModel>
    decreases x, 2nat,
{
    match x {
        AST::Load(y) => match addr_ty(*y, e) {
            Some(TypeModel::Ptr(t)) => Some(*t),
            _ => None,
        },
        _ => ety(x, e),
    }
}

/// The type of the value an expression lowers to, when it lowers without
/// error: every name declared, `&` only in front of a variable read, `*`
/// only on pointers, `+`/`-` the only operators on a pointer, assignment
/// only to a scalar location, `sizeof` only of a sized type.
pub open spec fn ety(a: AST, e: Seq<(Seq<char>, TypeModel)>) -> Option<TypeModel>
    decreases a, 1nat,
{
    match a {
        AST::Int(_) => Some(TypeModel::Int),
        AST::Variable(n) => match lookup_env(e, n@) {
            Some(k) => Some(TypeModel::Ptr(Box::new(e[k].1))),
            None => None,
        },
        AST::Load(x) => match addr_ty(*x, e) {
            Some(TypeModel::Ptr(t)) => read_ty(*t),
            _ => None,
        },
        AST::UnaryOp(x, UnaryOps::Plus) => ety(*x, e),
        AST::UnaryOp(x, UnaryOps::Minus) => if ety(*x, e) == Some(TypeModel::Int) {
            Some(TypeModel::Int)
        } else {
            None
        },
        AST::UnaryOp(x, UnaryOps::Addr) => match *x {
            AST::Load(y) => addr_ty(*y, e),
            _ => None,
        },
        AST::UnaryOp(x, UnaryOps::Deref) => match ety(*x, e) {
            Some(TypeModel::Ptr(t)) => read_ty(*t),
            _ => None,
        },
        AST::UnaryOp(x, UnaryOps::Sizeof) => match sizeof_ty(*x, e) {
            Some(t) => if size_fits(t) && size_spec(t) is Some && size_spec(t)->0 <= i32::MAX {
                Some(TypeModel::Int)
            } else {
                None
            },
            None => None,
        },
        AST::BinaryOp(l, r, BinaryOps::Assign) => match (ety(*r, e), addr_ty(*l, e)) {
            (Some(_), Some(TypeModel::Ptr(t))) => if *t is Array || *t is Func {
                None
            } else {
                Some(*t)
            },
            _ => None,
        },
        AST::BinaryOp(l, r, op) => match (ety(*l, e), ety(*r, e)) {
            (Some(tl), Some(tr)) => if tl is Ptr {
                if (op == BinaryOps::Add || op == BinaryOps::Sub) && !(tr is Ptr) {
                    Some(tl)
                } else {
                    None
                }
            } else if tr is Ptr {
                if op == BinaryOps::Add {
                    Some(tr)
                } else {
                    None
                }
            } else if tl == TypeModel::Int && tr == TypeModel::Int {
                Some(TypeModel::Int)
            } else {
                None
            },
            _ => None,
        },
        _ => None,
    }
}

/// The type of the address a location lowers to: a declared variable, a
/// variable read, or `*p` for a pointer `p`.
pub open spec fn addr_ty(a: AST, e: Seq<(Seq<char>, TypeModel)>) -> Option<TypeModel>
    decreases a, 0nat,
{
    match a {
        AST::Variable(n) => match lookup_env(e, n@) {
            Some(k) => Some(TypeModel::Ptr(Box::new(e[k].1))),
            None => None,
        },
        AST::Load(x) => addr_ty(*x, e),
        AST::UnaryOp(x, UnaryOps::Deref) => match ety(*x, e) {
            Some(TypeModel::Ptr(t)) => Some(TypeModel::Ptr(t)),
            _ => None,
        },
        _ => None,
    }
}

/// The bindings after statement `a`: a declaration adds one.
pub open spec fn env_after(a: AST, e: Seq<(Seq<char>, TypeModel)>) -> Seq<(Seq<char>, TypeModel)> {
    match a {
        AST::VariableDecl(t, n, _) => e.push((n@, t@)),
        _ => e,
    }
}

/// A statement that lowers without error in the bindings `e`; the branches
/// and bodies of `if`, `for` and `while` each have a scope of their own.
pub open spec fn sok(a: AST, e: Seq<(Seq<char>, TypeModel)>) -> bool
    decreases a,
{
    match a {
        AST::Nil => true,
        AST::Return(None) => true,
        AST::Return(Some(x)) => ety(*x, e) is Some,
        AST::ExprStmt(x) => ety(*x, e) is Some,
        AST::VariableDecl(t, n, init) => match init {
            None => true,
            Some(x) => ety(*x, e.push((n@, t@))) is Some && !(t@ is Array) && !(t@ is Func),
        },
        AST::Block(v) => soks(v@, 0, e),
        AST::If(c, t, el) => ety(*c, e) is Some && sok(*t, e) && sok(*el, e),
        AST::For(i, c, st, b) => sok(*i, e) && (*c is Nil || ety(*c, e) is Some) && (*st is Nil || ety(
            *st,
            e,
        ) is Some) && sok(*b, e),
        AST::While(c, b) => ety(*c, e) is Some && sok(*b, e),
        _ => ety(a, e) is Some,
    }
}

/// The statements of `s` from index `i` on lower in turn, each in the
/// bindings its predecessors leave.
pub open spec fn soks(s: Seq<AST>, i: int, e: Seq<(Seq<char>, TypeModel)>) -> bool
    decreases s, s.len() - i,
{
    if 0 <= i < s.len() {
        sok(s[i], e) && soks(s, i + 1, env_after(s[i], e))
    } else {
        true
    }
}

} // verus!
