//! The type model: integers, pointers, fixed-size arrays and function signatures.
use vstd::prelude::*;

verus! {

broadcast use vstd::std_specs::vec::group_vec_axioms;

/// Size in bytes of `int`.
pub const INT_SIZE: u64 = 4;

/// Size in bytes of any pointer.
pub const PTR_SIZE: u64 = 8;

#[derive(Debug, PartialEq, Eq)]
pub enum Type {
    Int,
    /// Pointer to the boxed type.
    Ptr(Box<Type>),
    /// Element type and element count.
    Array(Box<Type>, u32),
    /// Return type, parameter types and parameter names.
    Func(Box<Type>, Vec<Type>, Vec<String>),
}

/// The mathematical value of a `Type`.
pub enum TypeModel {
    Int,
    Ptr(Box<TypeModel>),
    Array(Box<TypeModel>, nat),
    Func(Box<TypeModel>, Seq<TypeModel>, Seq<Seq<char>>),
}

pub open spec fn model_of(t: Type) -> TypeModel
    decreases t,
{
    match t {
        Type::Int => TypeModel::Int,
        Type::Ptr(e) => TypeModel::Ptr(Box::new(model_of(*e))),
        Type::Array(e, n) => TypeModel::Array(Box::new(model_of(*e)), n as nat),
        Type::Func(r, ps, ns) => TypeModel::Func(
            Box::new(model_of(*r)),
            models_of(ps@),
            ns@.map_values(|s: String| s@),
        ),
    }
}

pub open spec fn models_of(s: Seq<Type>) -> Seq<TypeModel>
    decreases s,
{
    if s.len() == 0 {
        Seq::empty()
    } else {
        models_of(s.drop_last()).push(model_of(s.last()))
    }
}

impl View for Type {
    type V = TypeModel;

    open spec fn view(&self) -> TypeModel {
        model_of(*self)
    }
}

pub proof fn lemma_models_of(s: Seq<Type>)
    ensures
        models_of(s).len() == s.len(),
        forall|i: int| 0 <= i < s.len() ==> #[trigger] models_of(s)[i] == model_of(s[i]),
    decreases s.len(),
{
    if s.len() > 0 {
        lemma_models_of(s.drop_last());
    }
}

/// Byte size of a type; `None` for a function type (or an array of them).
pub open spec fn size_spec(t: TypeModel) -> Option<int>
    decreases t,
{
    match t {
        TypeModel::Int => Some(INT_SIZE as int),
        TypeModel::Ptr(_) => Some(PTR_SIZE as int),
        TypeModel::Array(e, n) => match size_spec(*e) {
            Some(s) => Some(n * s),
            None => None,
        },
        TypeModel::Func(..) => None,
    }
}

/// Whether the size of `t`, and of every array nested in it, fits in 64 bits.
pub open spec fn size_fits(t: TypeModel) -> bool
    decreases t,
{
    match t {
        TypeModel::Array(e, n) => size_fits(*e) && (size_spec(t) matches Some(s) ==> s
            <= u64::MAX),
        _ => true,
    }
}

/// The type that a pointer points to, or that an array holds.
pub open spec fn pointee_spec(t: TypeModel) -> Option<TypeModel> {
    match t {
        TypeModel::Ptr(e) => Some(*e),
        TypeModel::Array(e, _) => Some(*e),
        _ => None,
    }
}

/// Structural equality that ignores the parameter names of function types.
pub open spec fn same_type(a: TypeModel, b: TypeModel) -> bool
    decreases a,
{
    match (a, b) {
        (TypeModel::Int, TypeModel::Int) => true,
        (TypeModel::Ptr(x), TypeModel::Ptr(y)) => same_type(*x, *y),
        (TypeModel::Array(x, n), TypeModel::Array(y, m)) => n == m && same_type(*x, *y),
        (TypeModel::Func(r1, ps, _), TypeModel::Func(r2, qs, _)) => {
            &&& same_type(*r1, *r2)
            &&& same_types(ps, qs)
        },
        _ => false,
    }
}

/// Pointwise `same_type` over two parameter lists of equal length.
pub open spec fn same_types(ps: Seq<TypeModel>, qs: Seq<TypeModel>) -> bool
    decreases ps,
{
    if ps.len() == 0 {
        qs.len() == 0
    } else {
        qs.len() > 0 && same_types(ps.drop_last(), qs.drop_last()) && same_type(
            ps.last(),
            qs.last(),
        )
    }
}

pub proof fn lemma_size_nonneg(t: TypeModel)
    ensures
        size_spec(t) matches Some(s) ==> s >= 0,
    decreases t,
{
    if let TypeModel::Array(e, n) = t {
        lemma_size_nonneg(*e);
        if let Some(s) = size_spec(*e) {
            assert(n * s >= 0) by (nonlinear_arith)
                requires
                    s >= 0,
                    n >= 0,
            ;
        }
    }
}

/// Byte size of `t`, or `None` when it has none or it does not fit in 64 bits.
pub fn size_of(t: &Type) -> (r: Option<u64>)
    ensures
        r matches Some(v) ==> size_spec(t@) == Some(v as int),
        r is None <==> (size_spec(t@) is None || !size_fits(t@)),
    decreases t,
{
    match t {
        Type::Int => Some(INT_SIZE),
        Type::Ptr(_) => Some(PTR_SIZE),
        Type::Array(e, n) => {
            proof {
                lemma_size_nonneg(e@);
            }
            match size_of(e) {
                Some(s) => {
                    proof {
                        assert(s * (*n as int) == (*n as int) * s) by (nonlinear_arith);
                    }
                    s.checked_mul(*n as u64)
                },
                None => None,
            }
        },
        Type::Func(..) => None,
    }
}

impl Type {
    /// A copy of this type.
    pub fn duplicate(&self) -> (r: Type)
        ensures
            r@ == self@,
        decreases self,
    {
        match self {
            Type::Int => Type::Int,
            Type::Ptr(e) => Type::Ptr(Box::new(e.duplicate())),
            Type::Array(e, n) => Type::Array(Box::new(e.duplicate()), *n),
            Type::Func(ret, ps, ns) => {
                let mut copies: Vec<Type> = Vec::new();
                let mut i: usize = 0;
                while i < ps.len()
                    invariant
                        i <= ps.len(),
                        *self is Func,
                        self->Func_1 == *ps,
                        copies@.len() == i,
                        forall|j: int| 0 <= j < i ==> (#[trigger] copies@[j])@ == ps@[j]@,
                    decreases ps.len() - i,
                {
                    assert(decreases_to!(ps => ps[i as int]));
                    assert(decreases_to!(*self => self->Func_1));
                    copies.push(ps[i].duplicate());
                    i += 1;
                }
                proof {
                    lemma_models_of(copies@);
                    lemma_models_of(ps@);
                    assert(models_of(copies@) =~= models_of(ps@));
                    assert(copies@.len() == ps@.len());
                }
                let names = ns.clone();
                proof {
                    assert(names@.map_values(|s: String| s@) =~= ns@.map_values(|s: String| s@));
                }
                Type::Func(Box::new(ret.duplicate()), copies, names)
            },
        }
    }
}

pub proof fn lemma_same_types(s1: Seq<TypeModel>, s2: Seq<TypeModel>)
    ensures
        same_types(s1, s2) <==> (s1.len() == s2.len() && forall|i: int|
            0 <= i < s1.len() ==> #[trigger] same_type(s1[i], s2[i])),
    decreases s1.len(),
{
    if s1.len() > 0 && s2.len() > 0 {
        lemma_same_types(s1.drop_last(), s2.drop_last());
        if s1.len() == s2.len() && forall|i: int|
            0 <= i < s1.len() ==> #[trigger] same_type(s1[i], s2[i]) {
            assert forall|i: int| 0 <= i < s1.drop_last().len() implies #[trigger] same_type(
                s1.drop_last()[i],
                s2.drop_last()[i],
            ) by {
                assert(same_type(s1[i], s2[i]));
            }
        }
        if s1.len() == s2.len() && forall|i: int|
            0 <= i < s1.len() ==> #[trigger] same_type(s1[i], s2[i]) {
            assert(same_type(s1[s1.len() - 1], s2[s2.len() - 1]));
            assert(same_types(s1, s2));
        }
        if same_types(s1, s2) {
            assert forall|i: int| 0 <= i < s1.len() implies #[trigger] same_type(s1[i], s2[i]) by {
                if i < s1.len() - 1 {
                    assert(same_type(s1.drop_last()[i], s2.drop_last()[i]));
                }
            }
        }
    }
}

/// The pointee of a pointer, or the element type of an array.
pub fn pointee_of(t: &Type) -> (r: Option<Type>)
    ensures
        r matches Some(p) ==> pointee_spec(t@) == Some(p@),
        r is None <==> pointee_spec(t@) is None,
{
    match t {
        Type::Ptr(e) => Some(e.duplicate()),
        Type::Array(e, _) => Some(e.duplicate()),
        _ => None,
    }
}

impl Type {
    /// Structural equality; parameter names do not count.
    pub fn equals(&self, other: &Type) -> (r: bool)
        ensures
            r == same_type(self@, other@),
        decreases self,
    {
        match (self, other) {
            (Type::Int, Type::Int) => true,
            (Type::Ptr(a), Type::Ptr(b)) => a.equals(b),
            (Type::Array(a, n), Type::Array(b, m)) => *n == *m && a.equals(b),
            (Type::Func(r1, ps, _), Type::Func(r2, qs, _)) => {
                proof {
                    lemma_models_of(ps@);
                    lemma_models_of(qs@);
                    lemma_same_types(models_of(ps@), models_of(qs@));
                }
                if !r1.equals(r2) || ps.len() != qs.len() {
                    return false;
                }
                proof {
                    if same_type(self@, other@) {
                        assert forall|j: int| 0 <= j < ps@.len() implies #[trigger] same_type(
                            ps@[j]@,
                            qs@[j]@,
                        ) by {
                            assert(same_type(models_of(ps@)[j], models_of(qs@)[j]));
                        }
                    }
                }
                let mut i: usize = 0;
                while i < ps.len()
                    invariant
                        same_type(self@, other@) ==> forall|j: int|
                            0 <= j < ps@.len() ==> #[trigger] same_type(ps@[j]@, qs@[j]@),
                        *self is Func,
                        self->Func_1 == *ps,
                        ps@.len() == qs@.len(),
                        i <= ps@.len(),
                        forall|j: int| 0 <= j < i ==> #[trigger] same_type(ps@[j]@, qs@[j]@),
                    decreases ps.len() - i,
                {
                    assert(decreases_to!(*self => self->Func_1));
                    if !ps[i].equals(&qs[i]) {
                        return false;
                    }
                    i += 1;
                }
                proof {
                    lemma_models_of(ps@);
                    lemma_models_of(qs@);
                    assert forall|j: int| 0 <= j < models_of(ps@).len() implies #[trigger] same_type(
                        models_of(ps@)[j],
                        models_of(qs@)[j],
                    ) by {
                        assert(same_type(ps@[j]@, qs@[j]@));
                    }
                }
                true
            },
            _ => false,
        }
    }
}

} // verus!
