//! The internal, name-free tree handed to later phases. Every variable
//! reference records the size of its context and a zero-based index from the
//! bottom of that context; every binder records only how many names it binds.

use vstd::prelude::*;
use crate::syntax::{Kind, Quantifier, VarUsage};

verus! {

#[derive(Debug, PartialEq, Eq)]
pub enum IType {
    Unit { free_types: usize },
    Var { free_types: usize, index: usize },
    Quantified { quantifier: Quantifier, kind: Kind, body: Box<IType> },
    Func { params: Vec<Kind>, arg: Box<IType>, ret: Box<IType> },
    Pair { left: Box<IType>, right: Box<IType> },
    App { constructor: Box<IType>, param: Box<IType> },
}

#[derive(Debug, PartialEq, Eq)]
pub enum IExpr {
    Unit { free_vars: usize, free_types: usize },
    Var { usage: VarUsage, free_vars: usize, free_types: usize, index: usize },
    Func { type_params: Vec<Kind>, arg_type: IType, body: Box<IExpr> },
    App { callee: Box<IExpr>, type_params: Vec<IType>, arg: Box<IExpr> },
    Pair { left: Box<IExpr>, right: Box<IExpr> },
    Let { count: usize, val: Box<IExpr>, body: Box<IExpr> },
    LetExists { type_count: usize, val: Box<IExpr>, body: Box<IExpr> },
    MakeExists { params: Vec<IType>, type_body: IType, body: Box<IExpr> },
}

/// `t` is a closed type under a context of `nt` type names: every node
/// records the context it stands in, and every index lies below it.
pub open spec fn type_wf(t: IType, nt: nat) -> bool
    decreases t,
{
    match t {
        IType::Unit { free_types } => free_types == nt,
        IType::Var { free_types, index } => free_types == nt && index < nt,
        IType::Quantified { body, .. } => type_wf(*body, nt + 1),
        IType::Func { params, arg, ret } => {
            &&& type_wf(*arg, nt + params@.len())
            &&& type_wf(*ret, nt + params@.len())
        },
        IType::Pair { left, right } => type_wf(*left, nt) && type_wf(*right, nt),
        IType::App { constructor, param } => type_wf(*constructor, nt) && type_wf(*param, nt),
    }
}

/// `e` is a closed expression under `nv` value names and `nt` type names.
pub open spec fn expr_wf(e: IExpr, nv: nat, nt: nat) -> bool
    decreases e,
{
    match e {
        IExpr::Unit { free_vars, free_types } => free_vars == nv && free_types == nt,
        IExpr::Var { free_vars, free_types, index, .. } => {
            free_vars == nv && free_types == nt && index < nv
        },
        IExpr::Func { type_params, arg_type, body } => {
            &&& type_wf(arg_type, nt + type_params@.len())
            &&& expr_wf(*body, nv + 1, nt + type_params@.len())
        },
        IExpr::App { callee, type_params, arg } => {
            &&& expr_wf(*callee, nv, nt)
            &&& forall|i: int| 0 <= i < type_params@.len() ==> #[trigger] type_wf(type_params@[i], nt)
            &&& expr_wf(*arg, nv, nt)
        },
        IExpr::Pair { left, right } => expr_wf(*left, nv, nt) && expr_wf(*right, nv, nt),
        IExpr::Let { count, val, body } => {
            &&& expr_wf(*val, nv, nt)
            &&& expr_wf(*body, (nv + count) as nat, nt)
        },
        IExpr::LetExists { type_count, val, body } => {
            &&& expr_wf(*val, nv, nt)
            &&& expr_wf(*body, nv + 1, (nt + type_count) as nat)
        },
        IExpr::MakeExists { params, type_body, body } => {
            &&& forall|i: int| 0 <= i < params@.len() ==> #[trigger] type_wf(params@[i], nt)
            &&& type_wf(type_body, nt + params@.len())
            &&& expr_wf(*body, nv, nt)
        },
    }
}

/// Every variable of `t` has an index below the context size it records.
pub open spec fn type_indices_in_range(t: IType) -> bool
    decreases t,
{
    match t {
        IType::Unit { .. } => true,
        IType::Var { free_types, index } => index < free_types,
        IType::Quantified { body, .. } => type_indices_in_range(*body),
        IType::Func { arg, ret, .. } => type_indices_in_range(*arg) && type_indices_in_range(*ret),
        IType::Pair { left, right } => type_indices_in_range(*left) && type_indices_in_range(*right),
        IType::App { constructor, param } => {
            type_indices_in_range(*constructor) && type_indices_in_range(*param)
        },
    }
}

/// Every value and type variable of `e` has an index below the context size it records.
pub open spec fn expr_indices_in_range(e: IExpr) -> bool
    decreases e,
{
    match e {
        IExpr::Unit { .. } => true,
        IExpr::Var { free_vars, index, .. } => index < free_vars,
        IExpr::Func { arg_type, body, .. } => {
            type_indices_in_range(arg_type) && expr_indices_in_range(*body)
        },
        IExpr::App { callee, type_params, arg } => {
            &&& expr_indices_in_range(*callee)
            &&& forall|i: int| 0 <= i < type_params@.len() ==> #[trigger] type_indices_in_range(type_params@[i])
            &&& expr_indices_in_range(*arg)
        },
        IExpr::Pair { left, right } => expr_indices_in_range(*left) && expr_indices_in_range(*right),
        IExpr::Let { val, body, .. } => expr_indices_in_range(*val) && expr_indices_in_range(*body),
        IExpr::LetExists { val, body, .. } => expr_indices_in_range(*val) && expr_indices_in_range(*body),
        IExpr::MakeExists { params, type_body, body } => {
            &&& forall|i: int| 0 <= i < params@.len() ==> #[trigger] type_indices_in_range(params@[i])
            &&& type_indices_in_range(type_body)
            &&& expr_indices_in_range(*body)
        },
    }
}

/// A well-formed type has every index in range.
pub proof fn lemma_type_indices_in_range(t: IType, nt: nat)
    requires
        type_wf(t, nt),
    ensures
        type_indices_in_range(t),
    decreases t,
{
    match t {
        IType::Unit { .. } => {},
        IType::Var { .. } => {},
        IType::Quantified { body, .. } => lemma_type_indices_in_range(*body, (nt + 1) as nat),
        IType::Func { params, arg, ret } => {
            lemma_type_indices_in_range(*arg, (nt + params@.len()) as nat);
            lemma_type_indices_in_range(*ret, (nt + params@.len()) as nat);
        },
        IType::Pair { left, right } => {
            lemma_type_indices_in_range(*left, nt);
            lemma_type_indices_in_range(*right, nt);
        },
        IType::App { constructor, param } => {
            lemma_type_indices_in_range(*constructor, nt);
            lemma_type_indices_in_range(*param, nt);
        },
    }
}

/// Index correctness: in a well-formed expression every variable reference,
/// of values and of types, has `0 <= index < context size`.
pub proof fn lemma_expr_indices_in_range(e: IExpr, nv: nat, nt: nat)
    requires
        expr_wf(e, nv, nt),
    ensures
        expr_indices_in_range(e),
    decreases e,
{
    match e {
        IExpr::Unit { .. } => {},
        IExpr::Var { .. } => {},
        IExpr::Func { type_params, arg_type, body } => {
            lemma_type_indices_in_range(arg_type, (nt + type_params@.len()) as nat);
            lemma_expr_indices_in_range(*body, (nv + 1) as nat, (nt + type_params@.len()) as nat);
        },
        IExpr::App { callee, type_params, arg } => {
            lemma_expr_indices_in_range(*callee, nv, nt);
            lemma_expr_indices_in_range(*arg, nv, nt);
            assert forall|i: int| 0 <= i < type_params@.len() implies #[trigger] type_indices_in_range(
                type_params@[i],
            ) by {
                lemma_type_indices_in_range(type_params@[i], nt);
            }
        },
        IExpr::Pair { left, right } => {
            lemma_expr_indices_in_range(*left, nv, nt);
            lemma_expr_indices_in_range(*right, nv, nt);
        },
        IExpr::Let { count, val, body } => {
            lemma_expr_indices_in_range(*val, nv, nt);
            lemma_expr_indices_in_range(*body, (nv + count) as nat, nt);
        },
        IExpr::LetExists { type_count, val, body } => {
            lemma_expr_indices_in_range(*val, nv, nt);
            lemma_expr_indices_in_range(*body, (nv + 1) as nat, (nt + type_count) as nat);
        },
        IExpr::MakeExists { params, type_body, body } => {
            assert forall|i: int| 0 <= i < params@.len() implies #[trigger] type_indices_in_range(
                params@[i],
            ) by {
                lemma_type_indices_in_range(params@[i], nt);
            }
            lemma_type_indices_in_range(type_body, (nt + params@.len()) as nat);
            lemma_expr_indices_in_range(*body, nv, nt);
        },
    }
}

/// The number of type names free in `t`, read off the nodes it records.
pub open spec fn type_free_types(t: IType) -> nat
    decreases t,
{
    match t {
        IType::Unit { free_types } => free_types as nat,
        IType::Var { free_types, .. } => free_types as nat,
        IType::Quantified { body, .. } => {
            let b = type_free_types(*body);
            if b >= 1 { (b - 1) as nat } else { 0 }
        },
        IType::Func { params, arg, .. } => {
            let b = type_free_types(*arg);
            if b >= params@.len() { (b - params@.len()) as nat } else { 0 }
        },
        IType::Pair { left, .. } => type_free_types(*left),
        IType::App { constructor, .. } => type_free_types(*constructor),
    }
}

/// The number of value names free in `e`.
pub open spec fn expr_free_vars(e: IExpr) -> nat
    decreases e,
{
    match e {
        IExpr::Unit { free_vars, .. } => free_vars as nat,
        IExpr::Var { free_vars, .. } => free_vars as nat,
        IExpr::Func { body, .. } => {
            let b = expr_free_vars(*body);
            if b >= 1 { (b - 1) as nat } else { 0 }
        },
        IExpr::App { callee, .. } => expr_free_vars(*callee),
        IExpr::Pair { left, .. } => expr_free_vars(*left),
        IExpr::Let { val, .. } => expr_free_vars(*val),
        IExpr::LetExists { val, .. } => expr_free_vars(*val),
        IExpr::MakeExists { body, .. } => expr_free_vars(*body),
    }
}

/// The number of type names free in `e`.
pub open spec fn expr_free_types(e: IExpr) -> nat
    decreases e,
{
    match e {
        IExpr::Unit { free_types, .. } => free_types as nat,
        IExpr::Var { free_types, .. } => free_types as nat,
        IExpr::Func { type_params, arg_type, .. } => {
            let b = type_free_types(arg_type);
            if b >= type_params@.len() { (b - type_params@.len()) as nat } else { 0 }
        },
        IExpr::App { callee, .. } => expr_free_types(*callee),
        IExpr::Pair { left, .. } => expr_free_types(*left),
        IExpr::Let { val, .. } => expr_free_types(*val),
        IExpr::LetExists { val, .. } => expr_free_types(*val),
        IExpr::MakeExists { body, .. } => expr_free_types(*body),
    }
}

/// A type well formed under `nt` type names has exactly `nt` free type names.
pub proof fn lemma_type_free_types(t: IType, nt: nat)
    requires
        type_wf(t, nt),
    ensures
        type_free_types(t) == nt,
    decreases t,
{
    match t {
        IType::Quantified { body, .. } => lemma_type_free_types(*body, (nt + 1) as nat),
        IType::Func { params, arg, .. } => lemma_type_free_types(*arg, (nt + params@.len()) as nat),
        IType::Pair { left, .. } => lemma_type_free_types(*left, nt),
        IType::App { constructor, .. } => lemma_type_free_types(*constructor, nt),
        _ => {},
    }
}

/// An expression well formed under `nv` value and `nt` type names has exactly
/// those numbers of free names.
pub proof fn lemma_expr_free_names(e: IExpr, nv: nat, nt: nat)
    requires
        expr_wf(e, nv, nt),
    ensures
        expr_free_vars(e) == nv,
        expr_free_types(e) == nt,
    decreases e,
{
    match e {
        IExpr::Func { type_params, arg_type, body } => {
            lemma_type_free_types(arg_type, (nt + type_params@.len()) as nat);
            lemma_expr_free_names(*body, (nv + 1) as nat, (nt + type_params@.len()) as nat);
        },
        IExpr::App { callee, .. } => lemma_expr_free_names(*callee, nv, nt),
        IExpr::Pair { left, .. } => lemma_expr_free_names(*left, nv, nt),
        IExpr::Let { val, .. } => lemma_expr_free_names(*val, nv, nt),
        IExpr::LetExists { val, .. } => lemma_expr_free_names(*val, nv, nt),
        IExpr::MakeExists { body, .. } => lemma_expr_free_names(*body, nv, nt),
        _ => {},
    }
}

impl IType {
    /// The number of type names free in this type.
    pub fn free_types(&self) -> (r: usize)
        ensures
            r == type_free_types(*self),
        decreases self,
    {
        match self {
            IType::Unit { free_types } => *free_types,
            IType::Var { free_types, .. } => *free_types,
            IType::Quantified { body, .. } => {
                let b = body.free_types();
                if b >= 1 { b - 1 } else { 0 }
            },
            IType::Func { params, arg, .. } => {
                let b = arg.free_types();
                if b >= params.len() { b - params.len() } else { 0 }
            },
            IType::Pair { left, .. } => left.free_types(),
            IType::App { constructor, .. } => constructor.free_types(),
        }
    }
}

impl IExpr {
    /// The number of value names free in this expression.
    pub fn free_vars(&self) -> (r: usize)
        ensures
            r == expr_free_vars(*self),
        decreases self,
    {
        match self {
            IExpr::Unit { free_vars, .. } => *free_vars,
            IExpr::Var { free_vars, .. } => *free_vars,
            IExpr::Func { body, .. } => {
                let b = body.free_vars();
                if b >= 1 { b - 1 } else { 0 }
            },
            IExpr::App { callee, .. } => callee.free_vars(),
            IExpr::Pair { left, .. } => left.free_vars(),
            IExpr::Let { val, .. } => val.free_vars(),
            IExpr::LetExists { val, .. } => val.free_vars(),
            IExpr::MakeExists { body, .. } => body.free_vars(),
        }
    }

    /// The number of type names free in this expression.
    pub fn free_types(&self) -> (r: usize)
        ensures
            r == expr_free_types(*self),
        decreases self,
    {
        match self {
            IExpr::Unit { free_types, .. } => *free_types,
            IExpr::Var { free_types, .. } => *free_types,
            IExpr::Func { type_params, arg_type, .. } => {
                let b = arg_type.free_types();
                if b >= type_params.len() { b - type_params.len() } else { 0 }
            },
            IExpr::App { callee, .. } => callee.free_types(),
            IExpr::Pair { left, .. } => left.free_types(),
            IExpr::Let { val, .. } => val.free_types(),
            IExpr::LetExists { val, .. } => val.free_types(),
            IExpr::MakeExists { body, .. } => body.free_types(),
        }
    }
}

} // verus!
