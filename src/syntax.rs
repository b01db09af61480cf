//! The surface syntax tree produced by the parser.

use vstd::prelude::*;

verus! {

/// An identifier: a textual name plus a collision tag (`0` when none is written).
#[derive(Debug, Hash)]
pub struct Ident {
    pub name: String,
    pub collision_id: u64,
}

impl View for Ident {
    type V = (Seq<char>, u64);

    open spec fn view(&self) -> (Seq<char>, u64) {
        (self.name@, self.collision_id)
    }
}

impl PartialEq for Ident {
    fn eq(&self, o: &Ident) -> (r: bool) {
        self.collision_id == o.collision_id && self.name == o.name
    }
}

impl vstd::std_specs::cmp::PartialEqSpecImpl for Ident {
    open spec fn obeys_eq_spec() -> bool {
        true
    }

    open spec fn eq_spec(&self, o: &Ident) -> bool {
        self@ == o@
    }
}

impl Eq for Ident {
}

/// The kind of a type.
#[derive(Debug, PartialEq, Eq)]
pub enum Kind {
    Type,
    Place,
    Version,
    Constructor { params: Vec<Kind>, result: Box<Kind> },
}

#[derive(Clone, Copy, Debug, PartialEq, Eq, Structural)]
pub enum Quantifier {
    Exists,
    ForAll,
}

/// Whether a variable reference copies or consumes its binding.
#[derive(Clone, Copy, Debug, PartialEq, Eq, Structural)]
pub enum VarUsage {
    Copy,
    Move,
}

#[derive(Debug, PartialEq, Eq)]
pub struct TypeParam {
    pub ident: Ident,
    pub kind: Kind,
}

#[derive(Debug, PartialEq, Eq)]
pub enum Type {
    Unit,
    Var { ident: Ident },
    Quantified { quantifier: Quantifier, param: TypeParam, body: Box<Type> },
    Func { params: Vec<TypeParam>, arg: Box<Type>, ret: Box<Type> },
    Pair { left: Box<Type>, right: Box<Type> },
    App { constructor: Box<Type>, param: Box<Type> },
}

#[derive(Debug, PartialEq, Eq)]
pub enum Expr {
    Unit,
    Var { usage: VarUsage, ident: Ident },
    Func { type_params: Vec<TypeParam>, arg_name: Ident, arg_type: Type, body: Box<Expr> },
    App { callee: Box<Expr>, type_params: Vec<Type>, arg: Box<Expr> },
    Pair { left: Box<Expr>, right: Box<Expr> },
    Let { names: Vec<Ident>, val: Box<Expr>, body: Box<Expr> },
    LetExists { type_names: Vec<Ident>, val_name: Ident, val: Box<Expr>, body: Box<Expr> },
    MakeExists { params: Vec<(Ident, Type)>, type_body: Type, body: Box<Expr> },
}

/// Every `let`, `let_exists` and `make_exists` of `e` binds at least one name.
pub open spec fn binders_nonempty(e: Expr) -> bool
    decreases e,
{
    match e {
        Expr::Unit => true,
        Expr::Var { .. } => true,
        Expr::Func { body, .. } => binders_nonempty(*body),
        Expr::App { callee, arg, .. } => binders_nonempty(*callee) && binders_nonempty(*arg),
        Expr::Pair { left, right } => binders_nonempty(*left) && binders_nonempty(*right),
        Expr::Let { names, val, body } => {
            names@.len() >= 1 && binders_nonempty(*val) && binders_nonempty(*body)
        },
        Expr::LetExists { type_names, val, body, .. } => {
            type_names@.len() >= 1 && binders_nonempty(*val) && binders_nonempty(*body)
        },
        Expr::MakeExists { params, body, .. } => params@.len() >= 1 && binders_nonempty(*body),
    }
}

/// The mathematical value of a kind.
pub enum KindV {
    Type,
    Place,
    Version,
    Constructor(Seq<KindV>, Box<KindV>),
}

pub open spec fn kind_view(k: Kind) -> KindV
    decreases k, 0nat,
{
    match k {
        Kind::Type => KindV::Type,
        Kind::Place => KindV::Place,
        Kind::Version => KindV::Version,
        Kind::Constructor { params, result } => KindV::Constructor(
            kinds_view(params@),
            Box::new(kind_view(*result)),
        ),
    }
}

pub open spec fn kinds_view(ks: Seq<Kind>) -> Seq<KindV>
    decreases ks, ks.len(),
{
    if ks.len() == 0 {
        Seq::empty()
    } else {
        kinds_view(ks.drop_last()).push(kind_view(ks.last()))
    }
}

/// The mathematical value of a type parameter: its identifier and kind.
pub open spec fn param_view(p: TypeParam) -> ((Seq<char>, u64), KindV) {
    (p.ident@, kind_view(p.kind))
}

pub open spec fn params_view(ps: Seq<TypeParam>) -> Seq<((Seq<char>, u64), KindV)> {
    ps.map_values(|p: TypeParam| param_view(p))
}

/// The mathematical value of a surface type.
pub enum TypeV {
    Unit,
    Var((Seq<char>, u64)),
    Quantified(Quantifier, ((Seq<char>, u64), KindV), Box<TypeV>),
    Func(Seq<((Seq<char>, u64), KindV)>, Box<TypeV>, Box<TypeV>),
    Pair(Box<TypeV>, Box<TypeV>),
    App(Box<TypeV>, Box<TypeV>),
}

pub open spec fn type_view(t: Type) -> TypeV
    decreases t,
{
    match t {
        Type::Unit => TypeV::Unit,
        Type::Var { ident } => TypeV::Var(ident@),
        Type::Quantified { quantifier, param, body } => TypeV::Quantified(
            quantifier,
            param_view(param),
            Box::new(type_view(*body)),
        ),
        Type::Func { params, arg, ret } => TypeV::Func(
            params_view(params@),
            Box::new(type_view(*arg)),
            Box::new(type_view(*ret)),
        ),
        Type::Pair { left, right } => TypeV::Pair(Box::new(type_view(*left)), Box::new(type_view(*right))),
        Type::App { constructor, param } => TypeV::App(
            Box::new(type_view(*constructor)),
            Box::new(type_view(*param)),
        ),
    }
}

pub open spec fn idents_view(ids: Seq<Ident>) -> Seq<(Seq<char>, u64)> {
    ids.map_values(|i: Ident| i@)
}

pub open spec fn types_view(ts: Seq<Type>) -> Seq<TypeV> {
    ts.map_values(|t: Type| type_view(t))
}

pub open spec fn witnesses_view(ws: Seq<(Ident, Type)>) -> Seq<((Seq<char>, u64), TypeV)> {
    ws.map_values(|w: (Ident, Type)| (w.0@, type_view(w.1)))
}

/// The mathematical value of a surface expression.
pub enum ExprV {
    Unit,
    Var(VarUsage, (Seq<char>, u64)),
    Func(Seq<((Seq<char>, u64), KindV)>, (Seq<char>, u64), TypeV, Box<ExprV>),
    App(Box<ExprV>, Seq<TypeV>, Box<ExprV>),
    Pair(Box<ExprV>, Box<ExprV>),
    Let(Seq<(Seq<char>, u64)>, Box<ExprV>, Box<ExprV>),
    LetExists(Seq<(Seq<char>, u64)>, (Seq<char>, u64), Box<ExprV>, Box<ExprV>),
    MakeExists(Seq<((Seq<char>, u64), TypeV)>, TypeV, Box<ExprV>),
}

pub open spec fn expr_view(e: Expr) -> ExprV
    decreases e,
{
    match e {
        Expr::Unit => ExprV::Unit,
        Expr::Var { usage, ident } => ExprV::Var(usage, ident@),
        Expr::Func { type_params, arg_name, arg_type, body } => ExprV::Func(
            params_view(type_params@),
            arg_name@,
            type_view(arg_type),
            Box::new(expr_view(*body)),
        ),
        Expr::App { callee, type_params, arg } => ExprV::App(
            Box::new(expr_view(*callee)),
            types_view(type_params@),
            Box::new(expr_view(*arg)),
        ),
        Expr::Pair { left, right } => ExprV::Pair(Box::new(expr_view(*left)), Box::new(expr_view(*right))),
        Expr::Let { names, val, body } => ExprV::Let(
            idents_view(names@),
            Box::new(expr_view(*val)),
            Box::new(expr_view(*body)),
        ),
        Expr::LetExists { type_names, val_name, val, body } => ExprV::LetExists(
            idents_view(type_names@),
            val_name@,
            Box::new(expr_view(*val)),
            Box::new(expr_view(*body)),
        ),
        Expr::MakeExists { params, type_body, body } => ExprV::MakeExists(
            witnesses_view(params@),
            type_view(type_body),
            Box::new(expr_view(*body)),
        ),
    }
}

} // verus!
