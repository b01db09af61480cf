//! Name resolution: converts a surface tree into the internal tree, replacing
//! every identifier by its position in one of two name environments.

use vstd::prelude::*;
use crate::internal::{IExpr, IType, type_wf, expr_wf, expr_free_vars, expr_free_types, lemma_expr_free_names};
use crate::names::{Names, distinct};
use crate::syntax::{Expr, Ident, Kind, Type, TypeParam, idents_view};

verus! {

/// Which of the two environments a binding was added to.
#[derive(Clone, Copy, Debug, PartialEq, Eq, Structural)]
pub enum Namespace {
    Value,
    Type,
}

#[derive(Debug)]
pub enum ConvertError {
    UnboundValue { name: Ident },
    UnboundType { name: Ident },
    DuplicateBinding { name: Ident, namespace: Namespace },
}

/// The two environments that conversion runs under.
#[derive(Debug)]
pub struct Context {
    pub var_names: Names,
    pub type_names: Names,
}

impl Context {
    pub open spec fn wf(&self) -> bool {
        self.var_names.wf() && self.type_names.wf()
    }
}

/// The mathematical value of a conversion error.
pub enum ConvertErrorV {
    UnboundValue((Seq<char>, u64)),
    UnboundType((Seq<char>, u64)),
    DuplicateBinding((Seq<char>, u64), Namespace),
}

impl View for ConvertError {
    type V = ConvertErrorV;

    open spec fn view(&self) -> ConvertErrorV {
        match self {
            ConvertError::UnboundValue { name } => ConvertErrorV::UnboundValue(name@),
            ConvertError::UnboundType { name } => ConvertErrorV::UnboundType(name@),
            ConvertError::DuplicateBinding { name, namespace } => ConvertErrorV::DuplicateBinding(
                name@,
                *namespace,
            ),
        }
    }
}

/// The first of `ids` that is already bound when its turn comes to be
/// added after `names` and the ids before it.
pub open spec fn first_dup(names: Seq<(Seq<char>, u64)>, ids: Seq<(Seq<char>, u64)>) -> Option<
    (Seq<char>, u64),
>
    decreases ids.len(),
{
    if ids.len() == 0 {
        None
    } else if names.contains(ids[0]) {
        Some(ids[0])
    } else {
        first_dup(names.push(ids[0]), ids.drop_first())
    }
}

pub open spec fn dup_error(
    names: Seq<(Seq<char>, u64)>,
    ids: Seq<(Seq<char>, u64)>,
    namespace: Namespace,
) -> Option<ConvertErrorV> {
    match first_dup(names, ids) {
        Some(d) => Some(ConvertErrorV::DuplicateBinding(d, namespace)),
        None => None,
    }
}

pub open spec fn or_else(a: Option<ConvertErrorV>, b: Option<ConvertErrorV>) -> Option<ConvertErrorV> {
    if a is Some {
        a
    } else {
        b
    }
}

/// The error that converting `t` under `names` meets first, if any.
pub open spec fn type_error(t: Type, names: Seq<(Seq<char>, u64)>) -> Option<ConvertErrorV>
    decreases t,
{
    match t {
        Type::Unit => None,
        Type::Var { ident } => if names.contains(ident@) {
            None
        } else {
            Some(ConvertErrorV::UnboundType(ident@))
        },
        Type::Quantified { param, body, .. } => if names.contains(param.ident@) {
            Some(ConvertErrorV::DuplicateBinding(param.ident@, Namespace::Type))
        } else {
            type_error(*body, names.push(param.ident@))
        },
        Type::Func { params, arg, ret } => {
            let inner = names + param_idents(params@);
            or_else(
                dup_error(names, param_idents(params@), Namespace::Type),
                or_else(type_error(*arg, inner), type_error(*ret, inner)),
            )
        },
        Type::Pair { left, right } => or_else(type_error(*left, names), type_error(*right, names)),
        Type::App { constructor, param } => or_else(
            type_error(*constructor, names),
            type_error(*param, names),
        ),
    }
}

/// The error that converting the types `ts` in order meets first, if any.
pub open spec fn types_error(ts: Seq<Type>, names: Seq<(Seq<char>, u64)>) -> Option<ConvertErrorV>
    decreases ts.len(),
{
    if ts.len() == 0 {
        None
    } else {
        or_else(type_error(ts[0], names), types_error(ts.drop_first(), names))
    }
}

/// The identifiers that a list of type parameters binds, in order.
pub open spec fn param_idents(ps: Seq<TypeParam>) -> Seq<(Seq<char>, u64)> {
    ps.map_values(|p: TypeParam| p.ident@)
}

/// The kinds of a list of type parameters, in order.
pub open spec fn param_kinds(ps: Seq<TypeParam>) -> Seq<Kind> {
    ps.map_values(|p: TypeParam| p.kind)
}

/// Every type name of `t` is bound, and no binder of `t` repeats a name in scope.
pub open spec fn type_resolves(t: Type, names: Seq<(Seq<char>, u64)>) -> bool
    decreases t,
{
    match t {
        Type::Unit => true,
        Type::Var { ident } => names.contains(ident@),
        Type::Quantified { param, body, .. } => {
            &&& !names.contains(param.ident@)
            &&& type_resolves(*body, names.push(param.ident@))
        },
        Type::Func { params, arg, ret } => {
            let inner = names + param_idents(params@);
            &&& distinct(inner)
            &&& type_resolves(*arg, inner)
            &&& type_resolves(*ret, inner)
        },
        Type::Pair { left, right } => type_resolves(*left, names) && type_resolves(*right, names),
        Type::App { constructor, param } => {
            type_resolves(*constructor, names) && type_resolves(*param, names)
        },
    }
}

/// `r` is `t` with every name replaced by its position in `names`, and
/// every node tagged with the size of the context it stands in.
pub open spec fn converts_type(t: Type, names: Seq<(Seq<char>, u64)>, r: IType) -> bool
    decreases t,
{
    match t {
        Type::Unit => r == IType::Unit { free_types: names.len() as usize },
        Type::Var { ident } => match r {
            IType::Var { free_types, index } => {
                free_types == names.len() && index < names.len() && names[index as int] == ident@
            },
            _ => false,
        },
        Type::Quantified { quantifier, param, body } => match r {
            IType::Quantified { quantifier: q, kind, body: b } => {
                &&& q == quantifier
                &&& kind == param.kind
                &&& converts_type(*body, names.push(param.ident@), *b)
            },
            _ => false,
        },
        Type::Func { params, arg, ret } => match r {
            IType::Func { params: ks, arg: a, ret: rt } => {
                &&& ks@ == param_kinds(params@)
                &&& converts_type(*arg, names + param_idents(params@), *a)
                &&& converts_type(*ret, names + param_idents(params@), *rt)
            },
            _ => false,
        },
        Type::Pair { left, right } => match r {
            IType::Pair { left: l, right: rt } => {
                converts_type(*left, names, *l) && converts_type(*right, names, *rt)
            },
            _ => false,
        },
        Type::App { constructor, param } => match r {
            IType::App { constructor: c, param: p } => {
                converts_type(*constructor, names, *c) && converts_type(*param, names, *p)
            },
            _ => false,
        },
    }
}

/// Binds the identifiers of `params` in order and collects their kinds.
/// On a repeated name nothing stays bound.
fn push_params(names: &mut Names, params: Vec<TypeParam>) -> (r: Result<Vec<Kind>, ConvertError>)
    requires
        old(names).wf(),
    ensures
        final(names).wf(),
        r is Ok ==> distinct(old(names)@ + param_idents(params@)),
        r is Ok ==> final(names)@ == old(names)@ + param_idents(params@),
        r matches Ok(ks) ==> ks@ == param_kinds(params@),
        r is Err ==> !distinct(old(names)@ + param_idents(params@)),
        r is Err ==> final(names)@ == old(names)@,
        r matches Err(e) ==> e is DuplicateBinding,
        match r {
            Ok(_) => dup_error(old(names)@, param_idents(params@), Namespace::Type) is None,
            Err(e) => dup_error(old(names)@, param_idents(params@), Namespace::Type) == Some(e@),
        },
{
    let ghost orig = params@;
    let ghost base = names@;
    let start = names.len();
    let mut rest = params;
    let n = rest.len();
    let mut kinds: Vec<Kind> = Vec::new();
    let mut k: usize = 0;
    while rest.len() > 0
        invariant
            names.wf(),
            base == old(names)@,
            start == base.len(),
            k <= orig.len(),
            orig.len() == n,
            orig == params@,
            rest@ == orig.subrange(k as int, orig.len() as int),
            names@ == base + param_idents(orig.subrange(0, k as int)),
            kinds@ == param_kinds(orig.subrange(0, k as int)),
            first_dup(base, param_idents(orig)) == first_dup(names@, param_idents(rest@)),
        decreases rest@.len(),
    {
        let ghost rest_before = rest@;
        let p = rest.remove(0);
        let TypeParam { ident, kind } = p;
        let ghost id = ident@;
        proof {
            assert(orig[k as int] == p);
            assert(param_idents(rest_before)[0] == id);
            assert(param_idents(rest_before).drop_first() =~= param_idents(rest@));
        }
        match names.add_name(ident) {
            Ok(()) => {},
            Err(d) => {
                proof {
                    let all = base + param_idents(orig);
                    let j = choose|j: int| 0 <= j < names@.len() && names@[j] == id;
                    assert(all[j] == names@[j]);
                    assert(all[start + k] == id);
                    assert(!distinct(all));
                }
                names.truncate(start);
                proof {
                    assert(names@ =~= base);
                    assert(names@ == old(names)@);
                    assert(!distinct(old(names)@ + param_idents(orig)));
                }
                return Err(ConvertError::DuplicateBinding { name: d.ident, namespace: Namespace::Type });
            },
        }
        kinds.push(kind);
        k = k + 1;
        proof {
            assert(orig.subrange(0, k as int) =~= orig.subrange(0, k - 1).push(p));
            assert(param_idents(orig.subrange(0, k as int)) =~= param_idents(orig.subrange(0, k - 1)).push(id));
            assert(param_kinds(orig.subrange(0, k as int)) =~= param_kinds(orig.subrange(0, k - 1)).push(p.kind));
            assert(names@ =~= base + param_idents(orig.subrange(0, k as int)));
            assert(rest@ =~= orig.subrange(k as int, orig.len() as int));
        }
    }
    proof {
        assert(orig.subrange(0, k as int) =~= orig);
    }
    Ok(kinds)
}

/// Converts a surface type under the type environment of `ctx`, which is
/// left as it was found.
pub fn convert_type(ctx: &mut Context, t: Type) -> (r: Result<IType, ConvertError>)
    requires
        old(ctx).wf(),
    ensures
        final(ctx).wf(),
        final(ctx).var_names@ == old(ctx).var_names@,
        final(ctx).type_names@ == old(ctx).type_names@,
        r is Ok <==> type_resolves(t, old(ctx).type_names@),
        match r {
            Ok(it) => {
                &&& converts_type(t, old(ctx).type_names@, it)
                &&& type_wf(it, old(ctx).type_names@.len())
            },
            Err(e) => e is UnboundType || e is DuplicateBinding,
        },
        match r {
            Ok(_) => type_error(t, old(ctx).type_names@) is None,
            Err(e) => type_error(t, old(ctx).type_names@) == Some(e@),
        },
    decreases t,
{
    let ghost tn = ctx.type_names@;
    match t {
        Type::Unit => Ok(IType::Unit { free_types: ctx.type_names.len() }),
        Type::Var { ident } => match ctx.type_names.lookup(&ident) {
            Some(index) => Ok(IType::Var { free_types: ctx.type_names.len(), index }),
            None => Err(ConvertError::UnboundType { name: ident }),
        },
        Type::Quantified { quantifier, param, body } => {
            let TypeParam { ident, kind } = param;
            let ghost id = ident@;
            let start = ctx.type_names.len();
            match ctx.type_names.add_name(ident) {
                Ok(()) => {},
                Err(d) => {
                    return Err(ConvertError::DuplicateBinding { name: d.ident, namespace: Namespace::Type });
                },
            }
            let b = convert_type(ctx, *body);
            ctx.type_names.truncate(start);
            proof {
                assert(ctx.type_names@ =~= tn);
            }
            match b {
                Ok(b) => Ok(IType::Quantified { quantifier, kind, body: Box::new(b) }),
                Err(e) => Err(e),
            }
        },
        Type::Func { params, arg, ret } => {
            let ghost ps = params@;
            let start = ctx.type_names.len();
            let kinds = match push_params(&mut ctx.type_names, params) {
                Ok(ks) => ks,
                Err(e) => return Err(e),
            };
            let a = match convert_type(ctx, *arg) {
                Ok(a) => a,
                Err(e) => {
                    ctx.type_names.truncate(start);
                    proof {
                        assert(ctx.type_names@ =~= tn);
                    }
                    return Err(e);
                },
            };
            let rt = convert_type(ctx, *ret);
            ctx.type_names.truncate(start);
            proof {
                assert(ctx.type_names@ =~= tn);
                assert((tn + param_idents(ps)).len() == tn.len() + kinds@.len());
            }
            match rt {
                Ok(rt) => Ok(IType::Func { params: kinds, arg: Box::new(a), ret: Box::new(rt) }),
                Err(e) => Err(e),
            }
        },
        Type::Pair { left, right } => {
            let l = match convert_type(ctx, *left) {
                Ok(l) => l,
                Err(e) => return Err(e),
            };
            match convert_type(ctx, *right) {
                Ok(rt) => Ok(IType::Pair { left: Box::new(l), right: Box::new(rt) }),
                Err(e) => Err(e),
            }
        },
        Type::App { constructor, param } => {
            let c = match convert_type(ctx, *constructor) {
                Ok(c) => c,
                Err(e) => return Err(e),
            };
            match convert_type(ctx, *param) {
                Ok(p) => Ok(IType::App { constructor: Box::new(c), param: Box::new(p) }),
                Err(e) => Err(e),
            }
        },
    }
}

/// The identifiers that the parameters of a `make_exists` bind, in order.
pub open spec fn witness_idents(ps: Seq<(Ident, Type)>) -> Seq<(Seq<char>, u64)> {
    ps.map_values(|p: (Ident, Type)| p.0@)
}

/// Every name of `e` is bound (values in `vn`, types in `tn`), and no binder
/// of `e` repeats a name already in scope in its namespace.
pub open spec fn expr_resolves(e: Expr, vn: Seq<(Seq<char>, u64)>, tn: Seq<(Seq<char>, u64)>) -> bool
    decreases e,
{
    match e {
        Expr::Unit => true,
        Expr::Var { ident, .. } => vn.contains(ident@),
        Expr::Func { type_params, arg_name, arg_type, body } => {
            let tn2 = tn + param_idents(type_params@);
            &&& distinct(tn2)
            &&& type_resolves(arg_type, tn2)
            &&& !vn.contains(arg_name@)
            &&& expr_resolves(*body, vn.push(arg_name@), tn2)
        },
        Expr::App { callee, type_params, arg } => {
            &&& expr_resolves(*callee, vn, tn)
            &&& forall|i: int| 0 <= i < type_params@.len() ==> #[trigger] type_resolves(type_params@[i], tn)
            &&& expr_resolves(*arg, vn, tn)
        },
        Expr::Pair { left, right } => expr_resolves(*left, vn, tn) && expr_resolves(*right, vn, tn),
        Expr::Let { names, val, body } => {
            &&& expr_resolves(*val, vn, tn)
            &&& distinct(vn + idents_view(names@))
            &&& expr_resolves(*body, vn + idents_view(names@), tn)
        },
        Expr::LetExists { type_names, val_name, val, body } => {
            let tn2 = tn + idents_view(type_names@);
            &&& expr_resolves(*val, vn, tn)
            &&& distinct(tn2)
            &&& !vn.contains(val_name@)
            &&& expr_resolves(*body, vn.push(val_name@), tn2)
        },
        Expr::MakeExists { params, type_body, body } => {
            let tn2 = tn + witness_idents(params@);
            &&& forall|i: int| 0 <= i < params@.len() ==> #[trigger] type_resolves(params@[i].1, tn)
            &&& distinct(tn2)
            &&& type_resolves(type_body, tn2)
            &&& expr_resolves(*body, vn, tn)
        },
    }
}

/// The witness types of the parameters of a `make_exists`, in order.
pub open spec fn witness_types(ps: Seq<(Ident, Type)>) -> Seq<Type> {
    ps.map_values(|p: (Ident, Type)| p.1)
}

/// The error that converting `e` under `vn` and `tn` meets first, if any,
/// in the order in which conversion visits the tree.
pub open spec fn expr_error(e: Expr, vn: Seq<(Seq<char>, u64)>, tn: Seq<(Seq<char>, u64)>) -> Option<
    ConvertErrorV,
>
    decreases e,
{
    match e {
        Expr::Unit => None,
        Expr::Var { ident, .. } => if vn.contains(ident@) {
            None
        } else {
            Some(ConvertErrorV::UnboundValue(ident@))
        },
        Expr::Func { type_params, arg_name, arg_type, body } => {
            let tn2 = tn + param_idents(type_params@);
            or_else(
                dup_error(tn, param_idents(type_params@), Namespace::Type),
                or_else(
                    type_error(arg_type, tn2),
                    if vn.contains(arg_name@) {
                        Some(ConvertErrorV::DuplicateBinding(arg_name@, Namespace::Value))
                    } else {
                        expr_error(*body, vn.push(arg_name@), tn2)
                    },
                ),
            )
        },
        Expr::App { callee, type_params, arg } => or_else(
            expr_error(*callee, vn, tn),
            or_else(types_error(type_params@, tn), expr_error(*arg, vn, tn)),
        ),
        Expr::Pair { left, right } => or_else(expr_error(*left, vn, tn), expr_error(*right, vn, tn)),
        Expr::Let { names, val, body } => or_else(
            expr_error(*val, vn, tn),
            or_else(
                dup_error(vn, idents_view(names@), Namespace::Value),
                expr_error(*body, vn + idents_view(names@), tn),
            ),
        ),
        Expr::LetExists { type_names, val_name, val, body } => {
            let tn2 = tn + idents_view(type_names@);
            or_else(
                expr_error(*val, vn, tn),
                or_else(
                    dup_error(tn, idents_view(type_names@), Namespace::Type),
                    if vn.contains(val_name@) {
                        Some(ConvertErrorV::DuplicateBinding(val_name@, Namespace::Value))
                    } else {
                        expr_error(*body, vn.push(val_name@), tn2)
                    },
                ),
            )
        },
        Expr::MakeExists { params, type_body, body } => {
            let tn2 = tn + witness_idents(params@);
            or_else(
                types_error(witness_types(params@), tn),
                or_else(
                    dup_error(tn, witness_idents(params@), Namespace::Type),
                    or_else(type_error(type_body, tn2), expr_error(*body, vn, tn)),
                ),
            )
        },
    }
}

/// `r` is `e` with every name replaced by its position in `vn` or `tn`,
/// every binder by the number of names it binds, and every leaf tagged with
/// the sizes of the two contexts it stands in.
pub open spec fn converts_expr(
    e: Expr,
    vn: Seq<(Seq<char>, u64)>,
    tn: Seq<(Seq<char>, u64)>,
    r: IExpr,
) -> bool
    decreases e,
{
    match e {
        Expr::Unit => r == IExpr::Unit { free_vars: vn.len() as usize, free_types: tn.len() as usize },
        Expr::Var { usage, ident } => match r {
            IExpr::Var { usage: u, free_vars, free_types, index } => {
                &&& u == usage
                &&& free_vars == vn.len()
                &&& free_types == tn.len()
                &&& index < vn.len()
                &&& vn[index as int] == ident@
            },
            _ => false,
        },
        Expr::Func { type_params, arg_name, arg_type, body } => match r {
            IExpr::Func { type_params: ks, arg_type: at, body: b } => {
                let tn2 = tn + param_idents(type_params@);
                &&& ks@ == param_kinds(type_params@)
                &&& converts_type(arg_type, tn2, at)
                &&& converts_expr(*body, vn.push(arg_name@), tn2, *b)
            },
            _ => false,
        },
        Expr::App { callee, type_params, arg } => match r {
            IExpr::App { callee: c, type_params: ts, arg: a } => {
                &&& converts_expr(*callee, vn, tn, *c)
                &&& ts@.len() == type_params@.len()
                &&& forall|i: int| 0 <= i < ts@.len() ==> #[trigger] converts_type(type_params@[i], tn, ts@[i])
                &&& converts_expr(*arg, vn, tn, *a)
            },
            _ => false,
        },
        Expr::Pair { left, right } => match r {
            IExpr::Pair { left: l, right: rt } => {
                converts_expr(*left, vn, tn, *l) && converts_expr(*right, vn, tn, *rt)
            },
            _ => false,
        },
        Expr::Let { names, val, body } => match r {
            IExpr::Let { count, val: v, body: b } => {
                &&& count == names@.len()
                &&& converts_expr(*val, vn, tn, *v)
                &&& converts_expr(*body, vn + idents_view(names@), tn, *b)
            },
            _ => false,
        },
        Expr::LetExists { type_names, val_name, val, body } => match r {
            IExpr::LetExists { type_count, val: v, body: b } => {
                &&& type_count == type_names@.len()
                &&& converts_expr(*val, vn, tn, *v)
                &&& converts_expr(*body, vn.push(val_name@), tn + idents_view(type_names@), *b)
            },
            _ => false,
        },
        Expr::MakeExists { params, type_body, body } => match r {
            IExpr::MakeExists { params: ws, type_body: tb, body: b } => {
                &&& ws@.len() == params@.len()
                &&& forall|i: int| 0 <= i < ws@.len() ==> #[trigger] converts_type(params@[i].1, tn, ws@[i])
                &&& converts_type(type_body, tn + witness_idents(params@), tb)
                &&& converts_expr(*body, vn, tn, *b)
            },
            _ => false,
        },
    }
}

/// Binds `ids` in order; on a repeated name nothing stays bound.
fn push_idents(names: &mut Names, ids: Vec<Ident>, namespace: Namespace) -> (r: Result<(), ConvertError>)
    requires
        old(names).wf(),
    ensures
        final(names).wf(),
        r is Ok ==> distinct(old(names)@ + idents_view(ids@)),
        r is Ok ==> final(names)@ == old(names)@ + idents_view(ids@),
        r is Err ==> !distinct(old(names)@ + idents_view(ids@)),
        r is Err ==> final(names)@ == old(names)@,
        r matches Err(e) ==> e is DuplicateBinding,
        match r {
            Ok(_) => dup_error(old(names)@, idents_view(ids@), namespace) is None,
            Err(e) => dup_error(old(names)@, idents_view(ids@), namespace) == Some(e@),
        },
{
    let ghost orig = ids@;
    let ghost base = names@;
    let start = names.len();
    let mut rest = ids;
    let n = rest.len();
    let mut k: usize = 0;
    while rest.len() > 0
        invariant
            names.wf(),
            base == old(names)@,
            start == base.len(),
            k <= orig.len(),
            orig.len() == n,
            orig == ids@,
            rest@ == orig.subrange(k as int, orig.len() as int),
            names@ == base + idents_view(orig.subrange(0, k as int)),
            first_dup(base, idents_view(orig)) == first_dup(names@, idents_view(rest@)),
        decreases rest@.len(),
    {
        let ghost rest_before = rest@;
        let id = rest.remove(0);
        let ghost v = id@;
        proof {
            assert(orig[k as int] == id);
            assert(idents_view(rest_before)[0] == v);
            assert(idents_view(rest_before).drop_first() =~= idents_view(rest@));
        }
        match names.add_name(id) {
            Ok(()) => {},
            Err(d) => {
                proof {
                    let all = base + idents_view(orig);
                    let j = choose|j: int| 0 <= j < names@.len() && names@[j] == v;
                    assert(all[j] == names@[j]);
                    assert(all[start + k] == v);
                    assert(!distinct(all));
                }
                names.truncate(start);
                proof {
                    assert(names@ =~= base);
                }
                return Err(ConvertError::DuplicateBinding { name: d.ident, namespace });
            },
        }
        k = k + 1;
        proof {
            assert(orig.subrange(0, k as int) =~= orig.subrange(0, k - 1).push(id));
            assert(idents_view(orig.subrange(0, k as int)) =~= idents_view(orig.subrange(0, k - 1)).push(v));
            assert(names@ =~= base + idents_view(orig.subrange(0, k as int)));
            assert(rest@ =~= orig.subrange(k as int, orig.len() as int));
        }
    }
    proof {
        assert(orig.subrange(0, k as int) =~= orig);
    }
    Ok(())
}

/// Converts each type of `ts` under the unchanged context.
fn convert_types(ctx: &mut Context, ts: Vec<Type>) -> (r: Result<Vec<IType>, ConvertError>)
    requires
        old(ctx).wf(),
    ensures
        final(ctx).wf(),
        final(ctx).var_names@ == old(ctx).var_names@,
        final(ctx).type_names@ == old(ctx).type_names@,
        r is Ok <==> forall|i: int| 0 <= i < ts@.len() ==> #[trigger] type_resolves(ts@[i], old(ctx).type_names@),
        r matches Ok(ws) ==> {
            &&& ws@.len() == ts@.len()
            &&& forall|i: int| 0 <= i < ws@.len() ==> #[trigger] converts_type(ts@[i], old(ctx).type_names@, ws@[i])
            &&& forall|i: int| 0 <= i < ws@.len() ==> #[trigger] type_wf(ws@[i], old(ctx).type_names@.len())
        },
        match r {
            Ok(_) => types_error(ts@, old(ctx).type_names@) is None,
            Err(e) => types_error(ts@, old(ctx).type_names@) == Some(e@),
        },
{
    let ghost orig = ts@;
    let ghost tn = ctx.type_names@;
    let ghost vn = ctx.var_names@;
    let mut rest = ts;
    let n = rest.len();
    let mut out: Vec<IType> = Vec::new();
    let mut k: usize = 0;
    while rest.len() > 0
        invariant
            ctx.wf(),
            ctx.type_names@ == tn,
            ctx.var_names@ == vn,
            tn == old(ctx).type_names@,
            vn == old(ctx).var_names@,
            k <= orig.len(),
            orig.len() == n,
            orig == ts@,
            rest@ == orig.subrange(k as int, orig.len() as int),
            out@.len() == k,
            forall|i: int| 0 <= i < k ==> #[trigger] type_resolves(orig[i], tn),
            forall|i: int| 0 <= i < k ==> #[trigger] converts_type(orig[i], tn, out@[i]),
            forall|i: int| 0 <= i < k ==> #[trigger] type_wf(out@[i], tn.len()),
            types_error(orig, tn) == types_error(rest@, tn),
        decreases rest@.len(),
    {
        let ghost rest_before = rest@;
        let t = rest.remove(0);
        proof {
            assert(orig[k as int] == t);
            assert(rest_before[0] == t);
            assert(rest_before.drop_first() =~= rest@);
        }
        match convert_type(ctx, t) {
            Ok(w) => {
                out.push(w);
            },
            Err(e) => {
                return Err(e);
            },
        }
        k = k + 1;
        proof {
            assert(rest@ =~= orig.subrange(k as int, orig.len() as int));
        }
    }
    Ok(out)
}

/// Splits the parameters of a `make_exists` into the names they bind and
/// their witness types.
fn split_witnesses(params: Vec<(Ident, Type)>) -> (r: (Vec<Ident>, Vec<Type>))
    ensures
        idents_view(r.0@) == witness_idents(params@),
        r.1@.len() == params@.len(),
        forall|i: int| 0 <= i < params@.len() ==> #[trigger] r.1@[i] == params@[i].1,
        r.1@ == witness_types(params@),
{
    let ghost orig = params@;
    let mut rest = params;
    let n = rest.len();
    let mut ids: Vec<Ident> = Vec::new();
    let mut tys: Vec<Type> = Vec::new();
    let mut k: usize = 0;
    while rest.len() > 0
        invariant
            k <= orig.len(),
            orig.len() == n,
            orig == params@,
            rest@ == orig.subrange(k as int, orig.len() as int),
            idents_view(ids@) == witness_idents(orig.subrange(0, k as int)),
            tys@.len() == k,
            forall|i: int| 0 <= i < k ==> #[trigger] tys@[i] == orig[i].1,
        decreases rest@.len(),
    {
        let (id, t) = rest.remove(0);
        proof {
            assert(orig[k as int] == (id, t));
        }
        let ghost old_ids = ids@;
        ids.push(id);
        tys.push(t);
        k = k + 1;
        proof {
            assert(orig.subrange(0, k as int) =~= orig.subrange(0, k - 1).push((id, t)));
            assert(idents_view(ids@) =~= idents_view(old_ids).push(id@));
            assert(idents_view(ids@) =~= witness_idents(orig.subrange(0, k as int)));
            assert(rest@ =~= orig.subrange(k as int, orig.len() as int));
        }
    }
    proof {
        assert(orig.subrange(0, k as int) =~= orig);
        assert(tys@ =~= witness_types(orig));
    }
    (ids, tys)
}

fn convert(ctx: &mut Context, e: Expr) -> (r: Result<IExpr, ConvertError>)
    requires
        old(ctx).wf(),
    ensures
        final(ctx).wf(),
        final(ctx).var_names@ == old(ctx).var_names@,
        final(ctx).type_names@ == old(ctx).type_names@,
        r is Ok <==> expr_resolves(e, old(ctx).var_names@, old(ctx).type_names@),
        match r {
            Ok(_) => expr_error(e, old(ctx).var_names@, old(ctx).type_names@) is None,
            Err(x) => expr_error(e, old(ctx).var_names@, old(ctx).type_names@) == Some(x@),
        },
        r matches Ok(x) ==> {
            &&& converts_expr(e, old(ctx).var_names@, old(ctx).type_names@, x)
            &&& expr_wf(x, old(ctx).var_names@.len(), old(ctx).type_names@.len())
        },
    decreases e,
{
    let ghost vn = ctx.var_names@;
    let ghost tn = ctx.type_names@;
    match e {
        Expr::Unit => Ok(IExpr::Unit { free_vars: ctx.var_names.len(), free_types: ctx.type_names.len() }),
        Expr::Var { usage, ident } => match ctx.var_names.lookup(&ident) {
            Some(index) => Ok(
                IExpr::Var {
                    usage,
                    free_vars: ctx.var_names.len(),
                    free_types: ctx.type_names.len(),
                    index,
                },
            ),
            None => Err(ConvertError::UnboundValue { name: ident }),
        },
        Expr::Func { type_params, arg_name, arg_type, body } => {
            let ghost tps = type_params@;
            let ghost an = arg_name@;
            let tstart = ctx.type_names.len();
            let vstart = ctx.var_names.len();
            let kinds = match push_params(&mut ctx.type_names, type_params) {
                Ok(ks) => ks,
                Err(e) => return Err(e),
            };
            let at = match convert_type(ctx, arg_type) {
                Ok(a) => a,
                Err(e) => {
                    ctx.type_names.truncate(tstart);
                    proof {
                        assert(ctx.type_names@ =~= tn);
                    }
                    return Err(e);
                },
            };
            match ctx.var_names.add_name(arg_name) {
                Ok(()) => {},
                Err(d) => {
                    ctx.type_names.truncate(tstart);
                    proof {
                        assert(ctx.type_names@ =~= tn);
                    }
                    return Err(ConvertError::DuplicateBinding { name: d.ident, namespace: Namespace::Value });
                },
            }
            let b = convert(ctx, *body);
            ctx.var_names.truncate(vstart);
            ctx.type_names.truncate(tstart);
            proof {
                assert(ctx.var_names@ =~= vn);
                assert(ctx.type_names@ =~= tn);
                assert((tn + param_idents(tps)).len() == tn.len() + kinds@.len());
            }
            match b {
                Ok(b) => Ok(IExpr::Func { type_params: kinds, arg_type: at, body: Box::new(b) }),
                Err(e) => Err(e),
            }
        },
        Expr::App { callee, type_params, arg } => {
            let c = match convert(ctx, *callee) {
                Ok(c) => c,
                Err(e) => return Err(e),
            };
            let ts = match convert_types(ctx, type_params) {
                Ok(ts) => ts,
                Err(e) => return Err(e),
            };
            match convert(ctx, *arg) {
                Ok(a) => Ok(IExpr::App { callee: Box::new(c), type_params: ts, arg: Box::new(a) }),
                Err(e) => Err(e),
            }
        },
        Expr::Pair { left, right } => {
            let l = match convert(ctx, *left) {
                Ok(l) => l,
                Err(e) => return Err(e),
            };
            match convert(ctx, *right) {
                Ok(rt) => Ok(IExpr::Pair { left: Box::new(l), right: Box::new(rt) }),
                Err(e) => Err(e),
            }
        },
        Expr::Let { names, val, body } => {
            let ghost ns = names@;
            let count = names.len();
            let v = match convert(ctx, *val) {
                Ok(v) => v,
                Err(e) => return Err(e),
            };
            let vstart = ctx.var_names.len();
            match push_idents(&mut ctx.var_names, names, Namespace::Value) {
                Ok(()) => {},
                Err(e) => return Err(e),
            }
            let b = convert(ctx, *body);
            ctx.var_names.truncate(vstart);
            proof {
                assert(ctx.var_names@ =~= vn);
                assert((vn + idents_view(ns)).len() == vn.len() + count);
            }
            match b {
                Ok(b) => Ok(IExpr::Let { count, val: Box::new(v), body: Box::new(b) }),
                Err(e) => Err(e),
            }
        },
        Expr::LetExists { type_names, val_name, val, body } => {
            let ghost ns = type_names@;
            let type_count = type_names.len();
            let v = match convert(ctx, *val) {
                Ok(v) => v,
                Err(e) => return Err(e),
            };
            let tstart = ctx.type_names.len();
            let vstart = ctx.var_names.len();
            match push_idents(&mut ctx.type_names, type_names, Namespace::Type) {
                Ok(()) => {},
                Err(e) => return Err(e),
            }
            match ctx.var_names.add_name(val_name) {
                Ok(()) => {},
                Err(d) => {
                    ctx.type_names.truncate(tstart);
                    proof {
                        assert(ctx.type_names@ =~= tn);
                    }
                    return Err(ConvertError::DuplicateBinding { name: d.ident, namespace: Namespace::Value });
                },
            }
            let b = convert(ctx, *body);
            ctx.var_names.truncate(vstart);
            ctx.type_names.truncate(tstart);
            proof {
                assert(ctx.var_names@ =~= vn);
                assert(ctx.type_names@ =~= tn);
                assert((tn + idents_view(ns)).len() == tn.len() + type_count);
            }
            match b {
                Ok(b) => Ok(IExpr::LetExists { type_count, val: Box::new(v), body: Box::new(b) }),
                Err(e) => Err(e),
            }
        },
        Expr::MakeExists { params, type_body, body } => {
            let ghost ps = params@;
            let (ids, tys) = split_witnesses(params);
            let ghost ids_v = ids@;
            let ghost tys_v = tys@;
            let ws = match convert_types(ctx, tys) {
                Ok(ws) => ws,
                Err(e) => {
                    proof {
                        let i = choose|i: int| 0 <= i < tys_v.len() && !type_resolves(#[trigger] tys_v[i], tn);
                        assert(!type_resolves(ps[i].1, tn));
                    }
                    return Err(e);
                },
            };
            proof {
                assert forall|i: int| 0 <= i < ps.len() implies #[trigger] type_resolves(ps[i].1, tn) by {
                    assert(type_resolves(tys_v[i], tn));
                }
                assert forall|i: int| 0 <= i < ws@.len() implies #[trigger] converts_type(ps[i].1, tn, ws@[i]) by {
                    assert(converts_type(tys_v[i], tn, ws@[i]));
                }
            }
            let tstart = ctx.type_names.len();
            match push_idents(&mut ctx.type_names, ids, Namespace::Type) {
                Ok(()) => {},
                Err(e) => return Err(e),
            }
            let tb = convert_type(ctx, type_body);
            ctx.type_names.truncate(tstart);
            proof {
                assert(ctx.type_names@ =~= tn);
                assert((tn + idents_view(ids_v)).len() == tn.len() + ws@.len());
            }
            let tb = match tb {
                Ok(tb) => tb,
                Err(e) => return Err(e),
            };
            match convert(ctx, *body) {
                Ok(b) => Ok(IExpr::MakeExists { params: ws, type_body: tb, body: Box::new(b) }),
                Err(e) => Err(e),
            }
        },
    }
}

/// Converts a surface expression under the environments of `ctx`, which are
/// left as they were found. The result is closed under those environments:
/// its free value and type names number exactly as many as they hold.
pub fn convert_expr(ctx: &mut Context, e: Expr) -> (r: Result<IExpr, ConvertError>)
    requires
        old(ctx).wf(),
    ensures
        final(ctx).wf(),
        final(ctx).var_names@ == old(ctx).var_names@,
        final(ctx).type_names@ == old(ctx).type_names@,
        r is Ok <==> expr_resolves(e, old(ctx).var_names@, old(ctx).type_names@),
        match r {
            Ok(_) => expr_error(e, old(ctx).var_names@, old(ctx).type_names@) is None,
            Err(x) => expr_error(e, old(ctx).var_names@, old(ctx).type_names@) == Some(x@),
        },
        r matches Ok(x) ==> {
            &&& converts_expr(e, old(ctx).var_names@, old(ctx).type_names@, x)
            &&& expr_wf(x, old(ctx).var_names@.len(), old(ctx).type_names@.len())
            &&& expr_free_vars(x) == old(ctx).var_names@.len()
            &&& expr_free_types(x) == old(ctx).type_names@.len()
        },
{
    let r = convert(ctx, e);
    proof {
        if r is Ok {
            lemma_expr_free_names(r->Ok_0, old(ctx).var_names@.len(), old(ctx).type_names@.len());
        }
    }
    r
}

} // verus!
