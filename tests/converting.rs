use frontend::internal::{IExpr, IType};
use frontend::names::Names;
use frontend::parse::{expr, type_};
use frontend::syntax::{Ident, Kind, Quantifier, VarUsage as Usage};
use frontend::to_internal::{convert_expr as convert, convert_type, ConvertError, Context, Namespace};

fn mk_ident(s: &str) -> Ident {
    Ident { name: s.to_owned(), collision_id: 0 }
}

fn context(free_vars: &[&str], free_types: &[&str]) -> Context {
    let mut var_names = Names::new();
    for var in free_vars {
        var_names.add_name(mk_ident(var)).unwrap();
    }
    let mut type_names = Names::new();
    for ty in free_types {
        type_names.add_name(mk_ident(ty)).unwrap();
    }
    Context { var_names, type_names }
}

// Parse an expression and convert it to an internal representation
fn conv(free_vars: &[&str], free_types: &[&str], s: &str) -> Result<IExpr, ()> {
    let mut ctx = context(free_vars, free_types);
    let result = convert(&mut ctx, expr(s).map_err(|_| ())?).map_err(|_| ())?;

    assert_eq!(result.free_vars(), free_vars.len());
    assert_eq!(result.free_types(), free_types.len());

    Ok(result)
}

fn conv_err(free_vars: &[&str], free_types: &[&str], s: &str) -> ConvertError {
    let mut ctx = context(free_vars, free_types);
    match convert(&mut ctx, expr(s).unwrap()) {
        Ok(r) => panic!("converted to {:?}", r),
        Err(e) => e,
    }
}

fn unit(v: usize, t: usize) -> IExpr {
    IExpr::Unit { free_vars: v, free_types: t }
}

fn var(usage: Usage, v: usize, t: usize, index: usize) -> IExpr {
    IExpr::Var { usage, free_vars: v, free_types: t, index }
}

fn let_vars(count: usize, val: IExpr, body: IExpr) -> IExpr {
    IExpr::Let { count, val: Box::new(val), body: Box::new(body) }
}

fn pair(l: IExpr, r: IExpr) -> IExpr {
    IExpr::Pair { left: Box::new(l), right: Box::new(r) }
}

#[test]
fn convert_expr() {
    assert_eq!(conv(&[], &[], "()"), Ok(unit(0, 0)));

    assert_eq!(
        conv(&[], &[], "let x = () in move x"),
        Ok(let_vars(1, unit(0, 0), var(Usage::Move, 1, 0, 0)))
    );

    assert_eq!(
        conv(&[], &[], "let x, y, z = () in (x, y, z)"),
        Ok(let_vars(
            3,
            unit(0, 0),
            pair(
                var(Usage::Copy, 3, 0, 0),
                pair(var(Usage::Copy, 3, 0, 1), var(Usage::Copy, 3, 0, 2)),
            ),
        ))
    );
}

#[test]
fn free_variable_reference() {
    let r = conv(&["a"], &[], "move a").unwrap();
    assert_eq!(r, var(Usage::Move, 1, 0, 0));
    assert_eq!(r.free_vars(), 1);
}

#[test]
fn closed_terms_keep_their_free_counts() {
    let r = conv(&["a", "b"], &["T"], "func {U : *} (x : U) -> f{T; U}(x, a, b)");
    assert!(r.is_err());
    let r = conv(&["a", "f"], &["T"], "func {U : *} (x : U) -> f{T; U}(x, a)").unwrap();
    assert_eq!(r.free_vars(), 2);
    assert_eq!(r.free_types(), 1);
    match r {
        IExpr::Func { type_params, arg_type, body } => {
            assert_eq!(type_params, vec![Kind::Type]);
            assert_eq!(arg_type, IType::Var { free_types: 2, index: 1 });
            match *body {
                IExpr::App { callee, type_params, arg } => {
                    assert_eq!(*callee, var(Usage::Copy, 3, 2, 1));
                    assert_eq!(
                        type_params,
                        vec![IType::Var { free_types: 2, index: 0 }, IType::Var { free_types: 2, index: 1 }]
                    );
                    assert_eq!(*arg, pair(var(Usage::Copy, 3, 2, 2), var(Usage::Copy, 3, 2, 0)));
                },
                other => panic!("unexpected {:?}", other),
            }
        },
        other => panic!("unexpected {:?}", other),
    }
}

#[test]
fn let_value_does_not_see_its_names() {
    assert!(conv(&[], &[], "let x = x in x").is_err());
    assert!(matches!(conv_err(&[], &[], "let x = x in x"), ConvertError::UnboundValue { .. }));
}

#[test]
fn let_exists_and_make_exists() {
    let r = conv(&["p"], &[], "let_exists {T; U} x = p in make_exists {V = T} V -> U of x").unwrap();
    assert_eq!(
        r,
        IExpr::LetExists {
            type_count: 2,
            val: Box::new(var(Usage::Copy, 1, 0, 0)),
            body: Box::new(IExpr::MakeExists {
                params: vec![IType::Var { free_types: 2, index: 0 }],
                type_body: IType::Func {
                    params: Vec::new(),
                    arg: Box::new(IType::Var { free_types: 3, index: 2 }),
                    ret: Box::new(IType::Var { free_types: 3, index: 1 }),
                },
                body: Box::new(var(Usage::Copy, 2, 2, 1)),
            }),
        }
    );
}

#[test]
fn unbound_and_duplicate_names() {
    assert!(matches!(conv_err(&[], &[], "x"), ConvertError::UnboundValue { .. }));
    assert!(matches!(conv_err(&[], &[], "func (x : T) -> x"), ConvertError::UnboundType { .. }));
    assert!(matches!(
        conv_err(&[], &[], "let x, x = () in ()"),
        ConvertError::DuplicateBinding { namespace: Namespace::Value, .. }
    ));
    assert!(matches!(
        conv_err(&["x"], &[], "let x = () in ()"),
        ConvertError::DuplicateBinding { namespace: Namespace::Value, .. }
    ));
    assert!(matches!(
        conv_err(&[], &[], "let_exists {T; T} x = () in ()"),
        ConvertError::DuplicateBinding { namespace: Namespace::Type, .. }
    ));
    // distinct collision ids are distinct names
    assert!(conv(&[], &[], "let x, x#1 = () in (x, x#1)").is_ok());
    // a name may be bound as a value and as a type at once
    assert!(conv(&[], &[], "func {x : *} (x : x) -> x").is_ok());
}

#[test]
fn environments_are_restored() {
    let mut ctx = context(&["a"], &["T"]);
    assert!(convert(&mut ctx, expr("let b = a in func {U : *} (c : U) -> b").unwrap()).is_ok());
    assert!(convert(&mut ctx, expr("let a = () in ()").unwrap()).is_err());
    assert_eq!(ctx.var_names.len(), 1);
    assert_eq!(ctx.type_names.len(), 1);
    assert_eq!(ctx.var_names.lookup(&mk_ident("a")), Some(0));
    assert_eq!(ctx.var_names.lookup(&mk_ident("b")), None);
}

#[test]
fn types_convert_with_quantifiers() {
    let mut ctx = context(&[], &["Functor", "T"]);
    let t = type_("exists {f : (*) -> *} (Functor(f), f(T))").unwrap();
    let r = convert_type(&mut ctx, t).unwrap();
    assert_eq!(r.free_types(), 2);
    assert_eq!(
        r,
        IType::Quantified {
            quantifier: Quantifier::Exists,
            kind: Kind::Constructor { params: vec![Kind::Type], result: Box::new(Kind::Type) },
            body: Box::new(IType::Pair {
                left: Box::new(IType::App {
                    constructor: Box::new(IType::Var { free_types: 3, index: 0 }),
                    param: Box::new(IType::Var { free_types: 3, index: 2 }),
                }),
                right: Box::new(IType::App {
                    constructor: Box::new(IType::Var { free_types: 3, index: 2 }),
                    param: Box::new(IType::Var { free_types: 3, index: 1 }),
                }),
            }),
        }
    );
}

#[test]
fn first_error_in_visiting_order_is_reported() {
    match conv_err(&[], &[], "func (x : T) -> y") {
        ConvertError::UnboundType { name } => assert_eq!(name, mk_ident("T")),
        other => panic!("unexpected {:?}", other),
    }
    match conv_err(&[], &[], "let a, b, a, b = z in ()") {
        ConvertError::UnboundValue { name } => assert_eq!(name, mk_ident("z")),
        other => panic!("unexpected {:?}", other),
    }
    match conv_err(&["z"], &[], "let a, b, b, a = z in ()") {
        ConvertError::DuplicateBinding { name, namespace } => {
            assert_eq!(name, mk_ident("b"));
            assert_eq!(namespace, Namespace::Value);
        },
        other => panic!("unexpected {:?}", other),
    }
    match conv_err(&[], &["T"], "make_exists {U = V; T = U} T of ()") {
        ConvertError::UnboundType { name } => assert_eq!(name, mk_ident("V")),
        other => panic!("unexpected {:?}", other),
    }
    match conv_err(&[], &["T"], "make_exists {U = T; T = T} T of ()") {
        ConvertError::DuplicateBinding { name, namespace } => {
            assert_eq!(name, mk_ident("T"));
            assert_eq!(namespace, Namespace::Type);
        },
        other => panic!("unexpected {:?}", other),
    }
}
