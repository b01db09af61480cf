use frontend::parse::{expr, kind, type_};
use frontend::syntax::{Expr, Ident, Kind, Quantifier, Type, TypeParam, VarUsage};

fn mk_ident(s: &str) -> Ident {
    Ident { name: s.to_owned(), collision_id: 0 }
}

fn ty_var(s: &str) -> Type {
    Type::Var { ident: mk_ident(s) }
}

fn ex_var(s: &str) -> Expr {
    Expr::Var { usage: VarUsage::Copy, ident: mk_ident(s) }
}

fn ex_move_var(s: &str) -> Expr {
    Expr::Var { usage: VarUsage::Move, ident: mk_ident(s) }
}

fn star_param(s: &str) -> TypeParam {
    TypeParam { ident: mk_ident(s), kind: Kind::Type }
}

#[test]
fn test_kind() {
    assert_eq!(kind("*"), Ok(Kind::Type));
    assert_eq!(kind("Place"), Ok(Kind::Place));
    assert_eq!(kind("Version"), Ok(Kind::Version));
    assert_eq!(
        kind("(((( // an embedded comment \n * // another embedded comment \n ))))"),
        Ok(Kind::Type)
    );
    assert_eq!(
        kind("(*) -> *"),
        Ok(Kind::Constructor { params: vec![Kind::Type], result: Box::new(Kind::Type) })
    );
    assert_eq!(
        kind("(*; Place; Version) -> *"),
        Ok(Kind::Constructor {
            params: vec![Kind::Type, Kind::Place, Kind::Version],
            result: Box::new(Kind::Type),
        })
    );
    assert_eq!(
        kind("(*; (*) -> *; *;) -> Place"),
        Ok(Kind::Constructor {
            params: vec![
                Kind::Type,
                Kind::Constructor { params: vec![Kind::Type], result: Box::new(Kind::Type) },
                Kind::Type,
            ],
            result: Box::new(Kind::Place),
        })
    );
}

#[test]
fn test_type() {
    assert_eq!(type_("( // embedded whitespace \n )"), Ok(Type::Unit));

    assert_eq!(type_("hello"), Ok(ty_var("hello")));

    assert_eq!(type_("(((((hello)))))"), Ok(ty_var("hello")));

    assert_eq!(
        type_("foo(bar)"),
        Ok(Type::App { constructor: Box::new(ty_var("foo")), param: Box::new(ty_var("bar")) })
    );

    let foo_bar_baz = Type::App {
        constructor: Box::new(Type::App {
            constructor: Box::new(ty_var("foo")),
            param: Box::new(ty_var("bar")),
        }),
        param: Box::new(ty_var("baz")),
    };
    assert_eq!(type_("foo(bar; baz)"), Ok(foo_bar_baz));

    assert_eq!(
        type_("foo(bar; baz;)"),
        Ok(Type::App {
            constructor: Box::new(Type::App {
                constructor: Box::new(ty_var("foo")),
                param: Box::new(ty_var("bar")),
            }),
            param: Box::new(ty_var("baz")),
        })
    );

    assert_eq!(
        type_("exists {t : *} t"),
        Ok(Type::Quantified {
            quantifier: Quantifier::Exists,
            param: star_param("t"),
            body: Box::new(ty_var("t")),
        })
    );

    assert_eq!(
        type_("foo -> bar"),
        Ok(Type::Func {
            params: Vec::new(),
            arg: Box::new(ty_var("foo")),
            ret: Box::new(ty_var("bar")),
        })
    );

    assert_eq!(
        type_("forall {t : *} t -> foo"),
        Ok(Type::Func {
            params: vec![star_param("t")],
            arg: Box::new(ty_var("t")),
            ret: Box::new(ty_var("foo")),
        })
    );

    let pair = Type::Pair {
        left: Box::new(ty_var("foo")),
        right: Box::new(Type::Pair {
            left: Box::new(ty_var("bar")),
            right: Box::new(ty_var("baz")),
        }),
    };
    assert_eq!(type_("foo, bar, baz"), Ok(pair));

    assert_eq!(
        type_("foo, bar, baz,"),
        Ok(Type::Pair {
            left: Box::new(ty_var("foo")),
            right: Box::new(Type::Pair {
                left: Box::new(ty_var("bar")),
                right: Box::new(ty_var("baz")),
            }),
        })
    );

    // Full example:

    assert_eq!(
        type_("exists {f : (*) -> *} (Functor(f), f(T))"),
        Ok(Type::Quantified {
            quantifier: Quantifier::Exists,
            param: TypeParam {
                ident: mk_ident("f"),
                kind: Kind::Constructor { params: vec![Kind::Type], result: Box::new(Kind::Type) },
            },
            body: Box::new(Type::Pair {
                left: Box::new(Type::App {
                    constructor: Box::new(ty_var("Functor")),
                    param: Box::new(ty_var("f")),
                }),
                right: Box::new(Type::App {
                    constructor: Box::new(ty_var("f")),
                    param: Box::new(ty_var("T")),
                }),
            }),
        })
    );
}

#[test]
fn test_expr() {
    assert_eq!(expr("( // embedded whitespace \n )"), Ok(Expr::Unit));

    assert_eq!(expr("hello"), Ok(ex_var("hello")));

    assert_eq!(expr("move hello"), Ok(ex_move_var("hello")));

    assert_eq!(expr("((((hello))))"), Ok(ex_var("hello")));

    assert_eq!(
        expr("hello(move world)"),
        Ok(Expr::App {
            callee: Box::new(ex_var("hello")),
            type_params: Vec::new(),
            arg: Box::new(ex_move_var("world")),
        })
    );

    assert_eq!(
        expr("hello{T}(move world)"),
        Ok(Expr::App {
            callee: Box::new(ex_var("hello")),
            type_params: vec![ty_var("T")],
            arg: Box::new(ex_move_var("world")),
        })
    );

    assert_eq!(
        expr("hello{T; U}(move world)"),
        Ok(Expr::App {
            callee: Box::new(ex_var("hello")),
            type_params: vec![ty_var("T"), ty_var("U")],
            arg: Box::new(ex_move_var("world")),
        })
    );

    assert_eq!(
        expr("hello{T; U;}(move world)"),
        Ok(Expr::App {
            callee: Box::new(ex_var("hello")),
            type_params: vec![ty_var("T"), ty_var("U")],
            arg: Box::new(ex_move_var("world")),
        })
    );

    assert_eq!(
        expr("func (x : T) -> move x"),
        Ok(Expr::Func {
            type_params: Vec::new(),
            arg_name: mk_ident("x"),
            arg_type: ty_var("T"),
            body: Box::new(ex_move_var("x")),
        })
    );

    assert_eq!(
        expr("func {T : *} (x : T) -> move x"),
        Ok(Expr::Func {
            type_params: vec![star_param("T")],
            arg_name: mk_ident("x"),
            arg_type: ty_var("T"),
            body: Box::new(ex_move_var("x")),
        })
    );

    assert_eq!(
        expr("func {T : *; U : *} (x : T) -> move x"),
        Ok(Expr::Func {
            type_params: vec![star_param("T"), star_param("U")],
            arg_name: mk_ident("x"),
            arg_type: ty_var("T"),
            body: Box::new(ex_move_var("x")),
        })
    );

    assert_eq!(
        expr("func {T : *; U : *;} (x : T) -> move x"),
        Ok(Expr::Func {
            type_params: vec![star_param("T"), star_param("U")],
            arg_name: mk_ident("x"),
            arg_type: ty_var("T"),
            body: Box::new(ex_move_var("x")),
        })
    );

    assert_eq!(
        expr("let x = move y in move x"),
        Ok(Expr::Let {
            names: vec![mk_ident("x")],
            val: Box::new(ex_move_var("y")),
            body: Box::new(ex_move_var("x")),
        })
    );

    assert_eq!(
        expr("let x, y = move z in ()"),
        Ok(Expr::Let {
            names: vec![mk_ident("x"), mk_ident("y")],
            val: Box::new(ex_move_var("z")),
            body: Box::new(Expr::Unit),
        })
    );

    assert_eq!(
        expr("let x, y, = move z in ()"),
        Ok(Expr::Let {
            names: vec![mk_ident("x"), mk_ident("y")],
            val: Box::new(ex_move_var("z")),
            body: Box::new(Expr::Unit),
        })
    );

    assert_eq!(
        expr("let_exists {T} x = move y in move x"),
        Ok(Expr::LetExists {
            type_names: vec![mk_ident("T")],
            val_name: mk_ident("x"),
            val: Box::new(ex_move_var("y")),
            body: Box::new(ex_move_var("x")),
        })
    );

    assert_eq!(
        expr("let_exists {T; U} x = move y in move x"),
        Ok(Expr::LetExists {
            type_names: vec![mk_ident("T"), mk_ident("U")],
            val_name: mk_ident("x"),
            val: Box::new(ex_move_var("y")),
            body: Box::new(ex_move_var("x")),
        })
    );

    assert_eq!(
        expr("let_exists {T; U;} x = move y in move x"),
        Ok(Expr::LetExists {
            type_names: vec![mk_ident("T"), mk_ident("U")],
            val_name: mk_ident("x"),
            val: Box::new(ex_move_var("y")),
            body: Box::new(ex_move_var("x")),
        })
    );

    assert_eq!(
        expr("make_exists {T = Foo} T of move x"),
        Ok(Expr::MakeExists {
            params: vec![(mk_ident("T"), ty_var("Foo"))],
            type_body: ty_var("T"),
            body: Box::new(ex_move_var("x")),
        })
    );

    assert_eq!(
        expr("make_exists {T = Foo; U = Bar;} T -> U of move f"),
        Ok(Expr::MakeExists {
            params: vec![(mk_ident("T"), ty_var("Foo")), (mk_ident("U"), ty_var("Bar"))],
            type_body: Type::Func {
                params: Vec::new(),
                arg: Box::new(ty_var("T")),
                ret: Box::new(ty_var("U")),
            },
            body: Box::new(ex_move_var("f")),
        })
    );

    assert_eq!(
        expr("foo, bar, baz"),
        Ok(Expr::Pair {
            left: Box::new(ex_var("foo")),
            right: Box::new(Expr::Pair {
                left: Box::new(ex_var("bar")),
                right: Box::new(ex_var("baz")),
            }),
        })
    );

    assert_eq!(
        expr("foo, bar, baz,"),
        Ok(Expr::Pair {
            left: Box::new(ex_var("foo")),
            right: Box::new(Expr::Pair {
                left: Box::new(ex_var("bar")),
                right: Box::new(ex_var("baz")),
            }),
        })
    );
}

#[test]
fn comments_between_tokens_change_nothing() {
    assert_eq!(
        type_("exists {f : (*) -> *} (Functor(f), f(T))"),
        type_(" exists//a\n{ f\t:( * )//b\n->*}(Functor ( f ) ,f(T) ) // end"),
    );
    assert_eq!(
        expr("let x, y = move z in (x, y)"),
        expr("let//1\n x ,\n y =\tmove // 2\n z in ( x , y )"),
    );
    assert_eq!(kind("(*; Place) -> *"), kind("( * ;//x\n Place ) -> *"));
}

#[test]
fn trailing_separators_change_nothing() {
    assert_eq!(kind("(*; *; *) -> *"), kind("(*; *; *;) -> *"));
    assert_eq!(type_("a(b; c; d)"), type_("a(b; c; d;)"));
    assert_eq!(type_("forall {a : *; b : *} a -> b"), type_("forall {a : *; b : *;} a -> b"));
    assert_eq!(expr("f{a; b; c}(x)"), expr("f{a; b; c;}(x)"));
    assert_eq!(expr("let_exists {a; b; c} x = y in x"), expr("let_exists {a; b; c;} x = y in x"));
    assert_eq!(expr("make_exists {a = A; b = B} a of x"), expr("make_exists {a = A; b = B;} a of x"));
    assert_eq!(expr("a, b, c"), expr("a, b, c,"));
    assert_eq!(type_("a, b, c"), type_("a, b, c,"));
    assert_eq!(expr("let a, b, c = x in y"), expr("let a, b, c, = x in y"));
}

#[test]
fn rejected_forms() {
    assert!(expr("foo#bar").is_err());
    assert!(expr("f{}(x)").is_err());
    assert!(expr("move ()").is_err());
    assert!(expr("move (a, b)").is_err());
    assert!(kind("()").is_err());
    assert!(kind("(*;)").is_err());
    assert!(kind("(*").is_err());
    assert!(type_("exists {a : *; b : *} a").is_err());
    assert!(expr("let = x in y").is_err());
    assert!(expr("let_exists {} x = y in x").is_err());
    assert!(expr("make_exists {} T of x").is_err());
    assert!(expr("a b").is_err());
    assert!(type_("").is_err());
}

#[test]
fn leading_whitespace_and_comments_change_nothing() {
    let lead = " \t// first\n\n  // second\n\x0B";
    for s in ["foo#3", "`a b`", "(*; Place) -> *", "forall {a : *} a -> a, b", "let x = y in move x", "f{T}(a, b,)"] {
        let with = format!("{}{}", lead, s);
        assert_eq!(frontend::ident(&with).ok(), frontend::ident(s).ok());
        assert_eq!(kind(&with).ok(), kind(s).ok());
        assert_eq!(type_(&with).ok(), type_(s).ok());
        assert_eq!(expr(&with).ok(), expr(s).ok());
    }
}
