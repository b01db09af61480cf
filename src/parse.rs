//! A recursive-descent parser for identifiers, kinds, types and expressions
//! over the token stream of the lexer. The grammar is stated as spec
//! functions over token values (`kind_from`, `type_from`, `expr_from` and
//! their helpers); each parsing method is proved to compute them exactly.

use vstd::prelude::*;
use crate::lex::{LexErrorKind, Spanned, Sym, Token, TokenV, lex_all, token_values, tokenize};
use crate::syntax::{
    Expr, ExprV, Ident, Kind, KindV, Quantifier, Type, TypeParam, TypeV, VarUsage, binders_nonempty,
    expr_view, idents_view, kind_view, kinds_view, param_view, params_view, type_view, types_view,
    witnesses_view,
};

verus! {

/// The class of a token met where it was not expected.
#[derive(Clone, Copy, Debug, PartialEq, Eq, Structural)]
pub enum Got {
    Name,
    Int,
    Sym(Sym),
}

/// What the parser was looking for when it failed.
#[derive(Clone, Copy, Debug, PartialEq, Eq, Structural)]
pub enum Expected {
    Sym(Sym),
    Name,
    Int,
    Kind,
    Type,
    Expr,
    Var,
    End,
}

#[derive(Clone, Copy, Debug, PartialEq, Eq, Structural)]
pub enum ParseError {
    UnexpectedToken { offset: usize, got: Got, expected: Expected },
    UnexpectedEof { offset: usize },
    LexError { offset: usize, kind: LexErrorKind },
}

/// The tokens of one source text and the offset of its end.
pub struct Parser {
    toks: Vec<Spanned>,
    eof: usize,
}

/// The identifier that a whole token sequence spells: a name, optionally
/// followed by `#` and an integer.
pub open spec fn ident_tokens(ts: Seq<TokenV>) -> Option<(Seq<char>, u64)> {
    if ts.len() == 1 && ts[0] is Name {
        Some((ts[0]->Name_0, 0))
    } else if ts.len() == 3 && ts[0] is Name && ts[1] == TokenV::Sym(Sym::Hash) && ts[2] is Int {
        Some((ts[0]->Name_0, ts[2]->Int_0))
    } else {
        None
    }
}

pub open spec fn sym_at(ts: Seq<TokenV>, i: int, sym: Sym) -> bool {
    0 <= i < ts.len() && ts[i] == TokenV::Sym(sym)
}

/// The kind that the tokens from `i` on start with, and where it ends:
/// `*`, `Place`, `Version`, `(K)`, or `(K1; ...; Kn) -> K`.
pub open spec fn kind_from(ts: Seq<TokenV>, i: int) -> Option<(KindV, int)>
    decreases ts.len() - i, 0nat,
{
    if sym_at(ts, i, Sym::Star) {
        Some((KindV::Type, i + 1))
    } else if sym_at(ts, i, Sym::Place) {
        Some((KindV::Place, i + 1))
    } else if sym_at(ts, i, Sym::Version) {
        Some((KindV::Version, i + 1))
    } else if sym_at(ts, i, Sym::LParen) {
        match kind_list_from(ts, i + 1) {
            Some((ks, trailing, m)) => {
                if i < m && sym_at(ts, m, Sym::RParen) {
                    if sym_at(ts, m + 1, Sym::Arrow) {
                        match kind_from(ts, m + 2) {
                            Some((r, j)) => Some((KindV::Constructor(ks, Box::new(r)), j)),
                            None => None,
                        }
                    } else if ks.len() == 1 && !trailing {
                        Some((ks[0], m + 1))
                    } else {
                        None
                    }
                } else {
                    None
                }
            },
            None => None,
        }
    } else {
        None
    }
}

/// `K1; ...; Kn` with `n >= 1`, up to the `)` that closes it: the kinds,
/// whether a trailing `;` was written, and the position of the `)`.
pub open spec fn kind_list_from(ts: Seq<TokenV>, i: int) -> Option<(Seq<KindV>, bool, int)>
    decreases ts.len() - i, 1nat,
{
    match kind_from(ts, i) {
        Some((k, m)) => {
            if i < m <= ts.len() && sym_at(ts, m, Sym::Semi) {
                if sym_at(ts, m + 1, Sym::RParen) {
                    Some((seq![k], true, m + 1))
                } else {
                    match kind_list_from(ts, m + 1) {
                        Some((ks, t, e)) => Some((seq![k] + ks, t, e)),
                        None => None,
                    }
                }
            } else {
                Some((seq![k], false, m))
            }
        },
        None => None,
    }
}

proof fn lemma_kinds_view_len(ks: Seq<Kind>)
    ensures
        kinds_view(ks).len() == ks.len(),
    decreases ks.len(),
{
    if ks.len() > 0 {
        lemma_kinds_view_len(ks.drop_last());
    }
}

pub open spec fn prefix_kinds(
    pre: Seq<KindV>,
    r: Option<(Seq<KindV>, bool, int)>,
) -> Option<(Seq<KindV>, bool, int)> {
    match r {
        Some((ks, t, e)) => Some((pre + ks, t, e)),
        None => None,
    }
}

/// The identifier at `i`: a name, optionally followed by `#` and an integer.
pub open spec fn ident_from(ts: Seq<TokenV>, i: int) -> Option<((Seq<char>, u64), int)> {
    if 0 <= i < ts.len() && ts[i] is Name {
        if sym_at(ts, i + 1, Sym::Hash) {
            if i + 2 < ts.len() && ts[i + 2] is Int {
                Some(((ts[i]->Name_0, ts[i + 2]->Int_0), i + 3))
            } else {
                None
            }
        } else {
            Some(((ts[i]->Name_0, 0u64), i + 1))
        }
    } else {
        None
    }
}

/// `ident : kind` at `i`.
pub open spec fn param_from(ts: Seq<TokenV>, i: int) -> Option<(((Seq<char>, u64), KindV), int)> {
    match ident_from(ts, i) {
        Some((id, m)) => if sym_at(ts, m, Sym::Colon) {
            match kind_from(ts, m + 1) {
                Some((k, j)) => Some(((id, k), j)),
                None => None,
            }
        } else {
            None
        },
        None => None,
    }
}

/// The parameters `P; ...` from `i` on, after the parameters `acc` already
/// read, up to the `}` that closes them (whose position is returned).
pub open spec fn params_acc(
    ts: Seq<TokenV>,
    acc: Seq<((Seq<char>, u64), KindV)>,
    i: int,
) -> Option<(Seq<((Seq<char>, u64), KindV)>, int)>
    decreases ts.len() - i,
{
    match param_from(ts, i) {
        Some((p, m)) => {
            if i < m <= ts.len() && sym_at(ts, m, Sym::Semi) {
                if sym_at(ts, m + 1, Sym::RBrace) {
                    Some((acc.push(p), m + 1))
                } else {
                    params_acc(ts, acc.push(p), m + 1)
                }
            } else {
                Some((acc.push(p), m))
            }
        },
        None => None,
    }
}

/// `{X1; ...; Xn}` at `i`, with `n >= 1` and an optional trailing `;`.
pub open spec fn params_block_from(ts: Seq<TokenV>, i: int) -> Option<(Seq<((Seq<char>, u64), KindV)>, int)> {
    if sym_at(ts, i, Sym::LBrace) {
        match params_acc(ts, Seq::empty(), i + 1) {
            Some((ps, m)) => if sym_at(ts, m, Sym::RBrace) {
                Some((ps, m + 1))
            } else {
                None
            },
            None => None,
        }
    } else {
        None
    }
}

/// Whether the token at `i` cannot start a type.
pub open spec fn ends_type_at(ts: Seq<TokenV>, i: int) -> bool {
    if i < 0 || i >= ts.len() {
        true
    } else {
        match ts[i] {
            TokenV::Name(_) => false,
            TokenV::Int(_) => true,
            TokenV::Sym(s) => !(s == Sym::LParen || s == Sym::Forall || s == Sym::Exists),
        }
    }
}

/// A full type at `i`: arrows separated by `,`, nested to the right, with
/// an optional trailing `,`.
pub open spec fn type_from(ts: Seq<TokenV>, i: int) -> Option<(TypeV, int)>
    decreases ts.len() - i, 5nat,
{
    match arrow_from(ts, i) {
        Some((t, m)) => {
            if i < m && sym_at(ts, m, Sym::Comma) && !ends_type_at(ts, m + 1) {
                match type_from(ts, m + 1) {
                    Some((r, j)) => Some((TypeV::Pair(Box::new(t), Box::new(r)), j)),
                    None => None,
                }
            } else if sym_at(ts, m, Sym::Comma) {
                Some((t, m + 1))
            } else {
                Some((t, m))
            }
        },
        None => None,
    }
}

/// `forall {P..} Q -> T`, or `Q` optionally followed by `-> T`.
pub open spec fn arrow_from(ts: Seq<TokenV>, i: int) -> Option<(TypeV, int)>
    decreases ts.len() - i, 4nat,
{
    if sym_at(ts, i, Sym::Forall) {
        match params_block_from(ts, i + 1) {
            Some((ps, m)) => if i < m {
                match quant_from(ts, m) {
                    Some((a, m2)) => if m < m2 && sym_at(ts, m2, Sym::Arrow) {
                        match arrow_from(ts, m2 + 1) {
                            Some((r, j)) => Some((TypeV::Func(ps, Box::new(a), Box::new(r)), j)),
                            None => None,
                        }
                    } else {
                        None
                    },
                    None => None,
                }
            } else {
                None
            },
            None => None,
        }
    } else {
        match quant_from(ts, i) {
            Some((a, m)) => if i < m && sym_at(ts, m, Sym::Arrow) {
                match arrow_from(ts, m + 1) {
                    Some((r, j)) => Some((TypeV::Func(Seq::empty(), Box::new(a), Box::new(r)), j)),
                    None => None,
                }
            } else {
                Some((a, m))
            },
            None => None,
        }
    }
}

/// `exists {P} Q`, or an application.
pub open spec fn quant_from(ts: Seq<TokenV>, i: int) -> Option<(TypeV, int)>
    decreases ts.len() - i, 3nat,
{
    if sym_at(ts, i, Sym::Exists) {
        if sym_at(ts, i + 1, Sym::LBrace) {
            match param_from(ts, i + 2) {
                Some((p, m)) => if i < m && sym_at(ts, m, Sym::RBrace) {
                    match quant_from(ts, m + 1) {
                        Some((b, j)) => Some((TypeV::Quantified(Quantifier::Exists, p, Box::new(b)), j)),
                        None => None,
                    }
                } else {
                    None
                },
                None => None,
            }
        } else {
            None
        }
    } else {
        type_app_from(ts, i)
    }
}

/// An atom followed by any number of argument lists, folded to the left.
pub open spec fn type_app_from(ts: Seq<TokenV>, i: int) -> Option<(TypeV, int)>
    decreases ts.len() - i, 2nat,
{
    match type_atom_from(ts, i) {
        Some((t, m)) => if i < m <= ts.len() {
            app_tail(ts, t, m)
        } else {
            None
        },
        None => None,
    }
}

/// Argument lists `(A1; ...; An)` from `i` on, applied in turn to `f`.
pub open spec fn app_tail(ts: Seq<TokenV>, f: TypeV, i: int) -> Option<(TypeV, int)>
    decreases ts.len() - i, 0nat,
{
    if sym_at(ts, i, Sym::LParen) {
        args_acc(ts, f, i + 1)
    } else {
        Some((f, i))
    }
}

/// The arguments from `i` on of an argument list, applied in turn to `f`,
/// then any further argument lists.
pub open spec fn args_acc(ts: Seq<TokenV>, f: TypeV, i: int) -> Option<(TypeV, int)>
    decreases ts.len() - i, 6nat,
{
    match type_from(ts, i) {
        Some((a, m)) => {
            let g = TypeV::App(Box::new(f), Box::new(a));
            if i < m && sym_at(ts, m, Sym::Semi) {
                if sym_at(ts, m + 1, Sym::RParen) {
                    app_tail(ts, g, m + 2)
                } else {
                    args_acc(ts, g, m + 1)
                }
            } else if i < m && sym_at(ts, m, Sym::RParen) {
                app_tail(ts, g, m + 1)
            } else {
                None
            }
        },
        None => None,
    }
}

/// `()`, `(T)`, or an identifier.
pub open spec fn type_atom_from(ts: Seq<TokenV>, i: int) -> Option<(TypeV, int)>
    decreases ts.len() - i, 1nat,
{
    if sym_at(ts, i, Sym::LParen) {
        if sym_at(ts, i + 1, Sym::RParen) {
            Some((TypeV::Unit, i + 2))
        } else {
            match type_from(ts, i + 1) {
                Some((t, m)) => if i < m && sym_at(ts, m, Sym::RParen) {
                    Some((t, m + 1))
                } else {
                    None
                },
                None => None,
            }
        }
    } else {
        match ident_from(ts, i) {
            Some((id, m)) => Some((TypeV::Var(id), m)),
            None => None,
        }
    }
}

/// Whether the token at `i` cannot start an expression.
pub open spec fn ends_expr_at(ts: Seq<TokenV>, i: int) -> bool {
    if i < 0 || i >= ts.len() {
        true
    } else {
        match ts[i] {
            TokenV::Name(_) => false,
            TokenV::Int(_) => true,
            TokenV::Sym(s) => !(s == Sym::LParen || s == Sym::Move || s == Sym::Let || s == Sym::LetExists
                || s == Sym::MakeExists || s == Sym::Func),
        }
    }
}

/// The names `N, ...` of a `let` from `i` on, after those in `acc`, up to
/// the `=` (whose position is returned).
pub open spec fn names_acc(ts: Seq<TokenV>, acc: Seq<(Seq<char>, u64)>, i: int) -> Option<
    (Seq<(Seq<char>, u64)>, int),
>
    decreases ts.len() - i,
{
    match ident_from(ts, i) {
        Some((id, m)) => {
            if i < m <= ts.len() && sym_at(ts, m, Sym::Comma) {
                if sym_at(ts, m + 1, Sym::Equals) {
                    Some((acc.push(id), m + 1))
                } else {
                    names_acc(ts, acc.push(id), m + 1)
                }
            } else {
                Some((acc.push(id), m))
            }
        },
        None => None,
    }
}

/// The names `N; ...` of a brace block from `i` on, after those in `acc`,
/// up to the `}` (whose position is returned).
pub open spec fn brace_names_acc(ts: Seq<TokenV>, acc: Seq<(Seq<char>, u64)>, i: int) -> Option<
    (Seq<(Seq<char>, u64)>, int),
>
    decreases ts.len() - i,
{
    match ident_from(ts, i) {
        Some((id, m)) => {
            if i < m <= ts.len() && sym_at(ts, m, Sym::Semi) {
                if sym_at(ts, m + 1, Sym::RBrace) {
                    Some((acc.push(id), m + 1))
                } else {
                    brace_names_acc(ts, acc.push(id), m + 1)
                }
            } else {
                Some((acc.push(id), m))
            }
        },
        None => None,
    }
}

/// `{N1; ...; Nk}` at `i`.
pub open spec fn brace_names_from(ts: Seq<TokenV>, i: int) -> Option<(Seq<(Seq<char>, u64)>, int)> {
    if sym_at(ts, i, Sym::LBrace) {
        match brace_names_acc(ts, Seq::empty(), i + 1) {
            Some((ns, m)) => if sym_at(ts, m, Sym::RBrace) {
                Some((ns, m + 1))
            } else {
                None
            },
            None => None,
        }
    } else {
        None
    }
}

/// The witnesses `T = U; ...` from `i` on, after those in `acc`, up to the
/// `}` (whose position is returned).
pub open spec fn witnesses_acc(ts: Seq<TokenV>, acc: Seq<((Seq<char>, u64), TypeV)>, i: int) -> Option<
    (Seq<((Seq<char>, u64), TypeV)>, int),
>
    decreases ts.len() - i,
{
    match ident_from(ts, i) {
        Some((id, m)) => if sym_at(ts, m, Sym::Equals) {
            match type_from(ts, m + 1) {
                Some((t, m2)) => {
                    if i < m2 <= ts.len() && sym_at(ts, m2, Sym::Semi) {
                        if sym_at(ts, m2 + 1, Sym::RBrace) {
                            Some((acc.push((id, t)), m2 + 1))
                        } else {
                            witnesses_acc(ts, acc.push((id, t)), m2 + 1)
                        }
                    } else {
                        Some((acc.push((id, t)), m2))
                    }
                },
                None => None,
            }
        } else {
            None
        },
        None => None,
    }
}

/// `{T1 = U1; ...; Tm = Um}` at `i`.
pub open spec fn witnesses_from(ts: Seq<TokenV>, i: int) -> Option<(Seq<((Seq<char>, u64), TypeV)>, int)> {
    if sym_at(ts, i, Sym::LBrace) {
        match witnesses_acc(ts, Seq::empty(), i + 1) {
            Some((ws, m)) => if sym_at(ts, m, Sym::RBrace) {
                Some((ws, m + 1))
            } else {
                None
            },
            None => None,
        }
    } else {
        None
    }
}

/// A full expression at `i`: prefix forms separated by `,`, nested to the
/// right, with an optional trailing `,`.
pub open spec fn expr_from(ts: Seq<TokenV>, i: int) -> Option<(ExprV, int)>
    decreases ts.len() - i, 5nat,
{
    match prefix_from(ts, i) {
        Some((e, m)) => {
            if i < m && sym_at(ts, m, Sym::Comma) && !ends_expr_at(ts, m + 1) {
                match expr_from(ts, m + 1) {
                    Some((r, j)) => Some((ExprV::Pair(Box::new(e), Box::new(r)), j)),
                    None => None,
                }
            } else if sym_at(ts, m, Sym::Comma) {
                Some((e, m + 1))
            } else {
                Some((e, m))
            }
        },
        None => None,
    }
}

/// `let`, `let_exists`, `make_exists` or `func` at `i`, or an application.
pub open spec fn prefix_from(ts: Seq<TokenV>, i: int) -> Option<(ExprV, int)>
    decreases ts.len() - i, 4nat,
{
    if sym_at(ts, i, Sym::Let) {
        match names_acc(ts, Seq::empty(), i + 1) {
            Some((ns, m)) => if i < m && sym_at(ts, m, Sym::Equals) {
                match expr_from(ts, m + 1) {
                    Some((v, m2)) => if m < m2 && sym_at(ts, m2, Sym::In) {
                        match expr_from(ts, m2 + 1) {
                            Some((b, j)) => Some((ExprV::Let(ns, Box::new(v), Box::new(b)), j)),
                            None => None,
                        }
                    } else {
                        None
                    },
                    None => None,
                }
            } else {
                None
            },
            None => None,
        }
    } else if sym_at(ts, i, Sym::LetExists) {
        match brace_names_from(ts, i + 1) {
            Some((tns, m)) => match ident_from(ts, m) {
                Some((vn, m1)) => if i < m1 && sym_at(ts, m1, Sym::Equals) {
                    match expr_from(ts, m1 + 1) {
                        Some((v, m2)) => if m1 < m2 && sym_at(ts, m2, Sym::In) {
                            match expr_from(ts, m2 + 1) {
                                Some((b, j)) => Some((ExprV::LetExists(tns, vn, Box::new(v), Box::new(b)), j)),
                                None => None,
                            }
                        } else {
                            None
                        },
                        None => None,
                    }
                } else {
                    None
                },
                None => None,
            },
            None => None,
        }
    } else if sym_at(ts, i, Sym::MakeExists) {
        match witnesses_from(ts, i + 1) {
            Some((ws, m)) => match type_from(ts, m) {
                Some((tb, m1)) => if i < m1 && sym_at(ts, m1, Sym::Of) {
                    match expr_from(ts, m1 + 1) {
                        Some((b, j)) => Some((ExprV::MakeExists(ws, tb, Box::new(b)), j)),
                        None => None,
                    }
                } else {
                    None
                },
                None => None,
            },
            None => None,
        }
    } else if sym_at(ts, i, Sym::Func) {
        let block = if sym_at(ts, i + 1, Sym::LBrace) {
            params_block_from(ts, i + 1)
        } else {
            Some((Seq::empty(), i + 1))
        };
        match block {
            Some((ps, m)) => if sym_at(ts, m, Sym::LParen) {
                match ident_from(ts, m + 1) {
                    Some((an, m1)) => if sym_at(ts, m1, Sym::Colon) {
                        match type_from(ts, m1 + 1) {
                            Some((at, m2)) => if i < m2 && sym_at(ts, m2, Sym::RParen) && sym_at(
                                ts,
                                m2 + 1,
                                Sym::Arrow,
                            ) {
                                match expr_from(ts, m2 + 2) {
                                    Some((b, j)) => Some((ExprV::Func(ps, an, at, Box::new(b)), j)),
                                    None => None,
                                }
                            } else {
                                None
                            },
                            None => None,
                        }
                    } else {
                        None
                    },
                    None => None,
                }
            } else {
                None
            },
            None => None,
        }
    } else {
        expr_app_from(ts, i)
    }
}

/// A callee at `i` followed by any number of calls `{T1; ...}?(A)`.
pub open spec fn expr_app_from(ts: Seq<TokenV>, i: int) -> Option<(ExprV, int)>
    decreases ts.len() - i, 3nat,
{
    match move_from(ts, i) {
        Some((e, m)) => if i < m <= ts.len() {
            call_tail(ts, e, m)
        } else {
            None
        },
        None => None,
    }
}

/// The calls from `i` on, applied in turn to `f`.
pub open spec fn call_tail(ts: Seq<TokenV>, f: ExprV, i: int) -> Option<(ExprV, int)>
    decreases ts.len() - i, 1nat,
{
    if sym_at(ts, i, Sym::LBrace) {
        targs_acc(ts, f, Seq::empty(), i + 1)
    } else if sym_at(ts, i, Sym::LParen) {
        call_arg(ts, f, Seq::empty(), i)
    } else {
        Some((f, i))
    }
}

/// The type arguments from `i` on of a call of `f`, after those in `acc`.
pub open spec fn targs_acc(ts: Seq<TokenV>, f: ExprV, acc: Seq<TypeV>, i: int) -> Option<(ExprV, int)>
    decreases ts.len() - i, 0nat,
{
    match type_from(ts, i) {
        Some((t, m)) => {
            if i < m && sym_at(ts, m, Sym::Semi) {
                if sym_at(ts, m + 1, Sym::RBrace) {
                    call_arg(ts, f, acc.push(t), m + 2)
                } else {
                    targs_acc(ts, f, acc.push(t), m + 1)
                }
            } else if i < m && sym_at(ts, m, Sym::RBrace) {
                call_arg(ts, f, acc.push(t), m + 1)
            } else {
                None
            }
        },
        None => None,
    }
}

/// The argument `(A)` at `i` of a call of `f` with type arguments `targs`,
/// then any further calls.
pub open spec fn call_arg(ts: Seq<TokenV>, f: ExprV, targs: Seq<TypeV>, i: int) -> Option<(ExprV, int)>
    decreases ts.len() - i, 0nat,
{
    if sym_at(ts, i, Sym::LParen) {
        match expr_from(ts, i + 1) {
            Some((a, m)) => if i < m && sym_at(ts, m, Sym::RParen) {
                call_tail(ts, ExprV::App(Box::new(f), targs, Box::new(a)), m + 1)
            } else {
                None
            },
            None => None,
        }
    } else {
        None
    }
}

/// `move x` at `i`, or an atom.
pub open spec fn move_from(ts: Seq<TokenV>, i: int) -> Option<(ExprV, int)>
    decreases ts.len() - i, 2nat,
{
    if sym_at(ts, i, Sym::Move) {
        match expr_atom_from(ts, i + 1) {
            Some((ExprV::Var(_, id), m)) => Some((ExprV::Var(VarUsage::Move, id), m)),
            _ => None,
        }
    } else {
        expr_atom_from(ts, i)
    }
}

/// `()`, `(E)`, or an identifier at `i`.
pub open spec fn expr_atom_from(ts: Seq<TokenV>, i: int) -> Option<(ExprV, int)>
    decreases ts.len() - i, 1nat,
{
    if sym_at(ts, i, Sym::LParen) {
        if sym_at(ts, i + 1, Sym::RParen) {
            Some((ExprV::Unit, i + 2))
        } else {
            match expr_from(ts, i + 1) {
                Some((e, m)) => if i < m && sym_at(ts, m, Sym::RParen) {
                    Some((e, m + 1))
                } else {
                    None
                },
                None => None,
            }
        }
    } else {
        match ident_from(ts, i) {
            Some((id, m)) => Some((ExprV::Var(VarUsage::Copy, id), m)),
            None => None,
        }
    }
}

/// A constructor kind has at least one parameter.
pub open spec fn constructor_nonempty(k: Kind) -> bool {
    k matches Kind::Constructor { params, .. } ==> params@.len() >= 1
}

impl Parser {
    pub closed spec fn tokens(&self) -> Seq<TokenV> {
        self.toks@.map_values(|t: Spanned| t.token@)
    }

    pub closed spec fn len(&self) -> nat {
        self.toks@.len()
    }

    pub proof fn lemma_tokens_len(&self)
        ensures
            self.tokens().len() == self.len(),
    {
    }

    fn is_sym(&self, pos: usize, sym: Sym) -> (r: bool)
        ensures
            r == (pos < self.len() && self.tokens()[pos as int] == TokenV::Sym(sym)),
            self.len() <= usize::MAX,
    {
        if pos < self.toks.len() {
            match &self.toks[pos].token {
                Token::Sym(s) => *s == sym,
                _ => false,
            }
        } else {
            false
        }
    }

    /// The error for an unexpected token (or the end of input) at `pos`.
    fn unexpected(&self, pos: usize, expected: Expected) -> (r: ParseError) {
        if pos < self.toks.len() {
            let got = match &self.toks[pos].token {
                Token::Name(_) => Got::Name,
                Token::Int(_) => Got::Int,
                Token::Sym(s) => Got::Sym(*s),
            };
            ParseError::UnexpectedToken { offset: self.toks[pos].start, got, expected }
        } else {
            ParseError::UnexpectedEof { offset: self.eof }
        }
    }

    fn expect(&self, pos: usize, sym: Sym) -> (r: Result<usize, ParseError>)
        requires
            pos <= self.len(),
        ensures
            r is Ok <==> (pos < self.len() && self.tokens()[pos as int] == TokenV::Sym(sym)),
            r matches Ok(q) ==> q == pos + 1,
            self.len() <= usize::MAX,
    {
        if pos < self.toks.len() && self.is_sym(pos, sym) {
            Ok(pos + 1)
        } else {
            Err(self.unexpected(pos, Expected::Sym(sym)))
        }
    }

    /// An identifier: a name, then optionally `#` and an integer.
    fn ident_at(&self, pos: usize) -> (r: Result<(Ident, usize), ParseError>)
        requires
            pos <= self.len(),
        ensures
            r is Ok <==> ident_from(self.tokens(), pos as int) is Some,
            r matches Ok((id, q)) ==> ident_from(self.tokens(), pos as int) == Some((id@, q as int)),
            r matches Ok((id, q)) ==> pos < q <= self.len(),
            (pos < self.len() && self.tokens()[pos as int] is Name && !(pos + 1 < self.len()
                && self.tokens()[pos + 1] == TokenV::Sym(Sym::Hash))) ==> r is Ok,
            r matches Ok((id, q)) ==> {
                let ts = self.tokens();
                &&& ts[pos as int] is Name
                &&& id.name@ == ts[pos as int]->Name_0
                &&& if q == pos + 1 {
                    id.collision_id == 0 && !(pos + 1 < self.len() && ts[pos + 1] == TokenV::Sym(Sym::Hash))
                } else {
                    &&& q == pos + 3
                    &&& ts[pos + 1] == TokenV::Sym(Sym::Hash)
                    &&& ts[pos + 2] == TokenV::Int(id.collision_id)
                }
            },
            (pos < self.len() && self.tokens()[pos as int] is Name && pos + 1 < self.len()
                && self.tokens()[pos + 1] == TokenV::Sym(Sym::Hash)) ==> (r is Ok <==> (pos + 2
                < self.len() && self.tokens()[pos + 2] is Int)),
    {
        if pos >= self.toks.len() {
            return Err(self.unexpected(pos, Expected::Name));
        }
        let name = match &self.toks[pos].token {
            Token::Name(n) => n.clone(),
            _ => {
                return Err(self.unexpected(pos, Expected::Name));
            },
        };
        if self.is_sym(pos + 1, Sym::Hash) {
            if pos + 2 < self.toks.len() {
                match &self.toks[pos + 2].token {
                    Token::Int(n) => {
                        return Ok((Ident { name, collision_id: *n }, pos + 3));
                    },
                    _ => {},
                }
            }
            Err(self.unexpected(pos + 2, Expected::Int))
        } else {
            Ok((Ident { name, collision_id: 0 }, pos + 1))
        }
    }

    /// `*`, `Place`, `Version`, `(K)`, or `(K1; ...; Kn) -> K`.
    fn kind_at(&self, pos: usize) -> (r: Result<(Kind, usize), ParseError>)
        requires
            pos <= self.len(),
        ensures
            r is Ok <==> kind_from(self.tokens(), pos as int) is Some,
            r matches Ok((k, q)) ==> {
                &&& kind_from(self.tokens(), pos as int) == Some((kind_view(k), q as int))
                &&& pos < q <= self.len()
                &&& constructor_nonempty(k)
            },
        decreases self.len() - pos,
    {
        let ghost ts = self.tokens();
        proof {
            self.lemma_tokens_len();
        }
        if self.is_sym(pos, Sym::Star) {
            Ok((Kind::Type, pos + 1))
        } else if self.is_sym(pos, Sym::Place) {
            Ok((Kind::Place, pos + 1))
        } else if self.is_sym(pos, Sym::Version) {
            Ok((Kind::Version, pos + 1))
        } else if self.is_sym(pos, Sym::LParen) {
            let mut params: Vec<Kind> = Vec::new();
            let mut q = pos + 1;
            let mut trailing = false;
            proof {
                match kind_list_from(ts, q as int) {
                    Some((ks, t, e)) => assert(Seq::<KindV>::empty() + ks =~= ks),
                    None => {},
                }
                assert(kinds_view(params@) =~= Seq::<KindV>::empty());
            }
            loop
                invariant_except_break
                    kind_list_from(ts, pos + 1) == prefix_kinds(kinds_view(params@), kind_list_from(ts, q as int)),
                    !trailing,
                invariant
                    ts == self.tokens(),
                    ts.len() == self.len(),
                    sym_at(ts, pos as int, Sym::LParen),
                    pos < q <= self.len(),
                    forall|i: int| 0 <= i < params@.len() ==> #[trigger] constructor_nonempty(params@[i]),
                ensures
                    pos < q <= self.len(),
                    params@.len() >= 1,
                    kind_list_from(ts, pos + 1) == Some((kinds_view(params@), trailing, q as int)),
                    forall|i: int| 0 <= i < params@.len() ==> #[trigger] constructor_nonempty(params@[i]),
                decreases self.len() - q,
            {
                let ghost before = kinds_view(params@);
                let ghost q0 = q as int;
                let (k, q2) = match self.kind_at(q) {
                    Ok(x) => x,
                    Err(e) => {
                        proof {
                            assert(kind_list_from(ts, q as int) is None);
                            assert(kind_from(ts, pos as int) is None);
                        }
                        return Err(e);
                    },
                };
                let ghost old_params = params@;
                params.push(k);
                proof {
                    assert(params@.drop_last() =~= old_params);
                    assert(kinds_view(params@) == before.push(kind_view(k)));
                }
                q = q2;
                if self.is_sym(q, Sym::Semi) {
                    q = q + 1;
                    if self.is_sym(q, Sym::RParen) {
                        trailing = true;
                        proof {
                            assert(kind_list_from(ts, q0) == Some((seq![kind_view(k)], true, q as int)));
                            assert(before + seq![kind_view(k)] =~= before.push(kind_view(k)));
                        }
                        break;
                    }
                    proof {
                        assert(kind_list_from(ts, q0) == prefix_kinds(seq![kind_view(k)], kind_list_from(ts, q as int)));
                        match kind_list_from(ts, q as int) {
                            Some((ks, t, e)) => assert(before + (seq![kind_view(k)] + ks) =~= kinds_view(params@) + ks),
                            None => {},
                        }
                    }
                } else {
                    proof {
                        assert(kind_list_from(ts, q0) == Some((seq![kind_view(k)], false, q as int)));
                        assert(before + seq![kind_view(k)] =~= before.push(kind_view(k)));
                    }
                    break;
                }
            }
            proof {
                lemma_kinds_view_len(params@);
            }
            let q = match self.expect(q, Sym::RParen) {
                Ok(q) => q,
                Err(e) => return Err(e),
            };
            if self.is_sym(q, Sym::Arrow) {
                let (result, q3) = match self.kind_at(q + 1) {
                    Ok(x) => x,
                    Err(e) => return Err(e),
                };
                let k = Kind::Constructor { params, result: Box::new(result) };
                Ok((k, q3))
            } else if params.len() == 1 && !trailing {
                proof {
                    assert(params@.drop_last() =~= Seq::<Kind>::empty());
                }
                match params.pop() {
                    Some(k) => Ok((k, q)),
                    None => Err(self.unexpected(q, Expected::Sym(Sym::Arrow))),
                }
            } else {
                Err(self.unexpected(q, Expected::Sym(Sym::Arrow)))
            }
        } else {
            Err(self.unexpected(pos, Expected::Kind))
        }
    }

    /// `ident : kind`
    fn type_param_at(&self, pos: usize) -> (r: Result<(TypeParam, usize), ParseError>)
        requires
            pos <= self.len(),
        ensures
            r is Ok <==> param_from(self.tokens(), pos as int) is Some,
            r matches Ok((p, q)) ==> {
                &&& param_from(self.tokens(), pos as int) == Some((param_view(p), q as int))
                &&& pos < q <= self.len()
            },
    {
        let (ident, q) = match self.ident_at(pos) {
            Ok(x) => x,
            Err(e) => return Err(e),
        };
        let q = match self.expect(q, Sym::Colon) {
            Ok(q) => q,
            Err(e) => return Err(e),
        };
        let (kind, q) = match self.kind_at(q) {
            Ok(x) => x,
            Err(e) => return Err(e),
        };
        Ok((TypeParam { ident, kind }, q))
    }

    /// `{X1; ...; Xn}` with `n >= 1` and an optional trailing `;`.
    fn type_params_at(&self, pos: usize) -> (r: Result<(Vec<TypeParam>, usize), ParseError>)
        requires
            pos <= self.len(),
        ensures
            r is Ok <==> params_block_from(self.tokens(), pos as int) is Some,
            r matches Ok((ps, q)) ==> {
                &&& params_block_from(self.tokens(), pos as int) == Some((params_view(ps@), q as int))
                &&& pos < q <= self.len()
                &&& ps@.len() >= 1
            },
    {
        let ghost ts = self.tokens();
        proof {
            self.lemma_tokens_len();
        }
        let mut q = match self.expect(pos, Sym::LBrace) {
            Ok(q) => q,
            Err(e) => return Err(e),
        };
        let mut ps: Vec<TypeParam> = Vec::new();
        proof {
            assert(params_view(ps@) =~= Seq::<((Seq<char>, u64), KindV)>::empty());
        }
        loop
            invariant_except_break
                params_acc(ts, Seq::empty(), pos + 1) == params_acc(ts, params_view(ps@), q as int),
            invariant
                ts == self.tokens(),
                ts.len() == self.len(),
                sym_at(ts, pos as int, Sym::LBrace),
                pos < q <= self.len(),
            ensures
                pos < q <= self.len(),
                ps@.len() >= 1,
                params_acc(ts, Seq::empty(), pos + 1) == Some((params_view(ps@), q as int)),
            decreases self.len() - q,
        {
            let ghost q0 = q as int;
            let ghost before = params_view(ps@);
            let (p, q2) = match self.type_param_at(q) {
                Ok(x) => x,
                Err(e) => {
                    proof {
                        assert(params_acc(ts, before, q0) is None);
                    }
                    return Err(e);
                },
            };
            ps.push(p);
            proof {
                assert(params_view(ps@) =~= before.push(param_view(p)));
            }
            q = q2;
            if self.is_sym(q, Sym::Semi) {
                q = q + 1;
                if self.is_sym(q, Sym::RBrace) {
                    proof {
                        assert(params_acc(ts, before, q0) == Some((params_view(ps@), q as int)));
                    }
                    break;
                }
                proof {
                    assert(params_acc(ts, before, q0) == params_acc(ts, params_view(ps@), q as int));
                }
            } else {
                proof {
                    assert(params_acc(ts, before, q0) == Some((params_view(ps@), q as int)));
                }
                break;
            }
        }
        let q = match self.expect(q, Sym::RBrace) {
            Ok(q) => q,
            Err(e) => return Err(e),
        };
        Ok((ps, q))
    }

    /// A full type: arrows separated by `,`, nested to the right, with an
    /// optional trailing `,`.
    fn type_at(&self, pos: usize) -> (r: Result<(Type, usize), ParseError>)
        requires
            pos <= self.len(),
        ensures
            r is Ok <==> type_from(self.tokens(), pos as int) is Some,
            r matches Ok((t, q)) ==> {
                &&& type_from(self.tokens(), pos as int) == Some((type_view(t), q as int))
                &&& pos < q <= self.len()
            },
        decreases self.len() - pos, 5nat,
    {
        let (first, q) = match self.arrow_at(pos) {
            Ok(x) => x,
            Err(e) => return Err(e),
        };
        if self.is_sym(q, Sym::Comma) && !self.ends_type(q + 1) {
            let (rest, q2) = match self.type_at(q + 1) {
                Ok(x) => x,
                Err(e) => return Err(e),
            };
            Ok((Type::Pair { left: Box::new(first), right: Box::new(rest) }, q2))
        } else if self.is_sym(q, Sym::Comma) {
            Ok((first, q + 1))
        } else {
            Ok((first, q))
        }
    }

    /// Whether the token at `pos` cannot start a type (so a `,` before it
    /// is a trailing one).
    fn ends_type(&self, pos: usize) -> (r: bool)
        ensures
            r == ends_type_at(self.tokens(), pos as int),
    {
        proof {
            self.lemma_tokens_len();
        }
        if pos >= self.toks.len() {
            true
        } else {
            match &self.toks[pos].token {
                Token::Name(_) => false,
                Token::Int(_) => true,
                Token::Sym(s) => !(*s == Sym::LParen || *s == Sym::Forall || *s == Sym::Exists),
            }
        }
    }

    /// `forall {P..} Q -> T`, or `Q` optionally followed by `-> T`, where `Q`
    /// is a quantified type or an application.
    fn arrow_at(&self, pos: usize) -> (r: Result<(Type, usize), ParseError>)
        requires
            pos <= self.len(),
        ensures
            r is Ok <==> arrow_from(self.tokens(), pos as int) is Some,
            r matches Ok((t, q)) ==> {
                &&& arrow_from(self.tokens(), pos as int) == Some((type_view(t), q as int))
                &&& pos < q <= self.len()
            },
        decreases self.len() - pos, 4nat,
    {
        if self.is_sym(pos, Sym::Forall) {
            let (params, q) = match self.type_params_at(pos + 1) {
                Ok(x) => x,
                Err(e) => return Err(e),
            };
            let (arg, q) = match self.quant_at(q) {
                Ok(x) => x,
                Err(e) => return Err(e),
            };
            let q = match self.expect(q, Sym::Arrow) {
                Ok(q) => q,
                Err(e) => return Err(e),
            };
            let (ret, q) = match self.arrow_at(q) {
                Ok(x) => x,
                Err(e) => return Err(e),
            };
            Ok((Type::Func { params, arg: Box::new(arg), ret: Box::new(ret) }, q))
        } else {
            let (arg, q) = match self.quant_at(pos) {
                Ok(x) => x,
                Err(e) => return Err(e),
            };
            if self.is_sym(q, Sym::Arrow) {
                let (ret, q2) = match self.arrow_at(q + 1) {
                    Ok(x) => x,
                    Err(e) => return Err(e),
                };
                let params: Vec<TypeParam> = Vec::new();
                proof {
                    assert(params_view(params@) =~= Seq::<((Seq<char>, u64), KindV)>::empty());
                }
                Ok((Type::Func { params, arg: Box::new(arg), ret: Box::new(ret) }, q2))
            } else {
                Ok((arg, q))
            }
        }
    }

    /// `exists {P} Q`, or an application.
    fn quant_at(&self, pos: usize) -> (r: Result<(Type, usize), ParseError>)
        requires
            pos <= self.len(),
        ensures
            r is Ok <==> quant_from(self.tokens(), pos as int) is Some,
            r matches Ok((t, q)) ==> {
                &&& quant_from(self.tokens(), pos as int) == Some((type_view(t), q as int))
                &&& pos < q <= self.len()
            },
        decreases self.len() - pos, 3nat,
    {
        if self.is_sym(pos, Sym::Exists) {
            let q = match self.expect(pos + 1, Sym::LBrace) {
                Ok(q) => q,
                Err(e) => return Err(e),
            };
            let (param, q) = match self.type_param_at(q) {
                Ok(x) => x,
                Err(e) => return Err(e),
            };
            let q = match self.expect(q, Sym::RBrace) {
                Ok(q) => q,
                Err(e) => return Err(e),
            };
            let (body, q) = match self.quant_at(q) {
                Ok(x) => x,
                Err(e) => return Err(e),
            };
            Ok((Type::Quantified { quantifier: Quantifier::Exists, param, body: Box::new(body) }, q))
        } else {
            self.type_app_at(pos)
        }
    }

    /// An atom followed by any number of argument lists `(A1; ...; An)`,
    /// folded to the left.
    fn type_app_at(&self, pos: usize) -> (r: Result<(Type, usize), ParseError>)
        requires
            pos <= self.len(),
        ensures
            r is Ok <==> type_app_from(self.tokens(), pos as int) is Some,
            r matches Ok((t, q)) ==> {
                &&& type_app_from(self.tokens(), pos as int) == Some((type_view(t), q as int))
                &&& pos < q <= self.len()
            },
        decreases self.len() - pos, 2nat,
    {
        let ghost ts = self.tokens();
        proof {
            self.lemma_tokens_len();
        }
        let (mut t, mut q) = match self.type_atom_at(pos) {
            Ok(x) => x,
            Err(e) => return Err(e),
        };
        while self.is_sym(q, Sym::LParen)
            invariant
                ts == self.tokens(),
                ts.len() == self.len(),
                pos < q <= self.len(),
                type_app_from(ts, pos as int) == app_tail(ts, type_view(t), q as int),
            decreases self.len() - q,
        {
            let ghost q0 = q;
            q = q + 1;
            loop
                invariant_except_break
                    type_app_from(ts, pos as int) == args_acc(ts, type_view(t), q as int),
                invariant
                    ts == self.tokens(),
                    ts.len() == self.len(),
                    pos < q <= self.len(),
                    q0 < q,
                ensures
                    pos < q <= self.len(),
                    q0 < q,
                    type_app_from(ts, pos as int) == (if sym_at(ts, q as int, Sym::RParen) {
                        app_tail(ts, type_view(t), q + 1)
                    } else {
                        None
                    }),
                decreases self.len() - q,
            {
                let ghost qa = q as int;
                let ghost tv = type_view(t);
                let (a, q2) = match self.type_at(q) {
                    Ok(x) => x,
                    Err(e) => {
                        proof {
                            assert(args_acc(ts, tv, qa) is None);
                        }
                        return Err(e);
                    },
                };
                t = Type::App { constructor: Box::new(t), param: Box::new(a) };
                q = q2;
                if self.is_sym(q, Sym::Semi) {
                    q = q + 1;
                    if self.is_sym(q, Sym::RParen) {
                        proof {
                            assert(args_acc(ts, tv, qa) == app_tail(ts, type_view(t), q + 1));
                        }
                        break;
                    }
                    proof {
                        assert(args_acc(ts, tv, qa) == args_acc(ts, type_view(t), q as int));
                    }
                } else {
                    proof {
                        assert(args_acc(ts, tv, qa) == (if sym_at(ts, q as int, Sym::RParen) {
                            app_tail(ts, type_view(t), q + 1)
                        } else {
                            None
                        }));
                    }
                    break;
                }
            }
            q = match self.expect(q, Sym::RParen) {
                Ok(q) => q,
                Err(e) => return Err(e),
            };
        }
        Ok((t, q))
    }

    /// `()`, `(T)`, or an identifier.
    fn type_atom_at(&self, pos: usize) -> (r: Result<(Type, usize), ParseError>)
        requires
            pos <= self.len(),
        ensures
            r is Ok <==> type_atom_from(self.tokens(), pos as int) is Some,
            r matches Ok((t, q)) ==> {
                &&& type_atom_from(self.tokens(), pos as int) == Some((type_view(t), q as int))
                &&& pos < q <= self.len()
            },
        decreases self.len() - pos, 1nat,
    {
        if self.is_sym(pos, Sym::LParen) {
            if self.is_sym(pos + 1, Sym::RParen) {
                return Ok((Type::Unit, pos + 2));
            }
            let (t, q) = match self.type_at(pos + 1) {
                Ok(x) => x,
                Err(e) => return Err(e),
            };
            let q = match self.expect(q, Sym::RParen) {
                Ok(q) => q,
                Err(e) => return Err(e),
            };
            Ok((t, q))
        } else {
            let (ident, q) = match self.ident_at(pos) {
                Ok(x) => x,
                Err(e) => return Err(e),
            };
            Ok((Type::Var { ident }, q))
        }
    }

    /// A full expression: prefix forms separated by `,`, nested to the
    /// right, with an optional trailing `,`.
    fn expr_at(&self, pos: usize) -> (r: Result<(Expr, usize), ParseError>)
        requires
            pos <= self.len(),
        ensures
            r is Ok <==> expr_from(self.tokens(), pos as int) is Some,
            r matches Ok((e, q)) ==> {
                &&& expr_from(self.tokens(), pos as int) == Some((expr_view(e), q as int))
                &&& pos < q <= self.len()
                &&& binders_nonempty(e)
            },
        decreases self.len() - pos, 5nat,
    {
        let (first, q) = match self.prefix_at(pos) {
            Ok(x) => x,
            Err(e) => return Err(e),
        };
        if self.is_sym(q, Sym::Comma) && !self.ends_expr(q + 1) {
            let (rest, q2) = match self.expr_at(q + 1) {
                Ok(x) => x,
                Err(e) => return Err(e),
            };
            Ok((Expr::Pair { left: Box::new(first), right: Box::new(rest) }, q2))
        } else if self.is_sym(q, Sym::Comma) {
            Ok((first, q + 1))
        } else {
            Ok((first, q))
        }
    }

    /// Whether the token at `pos` cannot start an expression.
    fn ends_expr(&self, pos: usize) -> (r: bool)
        ensures
            r == ends_expr_at(self.tokens(), pos as int),
    {
        proof {
            self.lemma_tokens_len();
        }
        if pos >= self.toks.len() {
            true
        } else {
            match &self.toks[pos].token {
                Token::Name(_) => false,
                Token::Int(_) => true,
                Token::Sym(s) => !(*s == Sym::LParen || *s == Sym::Move || *s == Sym::Let
                    || *s == Sym::LetExists || *s == Sym::MakeExists || *s == Sym::Func),
            }
        }
    }

    /// `N1, ..., Nk` with `k >= 1` and an optional trailing `,`, up to `=`.
    fn let_names_at(&self, pos: usize) -> (r: Result<(Vec<Ident>, usize), ParseError>)
        requires
            pos <= self.len(),
        ensures
            r is Ok <==> names_acc(self.tokens(), Seq::empty(), pos as int) is Some,
            r matches Ok((ns, q)) ==> {
                &&& names_acc(self.tokens(), Seq::empty(), pos as int) == Some((idents_view(ns@), q as int))
                &&& pos < q <= self.len()
                &&& ns@.len() >= 1
            },
    {
        let ghost ts = self.tokens();
        proof {
            self.lemma_tokens_len();
        }
        let mut names: Vec<Ident> = Vec::new();
        let mut q = pos;
        proof {
            assert(idents_view(names@) =~= Seq::<(Seq<char>, u64)>::empty());
        }
        loop
            invariant_except_break
                names_acc(ts, Seq::empty(), pos as int) == names_acc(ts, idents_view(names@), q as int),
            invariant
                ts == self.tokens(),
                ts.len() == self.len(),
                pos <= q <= self.len(),
                names@.len() >= 1 ==> pos < q,
            ensures
                pos < q <= self.len(),
                names@.len() >= 1,
                names_acc(ts, Seq::empty(), pos as int) == Some((idents_view(names@), q as int)),
            decreases self.len() - q,
        {
            let ghost q0 = q as int;
            let ghost before = idents_view(names@);
            let (id, q2) = match self.ident_at(q) {
                Ok(x) => x,
                Err(e) => {
                    proof {
                        assert(names_acc(ts, before, q0) is None);
                    }
                    return Err(e);
                },
            };
            names.push(id);
            proof {
                assert(idents_view(names@) =~= before.push(id@));
            }
            q = q2;
            if self.is_sym(q, Sym::Comma) {
                q = q + 1;
                if self.is_sym(q, Sym::Equals) {
                    proof {
                        assert(names_acc(ts, before, q0) == Some((idents_view(names@), q as int)));
                    }
                    break;
                }
                proof {
                    assert(names_acc(ts, before, q0) == names_acc(ts, idents_view(names@), q as int));
                }
            } else {
                proof {
                    assert(names_acc(ts, before, q0) == Some((idents_view(names@), q as int)));
                }
                break;
            }
        }
        Ok((names, q))
    }

    /// `{N1; ...; Nk}` with `k >= 1` and an optional trailing `;`.
    fn brace_names_at(&self, pos: usize) -> (r: Result<(Vec<Ident>, usize), ParseError>)
        requires
            pos <= self.len(),
        ensures
            r is Ok <==> brace_names_from(self.tokens(), pos as int) is Some,
            r matches Ok((ns, q)) ==> {
                &&& brace_names_from(self.tokens(), pos as int) == Some((idents_view(ns@), q as int))
                &&& pos < q <= self.len()
                &&& ns@.len() >= 1
            },
    {
        let ghost ts = self.tokens();
        proof {
            self.lemma_tokens_len();
        }
        let mut q = match self.expect(pos, Sym::LBrace) {
            Ok(q) => q,
            Err(e) => return Err(e),
        };
        let mut names: Vec<Ident> = Vec::new();
        proof {
            assert(idents_view(names@) =~= Seq::<(Seq<char>, u64)>::empty());
        }
        loop
            invariant_except_break
                brace_names_acc(ts, Seq::empty(), pos + 1) == brace_names_acc(ts, idents_view(names@), q as int),
            invariant
                ts == self.tokens(),
                ts.len() == self.len(),
                sym_at(ts, pos as int, Sym::LBrace),
                pos < q <= self.len(),
            ensures
                pos < q <= self.len(),
                names@.len() >= 1,
                brace_names_acc(ts, Seq::empty(), pos + 1) == Some((idents_view(names@), q as int)),
            decreases self.len() - q,
        {
            let ghost q0 = q as int;
            let ghost before = idents_view(names@);
            let (id, q2) = match self.ident_at(q) {
                Ok(x) => x,
                Err(e) => {
                    proof {
                        assert(brace_names_acc(ts, before, q0) is None);
                    }
                    return Err(e);
                },
            };
            names.push(id);
            proof {
                assert(idents_view(names@) =~= before.push(id@));
            }
            q = q2;
            if self.is_sym(q, Sym::Semi) {
                q = q + 1;
                if self.is_sym(q, Sym::RBrace) {
                    proof {
                        assert(brace_names_acc(ts, before, q0) == Some((idents_view(names@), q as int)));
                    }
                    break;
                }
                proof {
                    assert(brace_names_acc(ts, before, q0) == brace_names_acc(ts, idents_view(names@), q as int));
                }
            } else {
                proof {
                    assert(brace_names_acc(ts, before, q0) == Some((idents_view(names@), q as int)));
                }
                break;
            }
        }
        let q = match self.expect(q, Sym::RBrace) {
            Ok(q) => q,
            Err(e) => return Err(e),
        };
        Ok((names, q))
    }

    /// `{T1 = U1; ...; Tm = Um}` with `m >= 1` and an optional trailing `;`.
    fn witnesses_at(&self, pos: usize) -> (r: Result<(Vec<(Ident, Type)>, usize), ParseError>)
        requires
            pos <= self.len(),
        ensures
            r is Ok <==> witnesses_from(self.tokens(), pos as int) is Some,
            r matches Ok((ws, q)) ==> {
                &&& witnesses_from(self.tokens(), pos as int) == Some((witnesses_view(ws@), q as int))
                &&& pos < q <= self.len()
                &&& ws@.len() >= 1
            },
    {
        let ghost ts = self.tokens();
        proof {
            self.lemma_tokens_len();
        }
        let mut q = match self.expect(pos, Sym::LBrace) {
            Ok(q) => q,
            Err(e) => return Err(e),
        };
        let mut ws: Vec<(Ident, Type)> = Vec::new();
        proof {
            assert(witnesses_view(ws@) =~= Seq::<((Seq<char>, u64), TypeV)>::empty());
        }
        loop
            invariant_except_break
                witnesses_acc(ts, Seq::empty(), pos + 1) == witnesses_acc(ts, witnesses_view(ws@), q as int),
            invariant
                ts == self.tokens(),
                ts.len() == self.len(),
                sym_at(ts, pos as int, Sym::LBrace),
                pos < q <= self.len(),
            ensures
                pos < q <= self.len(),
                ws@.len() >= 1,
                witnesses_acc(ts, Seq::empty(), pos + 1) == Some((witnesses_view(ws@), q as int)),
            decreases self.len() - q,
        {
            let ghost q0 = q as int;
            let ghost before = witnesses_view(ws@);
            let (id, q1) = match self.ident_at(q) {
                Ok(x) => x,
                Err(e) => {
                    proof {
                        assert(witnesses_acc(ts, before, q0) is None);
                    }
                    return Err(e);
                },
            };
            let q1 = match self.expect(q1, Sym::Equals) {
                Ok(q) => q,
                Err(e) => {
                    proof {
                        assert(witnesses_acc(ts, before, q0) is None);
                    }
                    return Err(e);
                },
            };
            let (t, q2) = match self.type_at(q1) {
                Ok(x) => x,
                Err(e) => {
                    proof {
                        assert(witnesses_acc(ts, before, q0) is None);
                    }
                    return Err(e);
                },
            };
            let ghost w = (id@, type_view(t));
            ws.push((id, t));
            proof {
                assert(witnesses_view(ws@) =~= before.push(w));
            }
            q = q2;
            if self.is_sym(q, Sym::Semi) {
                q = q + 1;
                if self.is_sym(q, Sym::RBrace) {
                    proof {
                        assert(witnesses_acc(ts, before, q0) == Some((witnesses_view(ws@), q as int)));
                    }
                    break;
                }
                proof {
                    assert(witnesses_acc(ts, before, q0) == witnesses_acc(ts, witnesses_view(ws@), q as int));
                }
            } else {
                proof {
                    assert(witnesses_acc(ts, before, q0) == Some((witnesses_view(ws@), q as int)));
                }
                break;
            }
        }
        let q = match self.expect(q, Sym::RBrace) {
            Ok(q) => q,
            Err(e) => return Err(e),
        };
        Ok((ws, q))
    }

    /// The prefix forms `let`, `let_exists`, `make_exists` and `func`, or an
    /// application.
    fn prefix_at(&self, pos: usize) -> (r: Result<(Expr, usize), ParseError>)
        requires
            pos <= self.len(),
        ensures
            r is Ok <==> prefix_from(self.tokens(), pos as int) is Some,
            r matches Ok((e, q)) ==> {
                &&& prefix_from(self.tokens(), pos as int) == Some((expr_view(e), q as int))
                &&& pos < q <= self.len()
                &&& binders_nonempty(e)
            },
        decreases self.len() - pos, 4nat,
    {
        if self.is_sym(pos, Sym::Let) {
            let (names, q) = match self.let_names_at(pos + 1) {
                Ok(x) => x,
                Err(e) => return Err(e),
            };
            let q = match self.expect(q, Sym::Equals) {
                Ok(q) => q,
                Err(e) => return Err(e),
            };
            let (val, q) = match self.expr_at(q) {
                Ok(x) => x,
                Err(e) => return Err(e),
            };
            let q = match self.expect(q, Sym::In) {
                Ok(q) => q,
                Err(e) => return Err(e),
            };
            let (body, q) = match self.expr_at(q) {
                Ok(x) => x,
                Err(e) => return Err(e),
            };
            Ok((Expr::Let { names, val: Box::new(val), body: Box::new(body) }, q))
        } else if self.is_sym(pos, Sym::LetExists) {
            let (type_names, q) = match self.brace_names_at(pos + 1) {
                Ok(x) => x,
                Err(e) => return Err(e),
            };
            let (val_name, q) = match self.ident_at(q) {
                Ok(x) => x,
                Err(e) => return Err(e),
            };
            let q = match self.expect(q, Sym::Equals) {
                Ok(q) => q,
                Err(e) => return Err(e),
            };
            let (val, q) = match self.expr_at(q) {
                Ok(x) => x,
                Err(e) => return Err(e),
            };
            let q = match self.expect(q, Sym::In) {
                Ok(q) => q,
                Err(e) => return Err(e),
            };
            let (body, q) = match self.expr_at(q) {
                Ok(x) => x,
                Err(e) => return Err(e),
            };
            Ok((Expr::LetExists { type_names, val_name, val: Box::new(val), body: Box::new(body) }, q))
        } else if self.is_sym(pos, Sym::MakeExists) {
            let (params, q) = match self.witnesses_at(pos + 1) {
                Ok(x) => x,
                Err(e) => return Err(e),
            };
            let (type_body, q) = match self.type_at(q) {
                Ok(x) => x,
                Err(e) => return Err(e),
            };
            let q = match self.expect(q, Sym::Of) {
                Ok(q) => q,
                Err(e) => return Err(e),
            };
            let (body, q) = match self.expr_at(q) {
                Ok(x) => x,
                Err(e) => return Err(e),
            };
            Ok((Expr::MakeExists { params, type_body, body: Box::new(body) }, q))
        } else if self.is_sym(pos, Sym::Func) {
            let mut q = pos + 1;
            let mut type_params: Vec<TypeParam> = Vec::new();
            proof {
                assert(params_view(type_params@) =~= Seq::<((Seq<char>, u64), KindV)>::empty());
            }
            if self.is_sym(q, Sym::LBrace) {
                let (ps, q2) = match self.type_params_at(q) {
                    Ok(x) => x,
                    Err(e) => return Err(e),
                };
                type_params = ps;
                q = q2;
            }
            let q = match self.expect(q, Sym::LParen) {
                Ok(q) => q,
                Err(e) => return Err(e),
            };
            let (arg_name, q) = match self.ident_at(q) {
                Ok(x) => x,
                Err(e) => return Err(e),
            };
            let q = match self.expect(q, Sym::Colon) {
                Ok(q) => q,
                Err(e) => return Err(e),
            };
            let (arg_type, q) = match self.type_at(q) {
                Ok(x) => x,
                Err(e) => return Err(e),
            };
            let q = match self.expect(q, Sym::RParen) {
                Ok(q) => q,
                Err(e) => return Err(e),
            };
            let q = match self.expect(q, Sym::Arrow) {
                Ok(q) => q,
                Err(e) => return Err(e),
            };
            let (body, q) = match self.expr_at(q) {
                Ok(x) => x,
                Err(e) => return Err(e),
            };
            Ok((Expr::Func { type_params, arg_name, arg_type, body: Box::new(body) }, q))
        } else {
            self.expr_app_at(pos)
        }
    }

    /// A callee followed by any number of calls `{T1; ...; Tn}?(A)`.
    fn expr_app_at(&self, pos: usize) -> (r: Result<(Expr, usize), ParseError>)
        requires
            pos <= self.len(),
        ensures
            r is Ok <==> expr_app_from(self.tokens(), pos as int) is Some,
            r matches Ok((e, q)) ==> {
                &&& expr_app_from(self.tokens(), pos as int) == Some((expr_view(e), q as int))
                &&& pos < q <= self.len()
                &&& binders_nonempty(e)
            },
        decreases self.len() - pos, 3nat,
    {
        let ghost ts = self.tokens();
        proof {
            self.lemma_tokens_len();
        }
        let (mut e, mut q) = match self.move_at(pos) {
            Ok(x) => x,
            Err(e) => return Err(e),
        };
        while self.is_sym(q, Sym::LBrace) || self.is_sym(q, Sym::LParen)
            invariant
                ts == self.tokens(),
                ts.len() == self.len(),
                pos < q <= self.len(),
                binders_nonempty(e),
                expr_app_from(ts, pos as int) == call_tail(ts, expr_view(e), q as int),
            decreases self.len() - q,
        {
            let ghost q0 = q;
            let ghost f = expr_view(e);
            let mut type_params: Vec<Type> = Vec::new();
            proof {
                assert(types_view(type_params@) =~= Seq::<TypeV>::empty());
            }
            if self.is_sym(q, Sym::LBrace) {
                q = q + 1;
                loop
                    invariant_except_break
                        expr_app_from(ts, pos as int) == targs_acc(ts, f, types_view(type_params@), q as int),
                    invariant
                        ts == self.tokens(),
                        ts.len() == self.len(),
                        q0 < q <= self.len(),
                    ensures
                        q0 < q <= self.len(),
                        expr_app_from(ts, pos as int) == (if sym_at(ts, q as int, Sym::RBrace) {
                            call_arg(ts, f, types_view(type_params@), q + 1)
                        } else {
                            None
                        }),
                    decreases self.len() - q,
                {
                    let ghost qa = q as int;
                    let ghost before = types_view(type_params@);
                    let (t, q2) = match self.type_at(q) {
                        Ok(x) => x,
                        Err(e) => {
                            proof {
                                assert(targs_acc(ts, f, before, qa) is None);
                            }
                            return Err(e);
                        },
                    };
                    type_params.push(t);
                    proof {
                        assert(types_view(type_params@) =~= before.push(type_view(t)));
                    }
                    q = q2;
                    if self.is_sym(q, Sym::Semi) {
                        q = q + 1;
                        if self.is_sym(q, Sym::RBrace) {
                            proof {
                                assert(targs_acc(ts, f, before, qa) == call_arg(ts, f, types_view(type_params@), q + 1));
                            }
                            break;
                        }
                        proof {
                            assert(targs_acc(ts, f, before, qa) == targs_acc(ts, f, types_view(type_params@), q as int));
                        }
                    } else {
                        proof {
                            assert(targs_acc(ts, f, before, qa) == (if sym_at(ts, q as int, Sym::RBrace) {
                                call_arg(ts, f, types_view(type_params@), q + 1)
                            } else {
                                None
                            }));
                        }
                        break;
                    }
                }
                q = match self.expect(q, Sym::RBrace) {
                    Ok(q) => q,
                    Err(e) => return Err(e),
                };
            }
            let ghost tv = types_view(type_params@);
            assert(expr_app_from(ts, pos as int) == call_arg(ts, f, tv, q as int));
            let q1 = match self.expect(q, Sym::LParen) {
                Ok(q) => q,
                Err(e) => return Err(e),
            };
            let (arg, q2) = match self.expr_at(q1) {
                Ok(x) => x,
                Err(e) => return Err(e),
            };
            q = match self.expect(q2, Sym::RParen) {
                Ok(q) => q,
                Err(e) => return Err(e),
            };
            e = Expr::App { callee: Box::new(e), type_params, arg: Box::new(arg) };
        }
        Ok((e, q))
    }

    /// `move x`, or an atom.
    fn move_at(&self, pos: usize) -> (r: Result<(Expr, usize), ParseError>)
        requires
            pos <= self.len(),
        ensures
            r is Ok <==> move_from(self.tokens(), pos as int) is Some,
            r matches Ok((e, q)) ==> {
                &&& move_from(self.tokens(), pos as int) == Some((expr_view(e), q as int))
                &&& pos < q <= self.len()
                &&& binders_nonempty(e)
            },
        decreases self.len() - pos, 2nat,
    {
        if self.is_sym(pos, Sym::Move) {
            match self.expr_atom_at(pos + 1) {
                Ok((Expr::Var { ident, .. }, q)) => Ok((Expr::Var { usage: VarUsage::Move, ident }, q)),
                Ok(_) => Err(self.unexpected(pos + 1, Expected::Var)),
                Err(e) => Err(e),
            }
        } else {
            self.expr_atom_at(pos)
        }
    }

    /// `()`, `(E)`, or an identifier.
    fn expr_atom_at(&self, pos: usize) -> (r: Result<(Expr, usize), ParseError>)
        requires
            pos <= self.len(),
        ensures
            r is Ok <==> expr_atom_from(self.tokens(), pos as int) is Some,
            r matches Ok((e, q)) ==> {
                &&& expr_atom_from(self.tokens(), pos as int) == Some((expr_view(e), q as int))
                &&& pos < q <= self.len()
                &&& binders_nonempty(e)
            },
        decreases self.len() - pos, 1nat,
    {
        if self.is_sym(pos, Sym::LParen) {
            if self.is_sym(pos + 1, Sym::RParen) {
                return Ok((Expr::Unit, pos + 2));
            }
            let (e, q) = match self.expr_at(pos + 1) {
                Ok(x) => x,
                Err(e) => return Err(e),
            };
            let q = match self.expect(q, Sym::RParen) {
                Ok(q) => q,
                Err(e) => return Err(e),
            };
            Ok((e, q))
        } else {
            let (ident, q) = match self.ident_at(pos) {
                Ok(x) => x,
                Err(e) => return Err(e),
            };
            Ok((Expr::Var { usage: VarUsage::Copy, ident }, q))
        }
    }
}

/// What lexing `s` gives the parser: its tokens, or the lexical error.
pub open spec fn lexed(s: Seq<char>) -> Result<Seq<TokenV>, ParseError> {
    match lex_all(s) {
        Ok(ts) => Ok(token_values(ts)),
        Err(x) => Err(ParseError::LexError { offset: x.offset, kind: x.kind }),
    }
}

/// The identifier that the source text `s` spells, if it spells one.
pub open spec fn ident_of(s: Seq<char>) -> Option<(Seq<char>, u64)> {
    match lexed(s) {
        Ok(ts) => ident_tokens(ts),
        Err(_) => None,
    }
}

impl Parser {
    /// Lexes `s` and readies a parser over its tokens.
    pub fn new(s: &str) -> (r: Result<Parser, ParseError>)
        ensures
            match lexed(s@) {
                Ok(ts) => r matches Ok(p) && p.tokens() == ts,
                Err(x) => r matches Err(y) && y == x,
            },
    {
        match tokenize(s) {
            Ok(toks) => {
                let eof = s.unicode_len();
                let p = Parser { toks, eof };
                proof {
                    let ts = lex_all(s@)->Ok_0;
                    assert(p.tokens() =~= token_values(ts));
                }
                Ok(p)
            },
            Err(x) => Err(ParseError::LexError { offset: x.offset, kind: x.kind }),
        }
    }

    /// Fails unless every token has been read.
    fn finish(&self, q: usize) -> (r: Result<(), ParseError>)
        ensures
            r is Ok <==> q == self.len(),
    {
        if q == self.toks.len() {
            Ok(())
        } else {
            Err(self.unexpected(q, Expected::End))
        }
    }
}

/// Parses an identifier, `name` or `name # integer`, with whitespace and
/// comments allowed between the parts.
pub fn ident(s: &str) -> (r: Result<Ident, ParseError>)
    ensures
        r is Ok <==> ident_of(s@) is Some,
        r matches Ok(id) ==> ident_of(s@) == Some(id@),
        lexed(s@) matches Err(x) ==> r == Err::<Ident, ParseError>(x),
{
    let p = match Parser::new(s) {
        Ok(p) => p,
        Err(e) => return Err(e),
    };
    let ghost ts = p.tokens();
    proof {
        p.lemma_tokens_len();
    }
    let (id, q) = match p.ident_at(0) {
        Ok(x) => x,
        Err(e) => return Err(e),
    };
    match p.finish(q) {
        Ok(()) => Ok(id),
        Err(e) => Err(e),
    }
}

/// Parses a bare name, raw or quoted, as a string.
pub fn name(s: &str) -> (r: Result<String, ParseError>)
    ensures
        r is Ok <==> (lexed(s@) matches Ok(ts) && ts.len() == 1 && ts[0] is Name),
        r matches Ok(n) ==> lexed(s@)->Ok_0[0] == TokenV::Name(n@),
        lexed(s@) matches Err(x) ==> r == Err::<String, ParseError>(x),
{
    let p = match Parser::new(s) {
        Ok(p) => p,
        Err(e) => return Err(e),
    };
    proof {
        p.lemma_tokens_len();
    }
    if p.toks.len() == 1 {
        match &p.toks[0].token {
            Token::Name(n) => {
                return Ok(n.clone());
            },
            _ => {},
        }
    }
    Err(p.unexpected(if p.toks.len() == 0 { 0 } else { 1 }, Expected::Name))
}

/// Accepts a text made only of whitespace and comments.
pub fn whitespace(s: &str) -> (r: Result<(), ParseError>)
    ensures
        r is Ok <==> (lexed(s@) matches Ok(ts) && ts.len() == 0),
        lexed(s@) matches Err(x) ==> r == Err::<(), ParseError>(x),
{
    let p = match Parser::new(s) {
        Ok(p) => p,
        Err(e) => return Err(e),
    };
    proof {
        p.lemma_tokens_len();
    }
    p.finish(0)
}

/// The kind that the whole source text `s` spells, if it spells one.
pub open spec fn kind_of(s: Seq<char>) -> Option<KindV> {
    match lexed(s) {
        Ok(ts) => match kind_from(ts, 0) {
            Some((k, j)) => if j == ts.len() {
                Some(k)
            } else {
                None
            },
            None => None,
        },
        Err(_) => None,
    }
}

/// Parses a kind.
pub fn kind(s: &str) -> (r: Result<Kind, ParseError>)
    ensures
        r is Ok <==> kind_of(s@) is Some,
        r matches Ok(k) ==> kind_of(s@) == Some(kind_view(k)),
        lexed(s@) matches Err(x) ==> r == Err::<Kind, ParseError>(x),
        r matches Ok(k) ==> constructor_nonempty(k),
{
    let p = match Parser::new(s) {
        Ok(p) => p,
        Err(e) => return Err(e),
    };
    proof {
        p.lemma_tokens_len();
    }
    let (k, q) = match p.kind_at(0) {
        Ok(x) => x,
        Err(e) => return Err(e),
    };
    match p.finish(q) {
        Ok(()) => Ok(k),
        Err(e) => Err(e),
    }
}

/// The type that the whole source text `s` spells, if it spells one.
pub open spec fn type_of(s: Seq<char>) -> Option<TypeV> {
    match lexed(s) {
        Ok(ts) => match type_from(ts, 0) {
            Some((t, j)) => if j == ts.len() {
                Some(t)
            } else {
                None
            },
            None => None,
        },
        Err(_) => None,
    }
}

/// Parses a type.
pub fn type_(s: &str) -> (r: Result<Type, ParseError>)
    ensures
        r is Ok <==> type_of(s@) is Some,
        r matches Ok(t) ==> type_of(s@) == Some(type_view(t)),
        lexed(s@) matches Err(x) ==> r == Err::<Type, ParseError>(x),
{
    let p = match Parser::new(s) {
        Ok(p) => p,
        Err(e) => return Err(e),
    };
    proof {
        p.lemma_tokens_len();
    }
    let (t, q) = match p.type_at(0) {
        Ok(x) => x,
        Err(e) => return Err(e),
    };
    match p.finish(q) {
        Ok(()) => Ok(t),
        Err(e) => Err(e),
    }
}

/// The expression that the whole source text `s` spells, if it spells one.
pub open spec fn expr_of(s: Seq<char>) -> Option<ExprV> {
    match lexed(s) {
        Ok(ts) => match expr_from(ts, 0) {
            Some((e, j)) => if j == ts.len() {
                Some(e)
            } else {
                None
            },
            None => None,
        },
        Err(_) => None,
    }
}

/// Parses an expression; every binder list in the result is non-empty.
pub fn expr(s: &str) -> (r: Result<Expr, ParseError>)
    ensures
        r is Ok <==> expr_of(s@) is Some,
        r matches Ok(e) ==> expr_of(s@) == Some(expr_view(e)),
        lexed(s@) matches Err(x) ==> r == Err::<Expr, ParseError>(x),
        r matches Ok(e) ==> binders_nonempty(e),
{
    let p = match Parser::new(s) {
        Ok(p) => p,
        Err(e) => return Err(e),
    };
    proof {
        p.lemma_tokens_len();
    }
    let (e, q) = match p.expr_at(0) {
        Ok(x) => x,
        Err(e) => return Err(e),
    };
    match p.finish(q) {
        Ok(()) => Ok(e),
        Err(e) => Err(e),
    }
}

} // verus!
