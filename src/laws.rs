//! Laws of the front end, proved over the spec-level lexer and grammar:
//! how names and quoted names parse, that leading whitespace and comments
//! change no parse, and that a closing `;` in a parameter list changes no
//! kind or parameter list.

use vstd::prelude::*;
use crate::lex::{
    LexErrorKind, Sym, TokenV, is_name_char, is_name_start, is_trivia, keyword, lemma_leading_trivia,
    lex_all, lex_from, lex_token, name_end, prepend, quoted, skip_trivia, token_values,
};
use crate::parse::{
    expr_of, ident_from, ident_of, kind_from, kind_list_from, kind_of, param_from, params_acc,
    params_block_from, sym_at, type_of,
};
use crate::syntax::KindV;

verus! {

/// `s` matches `[A-Za-z_][A-Za-z0-9_]*`.
pub open spec fn is_raw_name(s: Seq<char>) -> bool {
    &&& s.len() >= 1
    &&& is_name_start(s[0])
    &&& forall|i: int| 0 <= i < s.len() ==> is_name_char(#[trigger] s[i])
}

/// `t` written as a quoted name: each `\` and backtick preceded by `\`.
pub open spec fn escape(t: Seq<char>) -> Seq<char>
    decreases t.len(),
{
    if t.len() == 0 {
        Seq::empty()
    } else {
        let c = t[0];
        let head = if c == '\\' || c == '`' { seq!['\\', c] } else { seq![c] };
        head + escape(t.drop_first())
    }
}

/// `t` between backticks, escaped.
pub open spec fn quote(t: Seq<char>) -> Seq<char> {
    seq!['`'] + escape(t) + seq!['`']
}

proof fn lemma_name_end_at_end(s: Seq<char>, i: int)
    requires
        0 <= i <= s.len(),
        forall|k: int| 0 <= k < s.len() ==> is_name_char(#[trigger] s[k]),
    ensures
        name_end(s, i) == s.len(),
    decreases s.len() - i,
{
    if i < s.len() {
        lemma_name_end_at_end(s, i + 1);
    }
}

/// A word that is not a keyword and matches `[A-Za-z_][A-Za-z0-9_]*` parses
/// as the identifier of that name with collision tag `0`.
pub proof fn lemma_raw_name_ident(s: Seq<char>)
    requires
        is_raw_name(s),
        keyword(s) is None,
    ensures
        ident_of(s) == Some((s, 0u64)),
{
    lemma_name_end_at_end(s, 0);
    assert(skip_trivia(s, 0) == 0);
    assert(s.subrange(0, s.len() as int) =~= s);
    assert(lex_token(s, 0) == Ok::<(TokenV, int), crate::lex::LexError>((TokenV::Name(s), s.len() as int)));
    assert(skip_trivia(s, s.len() as int) == s.len());
    assert(lex_from(s, s.len() as int) == Ok::<Seq<(int, TokenV, int)>, crate::lex::LexError>(Seq::empty()));
    let ts = seq![(0int, TokenV::Name(s), s.len() as int)];
    assert(lex_all(s) == Ok::<Seq<(int, TokenV, int)>, crate::lex::LexError>(ts)) by {
        assert(seq![(0int, TokenV::Name(s), s.len() as int)] + Seq::<(int, TokenV, int)>::empty() =~= ts);
    }
    assert(token_values(ts) =~= seq![TokenV::Name(s)]);
}

proof fn lemma_quoted_escape(s: Seq<char>, i: int, t: Seq<char>)
    requires
        0 <= i,
        i + escape(t).len() < s.len(),
        s.subrange(i, i + escape(t).len()) == escape(t),
        s[i + escape(t).len()] == '`',
    ensures
        quoted(s, i) == Ok::<(Seq<char>, int), (LexErrorKind, int)>((t, i + escape(t).len() + 1)),
    decreases t.len(),
{
    let n = escape(t).len() as int;
    if t.len() == 0 {
        assert(s[i] == '`');
        assert(t =~= Seq::<char>::empty());
    } else {
        let c = t[0];
        let rest = t.drop_first();
        let er = escape(rest);
        if c == '\\' || c == '`' {
            assert(escape(t) == seq!['\\', c] + er);
            assert(s[i] == escape(t)[0]);
            assert(s[i + 1] == escape(t)[1]);
            assert(s.subrange(i + 2, i + 2 + er.len()) =~= er) by {
                assert forall|k: int| 0 <= k < er.len() implies s.subrange(i + 2, i + 2 + er.len())[k] == er[k] by {
                    assert(s[i + 2 + k] == s.subrange(i, i + n)[2 + k]);
                }
            }
            lemma_quoted_escape(s, i + 2, rest);
            assert(seq![c] + rest =~= t);
            assert(quoted(s, i) == prepend(c, quoted(s, i + 2)));
        } else {
            assert(escape(t) == seq![c] + er);
            assert(s[i] == escape(t)[0]);
            assert(s.subrange(i + 1, i + 1 + er.len()) =~= er) by {
                assert forall|k: int| 0 <= k < er.len() implies s.subrange(i + 1, i + 1 + er.len())[k] == er[k] by {
                    assert(s[i + 1 + k] == s.subrange(i, i + n)[1 + k]);
                }
            }
            lemma_quoted_escape(s, i + 1, rest);
            assert(seq![c] + rest =~= t);
            assert(quoted(s, i) == prepend(c, quoted(s, i + 1)));
        }
    }
}

/// Any text, written between backticks with `\` and backtick escaped,
/// parses as the identifier of exactly that text with collision tag `0`.
pub proof fn lemma_quoted_ident(t: Seq<char>)
    ensures
        ident_of(quote(t)) == Some((t, 0u64)),
{
    let q = quote(t);
    let n = escape(t).len() as int;
    assert(q.len() == n + 2);
    assert(q.subrange(1, 1 + n) =~= escape(t));
    assert(q[1 + n] == '`');
    lemma_quoted_escape(q, 1, t);
    assert(skip_trivia(q, 0) == 0);
    assert(lex_token(q, 0) == Ok::<(TokenV, int), crate::lex::LexError>((TokenV::Name(t), q.len() as int)));
    assert(skip_trivia(q, q.len() as int) == q.len());
    assert(lex_from(q, q.len() as int) == Ok::<Seq<(int, TokenV, int)>, crate::lex::LexError>(Seq::empty()));
    let ts = seq![(0int, TokenV::Name(t), q.len() as int)];
    assert(lex_all(q) == Ok::<Seq<(int, TokenV, int)>, crate::lex::LexError>(ts)) by {
        assert(ts + Seq::<(int, TokenV, int)>::empty() =~= ts);
    }
    assert(token_values(ts) =~= seq![TokenV::Name(t)]);
}

/// Whitespace and closed `//` comments in front of a source text change
/// none of its parses: not as an identifier, a kind, a type or an expression.
pub proof fn lemma_leading_trivia_parses(w: Seq<char>, s: Seq<char>)
    requires
        is_trivia(w),
    ensures
        ident_of(w + s) == ident_of(s),
        kind_of(w + s) == kind_of(s),
        type_of(w + s) == type_of(s),
        expr_of(w + s) == expr_of(s),
{
    lemma_leading_trivia(w, s);
}

pub open spec fn shift_kind(r: Option<(KindV, int)>, n: int) -> Option<(KindV, int)> {
    match r {
        Some((k, j)) => Some((k, j + n)),
        None => None,
    }
}

pub open spec fn shift_kind_list(r: Option<(Seq<KindV>, bool, int)>, n: int) -> Option<(Seq<KindV>, bool, int)> {
    match r {
        Some((ks, t, e)) => Some((ks, t, e + n)),
        None => None,
    }
}

proof fn lemma_kind_prefix(p: Seq<TokenV>, r: Seq<TokenV>, i: int)
    requires
        0 <= i,
    ensures
        kind_from(p + r, p.len() + i) == shift_kind(kind_from(r, i), p.len() as int),
    decreases r.len() - i, 0nat,
{
    let t = p + r;
    let n = p.len() as int;
    assert forall|k: int| 0 <= k < r.len() implies #[trigger] t[n + k] == r[k] by {}
    if i < r.len() {
        assert(t[n + i] == r[i]);
    }
    assert(sym_at(t, n + i, Sym::LParen) == sym_at(r, i, Sym::LParen));
    if sym_at(r, i, Sym::LParen) {
        lemma_kind_list_prefix(p, r, i + 1);
        match kind_list_from(r, i + 1) {
            Some((ks, tr, m)) => {
                lemma_kind_list_end_bound(r, i + 1);
                if m < r.len() {
                    assert(t[n + m] == r[m]);
                }
                if m + 1 < r.len() {
                    assert(t[n + m + 1] == r[m + 1]);
                }
                assert(sym_at(t, n + m, Sym::RParen) == sym_at(r, m, Sym::RParen));
                assert(sym_at(t, n + m + 1, Sym::Arrow) == sym_at(r, m + 1, Sym::Arrow));
                if i < m && sym_at(r, m, Sym::RParen) && sym_at(r, m + 1, Sym::Arrow) {
                    lemma_kind_prefix(p, r, m + 2);
                }
            },
            None => {},
        }
    }
}

proof fn lemma_kind_list_prefix(p: Seq<TokenV>, r: Seq<TokenV>, i: int)
    requires
        0 <= i,
    ensures
        kind_list_from(p + r, p.len() + i) == shift_kind_list(kind_list_from(r, i), p.len() as int),
    decreases r.len() - i, 1nat,
{
    let t = p + r;
    let n = p.len() as int;
    assert forall|k: int| 0 <= k < r.len() implies #[trigger] t[n + k] == r[k] by {}
    lemma_kind_prefix(p, r, i);
    match kind_from(r, i) {
        Some((k, m)) => {
            lemma_kind_end_bound(r, i);
            if m < r.len() {
                assert(t[n + m] == r[m]);
            }
            if m + 1 < r.len() {
                assert(t[n + m + 1] == r[m + 1]);
            }
            assert(sym_at(t, n + m, Sym::Semi) == sym_at(r, m, Sym::Semi));
            assert(sym_at(t, n + m + 1, Sym::RParen) == sym_at(r, m + 1, Sym::RParen));
            if i < m <= r.len() && sym_at(r, m, Sym::Semi) && !sym_at(r, m + 1, Sym::RParen) {
                lemma_kind_list_prefix(p, r, m + 1);
            }
        },
        None => {},
    }
}

/// Two token sequences that agree on `[i, j)`.
pub open spec fn agree(a: Seq<TokenV>, b: Seq<TokenV>, i: int, j: int) -> bool {
    &&& 0 <= i
    &&& j <= a.len()
    &&& j <= b.len()
    &&& forall|k: int| i <= k < j ==> #[trigger] a[k] == b[k]
}

proof fn lemma_kind_local(a: Seq<TokenV>, b: Seq<TokenV>, i: int)
    requires
        0 <= i,
        kind_from(a, i) is Some,
        agree(a, b, i, kind_from(a, i)->Some_0.1),
        sym_at(a, kind_from(a, i)->Some_0.1, Sym::Arrow) == sym_at(b, kind_from(a, i)->Some_0.1, Sym::Arrow),
    ensures
        kind_from(b, i) == kind_from(a, i),
    decreases a.len() - i, 0nat,
{
    let j = kind_from(a, i)->Some_0.1;
    lemma_kind_end_bound(a, i);
    assert(a[i] == b[i]);
    if sym_at(a, i, Sym::LParen) {
        let (ks, tr, m) = kind_list_from(a, i + 1)->Some_0;
        lemma_kind_list_end_bound(a, i + 1);
        if sym_at(a, m + 1, Sym::Arrow) {
            lemma_kind_end_bound(a, m + 2);
            assert(a[m] == b[m]);
            assert(a[m + 1] == b[m + 1]);
            lemma_kind_list_local(a, b, i + 1);
            assert(kind_from(a, m + 2)->Some_0.1 == j);
            assert(agree(a, b, m + 2, j)) by {
                assert forall|k: int| m + 2 <= k < j implies #[trigger] a[k] == b[k] by {
                    assert(i <= k < j);
                }
            }
            lemma_kind_local(a, b, m + 2);
        } else {
            assert(j == m + 1);
            assert(a[m] == b[m]);
            lemma_kind_list_local(a, b, i + 1);
        }
    }
}

proof fn lemma_kind_list_local(a: Seq<TokenV>, b: Seq<TokenV>, i: int)
    requires
        0 <= i,
        kind_list_from(a, i) is Some,
        agree(a, b, i, kind_list_from(a, i)->Some_0.2 + 1),
    ensures
        kind_list_from(b, i) == kind_list_from(a, i),
    decreases a.len() - i, 1nat,
{
    let (k, m) = kind_from(a, i)->Some_0;
    let e = kind_list_from(a, i)->Some_0.2;
    lemma_kind_end_bound(a, i);
    if i < m <= a.len() && sym_at(a, m, Sym::Semi) {
        if sym_at(a, m + 1, Sym::RParen) {
            assert(e == m + 1);
            assert(a[m] == b[m]);
            assert(a[m + 1] == b[m + 1]);
            lemma_kind_local(a, b, i);
        } else {
            lemma_kind_list_end_bound(a, m + 1);
            assert(a[m] == b[m]);
            lemma_kind_local(a, b, i);
            assert(kind_list_from(a, m + 1)->Some_0.2 == e);
            assert(agree(a, b, m + 1, e + 1)) by {
                assert forall|k: int| m + 1 <= k < e + 1 implies #[trigger] a[k] == b[k] by {
                    assert(i <= k < e + 1);
                }
            }
            lemma_kind_list_local(a, b, m + 1);
        }
    } else {
        assert(e == m);
        if 0 <= m < a.len() {
            assert(a[m] == b[m]);
        }
        lemma_kind_local(a, b, i);
    }
}

proof fn lemma_kind_end_bound(a: Seq<TokenV>, i: int)
    requires
        kind_from(a, i) is Some,
    ensures
        i < kind_from(a, i)->Some_0.1,
    decreases a.len() - i, 0nat,
{
    if sym_at(a, i, Sym::LParen) {
        let (ks, tr, m) = kind_list_from(a, i + 1)->Some_0;
        if sym_at(a, m + 1, Sym::Arrow) {
            lemma_kind_end_bound(a, m + 2);
        }
    }
}

proof fn lemma_kind_list_end_bound(a: Seq<TokenV>, i: int)
    requires
        kind_list_from(a, i) is Some,
    ensures
        i < kind_list_from(a, i)->Some_0.2,
    decreases a.len() - i, 1nat,
{
    lemma_kind_end_bound(a, i);
    let (k, m) = kind_from(a, i)->Some_0;
    if i < m <= a.len() && sym_at(a, m, Sym::Semi) && !sym_at(a, m + 1, Sym::RParen) {
        lemma_kind_list_end_bound(a, m + 1);
    }
}

proof fn lemma_kind_list_trailing(a: Seq<TokenV>, b: Seq<TokenV>, i: int)
    requires
        0 <= i,
        kind_list_from(a, i) matches Some((_, t, _)) && !t,
        agree(a, b, i, kind_list_from(a, i)->Some_0.2),
        sym_at(b, kind_list_from(a, i)->Some_0.2, Sym::Semi),
        sym_at(b, kind_list_from(a, i)->Some_0.2 + 1, Sym::RParen),
        !sym_at(a, kind_list_from(a, i)->Some_0.2, Sym::Arrow),
    ensures
        kind_list_from(b, i) == Some(
            (kind_list_from(a, i)->Some_0.0, true, kind_list_from(a, i)->Some_0.2 + 1),
        ),
    decreases a.len() - i,
{
    let (ks, t, e) = kind_list_from(a, i)->Some_0;
    let (k, m) = kind_from(a, i)->Some_0;
    lemma_kind_end_bound(a, i);
    if i < m <= a.len() && sym_at(a, m, Sym::Semi) && !sym_at(a, m + 1, Sym::RParen) {
        lemma_kind_list_end_bound(a, m + 1);
        assert(a[m] == b[m]);
        assert(a[m + 1] == b[m + 1]);
        assert(agree(a, b, i, m)) by {
            assert forall|k: int| i <= k < m implies #[trigger] a[k] == b[k] by {
                assert(i <= k < e);
            }
        }
        lemma_kind_local(a, b, i);
        assert(agree(a, b, m + 1, e)) by {
            assert forall|k: int| m + 1 <= k < e implies #[trigger] a[k] == b[k] by {
                assert(i <= k < e);
            }
        }
        lemma_kind_list_trailing(a, b, m + 1);
    } else {
        assert(e == m);
        lemma_kind_local(a, b, i);
    }
}

/// The tokens of a constructor kind `( body ) -> post` after `pre`, with
/// or without a `;` closing the parameter list.
pub open spec fn ctor_tokens(pre: Seq<TokenV>, body: Seq<TokenV>, post: Seq<TokenV>, trailing: bool) -> Seq<
    TokenV,
> {
    let semi = if trailing { seq![TokenV::Sym(Sym::Semi)] } else { Seq::empty() };
    pre + seq![TokenV::Sym(Sym::LParen)] + body + semi + seq![TokenV::Sym(Sym::RParen), TokenV::Sym(Sym::Arrow)]
        + post
}

/// A `;` after the last parameter of a constructor kind changes neither
/// whether it parses nor the kind it parses to (only where it ends).
pub proof fn lemma_kind_trailing_semicolon(pre: Seq<TokenV>, body: Seq<TokenV>, post: Seq<TokenV>)
    requires
        kind_list_from(ctor_tokens(pre, body, post, false), pre.len() + 1int) matches Some((_, t, e)) && !t && e
            == pre.len() + 1 + body.len(),
    ensures
        kind_from(ctor_tokens(pre, body, post, true), pre.len() as int) == shift_kind(
            kind_from(ctor_tokens(pre, body, post, false), pre.len() as int),
            1,
        ),
{
    let a = ctor_tokens(pre, body, post, false);
    let b = ctor_tokens(pre, body, post, true);
    let n = pre.len() as int;
    let e = n + 1 + body.len();
    let head_a = pre + seq![TokenV::Sym(Sym::LParen)] + body + seq![TokenV::Sym(Sym::RParen), TokenV::Sym(Sym::Arrow)];
    let head_b = pre + seq![TokenV::Sym(Sym::LParen)] + body + seq![TokenV::Sym(Sym::Semi)] + seq![
        TokenV::Sym(Sym::RParen),
        TokenV::Sym(Sym::Arrow),
    ];
    assert(a =~= head_a + post);
    assert(b =~= head_b + post);
    assert(a[n] == TokenV::Sym(Sym::LParen));
    assert(b[n] == TokenV::Sym(Sym::LParen));
    assert(a[e] == TokenV::Sym(Sym::RParen));
    assert(a[e + 1] == TokenV::Sym(Sym::Arrow));
    assert(b[e] == TokenV::Sym(Sym::Semi));
    assert(b[e + 1] == TokenV::Sym(Sym::RParen));
    assert(b[e + 2] == TokenV::Sym(Sym::Arrow));
    assert(agree(a, b, n + 1, e)) by {
        assert forall|k: int| n + 1 <= k < e implies #[trigger] a[k] == b[k] by {
            assert(a[k] == body[k - n - 1]);
            assert(b[k] == body[k - n - 1]);
        }
    }
    lemma_kind_list_trailing(a, b, n + 1);
    lemma_kind_prefix(head_a, post, 0);
    lemma_kind_prefix(head_b, post, 0);
    assert(head_a.len() == e + 2);
    assert(head_b.len() == e + 3);
}

proof fn lemma_ident_local(a: Seq<TokenV>, b: Seq<TokenV>, i: int)
    requires
        0 <= i,
        ident_from(a, i) is Some,
        agree(a, b, i, ident_from(a, i)->Some_0.1),
        sym_at(a, ident_from(a, i)->Some_0.1, Sym::Hash) == sym_at(b, ident_from(a, i)->Some_0.1, Sym::Hash),
    ensures
        ident_from(b, i) == ident_from(a, i),
{
    assert(a[i] == b[i]);
    if sym_at(a, i + 1, Sym::Hash) {
        assert(a[i + 1] == b[i + 1]);
        assert(a[i + 2] == b[i + 2]);
    }
}

proof fn lemma_param_local(a: Seq<TokenV>, b: Seq<TokenV>, i: int)
    requires
        0 <= i,
        param_from(a, i) is Some,
        agree(a, b, i, param_from(a, i)->Some_0.1),
        sym_at(a, param_from(a, i)->Some_0.1, Sym::Arrow) == sym_at(b, param_from(a, i)->Some_0.1, Sym::Arrow),
    ensures
        param_from(b, i) == param_from(a, i),
{
    let j = param_from(a, i)->Some_0.1;
    let (id, m) = ident_from(a, i)->Some_0;
    lemma_kind_end_bound(a, m + 1);
    assert(i < m);
    assert(a[m] == b[m]);
    assert(agree(a, b, i, m)) by {
        assert forall|k: int| i <= k < m implies #[trigger] a[k] == b[k] by {
            assert(i <= k < j);
        }
    }
    lemma_ident_local(a, b, i);
    assert(agree(a, b, m + 1, j)) by {
        assert forall|k: int| m + 1 <= k < j implies #[trigger] a[k] == b[k] by {
            assert(i <= k < j);
        }
    }
    lemma_kind_local(a, b, m + 1);
}

proof fn lemma_params_trailing(
    a: Seq<TokenV>,
    b: Seq<TokenV>,
    acc: Seq<((Seq<char>, u64), KindV)>,
    i: int,
)
    requires
        0 <= i,
        params_acc(a, acc, i) is Some,
        i < params_acc(a, acc, i)->Some_0.1,
        !sym_at(a, params_acc(a, acc, i)->Some_0.1 - 1, Sym::Semi),
        agree(a, b, i, params_acc(a, acc, i)->Some_0.1),
        sym_at(b, params_acc(a, acc, i)->Some_0.1, Sym::Semi),
        sym_at(b, params_acc(a, acc, i)->Some_0.1 + 1, Sym::RBrace),
        !sym_at(a, params_acc(a, acc, i)->Some_0.1, Sym::Arrow),
    ensures
        params_acc(b, acc, i) == Some((params_acc(a, acc, i)->Some_0.0, params_acc(a, acc, i)->Some_0.1 + 1)),
    decreases a.len() - i,
{
    let (ps, e) = params_acc(a, acc, i)->Some_0;
    let (p, m) = param_from(a, i)->Some_0;
    let (id, m0) = ident_from(a, i)->Some_0;
    lemma_kind_end_bound(a, m0 + 1);
    if i < m <= a.len() && sym_at(a, m, Sym::Semi) {
        if sym_at(a, m + 1, Sym::RBrace) {
            // the list would end in `;` already, which the requirement excludes
            assert(e == m + 1);
        }
        lemma_params_end_bound(a, acc.push(p), m + 1);
        assert(a[m] == b[m]);
        assert(a[m + 1] == b[m + 1]);
        assert(agree(a, b, i, m)) by {
            assert forall|k: int| i <= k < m implies #[trigger] a[k] == b[k] by {
                assert(i <= k < e);
            }
        }
        lemma_param_local(a, b, i);
        assert(agree(a, b, m + 1, e)) by {
            assert forall|k: int| m + 1 <= k < e implies #[trigger] a[k] == b[k] by {
                assert(i <= k < e);
            }
        }
        lemma_params_trailing(a, b, acc.push(p), m + 1);
    } else {
        assert(e == m);
        lemma_param_local(a, b, i);
    }
}

proof fn lemma_params_end_bound(a: Seq<TokenV>, acc: Seq<((Seq<char>, u64), KindV)>, i: int)
    requires
        params_acc(a, acc, i) is Some,
    ensures
        i < params_acc(a, acc, i)->Some_0.1,
    decreases a.len() - i,
{
    let (p, m) = param_from(a, i)->Some_0;
    let (id, m0) = ident_from(a, i)->Some_0;
    lemma_kind_end_bound(a, m0 + 1);
    if i < m <= a.len() && sym_at(a, m, Sym::Semi) && !sym_at(a, m + 1, Sym::RBrace) {
        lemma_params_end_bound(a, acc.push(p), m + 1);
    }
}

/// The tokens of a type-parameter block `{ body }` after `pre`, with or
/// without a `;` closing the list.
pub open spec fn block_tokens(pre: Seq<TokenV>, body: Seq<TokenV>, post: Seq<TokenV>, trailing: bool) -> Seq<
    TokenV,
> {
    let semi = if trailing { seq![TokenV::Sym(Sym::Semi)] } else { Seq::empty() };
    pre + seq![TokenV::Sym(Sym::LBrace)] + body + semi + seq![TokenV::Sym(Sym::RBrace)] + post
}

/// A `;` after the last parameter of a type-parameter block that does not
/// already end in `;` changes neither whether the block parses nor the
/// parameters it gives (only where it ends).
pub proof fn lemma_params_trailing_semicolon(pre: Seq<TokenV>, body: Seq<TokenV>, post: Seq<TokenV>)
    requires
        body.len() >= 1,
        body.last() != TokenV::Sym(Sym::Semi),
        params_acc(block_tokens(pre, body, post, false), Seq::empty(), pre.len() + 1int) matches Some((_, e))
            && e == pre.len() + 1 + body.len(),
    ensures
        params_block_from(block_tokens(pre, body, post, true), pre.len() as int) == match params_block_from(
            block_tokens(pre, body, post, false),
            pre.len() as int,
        ) {
            Some((ps, j)) => Some((ps, j + 1)),
            None => None,
        },
{
    let a = block_tokens(pre, body, post, false);
    let b = block_tokens(pre, body, post, true);
    let n = pre.len() as int;
    let e = n + 1 + body.len();
    assert(a[n] == TokenV::Sym(Sym::LBrace));
    assert(b[n] == TokenV::Sym(Sym::LBrace));
    assert(a[e] == TokenV::Sym(Sym::RBrace));
    assert(a[e - 1] == body.last());
    assert(b[e] == TokenV::Sym(Sym::Semi));
    assert(b[e + 1] == TokenV::Sym(Sym::RBrace));
    assert(agree(a, b, n + 1, e)) by {
        assert forall|k: int| n + 1 <= k < e implies #[trigger] a[k] == b[k] by {
            assert(a[k] == body[k - n - 1]);
            assert(b[k] == body[k - n - 1]);
        }
    }
    lemma_params_trailing(a, b, Seq::empty(), n + 1);
}

} // verus!
