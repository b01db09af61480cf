//! The lexer. Positions are character offsets into the source (equal to
//! byte offsets on ASCII text). The spec functions below define the token
//! stream of a source text; `tokenize` is proved to compute it.

use vstd::prelude::*;

verus! {

/// Punctuation and keywords.
#[derive(Clone, Copy, Debug, PartialEq, Eq, Structural)]
pub enum Sym {
    LParen,
    RParen,
    LBrace,
    RBrace,
    Semi,
    Comma,
    Colon,
    Star,
    Arrow,
    Equals,
    Hash,
    Move,
    Let,
    LetExists,
    MakeExists,
    Func,
    Exists,
    Forall,
    Of,
    In,
    Place,
    Version,
}

#[derive(Debug)]
pub enum Token {
    Name(String),
    Int(u64),
    Sym(Sym),
}

/// The mathematical value of a token.
pub enum TokenV {
    Name(Seq<char>),
    Int(u64),
    Sym(Sym),
}

impl View for Token {
    type V = TokenV;

    open spec fn view(&self) -> TokenV {
        match self {
            Token::Name(s) => TokenV::Name(s@),
            Token::Int(n) => TokenV::Int(*n),
            Token::Sym(p) => TokenV::Sym(*p),
        }
    }
}

#[derive(Clone, Copy, Debug, PartialEq, Eq, Structural)]
pub enum LexErrorKind {
    UnterminatedQuote,
    BadEscape,
    BadChar,
    IntegerTooLarge,
}

/// A lexical error at a character offset.
#[derive(Clone, Copy, Debug, PartialEq, Eq, Structural)]
pub struct LexError {
    pub offset: usize,
    pub kind: LexErrorKind,
}

/// A token with the offsets where it starts and ends.
#[derive(Debug)]
pub struct Spanned {
    pub start: usize,
    pub token: Token,
    pub end: usize,
}

pub open spec fn is_space(c: char) -> bool {
    c == ' ' || c == '\t' || c == '\r' || c == '\n' || c == '\x0B'
}

pub open spec fn is_digit(c: char) -> bool {
    '0' <= c <= '9'
}

pub open spec fn is_name_start(c: char) -> bool {
    ('a' <= c <= 'z') || ('A' <= c <= 'Z') || c == '_'
}

pub open spec fn is_name_char(c: char) -> bool {
    is_name_start(c) || is_digit(c)
}

/// The position of the first `\n` at or after `i`, or the end of `s`.
pub open spec fn line_end(s: Seq<char>, i: int) -> int
    decreases s.len() - i,
{
    if i < 0 || i >= s.len() {
        s.len() as int
    } else if s[i] == '\n' {
        i
    } else {
        line_end(s, i + 1)
    }
}

/// The first position at or after `i` that starts neither whitespace nor a
/// `//` comment.
pub open spec fn skip_trivia(s: Seq<char>, i: int) -> int
    decreases s.len() - i,
{
    if i < 0 || i >= s.len() {
        i
    } else if is_space(s[i]) {
        skip_trivia(s, i + 1)
    } else if i + 1 < s.len() && s[i] == '/' && s[i + 1] == '/' {
        let e = line_end(s, i + 2);
        if i < e <= s.len() {
            skip_trivia(s, e)
        } else {
            i
        }
    } else {
        i
    }
}

/// The end of the run of name characters that starts at `i`.
pub open spec fn name_end(s: Seq<char>, i: int) -> int
    decreases s.len() - i,
{
    if 0 <= i < s.len() && is_name_char(s[i]) {
        name_end(s, i + 1)
    } else {
        i
    }
}

/// The end of the run of digits that starts at `i`.
pub open spec fn digits_end(s: Seq<char>, i: int) -> int
    decreases s.len() - i,
{
    if 0 <= i < s.len() && is_digit(s[i]) {
        digits_end(s, i + 1)
    } else {
        i
    }
}

/// The decimal value of the digits `s[i..j]`.
pub open spec fn digits_value(s: Seq<char>, i: int, j: int) -> nat
    decreases j - i,
{
    if j <= i {
        0
    } else {
        digits_value(s, i, j - 1) * 10 + ((s[j - 1] as nat) - ('0' as nat)) as nat
    }
}

/// The body of a quoted name whose opening backtick stands before `i`:
/// the unescaped text and the position after the closing backtick, or the
/// error and its offset.
pub open spec fn quoted(s: Seq<char>, i: int) -> Result<(Seq<char>, int), (LexErrorKind, int)>
    decreases s.len() - i,
{
    if i < 0 || i >= s.len() {
        Err((LexErrorKind::UnterminatedQuote, i))
    } else if s[i] == '`' {
        Ok((Seq::empty(), i + 1))
    } else if s[i] == '\\' {
        if i + 1 < s.len() && (s[i + 1] == '\\' || s[i + 1] == '`') {
            prepend(s[i + 1], quoted(s, i + 2))
        } else if i + 1 < s.len() {
            Err((LexErrorKind::BadEscape, i))
        } else {
            Err((LexErrorKind::UnterminatedQuote, i + 1))
        }
    } else {
        prepend(s[i], quoted(s, i + 1))
    }
}

pub open spec fn prepend(c: char, r: Result<(Seq<char>, int), (LexErrorKind, int)>) -> Result<
    (Seq<char>, int),
    (LexErrorKind, int),
> {
    match r {
        Ok((t, e)) => Ok((seq![c] + t, e)),
        Err(x) => Err(x),
    }
}

/// The keyword that a word spells, if any.
pub open spec fn keyword(w: Seq<char>) -> Option<Sym> {
    if w == "move"@ {
        Some(Sym::Move)
    } else if w == "let"@ {
        Some(Sym::Let)
    } else if w == "let_exists"@ {
        Some(Sym::LetExists)
    } else if w == "make_exists"@ {
        Some(Sym::MakeExists)
    } else if w == "func"@ {
        Some(Sym::Func)
    } else if w == "exists"@ {
        Some(Sym::Exists)
    } else if w == "forall"@ {
        Some(Sym::Forall)
    } else if w == "of"@ {
        Some(Sym::Of)
    } else if w == "in"@ {
        Some(Sym::In)
    } else if w == "Place"@ {
        Some(Sym::Place)
    } else if w == "Version"@ {
        Some(Sym::Version)
    } else {
        None
    }
}

/// The punctuation that starts at `i`, with its length.
pub open spec fn punct(s: Seq<char>, i: int) -> Option<(Sym, int)> {
    let c = s[i];
    if c == '(' {
        Some((Sym::LParen, 1))
    } else if c == ')' {
        Some((Sym::RParen, 1))
    } else if c == '{' {
        Some((Sym::LBrace, 1))
    } else if c == '}' {
        Some((Sym::RBrace, 1))
    } else if c == ';' {
        Some((Sym::Semi, 1))
    } else if c == ',' {
        Some((Sym::Comma, 1))
    } else if c == ':' {
        Some((Sym::Colon, 1))
    } else if c == '*' {
        Some((Sym::Star, 1))
    } else if c == '=' {
        Some((Sym::Equals, 1))
    } else if c == '#' {
        Some((Sym::Hash, 1))
    } else if c == '-' && i + 1 < s.len() && s[i + 1] == '>' {
        Some((Sym::Arrow, 2))
    } else {
        None
    }
}

/// The token that starts at `i` (a position holding no trivia) and the
/// position after it.
pub open spec fn lex_token(s: Seq<char>, i: int) -> Result<(TokenV, int), LexError>
    recommends
        0 <= i < s.len(),
{
    let c = s[i];
    if is_name_start(c) {
        let e = name_end(s, i);
        let w = s.subrange(i, e);
        match keyword(w) {
            Some(k) => Ok((TokenV::Sym(k), e)),
            None => Ok((TokenV::Name(w), e)),
        }
    } else if is_digit(c) {
        let e = digits_end(s, i);
        let v = digits_value(s, i, e);
        if v <= u64::MAX {
            Ok((TokenV::Int(v as u64), e))
        } else {
            Err(LexError { offset: i as usize, kind: LexErrorKind::IntegerTooLarge })
        }
    } else if c == '`' {
        match quoted(s, i + 1) {
            Ok((t, e)) => Ok((TokenV::Name(t), e)),
            Err((k, o)) => Err(
                LexError {
                    offset: (if k == LexErrorKind::UnterminatedQuote { i } else { o }) as usize,
                    kind: k,
                },
            ),
        }
    } else {
        match punct(s, i) {
            Some((p, n)) => Ok((TokenV::Sym(p), i + n)),
            None => Err(LexError { offset: i as usize, kind: LexErrorKind::BadChar }),
        }
    }
}

/// The tokens of `s` from position `i` on, each with its start and end.
pub open spec fn lex_from(s: Seq<char>, i: int) -> Result<Seq<(int, TokenV, int)>, LexError>
    decreases s.len() - i,
{
    let j = skip_trivia(s, i);
    if j < i || j >= s.len() {
        Ok(Seq::empty())
    } else {
        match lex_token(s, j) {
            Ok((t, e)) => {
                if j < e <= s.len() {
                    match lex_from(s, e) {
                        Ok(rest) => Ok(seq![(j, t, e)] + rest),
                        Err(x) => Err(x),
                    }
                } else {
                    Ok(Seq::empty())
                }
            },
            Err(x) => Err(x),
        }
    }
}

/// The token stream of a whole source text.
pub open spec fn lex_all(s: Seq<char>) -> Result<Seq<(int, TokenV, int)>, LexError> {
    lex_from(s, 0)
}

/// The tokens alone, without their positions.
pub open spec fn token_values(ts: Seq<(int, TokenV, int)>) -> Seq<TokenV> {
    ts.map_values(|t: (int, TokenV, int)| t.1)
}

pub open spec fn prepend_all(
    pre: Seq<char>,
    r: Result<(Seq<char>, int), (LexErrorKind, int)>,
) -> Result<(Seq<char>, int), (LexErrorKind, int)> {
    match r {
        Ok((t, e)) => Ok((pre + t, e)),
        Err(x) => Err(x),
    }
}

pub open spec fn spans(v: Seq<Spanned>) -> Seq<(int, TokenV, int)> {
    v.map_values(|t: Spanned| (t.start as int, t.token@, t.end as int))
}

pub open spec fn prefix_tokens(
    pre: Seq<(int, TokenV, int)>,
    r: Result<Seq<(int, TokenV, int)>, LexError>,
) -> Result<Seq<(int, TokenV, int)>, LexError> {
    match r {
        Ok(ts) => Ok(pre + ts),
        Err(x) => Err(x),
    }
}

proof fn lemma_line_end_bounds(s: Seq<char>, i: int)
    requires
        0 <= i <= s.len(),
    ensures
        i <= line_end(s, i) <= s.len(),
    decreases s.len() - i,
{
    if i < s.len() && s[i] != '\n' {
        lemma_line_end_bounds(s, i + 1);
    }
}

proof fn lemma_digits_value_monotone(s: Seq<char>, i: int, j: int, k: int)
    requires
        i <= j <= k,
        forall|m: int| i <= m < k ==> is_digit(#[trigger] s[m]),
    ensures
        digits_value(s, i, j) <= digits_value(s, i, k),
    decreases k - j,
{
    if j < k {
        lemma_digits_value_monotone(s, i, j, k - 1);
    }
}

fn is_space_char(c: char) -> (r: bool)
    ensures
        r == is_space(c),
{
    c == ' ' || c == '\t' || c == '\r' || c == '\n' || c == '\x0B'
}

fn is_digit_char(c: char) -> (r: bool)
    ensures
        r == is_digit(c),
{
    '0' <= c && c <= '9'
}

fn is_name_start_char(c: char) -> (r: bool)
    ensures
        r == is_name_start(c),
{
    ('a' <= c && c <= 'z') || ('A' <= c && c <= 'Z') || c == '_'
}

fn is_name_char_char(c: char) -> (r: bool)
    ensures
        r == is_name_char(c),
{
    is_name_start_char(c) || is_digit_char(c)
}

/// The characters of `s`, in order.
pub fn chars_of(s: &str) -> (r: Vec<char>)
    ensures
        r@ == s@,
{
    let n = s.unicode_len();
    let mut out: Vec<char> = Vec::new();
    let mut i: usize = 0;
    while i < n
        invariant
            n == s@.len(),
            i <= n,
            out@ == s@.subrange(0, i as int),
        decreases n - i,
    {
        out.push(s.get_char(i));
        i = i + 1;
        proof {
            assert(out@ =~= s@.subrange(0, i as int));
        }
    }
    proof {
        assert(out@ =~= s@);
    }
    out
}

fn line_end_exec(cs: &Vec<char>, i: usize) -> (r: usize)
    requires
        i <= cs@.len(),
    ensures
        r == line_end(cs@, i as int),
        i <= r <= cs@.len(),
{
    let mut p = i;
    while p < cs.len() && cs[p] != '\n'
        invariant
            i <= p <= cs@.len(),
            line_end(cs@, p as int) == line_end(cs@, i as int),
        decreases cs@.len() - p,
    {
        p = p + 1;
    }
    p
}

/// The first position at or after `i` that is neither whitespace nor comment.
pub fn skip_trivia_exec(cs: &Vec<char>, i: usize) -> (r: usize)
    requires
        i <= cs@.len(),
    ensures
        r == skip_trivia(cs@, i as int),
        i <= r <= cs@.len(),
{
    let mut p = i;
    loop
        invariant
            i <= p <= cs@.len(),
            skip_trivia(cs@, p as int) == skip_trivia(cs@, i as int),
        decreases cs@.len() - p,
    {
        if p < cs.len() && is_space_char(cs[p]) {
            p = p + 1;
        } else if cs.len() - p >= 2 && cs[p] == '/' && cs[p + 1] == '/' {
            p = line_end_exec(cs, p + 2);
        } else {
            return p;
        }
    }
}

fn name_end_exec(cs: &Vec<char>, i: usize) -> (r: usize)
    requires
        i <= cs@.len(),
    ensures
        r == name_end(cs@, i as int),
        i <= r <= cs@.len(),
        forall|m: int| i <= m < r ==> is_name_char(#[trigger] cs@[m]),
{
    let mut p = i;
    while p < cs.len() && is_name_char_char(cs[p])
        invariant
            i <= p <= cs@.len(),
            name_end(cs@, p as int) == name_end(cs@, i as int),
            forall|m: int| i <= m < p ==> is_name_char(#[trigger] cs@[m]),
        decreases cs@.len() - p,
    {
        p = p + 1;
    }
    p
}

fn digits_end_exec(cs: &Vec<char>, i: usize) -> (r: usize)
    requires
        i <= cs@.len(),
    ensures
        r == digits_end(cs@, i as int),
        i <= r <= cs@.len(),
        forall|m: int| i <= m < r ==> is_digit(#[trigger] cs@[m]),
{
    let mut p = i;
    while p < cs.len() && is_digit_char(cs[p])
        invariant
            i <= p <= cs@.len(),
            digits_end(cs@, p as int) == digits_end(cs@, i as int),
            forall|m: int| i <= m < p ==> is_digit(#[trigger] cs@[m]),
        decreases cs@.len() - p,
    {
        p = p + 1;
    }
    p
}

/// The value of the digits `cs[i..e]`, if it fits in a `u64`.
fn digits_value_exec(cs: &Vec<char>, i: usize, e: usize) -> (r: Option<u64>)
    requires
        i <= e <= cs@.len(),
        forall|m: int| i <= m < e ==> is_digit(#[trigger] cs@[m]),
    ensures
        match r {
            Some(v) => v == digits_value(cs@, i as int, e as int),
            None => digits_value(cs@, i as int, e as int) > u64::MAX,
        },
{
    let mut acc: u64 = 0;
    let mut p = i;
    while p < e
        invariant
            i <= p <= e <= cs@.len(),
            forall|m: int| i <= m < e ==> is_digit(#[trigger] cs@[m]),
            acc == digits_value(cs@, i as int, p as int),
        decreases e - p,
    {
        let c = cs[p];
        assert(is_digit(cs@[p as int]));
        let d = (c as u32 - '0' as u32) as u64;
        let next = match acc.checked_mul(10) {
            Some(m) => m.checked_add(d),
            None => None,
        };
        match next {
            Some(v) => {
                acc = v;
                p = p + 1;
            },
            None => {
                proof {
                    assert(digits_value(cs@, i as int, (p + 1) as int) > u64::MAX);
                    lemma_digits_value_monotone(cs@, i as int, (p + 1) as int, e as int);
                }
                return None;
            },
        }
    }
    Some(acc)
}

fn lex_quoted(s: &str, cs: &Vec<char>, i: usize) -> (r: Result<(String, usize), (LexErrorKind, usize)>)
    requires
        cs@ == s@,
        i <= cs@.len(),
    ensures
        match quoted(cs@, i as int) {
            Ok((t, e)) => r matches Ok((st, e2)) && st@ == t && e2 == e,
            Err((k, o)) => r matches Err((k2, o2)) && k2 == k && o2 == o,
        },
{
    let mut out = String::new();
    let mut p = i;
    proof {
        assert(out@ == Seq::<char>::empty());
        match quoted(cs@, i as int) {
            Ok((t, e)) => assert(Seq::<char>::empty() + t =~= t),
            Err(_) => {},
        }
    }
    loop
        invariant
            cs@ == s@,
            i <= p <= cs@.len(),
            quoted(cs@, i as int) == prepend_all(out@, quoted(cs@, p as int)),
        decreases cs@.len() - p,
    {
        let ghost before = out@;
        if p >= cs.len() {
            return Err((LexErrorKind::UnterminatedQuote, p));
        }
        let c = cs[p];
        if c == '`' {
            proof {
                assert(before + Seq::<char>::empty() =~= before);
            }
            return Ok((out, p + 1));
        } else if c == '\\' {
            if p + 1 < cs.len() && (cs[p + 1] == '\\' || cs[p + 1] == '`') {
                out.append(s.substring_char(p + 1, p + 2));
                proof {
                    assert(s@.subrange(p + 1, p + 2) =~= seq![cs@[p + 1]]);
                    match quoted(cs@, p + 2) {
                        Ok((t, e)) => assert(before + (seq![cs@[p + 1]] + t) =~= out@ + t),
                        Err(_) => {},
                    }
                }
                p = p + 2;
            } else if p + 1 < cs.len() {
                return Err((LexErrorKind::BadEscape, p));
            } else {
                return Err((LexErrorKind::UnterminatedQuote, p + 1));
            }
        } else {
            out.append(s.substring_char(p, p + 1));
            proof {
                assert(s@.subrange(p as int, p + 1) =~= seq![cs@[p as int]]);
                match quoted(cs@, p + 1) {
                    Ok((t, e)) => assert(before + (seq![cs@[p as int]] + t) =~= out@ + t),
                    Err(_) => {},
                }
            }
            p = p + 1;
        }
    }
}

/// Whether `cs[i..e]` spells `w`.
fn spells(cs: &Vec<char>, i: usize, e: usize, w: &str) -> (r: bool)
    requires
        i <= e <= cs@.len(),
    ensures
        r == (cs@.subrange(i as int, e as int) == w@),
{
    let n = w.unicode_len();
    if e - i != n {
        return false;
    }
    let mut k: usize = 0;
    while k < n
        invariant
            n == w@.len(),
            e - i == n,
            i <= e <= cs@.len(),
            k <= n,
            forall|m: int| 0 <= m < k ==> cs@[i + m] == w@[m],
        decreases n - k,
    {
        if cs[i + k] != w.get_char(k) {
            proof {
                assert(cs@.subrange(i as int, e as int)[k as int] != w@[k as int]);
            }
            return false;
        }
        k = k + 1;
    }
    proof {
        assert(cs@.subrange(i as int, e as int) =~= w@);
    }
    true
}

fn keyword_exec(cs: &Vec<char>, i: usize, e: usize) -> (r: Option<Sym>)
    requires
        i <= e <= cs@.len(),
    ensures
        r == keyword(cs@.subrange(i as int, e as int)),
{
    if spells(cs, i, e, "move") {
        Some(Sym::Move)
    } else if spells(cs, i, e, "let") {
        Some(Sym::Let)
    } else if spells(cs, i, e, "let_exists") {
        Some(Sym::LetExists)
    } else if spells(cs, i, e, "make_exists") {
        Some(Sym::MakeExists)
    } else if spells(cs, i, e, "func") {
        Some(Sym::Func)
    } else if spells(cs, i, e, "exists") {
        Some(Sym::Exists)
    } else if spells(cs, i, e, "forall") {
        Some(Sym::Forall)
    } else if spells(cs, i, e, "of") {
        Some(Sym::Of)
    } else if spells(cs, i, e, "in") {
        Some(Sym::In)
    } else if spells(cs, i, e, "Place") {
        Some(Sym::Place)
    } else if spells(cs, i, e, "Version") {
        Some(Sym::Version)
    } else {
        None
    }
}

fn punct_exec(cs: &Vec<char>, i: usize) -> (r: Option<(Sym, usize)>)
    requires
        i < cs@.len(),
    ensures
        match punct(cs@, i as int) {
            Some((p, n)) => r == Some((p, n as usize)),
            None => r is None,
        },
{
    let c = cs[i];
    if c == '(' {
        Some((Sym::LParen, 1))
    } else if c == ')' {
        Some((Sym::RParen, 1))
    } else if c == '{' {
        Some((Sym::LBrace, 1))
    } else if c == '}' {
        Some((Sym::RBrace, 1))
    } else if c == ';' {
        Some((Sym::Semi, 1))
    } else if c == ',' {
        Some((Sym::Comma, 1))
    } else if c == ':' {
        Some((Sym::Colon, 1))
    } else if c == '*' {
        Some((Sym::Star, 1))
    } else if c == '=' {
        Some((Sym::Equals, 1))
    } else if c == '#' {
        Some((Sym::Hash, 1))
    } else if c == '-' && cs.len() - i >= 2 && cs[i + 1] == '>' {
        Some((Sym::Arrow, 2))
    } else {
        None
    }
}

fn lex_token_exec(s: &str, cs: &Vec<char>, i: usize) -> (r: Result<(Token, usize), LexError>)
    requires
        cs@ == s@,
        i < cs@.len() <= usize::MAX,
    ensures
        match lex_token(cs@, i as int) {
            Ok((t, e)) => r matches Ok((tok, e2)) && tok@ == t && e2 == e,
            Err(x) => r == Err::<(Token, usize), LexError>(x),
        },
{
    let c = cs[i];
    if is_name_start_char(c) {
        let e = name_end_exec(cs, i);
        match keyword_exec(cs, i, e) {
            Some(k) => Ok((Token::Sym(k), e)),
            None => Ok((Token::Name(String::from_str(s.substring_char(i, e))), e)),
        }
    } else if is_digit_char(c) {
        let e = digits_end_exec(cs, i);
        match digits_value_exec(cs, i, e) {
            Some(v) => Ok((Token::Int(v), e)),
            None => Err(LexError { offset: i, kind: LexErrorKind::IntegerTooLarge }),
        }
    } else if c == '`' {
        match lex_quoted(s, cs, i + 1) {
            Ok((t, e)) => Ok((Token::Name(t), e)),
            Err((k, o)) => {
                let offset = if k == LexErrorKind::UnterminatedQuote { i } else { o };
                Err(LexError { offset, kind: k })
            },
        }
    } else {
        match punct_exec(cs, i) {
            Some((p, n)) => Ok((Token::Sym(p), i + n)),
            None => Err(LexError { offset: i, kind: LexErrorKind::BadChar }),
        }
    }
}

/// Splits a source text into tokens; a lexical error stops at the first
/// offending character.
pub fn tokenize(s: &str) -> (r: Result<Vec<Spanned>, LexError>)
    ensures
        match lex_all(s@) {
            Ok(ts) => r matches Ok(v) && spans(v@) == ts,
            Err(x) => r == Err::<Vec<Spanned>, LexError>(x),
        },
{
    let cs = chars_of(s);
    let mut out: Vec<Spanned> = Vec::new();
    let mut p: usize = 0;
    proof {
        match lex_from(cs@, 0) {
            Ok(ts) => assert(spans(out@) + ts =~= ts),
            Err(_) => {},
        }
    }
    loop
        invariant
            cs@ == s@,
            p <= cs@.len(),
            lex_all(s@) == prefix_tokens(spans(out@), lex_from(cs@, p as int)),
        decreases cs@.len() - p,
    {
        let j = skip_trivia_exec(&cs, p);
        if j >= cs.len() {
            proof {
                assert(spans(out@) + Seq::<(int, TokenV, int)>::empty() =~= spans(out@));
            }
            return Ok(out);
        }
        match lex_token_exec(s, &cs, j) {
            Ok((tok, e)) => {
                proof {
                    lemma_token_advances(cs@, j as int);
                }
                let ghost before = spans(out@);
                let ghost item = (j as int, tok@, e as int);
                out.push(Spanned { start: j, token: tok, end: e });
                proof {
                    assert(spans(out@) =~= before.push(item));
                    match lex_from(cs@, e as int) {
                        Ok(rest) => assert(before + (seq![item] + rest) =~= spans(out@) + rest),
                        Err(_) => {},
                    }
                }
                p = e;
            },
            Err(x) => {
                return Err(x);
            },
        }
    }
}

/// A token that lexes ends after it starts and within the text.
proof fn lemma_token_advances(s: Seq<char>, i: int)
    requires
        0 <= i < s.len(),
    ensures
        lex_token(s, i) matches Ok((t, e)) ==> i < e <= s.len(),
{
    let c = s[i];
    if is_name_start(c) {
        lemma_name_end_bounds(s, i);
    } else if is_digit(c) {
        lemma_digits_end_bounds(s, i);
    } else if c == '`' {
        lemma_quoted_bounds(s, i + 1);
    }
}

proof fn lemma_name_end_bounds(s: Seq<char>, i: int)
    requires
        0 <= i <= s.len(),
    ensures
        i <= name_end(s, i) <= s.len(),
        i < s.len() && is_name_char(s[i]) ==> i < name_end(s, i),
    decreases s.len() - i,
{
    if i < s.len() && is_name_char(s[i]) {
        lemma_name_end_bounds(s, i + 1);
    }
}

proof fn lemma_digits_end_bounds(s: Seq<char>, i: int)
    requires
        0 <= i <= s.len(),
    ensures
        i <= digits_end(s, i) <= s.len(),
        i < s.len() && is_digit(s[i]) ==> i < digits_end(s, i),
    decreases s.len() - i,
{
    if i < s.len() && is_digit(s[i]) {
        lemma_digits_end_bounds(s, i + 1);
    }
}

proof fn lemma_quoted_bounds(s: Seq<char>, i: int)
    requires
        0 <= i <= s.len(),
    ensures
        quoted(s, i) matches Ok((t, e)) ==> i < e <= s.len(),
    decreases s.len() - i,
{
    if i < s.len() && s[i] != '`' {
        if s[i] == '\\' {
            if i + 1 < s.len() {
                lemma_quoted_bounds(s, i + 2);
            }
        } else {
            lemma_quoted_bounds(s, i + 1);
        }
    }
}

/// `w` is made of whitespace and of `//` comments each closed by a `\n`.
pub open spec fn is_trivia(w: Seq<char>) -> bool
    decreases w.len(),
{
    if w.len() == 0 {
        true
    } else if is_space(w[0]) {
        is_trivia(w.drop_first())
    } else if w.len() >= 2 && w[0] == '/' && w[1] == '/' {
        let e = line_end(w, 2);
        2 <= e < w.len() && is_trivia(w.subrange(e, w.len() as int))
    } else {
        false
    }
}

/// Whether two lexing results agree on success and on the token values.
pub open spec fn same_tokens(
    a: Result<Seq<(int, TokenV, int)>, LexError>,
    b: Result<Seq<(int, TokenV, int)>, LexError>,
) -> bool {
    match (a, b) {
        (Ok(x), Ok(y)) => token_values(x) == token_values(y),
        (Err(_), Err(_)) => true,
        _ => false,
    }
}

proof fn lemma_shift_line_end(p: Seq<char>, s: Seq<char>, i: int)
    requires
        0 <= i <= s.len(),
    ensures
        line_end(p + s, p.len() + i) == p.len() + line_end(s, i),
    decreases s.len() - i,
{
    let t = p + s;
    if i < s.len() {
        assert(t[p.len() + i] == s[i]);
        if s[i] != '\n' {
            lemma_shift_line_end(p, s, i + 1);
        }
    }
}

proof fn lemma_shift_skip_trivia(p: Seq<char>, s: Seq<char>, i: int)
    requires
        0 <= i <= s.len(),
    ensures
        skip_trivia(p + s, p.len() + i) == p.len() + skip_trivia(s, i),
    decreases s.len() - i,
{
    let t = p + s;
    let n = p.len() as int;
    if i < s.len() {
        assert(t[n + i] == s[i]);
        if is_space(s[i]) {
            lemma_shift_skip_trivia(p, s, i + 1);
        } else if i + 1 < s.len() && s[i] == '/' && s[i + 1] == '/' {
            assert(t[n + i + 1] == s[i + 1]);
            lemma_shift_line_end(p, s, i + 2);
            lemma_line_end_bounds(s, i + 2);
            lemma_shift_skip_trivia(p, s, line_end(s, i + 2));
        } else if i + 1 < s.len() {
            assert(t[n + i + 1] == s[i + 1]);
        }
    }
}

proof fn lemma_shift_name_end(p: Seq<char>, s: Seq<char>, i: int)
    requires
        0 <= i <= s.len(),
    ensures
        name_end(p + s, p.len() + i) == p.len() + name_end(s, i),
    decreases s.len() - i,
{
    if i < s.len() {
        assert((p + s)[p.len() + i] == s[i]);
        lemma_shift_name_end(p, s, i + 1);
    }
}

proof fn lemma_shift_digits_end(p: Seq<char>, s: Seq<char>, i: int)
    requires
        0 <= i <= s.len(),
    ensures
        digits_end(p + s, p.len() + i) == p.len() + digits_end(s, i),
    decreases s.len() - i,
{
    if i < s.len() {
        assert((p + s)[p.len() + i] == s[i]);
        lemma_shift_digits_end(p, s, i + 1);
    }
}

proof fn lemma_shift_digits_value(p: Seq<char>, s: Seq<char>, i: int, j: int)
    requires
        0 <= i,
        j <= s.len(),
    ensures
        digits_value(p + s, p.len() + i, p.len() + j) == digits_value(s, i, j),
    decreases j - i,
{
    if i < j {
        assert((p + s)[p.len() + j - 1] == s[j - 1]);
        lemma_shift_digits_value(p, s, i, j - 1);
    }
}

pub open spec fn shift_quoted(r: Result<(Seq<char>, int), (LexErrorKind, int)>, n: int) -> Result<
    (Seq<char>, int),
    (LexErrorKind, int),
> {
    match r {
        Ok((c, e)) => Ok((c, e + n)),
        Err((k, o)) => Err((k, o + n)),
    }
}

proof fn lemma_shift_quoted(p: Seq<char>, s: Seq<char>, i: int)
    requires
        0 <= i <= s.len(),
    ensures
        quoted(p + s, p.len() + i) == shift_quoted(quoted(s, i), p.len() as int),
    decreases s.len() - i,
{
    let t = p + s;
    let n = p.len() as int;
    if i < s.len() {
        assert(t[n + i] == s[i]);
        if i + 1 < s.len() {
            assert(t[n + i + 1] == s[i + 1]);
        }
        if s[i] == '`' {
        } else if s[i] == '\\' {
            if i + 1 < s.len() && (s[i + 1] == '\\' || s[i + 1] == '`') {
                lemma_shift_quoted(p, s, i + 2);
            }
        } else {
            lemma_shift_quoted(p, s, i + 1);
        }
    }
}

proof fn lemma_shift_lex_token(p: Seq<char>, s: Seq<char>, i: int)
    requires
        0 <= i < s.len(),
    ensures
        match (lex_token(p + s, p.len() + i), lex_token(s, i)) {
            (Ok((a, e)), Ok((b, f))) => a == b && e == f + p.len(),
            (Err(_), Err(_)) => true,
            _ => false,
        },
{
    let t = p + s;
    let n = p.len() as int;
    assert(t[n + i] == s[i]);
    if i + 1 < s.len() {
        assert(t[n + i + 1] == s[i + 1]);
    }
    let c = s[i];
    if is_name_start(c) {
        lemma_shift_name_end(p, s, i);
        lemma_name_end_bounds(s, i);
        assert(t.subrange(n + i, n + name_end(s, i)) =~= s.subrange(i, name_end(s, i)));
    } else if is_digit(c) {
        lemma_shift_digits_end(p, s, i);
        lemma_digits_end_bounds(s, i);
        lemma_shift_digits_value(p, s, i, digits_end(s, i));
    } else if c == '`' {
        lemma_shift_quoted(p, s, i + 1);
    }
}

proof fn lemma_shift_lex_from(p: Seq<char>, s: Seq<char>, i: int)
    requires
        0 <= i <= s.len(),
    ensures
        same_tokens(lex_from(p + s, p.len() + i), lex_from(s, i)),
    decreases s.len() - i,
{
    let t = p + s;
    let n = p.len() as int;
    lemma_shift_skip_trivia(p, s, i);
    lemma_skip_trivia_bounds(s, i);
    let j = skip_trivia(s, i);
    if j < s.len() {
        lemma_shift_lex_token(p, s, j);
        lemma_token_advances(s, j);
        match lex_token(s, j) {
            Ok((tok, e)) => {
                lemma_shift_lex_from(p, s, e);
                match (lex_from(t, n + e), lex_from(s, e)) {
                    (Ok(x), Ok(y)) => {
                        let a = seq![(n + j, tok, n + e)] + x;
                        let b = seq![(j, tok, e)] + y;
                        assert(token_values(a) =~= seq![tok] + token_values(x));
                        assert(token_values(b) =~= seq![tok] + token_values(y));
                    },
                    _ => {},
                }
            },
            Err(_) => {},
        }
    } else {
        assert(token_values(Seq::<(int, TokenV, int)>::empty()) =~= Seq::<TokenV>::empty());
    }
}

proof fn lemma_skip_trivia_bounds(s: Seq<char>, i: int)
    requires
        0 <= i <= s.len(),
    ensures
        i <= skip_trivia(s, i) <= s.len(),
    decreases s.len() - i,
{
    if i < s.len() {
        if is_space(s[i]) {
            lemma_skip_trivia_bounds(s, i + 1);
        } else if i + 1 < s.len() && s[i] == '/' && s[i + 1] == '/' {
            lemma_line_end_bounds(s, i + 2);
            lemma_skip_trivia_bounds(s, line_end(s, i + 2));
        }
    }
}

proof fn lemma_line_end_within(w: Seq<char>, x: Seq<char>, i: int)
    requires
        0 <= i <= line_end(w, i) < w.len(),
    ensures
        line_end(w + x, i) == line_end(w, i),
    decreases w.len() - i,
{
    assert((w + x)[i] == w[i]);
    if w[i] != '\n' {
        lemma_line_end_bounds(w, i + 1);
        lemma_line_end_within(w, x, i + 1);
    }
}

/// Leading trivia is skipped as a whole.
proof fn lemma_trivia_skipped(w: Seq<char>, x: Seq<char>)
    requires
        is_trivia(w),
    ensures
        skip_trivia(w + x, 0) == skip_trivia(w + x, w.len() as int),
    decreases w.len(),
{
    let t = w + x;
    if w.len() > 0 {
        assert(t[0] == w[0]);
        if is_space(w[0]) {
            let w1 = w.drop_first();
            lemma_trivia_skipped(w1, x);
            assert(seq![w[0]] + (w1 + x) =~= t);
            lemma_shift_skip_trivia(seq![w[0]], w1 + x, 0);
            lemma_shift_skip_trivia(seq![w[0]], w1 + x, w1.len() as int);
        } else {
            assert(t[1] == w[1]);
            let e = line_end(w, 2);
            lemma_line_end_within(w, x, 2);
            let w2 = w.subrange(e, w.len() as int);
            let pre = w.subrange(0, e);
            lemma_trivia_skipped(w2, x);
            assert(pre + (w2 + x) =~= t);
            lemma_shift_skip_trivia(pre, w2 + x, 0);
            lemma_shift_skip_trivia(pre, w2 + x, w2.len() as int);
        }
    }
}

/// Whitespace and closed comments before a text change neither whether it
/// lexes nor the tokens it lexes to.
pub proof fn lemma_leading_trivia(w: Seq<char>, s: Seq<char>)
    requires
        is_trivia(w),
    ensures
        same_tokens(lex_all(w + s), lex_all(s)),
{
    let t = w + s;
    let n = w.len() as int;
    lemma_trivia_skipped(w, s);
    lemma_shift_skip_trivia(w, s, 0);
    lemma_skip_trivia_bounds(s, 0);
    lemma_shift_lex_from(w, s, 0);
    assert(lex_from(t, 0) == lex_from(t, n));
}

} // verus!
