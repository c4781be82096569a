//! Tokenizer for the protocol-definition language.  It runs on text already
//! freed of comments and produces identifiers, keywords and punctuation,
//! each carrying its character position, or reports the position of the
//! first character outside the token set.

use vstd::prelude::*;

verus! {

/// The kinds of token of the grammar.
#[derive(Clone, Copy, PartialEq, Eq, Structural, Debug)]
pub enum TokenKind {
    Ident,
    LBrace,
    RBrace,
    LParen,
    RParen,
    Semi,
    Comma,
    KwNamespace,
    KwImport,
    KwUsing,
    KwStruct,
    KwUnion,
    KwProtocol,
    KwManager,
    KwManages,
    KwState,
    KwChild,
    KwParent,
    KwBoth,
    KwAsync,
    KwSync,
    KwRpc,
    KwReturns,
    KwFrom,
    KwGoto,
}

/// One token: its kind, its text (empty except for identifiers), and the
/// position of its first character.
pub struct Token {
    pub kind: TokenKind,
    pub text: Vec<char>,
    pub pos: usize,
}

pub ghost struct SpecToken {
    pub kind: TokenKind,
    pub text: Seq<char>,
    pub pos: int,
}

pub open spec fn token_view(t: Token) -> SpecToken {
    SpecToken { kind: t.kind, text: t.text@, pos: t.pos as int }
}

pub open spec fn tokens_view(ts: Vec<Token>) -> Seq<SpecToken> {
    ts@.map_values(|t: Token| token_view(t))
}

pub open spec fn is_space(c: char) -> bool {
    c == ' ' || c == '\t' || c == '\r' || c == '\n'
}

pub open spec fn is_ident_start(c: char) -> bool {
    ('a' <= c && c <= 'z') || ('A' <= c && c <= 'Z') || c == '_'
}

pub open spec fn is_ident_char(c: char) -> bool {
    is_ident_start(c) || ('0' <= c && c <= '9')
}

/// Kind of a single punctuation character, if it is one.
pub open spec fn punct_kind(c: char) -> Option<TokenKind> {
    if c == '{' {
        Option::Some(TokenKind::LBrace)
    } else if c == '}' {
        Option::Some(TokenKind::RBrace)
    } else if c == '(' {
        Option::Some(TokenKind::LParen)
    } else if c == ')' {
        Option::Some(TokenKind::RParen)
    } else if c == ';' {
        Option::Some(TokenKind::Semi)
    } else if c == ',' {
        Option::Some(TokenKind::Comma)
    } else {
        Option::None
    }
}

/// Kind of a word: one of the grammar's keywords, or an identifier.
pub open spec fn word_kind(w: Seq<char>) -> TokenKind {
    if w == "namespace"@ {
        TokenKind::KwNamespace
    } else if w == "import"@ {
        TokenKind::KwImport
    } else if w == "using"@ {
        TokenKind::KwUsing
    } else if w == "struct"@ {
        TokenKind::KwStruct
    } else if w == "union"@ {
        TokenKind::KwUnion
    } else if w == "protocol"@ {
        TokenKind::KwProtocol
    } else if w == "manager"@ {
        TokenKind::KwManager
    } else if w == "manages"@ {
        TokenKind::KwManages
    } else if w == "state"@ {
        TokenKind::KwState
    } else if w == "child"@ {
        TokenKind::KwChild
    } else if w == "parent"@ {
        TokenKind::KwParent
    } else if w == "both"@ {
        TokenKind::KwBoth
    } else if w == "async"@ {
        TokenKind::KwAsync
    } else if w == "sync"@ {
        TokenKind::KwSync
    } else if w == "rpc"@ {
        TokenKind::KwRpc
    } else if w == "returns"@ {
        TokenKind::KwReturns
    } else if w == "from"@ {
        TokenKind::KwFrom
    } else if w == "goto"@ {
        TokenKind::KwGoto
    } else {
        TokenKind::Ident
    }
}

/// Length of the run of identifier characters starting at `i`.
pub open spec fn ident_len(s: Seq<char>, i: int) -> nat
    decreases s.len() - i,
{
    if 0 <= i < s.len() && is_ident_char(s[i]) {
        1 + ident_len(s, i + 1)
    } else {
        0
    }
}

pub proof fn lemma_ident_len_bound(s: Seq<char>, i: int)
    requires
        0 <= i <= s.len(),
    ensures
        i + ident_len(s, i) <= s.len(),
    decreases s.len() - i,
{
    if i < s.len() && is_ident_char(s[i]) {
        lemma_ident_len_bound(s, i + 1);
    }
}

/// The token sequence of `s` from position `i` on, or the position of the
/// first character outside the token set.
pub open spec fn spec_lex(s: Seq<char>, i: int) -> Result<Seq<SpecToken>, int>
    decreases s.len() - i,
    when 0 <= i
    via spec_lex_decreases
{
    if i >= s.len() {
        Result::Ok(Seq::<SpecToken>::empty())
    } else if is_space(s[i]) {
        spec_lex(s, i + 1)
    } else if punct_kind(s[i]) is Some {
        match spec_lex(s, i + 1) {
            Result::Ok(ts) => Result::Ok(
                ts.insert(0, SpecToken { kind: punct_kind(s[i])->Some_0, text: seq![s[i]], pos: i }),
            ),
            Result::Err(p) => Result::Err(p),
        }
    } else if is_ident_start(s[i]) {
        let j = i + 1 + ident_len(s, i + 1);
        let w = s.subrange(i, j);
        match spec_lex(s, j) {
            Result::Ok(ts) => Result::Ok(
                ts.insert(0, SpecToken { kind: word_kind(w), text: w, pos: i }),
            ),
            Result::Err(p) => Result::Err(p),
        }
    } else {
        Result::Err(i)
    }
}

#[via_fn]
proof fn spec_lex_decreases(s: Seq<char>, i: int) {
    if 0 <= i < s.len() && !is_space(s[i]) && punct_kind(s[i]) is None && is_ident_start(s[i]) {
        lemma_ident_len_bound(s, i + 1);
    }
}

/// Copies a word.
pub fn copy_word(w: &Vec<char>) -> (r: Vec<char>)
    ensures
        r@ == w@,
{
    let r = w.clone();
    proof {
        assert(r@ =~= w@);
    }
    r
}

/// The characters of `s` from `a` up to `b`.
pub fn subvec(s: &Vec<char>, a: usize, b: usize) -> (r: Vec<char>)
    requires
        a <= b <= s@.len(),
    ensures
        r@ == s@.subrange(a as int, b as int),
{
    let mut r: Vec<char> = Vec::new();
    let mut k: usize = a;
    while k < b
        invariant
            a <= k <= b <= s@.len(),
            r@ == s@.subrange(a as int, k as int),
        decreases b - k,
    {
        r.push(s[k]);
        proof {
            assert(r@ =~= s@.subrange(a as int, k + 1));
        }
        k = k + 1;
    }
    r
}

/// Whether the word equals the given literal, character for character.
pub fn word_is(w: &Vec<char>, lit: &str) -> (r: bool)
    ensures
        r == (w@ == lit@),
{
    let n: usize = lit.unicode_len();
    if w.len() != n {
        proof {
            assert(w@.len() != lit@.len());
        }
        return false;
    }
    let mut i: usize = 0;
    while i < n
        invariant
            n == lit@.len() == w@.len(),
            0 <= i <= n,
            forall|k: int| 0 <= k < i ==> w@[k] == lit@[k],
        decreases n - i,
    {
        if w[i] != lit.get_char(i) {
            proof {
                assert(w@[i as int] != lit@[i as int]);
            }
            return false;
        }
        i = i + 1;
    }
    proof {
        assert(w@ =~= lit@);
    }
    true
}

fn is_space_x(c: char) -> (r: bool)
    ensures
        r == is_space(c),
{
    c == ' ' || c == '\t' || c == '\r' || c == '\n'
}

fn is_ident_start_x(c: char) -> (r: bool)
    ensures
        r == is_ident_start(c),
{
    ('a' <= c && c <= 'z') || ('A' <= c && c <= 'Z') || c == '_'
}

fn is_ident_char_x(c: char) -> (r: bool)
    ensures
        r == is_ident_char(c),
{
    is_ident_start_x(c) || ('0' <= c && c <= '9')
}

/// End of the run of identifier characters starting at `i`.
fn ident_end(s: &Vec<char>, i: usize) -> (j: usize)
    requires
        i <= s@.len(),
    ensures
        i <= j <= s@.len(),
        j == i + ident_len(s@, i as int),
    decreases s@.len() - i,
{
    if i < s.len() && is_ident_char_x(s[i]) {
        ident_end(s, i + 1)
    } else {
        i
    }
}

/// The kind of a lexed word, by the keyword table.
fn word_kind_x(w: &Vec<char>) -> (k: TokenKind)
    ensures
        k == word_kind(w@),
{
    if word_is(w, "namespace") {
        TokenKind::KwNamespace
    } else if word_is(w, "import") {
        TokenKind::KwImport
    } else if word_is(w, "using") {
        TokenKind::KwUsing
    } else if word_is(w, "struct") {
        TokenKind::KwStruct
    } else if word_is(w, "union") {
        TokenKind::KwUnion
    } else if word_is(w, "protocol") {
        TokenKind::KwProtocol
    } else if word_is(w, "manager") {
        TokenKind::KwManager
    } else if word_is(w, "manages") {
        TokenKind::KwManages
    } else if word_is(w, "state") {
        TokenKind::KwState
    } else if word_is(w, "child") {
        TokenKind::KwChild
    } else if word_is(w, "parent") {
        TokenKind::KwParent
    } else if word_is(w, "both") {
        TokenKind::KwBoth
    } else if word_is(w, "async") {
        TokenKind::KwAsync
    } else if word_is(w, "sync") {
        TokenKind::KwSync
    } else if word_is(w, "rpc") {
        TokenKind::KwRpc
    } else if word_is(w, "returns") {
        TokenKind::KwReturns
    } else if word_is(w, "from") {
        TokenKind::KwFrom
    } else if word_is(w, "goto") {
        TokenKind::KwGoto
    } else {
        TokenKind::Ident
    }
}

fn punct_kind_x(c: char) -> (k: Option<TokenKind>)
    ensures
        k == punct_kind(c),
{
    if c == '{' {
        Option::Some(TokenKind::LBrace)
    } else if c == '}' {
        Option::Some(TokenKind::RBrace)
    } else if c == '(' {
        Option::Some(TokenKind::LParen)
    } else if c == ')' {
        Option::Some(TokenKind::RParen)
    } else if c == ';' {
        Option::Some(TokenKind::Semi)
    } else if c == ',' {
        Option::Some(TokenKind::Comma)
    } else {
        Option::None
    }
}

fn lex_at(s: &Vec<char>, i: usize) -> (r: Result<Vec<Token>, usize>)
    requires
        i <= s@.len(),
    ensures
        (match r {
            Result::Ok(ts) => Result::Ok(tokens_view(ts)),
            Result::Err(p) => Result::Err(p as int),
        }) == spec_lex(s@, i as int),
    decreases s@.len() - i,
{
    if i >= s.len() {
        let r: Vec<Token> = Vec::new();
        proof {
            assert(tokens_view(r) =~= Seq::<SpecToken>::empty());
        }
        Result::Ok(r)
    } else {
        let c = s[i];
        if is_space_x(c) {
            lex_at(s, i + 1)
        } else {
            match punct_kind_x(c) {
                Option::Some(k) => {
                    match lex_at(s, i + 1) {
                        Result::Ok(mut ts) => {
                            let mut txt: Vec<char> = Vec::new();
                            txt.push(c);
                            let ghost old_ts = tokens_view(ts);
                            let t = Token { kind: k, text: txt, pos: i };
                            ts.insert(0, t);
                            proof {
                                assert(tokens_view(ts) =~= old_ts.insert(
                                    0,
                                    SpecToken { kind: k, text: seq![c], pos: i as int },
                                ));
                            }
                            Result::Ok(ts)
                        },
                        Result::Err(p) => Result::Err(p),
                    }
                },
                Option::None => {
                    if is_ident_start_x(c) {
                        let j = ident_end(s, i + 1);
                        let w = subvec(s, i, j);
                        let k = word_kind_x(&w);
                        match lex_at(s, j) {
                            Result::Ok(mut ts) => {
                                let ghost old_ts = tokens_view(ts);
                                let ghost wv = w@;
                                let t = Token { kind: k, text: w, pos: i };
                                ts.insert(0, t);
                                proof {
                                    assert(tokens_view(ts) =~= old_ts.insert(
                                        0,
                                        SpecToken { kind: k, text: wv, pos: i as int },
                                    ));
                                }
                                Result::Ok(ts)
                            },
                            Result::Err(p) => Result::Err(p),
                        }
                    } else {
                        Result::Err(i)
                    }
                },
            }
        }
    }
}

/// Tokenizes a whole text: its token sequence, or the position of the first
/// character outside the token set.
pub fn tokenize(s: &Vec<char>) -> (r: Result<Vec<Token>, usize>)
    ensures
        (match r {
            Result::Ok(ts) => Result::Ok(tokens_view(ts)),
            Result::Err(p) => Result::Err(p as int),
        }) == spec_lex(s@, 0),
{
    lex_at(s, 0)
}

} // verus!
