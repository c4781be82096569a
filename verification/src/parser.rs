//! Recursive-descent parser for the protocol-definition language, and the
//! multi-file driver that follows `import` references through the search
//! directories.
//!
//! Every executable function returns exactly what its spec-level twin
//! defines on the view of its input, so parsing is a mathematical function
//! of the text.

use vstd::prelude::*;
use crate::ast::{
    Decl, Direction, Message, Param, Protocol, SendKind, SourceDir, SourceFile, SpecDecl,
    SpecMessage, SpecParam, SpecProtocol, SpecSourceDir, SpecSourceFile, SpecStructDecl,
    SpecTransition, SpecTranslationUnit, SpecUnionDecl, StructDecl, Transition, TranslationUnit,
    UnionDecl, decl_view, dir_view, dirs_view, file_view, files_view, message_view, param_view,
    protocol_view, tu_view, tus_view, words_view, opt_word_view, opt_transition_view,
};
use crate::lexer::{
    SpecToken, Token, TokenKind, copy_word, spec_lex, token_view, tokenize, tokens_view,
};
use crate::uncommenter::spec_strip;

verus! {

/// What went wrong while reading one file.
pub enum DiagKind {
    /// A character outside the token set.
    BadChar,
    /// A token where the grammar allows none such; carries the token's text.
    BadToken(Vec<char>),
    /// Input ended where the grammar needs more.
    BadEnd,
    /// A file reference that no search directory satisfies.
    MissingFile(Vec<char>),
    /// The bound on followed file references was exhausted.
    FileLimit,
}

/// A syntax-stage diagnostic: a character position and what was found there.
pub struct Diag {
    pub pos: usize,
    pub kind: DiagKind,
}

pub ghost enum SpecDiagKind {
    BadChar,
    BadToken(Seq<char>),
    BadEnd,
    MissingFile(Seq<char>),
    FileLimit,
}

pub ghost struct SpecDiag {
    pub pos: int,
    pub kind: SpecDiagKind,
}

pub open spec fn diag_kind_view(k: DiagKind) -> SpecDiagKind {
    match k {
        DiagKind::BadChar => SpecDiagKind::BadChar,
        DiagKind::BadToken(w) => SpecDiagKind::BadToken(w@),
        DiagKind::BadEnd => SpecDiagKind::BadEnd,
        DiagKind::MissingFile(w) => SpecDiagKind::MissingFile(w@),
        DiagKind::FileLimit => SpecDiagKind::FileLimit,
    }
}

pub open spec fn diag_view(d: Diag) -> SpecDiag {
    SpecDiag { pos: d.pos as int, kind: diag_kind_view(d.kind) }
}

/// The diagnostic for an unexpected token at `p`, or for input ending early.
pub open spec fn spec_diag_at(ts: Seq<SpecToken>, p: int) -> SpecDiag {
    if 0 <= p < ts.len() {
        SpecDiag { pos: ts[p].pos, kind: SpecDiagKind::BadToken(ts[p].text) }
    } else if ts.len() > 0 {
        SpecDiag { pos: ts[ts.len() - 1].pos, kind: SpecDiagKind::BadEnd }
    } else {
        SpecDiag { pos: 0, kind: SpecDiagKind::BadEnd }
    }
}

/// Whether the token at `p` exists and has kind `k`.
pub open spec fn tok_is(ts: Seq<SpecToken>, p: int, k: TokenKind) -> bool {
    0 <= p < ts.len() && ts[p].kind == k
}

/// One token of kind `k` at `p`: the next position, or a diagnostic.
pub open spec fn spec_expect(ts: Seq<SpecToken>, p: int, k: TokenKind) -> Result<int, SpecDiag> {
    if tok_is(ts, p, k) {
        Result::Ok(p + 1)
    } else {
        Result::Err(spec_diag_at(ts, p))
    }
}

/// An identifier at `p`: its text and the next position, or a diagnostic.
pub open spec fn spec_ident(ts: Seq<SpecToken>, p: int) -> Result<(Seq<char>, int), SpecDiag> {
    if tok_is(ts, p, TokenKind::Ident) {
        Result::Ok((ts[p].text, p + 1))
    } else {
        Result::Err(spec_diag_at(ts, p))
    }
}

/// Parameter list tail: `, Type name` repeated; stops before anything else.
pub open spec fn spec_params_rest(ts: Seq<SpecToken>, p: int) -> Result<
    (Seq<SpecParam>, int),
    SpecDiag,
>
    decreases ts.len() - p,
    when p >= 0
{
    if tok_is(ts, p, TokenKind::Comma) {
        match spec_ident(ts, p + 1) {
            Result::Ok((ty, p1)) => match spec_ident(ts, p1) {
                Result::Ok((nm, p2)) => match spec_params_rest(ts, p2) {
                    Result::Ok((ps, p3)) => Result::Ok(
                        (ps.insert(0, SpecParam { ty: ty, name: nm }), p3),
                    ),
                    Result::Err(d) => Result::Err(d),
                },
                Result::Err(d) => Result::Err(d),
            },
            Result::Err(d) => Result::Err(d),
        }
    } else {
        Result::Ok((Seq::empty(), p))
    }
}

/// Parameter list: empty, or `Type name` then a tail of comma-led pairs.
pub open spec fn spec_params(ts: Seq<SpecToken>, p: int) -> Result<(Seq<SpecParam>, int), SpecDiag> {
    if tok_is(ts, p, TokenKind::RParen) {
        Result::Ok((Seq::empty(), p))
    } else {
        match spec_ident(ts, p) {
            Result::Ok((ty, p1)) => match spec_ident(ts, p1) {
                Result::Ok((nm, p2)) => match spec_params_rest(ts, p2) {
                    Result::Ok((ps, p3)) => Result::Ok(
                        (ps.insert(0, SpecParam { ty: ty, name: nm }), p3),
                    ),
                    Result::Err(d) => Result::Err(d),
                },
                Result::Err(d) => Result::Err(d),
            },
            Result::Err(d) => Result::Err(d),
        }
    }
}

proof fn lemma_params_rest_progress(ts: Seq<SpecToken>, p: int)
    requires
        0 <= p <= ts.len(),
        spec_params_rest(ts, p) is Ok,
    ensures
        p <= spec_params_rest(ts, p)->Ok_0.1 <= ts.len(),
    decreases ts.len() - p,
{
    if tok_is(ts, p, TokenKind::Comma) {
        let p1 = spec_ident(ts, p + 1)->Ok_0.1;
        let p2 = spec_ident(ts, p1)->Ok_0.1;
        lemma_params_rest_progress(ts, p2);
    }
}

proof fn lemma_params_progress(ts: Seq<SpecToken>, p: int)
    requires
        0 <= p <= ts.len(),
        spec_params(ts, p) is Ok,
    ensures
        p <= spec_params(ts, p)->Ok_0.1 <= ts.len(),
{
    if tok_is(ts, p, TokenKind::RParen) {
    } else {
        let p1 = spec_ident(ts, p)->Ok_0.1;
        let p2 = spec_ident(ts, p1)->Ok_0.1;
        lemma_params_rest_progress(ts, p2);
    }
}

/// The direction keyword at `p`, if any.
pub open spec fn spec_direction(ts: Seq<SpecToken>, p: int) -> Option<Direction> {
    if tok_is(ts, p, TokenKind::KwChild) {
        Option::Some(Direction::ToChild)
    } else if tok_is(ts, p, TokenKind::KwParent) {
        Option::Some(Direction::ToParent)
    } else if tok_is(ts, p, TokenKind::KwBoth) {
        Option::Some(Direction::Both)
    } else {
        Option::None
    }
}

/// The send-kind keyword at `p`, if any.
pub open spec fn spec_send_kind(ts: Seq<SpecToken>, p: int) -> Option<SendKind> {
    if tok_is(ts, p, TokenKind::KwAsync) {
        Option::Some(SendKind::Async)
    } else if tok_is(ts, p, TokenKind::KwSync) {
        Option::Some(SendKind::Sync)
    } else if tok_is(ts, p, TokenKind::KwRpc) {
        Option::Some(SendKind::Rpc)
    } else {
        Option::None
    }
}

/// A message declaration: direction, send kind, name, parameters, optional
/// `returns (Type)`, optional `from A goto B`, semicolon.
pub open spec fn spec_message(ts: Seq<SpecToken>, p: int) -> Result<(SpecMessage, int), SpecDiag> {
    match spec_direction(ts, p) {
        Option::None => Result::Err(spec_diag_at(ts, p)),
        Option::Some(dir) => match spec_send_kind(ts, p + 1) {
            Option::None => Result::Err(spec_diag_at(ts, p + 1)),
            Option::Some(kind) => match spec_ident(ts, p + 2) {
                Result::Err(d) => Result::Err(d),
                Result::Ok((nm, p3)) => match spec_expect(ts, p3, TokenKind::LParen) {
                    Result::Err(d) => Result::Err(d),
                    Result::Ok(p4) => match spec_params(ts, p4) {
                        Result::Err(d) => Result::Err(d),
                        Result::Ok((ps, p5)) => match spec_expect(ts, p5, TokenKind::RParen) {
                            Result::Err(d) => Result::Err(d),
                            Result::Ok(p6) => match spec_reply(ts, p6) {
                                Result::Err(d) => Result::Err(d),
                                Result::Ok((reply, p7)) => match spec_transition(ts, p7) {
                                    Result::Err(d) => Result::Err(d),
                                    Result::Ok((tr, p8)) => match spec_expect(
                                        ts,
                                        p8,
                                        TokenKind::Semi,
                                    ) {
                                        Result::Err(d) => Result::Err(d),
                                        Result::Ok(p9) => Result::Ok(
                                            (
                                                SpecMessage {
                                                    name: nm,
                                                    direction: dir,
                                                    kind: kind,
                                                    params: ps,
                                                    reply: reply,
                                                    transition: tr,
                                                },
                                                p9,
                                            ),
                                        ),
                                    },
                                },
                            },
                        },
                    },
                },
            },
        },
    }
}

/// An optional `returns (Type)` clause.
pub open spec fn spec_reply(ts: Seq<SpecToken>, p: int) -> Result<
    (Option<Seq<char>>, int),
    SpecDiag,
> {
    if tok_is(ts, p, TokenKind::KwReturns) {
        match spec_expect(ts, p + 1, TokenKind::LParen) {
            Result::Err(d) => Result::Err(d),
            Result::Ok(p1) => match spec_ident(ts, p1) {
                Result::Err(d) => Result::Err(d),
                Result::Ok((ty, p2)) => match spec_expect(ts, p2, TokenKind::RParen) {
                    Result::Err(d) => Result::Err(d),
                    Result::Ok(p3) => Result::Ok((Option::Some(ty), p3)),
                },
            },
        }
    } else {
        Result::Ok((Option::None, p))
    }
}

/// An optional `from A goto B` clause.
pub open spec fn spec_transition(ts: Seq<SpecToken>, p: int) -> Result<
    (Option<SpecTransition>, int),
    SpecDiag,
> {
    if tok_is(ts, p, TokenKind::KwFrom) {
        match spec_ident(ts, p + 1) {
            Result::Err(d) => Result::Err(d),
            Result::Ok((a, p1)) => match spec_expect(ts, p1, TokenKind::KwGoto) {
                Result::Err(d) => Result::Err(d),
                Result::Ok(p2) => match spec_ident(ts, p2) {
                    Result::Err(d) => Result::Err(d),
                    Result::Ok((b, p3)) => Result::Ok(
                        (Option::Some(SpecTransition { from_state: a, to_state: b }), p3),
                    ),
                },
            },
        }
    } else {
        Result::Ok((Option::None, p))
    }
}

proof fn lemma_message_progress(ts: Seq<SpecToken>, p: int)
    requires
        p >= 0,
        spec_message(ts, p) is Ok,
    ensures
        p < spec_message(ts, p)->Ok_0.1 <= ts.len(),
{
    let p3 = spec_ident(ts, p + 2)->Ok_0.1;
    let p4 = spec_expect(ts, p3, TokenKind::LParen)->Ok_0;
    lemma_params_progress(ts, p4);
}

/// The body of a protocol: manager, managed protocols, states and messages,
/// through the closing brace.
pub open spec fn spec_pitems(ts: Seq<SpecToken>, p: int) -> Result<
    ((Option<Seq<char>>, Seq<Seq<char>>, Seq<Seq<char>>, Seq<SpecMessage>), int),
    SpecDiag,
>
    decreases ts.len() - p,
    when p >= 0
    via spec_pitems_decreases
{
    if tok_is(ts, p, TokenKind::RBrace) {
        Result::Ok(((Option::None, Seq::empty(), Seq::empty(), Seq::empty()), p + 1))
    } else if tok_is(ts, p, TokenKind::KwManager) {
        match spec_ident(ts, p + 1) {
            Result::Err(d) => Result::Err(d),
            Result::Ok((nm, p1)) => match spec_expect(ts, p1, TokenKind::Semi) {
                Result::Err(d) => Result::Err(d),
                Result::Ok(p2) => match spec_pitems(ts, p2) {
                    Result::Err(d) => Result::Err(d),
                    Result::Ok(((mgr, mgs, sts, msgs), p3)) => if mgr is Some {
                        Result::Err(spec_diag_at(ts, p))
                    } else {
                        Result::Ok(((Option::Some(nm), mgs, sts, msgs), p3))
                    },
                },
            },
        }
    } else if tok_is(ts, p, TokenKind::KwManages) {
        match spec_ident(ts, p + 1) {
            Result::Err(d) => Result::Err(d),
            Result::Ok((nm, p1)) => match spec_expect(ts, p1, TokenKind::Semi) {
                Result::Err(d) => Result::Err(d),
                Result::Ok(p2) => match spec_pitems(ts, p2) {
                    Result::Err(d) => Result::Err(d),
                    Result::Ok(((mgr, mgs, sts, msgs), p3)) => Result::Ok(
                        ((mgr, mgs.insert(0, nm), sts, msgs), p3),
                    ),
                },
            },
        }
    } else if tok_is(ts, p, TokenKind::KwState) {
        match spec_ident(ts, p + 1) {
            Result::Err(d) => Result::Err(d),
            Result::Ok((nm, p1)) => match spec_expect(ts, p1, TokenKind::Semi) {
                Result::Err(d) => Result::Err(d),
                Result::Ok(p2) => match spec_pitems(ts, p2) {
                    Result::Err(d) => Result::Err(d),
                    Result::Ok(((mgr, mgs, sts, msgs), p3)) => Result::Ok(
                        ((mgr, mgs, sts.insert(0, nm), msgs), p3),
                    ),
                },
            },
        }
    } else {
        match spec_message(ts, p) {
            Result::Err(d) => Result::Err(d),
            Result::Ok((m, p1)) => match spec_pitems(ts, p1) {
                Result::Err(d) => Result::Err(d),
                Result::Ok(((mgr, mgs, sts, msgs), p2)) => Result::Ok(
                    ((mgr, mgs, sts, msgs.insert(0, m)), p2),
                ),
            },
        }
    }
}

#[via_fn]
proof fn spec_pitems_decreases(ts: Seq<SpecToken>, p: int) {
    if p >= 0 && !tok_is(ts, p, TokenKind::RBrace) && !tok_is(ts, p, TokenKind::KwManager)
        && !tok_is(ts, p, TokenKind::KwManages) && !tok_is(ts, p, TokenKind::KwState) {
        if spec_message(ts, p) is Ok {
            lemma_message_progress(ts, p);
        }
    }
}

proof fn lemma_pitems_progress(ts: Seq<SpecToken>, p: int)
    requires
        p >= 0,
        spec_pitems(ts, p) is Ok,
    ensures
        p < spec_pitems(ts, p)->Ok_0.1 <= ts.len(),
    decreases ts.len() - p,
{
    if tok_is(ts, p, TokenKind::RBrace) {
    } else if tok_is(ts, p, TokenKind::KwManager) || tok_is(ts, p, TokenKind::KwManages)
        || tok_is(ts, p, TokenKind::KwState) {
        let p1 = spec_ident(ts, p + 1)->Ok_0.1;
        let p2 = spec_expect(ts, p1, TokenKind::Semi)->Ok_0;
        lemma_pitems_progress(ts, p2);
    } else {
        let p1 = spec_message(ts, p)->Ok_0.1;
        lemma_message_progress(ts, p);
        lemma_pitems_progress(ts, p1);
    }
}

/// A protocol declaration after the `protocol` keyword: name and body.
pub open spec fn spec_protocol(ts: Seq<SpecToken>, p: int) -> Result<(SpecProtocol, int), SpecDiag> {
    match spec_ident(ts, p) {
        Result::Err(d) => Result::Err(d),
        Result::Ok((nm, p1)) => match spec_expect(ts, p1, TokenKind::LBrace) {
            Result::Err(d) => Result::Err(d),
            Result::Ok(p2) => match spec_pitems(ts, p2) {
                Result::Err(d) => Result::Err(d),
                Result::Ok(((mgr, mgs, sts, msgs), p3)) => Result::Ok(
                    (
                        SpecProtocol {
                            name: nm,
                            manager: mgr,
                            manages: mgs,
                            states: sts,
                            messages: msgs,
                        },
                        p3,
                    ),
                ),
            },
        },
    }
}

/// Aggregate fields through the closing brace: `Type name ;` repeated.
pub open spec fn spec_fields(ts: Seq<SpecToken>, p: int) -> Result<(Seq<SpecParam>, int), SpecDiag>
    decreases ts.len() - p,
    when p >= 0
{
    if tok_is(ts, p, TokenKind::RBrace) {
        Result::Ok((Seq::empty(), p + 1))
    } else {
        match spec_ident(ts, p) {
            Result::Err(d) => Result::Err(d),
            Result::Ok((ty, p1)) => match spec_ident(ts, p1) {
                Result::Err(d) => Result::Err(d),
                Result::Ok((nm, p2)) => match spec_expect(ts, p2, TokenKind::Semi) {
                    Result::Err(d) => Result::Err(d),
                    Result::Ok(p3) => match spec_fields(ts, p3) {
                        Result::Err(d) => Result::Err(d),
                        Result::Ok((fs, p4)) => Result::Ok(
                            (fs.insert(0, SpecParam { ty: ty, name: nm }), p4),
                        ),
                    },
                },
            },
        }
    }
}

proof fn lemma_fields_progress(ts: Seq<SpecToken>, p: int)
    requires
        p >= 0,
        spec_fields(ts, p) is Ok,
    ensures
        p < spec_fields(ts, p)->Ok_0.1 <= ts.len(),
    decreases ts.len() - p,
{
    if !tok_is(ts, p, TokenKind::RBrace) {
        let p1 = spec_ident(ts, p)->Ok_0.1;
        let p2 = spec_ident(ts, p1)->Ok_0.1;
        let p3 = spec_expect(ts, p2, TokenKind::Semi)->Ok_0;
        lemma_fields_progress(ts, p3);
    }
}

/// Union alternatives through the closing brace: `Type ;` repeated.
pub open spec fn spec_alts(ts: Seq<SpecToken>, p: int) -> Result<(Seq<Seq<char>>, int), SpecDiag>
    decreases ts.len() - p,
    when p >= 0
{
    if tok_is(ts, p, TokenKind::RBrace) {
        Result::Ok((Seq::empty(), p + 1))
    } else {
        match spec_ident(ts, p) {
            Result::Err(d) => Result::Err(d),
            Result::Ok((ty, p1)) => match spec_expect(ts, p1, TokenKind::Semi) {
                Result::Err(d) => Result::Err(d),
                Result::Ok(p2) => match spec_alts(ts, p2) {
                    Result::Err(d) => Result::Err(d),
                    Result::Ok((alts, p3)) => Result::Ok((alts.insert(0, ty), p3)),
                },
            },
        }
    }
}

proof fn lemma_alts_progress(ts: Seq<SpecToken>, p: int)
    requires
        p >= 0,
        spec_alts(ts, p) is Ok,
    ensures
        p < spec_alts(ts, p)->Ok_0.1 <= ts.len(),
    decreases ts.len() - p,
{
    if !tok_is(ts, p, TokenKind::RBrace) {
        let p1 = spec_ident(ts, p)->Ok_0.1;
        let p2 = spec_expect(ts, p1, TokenKind::Semi)->Ok_0;
        lemma_alts_progress(ts, p2);
    }
}

/// One top-level item: either a file reference or a declaration.
pub ghost enum SpecItem {
    ImportRef(Seq<char>),
    DeclItem(SpecDecl),
}

pub open spec fn spec_item(ts: Seq<SpecToken>, p: int) -> Result<(SpecItem, int), SpecDiag> {
    if tok_is(ts, p, TokenKind::KwImport) {
        match spec_ident(ts, p + 1) {
            Result::Err(d) => Result::Err(d),
            Result::Ok((nm, p1)) => match spec_expect(ts, p1, TokenKind::Semi) {
                Result::Err(d) => Result::Err(d),
                Result::Ok(p2) => Result::Ok((SpecItem::ImportRef(nm), p2)),
            },
        }
    } else if tok_is(ts, p, TokenKind::KwUsing) {
        match spec_ident(ts, p + 1) {
            Result::Err(d) => Result::Err(d),
            Result::Ok((nm, p1)) => match spec_expect(ts, p1, TokenKind::Semi) {
                Result::Err(d) => Result::Err(d),
                Result::Ok(p2) => Result::Ok((SpecItem::DeclItem(SpecDecl::UsingDecl(nm)), p2)),
            },
        }
    } else if tok_is(ts, p, TokenKind::KwStruct) {
        match spec_ident(ts, p + 1) {
            Result::Err(d) => Result::Err(d),
            Result::Ok((nm, p1)) => match spec_expect(ts, p1, TokenKind::LBrace) {
                Result::Err(d) => Result::Err(d),
                Result::Ok(p2) => match spec_fields(ts, p2) {
                    Result::Err(d) => Result::Err(d),
                    Result::Ok((fs, p3)) => Result::Ok(
                        (
                            SpecItem::DeclItem(
                                SpecDecl::StructDef(SpecStructDecl { name: nm, fields: fs }),
                            ),
                            p3,
                        ),
                    ),
                },
            },
        }
    } else if tok_is(ts, p, TokenKind::KwUnion) {
        match spec_ident(ts, p + 1) {
            Result::Err(d) => Result::Err(d),
            Result::Ok((nm, p1)) => match spec_expect(ts, p1, TokenKind::LBrace) {
                Result::Err(d) => Result::Err(d),
                Result::Ok(p2) => match spec_alts(ts, p2) {
                    Result::Err(d) => Result::Err(d),
                    Result::Ok((alts, p3)) => Result::Ok(
                        (
                            SpecItem::DeclItem(
                                SpecDecl::UnionDef(SpecUnionDecl { name: nm, alts: alts }),
                            ),
                            p3,
                        ),
                    ),
                },
            },
        }
    } else if tok_is(ts, p, TokenKind::KwProtocol) {
        match spec_protocol(ts, p + 1) {
            Result::Err(d) => Result::Err(d),
            Result::Ok((pr, p1)) => Result::Ok((SpecItem::DeclItem(SpecDecl::ProtocolDecl(pr)), p1)),
        }
    } else {
        Result::Err(spec_diag_at(ts, p))
    }
}

proof fn lemma_item_progress(ts: Seq<SpecToken>, p: int)
    requires
        p >= 0,
        spec_item(ts, p) is Ok,
    ensures
        p < spec_item(ts, p)->Ok_0.1 <= ts.len(),
{
    if tok_is(ts, p, TokenKind::KwImport) || tok_is(ts, p, TokenKind::KwUsing) {
    } else if tok_is(ts, p, TokenKind::KwStruct) {
        let p1 = spec_ident(ts, p + 1)->Ok_0.1;
        let p2 = spec_expect(ts, p1, TokenKind::LBrace)->Ok_0;
        lemma_fields_progress(ts, p2);
    } else if tok_is(ts, p, TokenKind::KwUnion) {
        let p1 = spec_ident(ts, p + 1)->Ok_0.1;
        let p2 = spec_expect(ts, p1, TokenKind::LBrace)->Ok_0;
        lemma_alts_progress(ts, p2);
    } else if tok_is(ts, p, TokenKind::KwProtocol) {
        let p1 = spec_ident(ts, p + 1)->Ok_0.1;
        let p2 = spec_expect(ts, p1, TokenKind::LBrace)->Ok_0;
        lemma_pitems_progress(ts, p2);
    }
}

/// All top-level items to the end of the token sequence.
pub open spec fn spec_items(ts: Seq<SpecToken>, p: int) -> Result<
    ((Seq<Seq<char>>, Seq<SpecDecl>), int),
    SpecDiag,
>
    decreases ts.len() - p,
    when p >= 0
    via spec_items_decreases
{
    if p >= ts.len() {
        Result::Ok(((Seq::empty(), Seq::empty()), p))
    } else {
        match spec_item(ts, p) {
            Result::Err(d) => Result::Err(d),
            Result::Ok((it, p1)) => match spec_items(ts, p1) {
                Result::Err(d) => Result::Err(d),
                Result::Ok(((imps, decls), p2)) => match it {
                    SpecItem::ImportRef(nm) => Result::Ok(((imps.insert(0, nm), decls), p2)),
                    SpecItem::DeclItem(dc) => Result::Ok(((imps, decls.insert(0, dc)), p2)),
                },
            },
        }
    }
}

#[via_fn]
proof fn spec_items_decreases(ts: Seq<SpecToken>, p: int) {
    if 0 <= p < ts.len() {
        if spec_item(ts, p) is Ok {
            lemma_item_progress(ts, p);
        }
    }
}

/// A whole translation unit: an optional namespace line, then items, with
/// nothing left over.
pub open spec fn spec_parse_tu(ts: Seq<SpecToken>, file: Seq<char>) -> Result<
    SpecTranslationUnit,
    SpecDiag,
> {
    let nsr: Result<(Option<Seq<char>>, int), SpecDiag> = if tok_is(ts, 0, TokenKind::KwNamespace) {
        match spec_ident(ts, 1) {
            Result::Err(d) => Result::Err(d),
            Result::Ok((nm, p1)) => match spec_expect(ts, p1, TokenKind::Semi) {
                Result::Err(d) => Result::Err(d),
                Result::Ok(p2) => Result::Ok((Option::Some(nm), p2)),
            },
        }
    } else {
        Result::Ok((Option::None, 0))
    };
    match nsr {
        Result::Err(d) => Result::Err(d),
        Result::Ok((ns, p0)) => match spec_items(ts, p0) {
            Result::Err(d) => Result::Err(d),
            Result::Ok(((imps, decls), _p)) => Result::Ok(
                SpecTranslationUnit { file: file, namespace: ns, imports: imps, decls: decls },
            ),
        },
    }
}

/// The whole front stage for one file: strip comments, tokenize, parse.
pub open spec fn spec_parse_file(name: Seq<char>, text: Seq<char>) -> Result<
    SpecTranslationUnit,
    SpecDiag,
> {
    match spec_lex(spec_strip(text), 0) {
        Result::Err(p) => Result::Err(SpecDiag { pos: p, kind: SpecDiagKind::BadChar }),
        Result::Ok(ts) => spec_parse_tu(ts, name),
    }
}

// Executable twins.  Each returns exactly what its spec function defines.

pub open spec fn params_vview(v: Vec<Param>) -> Seq<SpecParam> {
    v@.map_values(|q: Param| param_view(q))
}

pub open spec fn msgs_vview(v: Vec<Message>) -> Seq<SpecMessage> {
    v@.map_values(|m: Message| message_view(m))
}

pub open spec fn decls_vview(v: Vec<Decl>) -> Seq<SpecDecl> {
    v@.map_values(|d: Decl| decl_view(d))
}

fn diag_at(ts: &Vec<Token>, p: usize) -> (d: Diag)
    ensures
        diag_view(d) == spec_diag_at(tokens_view(*ts), p as int),
{
    if p < ts.len() {
        proof {
            assert(tokens_view(*ts)[p as int] == token_view(ts@[p as int]));
        }
        Diag { pos: ts[p].pos, kind: DiagKind::BadToken(copy_word(&ts[p].text)) }
    } else if ts.len() > 0 {
        proof {
            assert(tokens_view(*ts)[ts@.len() - 1] == token_view(ts@[ts@.len() - 1]));
        }
        Diag { pos: ts[ts.len() - 1].pos, kind: DiagKind::BadEnd }
    } else {
        Diag { pos: 0, kind: DiagKind::BadEnd }
    }
}

fn tok_is_x(ts: &Vec<Token>, p: usize, k: TokenKind) -> (r: bool)
    ensures
        r == tok_is(tokens_view(*ts), p as int, k),
        r ==> p < usize::MAX,
{
    proof {
        if p < ts@.len() {
            assert(tokens_view(*ts)[p as int] == token_view(ts@[p as int]));
        }
    }
    p < ts.len() && ts[p].kind == k
}

fn expect_x(ts: &Vec<Token>, p: usize, k: TokenKind) -> (r: Result<usize, Diag>)
    ensures
        (match r {
            Result::Ok(p1) => Result::<int, SpecDiag>::Ok(p1 as int),
            Result::Err(d) => Result::Err(diag_view(d)),
        }) == spec_expect(tokens_view(*ts), p as int, k),
        r is Ok ==> p < usize::MAX && r->Ok_0 == p + 1,
{
    if tok_is_x(ts, p, k) {
        Result::Ok(p + 1)
    } else {
        Result::Err(diag_at(ts, p))
    }
}

fn ident_x(ts: &Vec<Token>, p: usize) -> (r: Result<(Vec<char>, usize), Diag>)
    ensures
        (match r {
            Result::Ok((w, p1)) => Result::<(Seq<char>, int), SpecDiag>::Ok((w@, p1 as int)),
            Result::Err(d) => Result::Err(diag_view(d)),
        }) == spec_ident(tokens_view(*ts), p as int),
        r is Ok ==> p < usize::MAX && r->Ok_0.1 == p + 1,
{
    if tok_is_x(ts, p, TokenKind::Ident) {
        proof {
            assert(tokens_view(*ts)[p as int] == token_view(ts@[p as int]));
        }
        Result::Ok((copy_word(&ts[p].text), p + 1))
    } else {
        Result::Err(diag_at(ts, p))
    }
}

fn params_rest_x(ts: &Vec<Token>, p: usize) -> (r: Result<(Vec<Param>, usize), Diag>)
    ensures
        (match r {
            Result::Ok((ps, p1)) => Result::<(Seq<SpecParam>, int), SpecDiag>::Ok(
                (params_vview(ps), p1 as int),
            ),
            Result::Err(d) => Result::Err(diag_view(d)),
        }) == spec_params_rest(tokens_view(*ts), p as int),
    decreases ts@.len() - p,
{
    if tok_is_x(ts, p, TokenKind::Comma) {
        match ident_x(ts, p + 1) {
            Result::Err(d) => Result::Err(d),
            Result::Ok((ty, p1)) => match ident_x(ts, p1) {
                Result::Err(d) => Result::Err(d),
                Result::Ok((nm, p2)) => match params_rest_x(ts, p2) {
                    Result::Err(d) => Result::Err(d),
                    Result::Ok((mut ps, p3)) => {
                        let ghost old_ps = params_vview(ps);
                        let ghost tyv = ty@;
                        let ghost nmv = nm@;
                        ps.insert(0, Param { ty: ty, name: nm });
                        proof {
                            assert(params_vview(ps) =~= old_ps.insert(
                                0,
                                SpecParam { ty: tyv, name: nmv },
                            ));
                        }
                        Result::Ok((ps, p3))
                    },
                },
            },
        }
    } else {
        let r: Vec<Param> = Vec::new();
        proof {
            assert(params_vview(r) =~= Seq::<SpecParam>::empty());
        }
        Result::Ok((r, p))
    }
}

fn params_x(ts: &Vec<Token>, p: usize) -> (r: Result<(Vec<Param>, usize), Diag>)
    ensures
        (match r {
            Result::Ok((ps, p1)) => Result::<(Seq<SpecParam>, int), SpecDiag>::Ok(
                (params_vview(ps), p1 as int),
            ),
            Result::Err(d) => Result::Err(diag_view(d)),
        }) == spec_params(tokens_view(*ts), p as int),
{
    if tok_is_x(ts, p, TokenKind::RParen) {
        let r: Vec<Param> = Vec::new();
        proof {
            assert(params_vview(r) =~= Seq::<SpecParam>::empty());
        }
        Result::Ok((r, p))
    } else {
        match ident_x(ts, p) {
            Result::Err(d) => Result::Err(d),
            Result::Ok((ty, p1)) => match ident_x(ts, p1) {
                Result::Err(d) => Result::Err(d),
                Result::Ok((nm, p2)) => match params_rest_x(ts, p2) {
                    Result::Err(d) => Result::Err(d),
                    Result::Ok((mut ps, p3)) => {
                        let ghost old_ps = params_vview(ps);
                        let ghost tyv = ty@;
                        let ghost nmv = nm@;
                        ps.insert(0, Param { ty: ty, name: nm });
                        proof {
                            assert(params_vview(ps) =~= old_ps.insert(
                                0,
                                SpecParam { ty: tyv, name: nmv },
                            ));
                        }
                        Result::Ok((ps, p3))
                    },
                },
            },
        }
    }
}

fn direction_x(ts: &Vec<Token>, p: usize) -> (r: Option<Direction>)
    ensures
        r == spec_direction(tokens_view(*ts), p as int),
        r is Some ==> p < usize::MAX,
{
    if tok_is_x(ts, p, TokenKind::KwChild) {
        Option::Some(Direction::ToChild)
    } else if tok_is_x(ts, p, TokenKind::KwParent) {
        Option::Some(Direction::ToParent)
    } else if tok_is_x(ts, p, TokenKind::KwBoth) {
        Option::Some(Direction::Both)
    } else {
        Option::None
    }
}

fn send_kind_x(ts: &Vec<Token>, p: usize) -> (r: Option<SendKind>)
    ensures
        r == spec_send_kind(tokens_view(*ts), p as int),
        r is Some ==> p < usize::MAX,
{
    if tok_is_x(ts, p, TokenKind::KwAsync) {
        Option::Some(SendKind::Async)
    } else if tok_is_x(ts, p, TokenKind::KwSync) {
        Option::Some(SendKind::Sync)
    } else if tok_is_x(ts, p, TokenKind::KwRpc) {
        Option::Some(SendKind::Rpc)
    } else {
        Option::None
    }
}

fn reply_x(ts: &Vec<Token>, p: usize) -> (r: Result<(Option<Vec<char>>, usize), Diag>)
    ensures
        (match r {
            Result::Ok((o, p1)) => Result::<(Option<Seq<char>>, int), SpecDiag>::Ok(
                (opt_word_view(o), p1 as int),
            ),
            Result::Err(d) => Result::Err(diag_view(d)),
        }) == spec_reply(tokens_view(*ts), p as int),
{
    if tok_is_x(ts, p, TokenKind::KwReturns) {
        match expect_x(ts, p + 1, TokenKind::LParen) {
            Result::Err(d) => Result::Err(d),
            Result::Ok(p1) => match ident_x(ts, p1) {
                Result::Err(d) => Result::Err(d),
                Result::Ok((ty, p2)) => match expect_x(ts, p2, TokenKind::RParen) {
                    Result::Err(d) => Result::Err(d),
                    Result::Ok(p3) => Result::Ok((Option::Some(ty), p3)),
                },
            },
        }
    } else {
        Result::Ok((Option::None, p))
    }
}

fn transition_x(ts: &Vec<Token>, p: usize) -> (r: Result<(Option<Transition>, usize), Diag>)
    ensures
        (match r {
            Result::Ok((o, p1)) => Result::<(Option<SpecTransition>, int), SpecDiag>::Ok(
                (opt_transition_view(o), p1 as int),
            ),
            Result::Err(d) => Result::Err(diag_view(d)),
        }) == spec_transition(tokens_view(*ts), p as int),
{
    if tok_is_x(ts, p, TokenKind::KwFrom) {
        match ident_x(ts, p + 1) {
            Result::Err(d) => Result::Err(d),
            Result::Ok((a, p1)) => match expect_x(ts, p1, TokenKind::KwGoto) {
                Result::Err(d) => Result::Err(d),
                Result::Ok(p2) => match ident_x(ts, p2) {
                    Result::Err(d) => Result::Err(d),
                    Result::Ok((b, p3)) => Result::Ok(
                        (Option::Some(Transition { from_state: a, to_state: b }), p3),
                    ),
                },
            },
        }
    } else {
        Result::Ok((Option::None, p))
    }
}

fn message_x(ts: &Vec<Token>, p: usize) -> (r: Result<(Message, usize), Diag>)
    ensures
        (match r {
            Result::Ok((m, p1)) => Result::<(SpecMessage, int), SpecDiag>::Ok(
                (message_view(m), p1 as int),
            ),
            Result::Err(d) => Result::Err(diag_view(d)),
        }) == spec_message(tokens_view(*ts), p as int),
{
    match direction_x(ts, p) {
        Option::None => Result::Err(diag_at(ts, p)),
        Option::Some(dir) => match send_kind_x(ts, p + 1) {
            Option::None => Result::Err(diag_at(ts, p + 1)),
            Option::Some(kind) => match ident_x(ts, p + 2) {
                Result::Err(d) => Result::Err(d),
                Result::Ok((nm, p3)) => match expect_x(ts, p3, TokenKind::LParen) {
                    Result::Err(d) => Result::Err(d),
                    Result::Ok(p4) => match params_x(ts, p4) {
                        Result::Err(d) => Result::Err(d),
                        Result::Ok((ps, p5)) => match expect_x(ts, p5, TokenKind::RParen) {
                            Result::Err(d) => Result::Err(d),
                            Result::Ok(p6) => match reply_x(ts, p6) {
                                Result::Err(d) => Result::Err(d),
                                Result::Ok((reply, p7)) => match transition_x(ts, p7) {
                                    Result::Err(d) => Result::Err(d),
                                    Result::Ok((tr, p8)) => match expect_x(ts, p8, TokenKind::Semi) {
                                        Result::Err(d) => Result::Err(d),
                                        Result::Ok(p9) => Result::Ok(
                                            (
                                                Message {
                                                    name: nm,
                                                    direction: dir,
                                                    kind: kind,
                                                    params: ps,
                                                    reply: reply,
                                                    transition: tr,
                                                },
                                                p9,
                                            ),
                                        ),
                                    },
                                },
                            },
                        },
                    },
                },
            },
        },
    }
}

fn pitems_x(ts: &Vec<Token>, p: usize) -> (r: Result<
    ((Option<Vec<char>>, Vec<Vec<char>>, Vec<Vec<char>>, Vec<Message>), usize),
    Diag,
>)
    ensures
        (match r {
            Result::Ok(((mgr, mgs, sts, msgs), p1)) => Result::<
                ((Option<Seq<char>>, Seq<Seq<char>>, Seq<Seq<char>>, Seq<SpecMessage>), int),
                SpecDiag,
            >::Ok(
                (
                    (opt_word_view(mgr), words_view(mgs), words_view(sts), msgs_vview(msgs)),
                    p1 as int,
                ),
            ),
            Result::Err(d) => Result::Err(diag_view(d)),
        }) == spec_pitems(tokens_view(*ts), p as int),
    decreases ts@.len() - p,
{
    if tok_is_x(ts, p, TokenKind::RBrace) {
        let mgs: Vec<Vec<char>> = Vec::new();
        let sts: Vec<Vec<char>> = Vec::new();
        let msgs: Vec<Message> = Vec::new();
        proof {
            assert(words_view(mgs) =~= Seq::<Seq<char>>::empty());
            assert(msgs_vview(msgs) =~= Seq::<SpecMessage>::empty());
        }
        Result::Ok(((Option::None, mgs, sts, msgs), p + 1))
    } else if tok_is_x(ts, p, TokenKind::KwManager) {
        match ident_x(ts, p + 1) {
            Result::Err(d) => Result::Err(d),
            Result::Ok((nm, p1)) => match expect_x(ts, p1, TokenKind::Semi) {
                Result::Err(d) => Result::Err(d),
                Result::Ok(p2) => match pitems_x(ts, p2) {
                    Result::Err(d) => Result::Err(d),
                    Result::Ok(((mgr, mgs, sts, msgs), p3)) => match mgr {
                        Option::Some(_w) => Result::Err(diag_at(ts, p)),
                        Option::None => Result::Ok(((Option::Some(nm), mgs, sts, msgs), p3)),
                    },
                },
            },
        }
    } else if tok_is_x(ts, p, TokenKind::KwManages) {
        match ident_x(ts, p + 1) {
            Result::Err(d) => Result::Err(d),
            Result::Ok((nm, p1)) => match expect_x(ts, p1, TokenKind::Semi) {
                Result::Err(d) => Result::Err(d),
                Result::Ok(p2) => match pitems_x(ts, p2) {
                    Result::Err(d) => Result::Err(d),
                    Result::Ok(((mgr, mut mgs, sts, msgs), p3)) => {
                        let ghost old_mgs = words_view(mgs);
                        let ghost nmv = nm@;
                        mgs.insert(0, nm);
                        proof {
                            assert(words_view(mgs) =~= old_mgs.insert(0, nmv));
                        }
                        Result::Ok(((mgr, mgs, sts, msgs), p3))
                    },
                },
            },
        }
    } else if tok_is_x(ts, p, TokenKind::KwState) {
        match ident_x(ts, p + 1) {
            Result::Err(d) => Result::Err(d),
            Result::Ok((nm, p1)) => match expect_x(ts, p1, TokenKind::Semi) {
                Result::Err(d) => Result::Err(d),
                Result::Ok(p2) => match pitems_x(ts, p2) {
                    Result::Err(d) => Result::Err(d),
                    Result::Ok(((mgr, mgs, mut sts, msgs), p3)) => {
                        let ghost old_sts = words_view(sts);
                        let ghost nmv = nm@;
                        sts.insert(0, nm);
                        proof {
                            assert(words_view(sts) =~= old_sts.insert(0, nmv));
                        }
                        Result::Ok(((mgr, mgs, sts, msgs), p3))
                    },
                },
            },
        }
    } else {
        match message_x(ts, p) {
            Result::Err(d) => Result::Err(d),
            Result::Ok((m, p1)) => {
                proof {
                    lemma_message_progress(tokens_view(*ts), p as int);
                }
                match pitems_x(ts, p1) {
                    Result::Err(d) => Result::Err(d),
                    Result::Ok(((mgr, mgs, sts, mut msgs), p2)) => {
                        let ghost old_msgs = msgs_vview(msgs);
                        let ghost mv = message_view(m);
                        msgs.insert(0, m);
                        proof {
                            assert(msgs_vview(msgs) =~= old_msgs.insert(0, mv));
                        }
                        Result::Ok(((mgr, mgs, sts, msgs), p2))
                    },
                }
            },
        }
    }
}

fn protocol_x(ts: &Vec<Token>, p: usize) -> (r: Result<(Protocol, usize), Diag>)
    ensures
        (match r {
            Result::Ok((pr, p1)) => Result::<(SpecProtocol, int), SpecDiag>::Ok(
                (protocol_view(pr), p1 as int),
            ),
            Result::Err(d) => Result::Err(diag_view(d)),
        }) == spec_protocol(tokens_view(*ts), p as int),
{
    match ident_x(ts, p) {
        Result::Err(d) => Result::Err(d),
        Result::Ok((nm, p1)) => match expect_x(ts, p1, TokenKind::LBrace) {
            Result::Err(d) => Result::Err(d),
            Result::Ok(p2) => match pitems_x(ts, p2) {
                Result::Err(d) => Result::Err(d),
                Result::Ok(((mgr, mgs, sts, msgs), p3)) => Result::Ok(
                    (
                        Protocol { name: nm, manager: mgr, manages: mgs, states: sts, messages: msgs },
                        p3,
                    ),
                ),
            },
        },
    }
}

fn fields_x(ts: &Vec<Token>, p: usize) -> (r: Result<(Vec<Param>, usize), Diag>)
    ensures
        (match r {
            Result::Ok((fs, p1)) => Result::<(Seq<SpecParam>, int), SpecDiag>::Ok(
                (params_vview(fs), p1 as int),
            ),
            Result::Err(d) => Result::Err(diag_view(d)),
        }) == spec_fields(tokens_view(*ts), p as int),
    decreases ts@.len() - p,
{
    if tok_is_x(ts, p, TokenKind::RBrace) {
        let r: Vec<Param> = Vec::new();
        proof {
            assert(params_vview(r) =~= Seq::<SpecParam>::empty());
        }
        Result::Ok((r, p + 1))
    } else {
        match ident_x(ts, p) {
            Result::Err(d) => Result::Err(d),
            Result::Ok((ty, p1)) => match ident_x(ts, p1) {
                Result::Err(d) => Result::Err(d),
                Result::Ok((nm, p2)) => match expect_x(ts, p2, TokenKind::Semi) {
                    Result::Err(d) => Result::Err(d),
                    Result::Ok(p3) => match fields_x(ts, p3) {
                        Result::Err(d) => Result::Err(d),
                        Result::Ok((mut fs, p4)) => {
                            let ghost old_fs = params_vview(fs);
                            let ghost tyv = ty@;
                            let ghost nmv = nm@;
                            fs.insert(0, Param { ty: ty, name: nm });
                            proof {
                                assert(params_vview(fs) =~= old_fs.insert(
                                    0,
                                    SpecParam { ty: tyv, name: nmv },
                                ));
                            }
                            Result::Ok((fs, p4))
                        },
                    },
                },
            },
        }
    }
}

fn alts_x(ts: &Vec<Token>, p: usize) -> (r: Result<(Vec<Vec<char>>, usize), Diag>)
    ensures
        (match r {
            Result::Ok((alts, p1)) => Result::<(Seq<Seq<char>>, int), SpecDiag>::Ok(
                (words_view(alts), p1 as int),
            ),
            Result::Err(d) => Result::Err(diag_view(d)),
        }) == spec_alts(tokens_view(*ts), p as int),
    decreases ts@.len() - p,
{
    if tok_is_x(ts, p, TokenKind::RBrace) {
        let r: Vec<Vec<char>> = Vec::new();
        proof {
            assert(words_view(r) =~= Seq::<Seq<char>>::empty());
        }
        Result::Ok((r, p + 1))
    } else {
        match ident_x(ts, p) {
            Result::Err(d) => Result::Err(d),
            Result::Ok((ty, p1)) => match expect_x(ts, p1, TokenKind::Semi) {
                Result::Err(d) => Result::Err(d),
                Result::Ok(p2) => match alts_x(ts, p2) {
                    Result::Err(d) => Result::Err(d),
                    Result::Ok((mut alts, p3)) => {
                        let ghost old_alts = words_view(alts);
                        let ghost tyv = ty@;
                        alts.insert(0, ty);
                        proof {
                            assert(words_view(alts) =~= old_alts.insert(0, tyv));
                        }
                        Result::Ok((alts, p3))
                    },
                },
            },
        }
    }
}

/// One top-level item, executable form.
pub enum Item {
    ImportRef(Vec<char>),
    DeclItem(Decl),
}

pub open spec fn item_view(it: Item) -> SpecItem {
    match it {
        Item::ImportRef(w) => SpecItem::ImportRef(w@),
        Item::DeclItem(d) => SpecItem::DeclItem(decl_view(d)),
    }
}

fn item_x(ts: &Vec<Token>, p: usize) -> (r: Result<(Item, usize), Diag>)
    ensures
        (match r {
            Result::Ok((it, p1)) => Result::<(SpecItem, int), SpecDiag>::Ok(
                (item_view(it), p1 as int),
            ),
            Result::Err(d) => Result::Err(diag_view(d)),
        }) == spec_item(tokens_view(*ts), p as int),
{
    if tok_is_x(ts, p, TokenKind::KwImport) {
        match ident_x(ts, p + 1) {
            Result::Err(d) => Result::Err(d),
            Result::Ok((nm, p1)) => match expect_x(ts, p1, TokenKind::Semi) {
                Result::Err(d) => Result::Err(d),
                Result::Ok(p2) => Result::Ok((Item::ImportRef(nm), p2)),
            },
        }
    } else if tok_is_x(ts, p, TokenKind::KwUsing) {
        match ident_x(ts, p + 1) {
            Result::Err(d) => Result::Err(d),
            Result::Ok((nm, p1)) => match expect_x(ts, p1, TokenKind::Semi) {
                Result::Err(d) => Result::Err(d),
                Result::Ok(p2) => Result::Ok((Item::DeclItem(Decl::UsingDecl(nm)), p2)),
            },
        }
    } else if tok_is_x(ts, p, TokenKind::KwStruct) {
        match ident_x(ts, p + 1) {
            Result::Err(d) => Result::Err(d),
            Result::Ok((nm, p1)) => match expect_x(ts, p1, TokenKind::LBrace) {
                Result::Err(d) => Result::Err(d),
                Result::Ok(p2) => match fields_x(ts, p2) {
                    Result::Err(d) => Result::Err(d),
                    Result::Ok((fs, p3)) => Result::Ok(
                        (Item::DeclItem(Decl::StructDef(StructDecl { name: nm, fields: fs })), p3),
                    ),
                },
            },
        }
    } else if tok_is_x(ts, p, TokenKind::KwUnion) {
        match ident_x(ts, p + 1) {
            Result::Err(d) => Result::Err(d),
            Result::Ok((nm, p1)) => match expect_x(ts, p1, TokenKind::LBrace) {
                Result::Err(d) => Result::Err(d),
                Result::Ok(p2) => match alts_x(ts, p2) {
                    Result::Err(d) => Result::Err(d),
                    Result::Ok((alts, p3)) => Result::Ok(
                        (Item::DeclItem(Decl::UnionDef(UnionDecl { name: nm, alts: alts })), p3),
                    ),
                },
            },
        }
    } else if tok_is_x(ts, p, TokenKind::KwProtocol) {
        match protocol_x(ts, p + 1) {
            Result::Err(d) => Result::Err(d),
            Result::Ok((pr, p1)) => Result::Ok((Item::DeclItem(Decl::ProtocolDecl(pr)), p1)),
        }
    } else {
        Result::Err(diag_at(ts, p))
    }
}

fn items_x(ts: &Vec<Token>, p: usize) -> (r: Result<((Vec<Vec<char>>, Vec<Decl>), usize), Diag>)
    ensures
        (match r {
            Result::Ok(((imps, decls), p1)) => Result::<
                ((Seq<Seq<char>>, Seq<SpecDecl>), int),
                SpecDiag,
            >::Ok(((words_view(imps), decls_vview(decls)), p1 as int)),
            Result::Err(d) => Result::Err(diag_view(d)),
        }) == spec_items(tokens_view(*ts), p as int),
    decreases ts@.len() - p,
{
    if p >= ts.len() {
        let imps: Vec<Vec<char>> = Vec::new();
        let decls: Vec<Decl> = Vec::new();
        proof {
            assert(words_view(imps) =~= Seq::<Seq<char>>::empty());
            assert(decls_vview(decls) =~= Seq::<SpecDecl>::empty());
        }
        Result::Ok(((imps, decls), p))
    } else {
        match item_x(ts, p) {
            Result::Err(d) => Result::Err(d),
            Result::Ok((it, p1)) => {
                proof {
                    lemma_item_progress(tokens_view(*ts), p as int);
                }
                match items_x(ts, p1) {
                    Result::Err(d) => Result::Err(d),
                    Result::Ok(((mut imps, mut decls), p2)) => match it {
                        Item::ImportRef(nm) => {
                            let ghost old_imps = words_view(imps);
                            let ghost nmv = nm@;
                            imps.insert(0, nm);
                            proof {
                                assert(words_view(imps) =~= old_imps.insert(0, nmv));
                            }
                            Result::Ok(((imps, decls), p2))
                        },
                        Item::DeclItem(dc) => {
                            let ghost old_decls = decls_vview(decls);
                            let ghost dv = decl_view(dc);
                            decls.insert(0, dc);
                            proof {
                                assert(decls_vview(decls) =~= old_decls.insert(0, dv));
                            }
                            Result::Ok(((imps, decls), p2))
                        },
                    },
                }
            },
        }
    }
}

/// Parses one tokenized file into a translation unit named `file`.
fn parse_tu_x(ts: &Vec<Token>, file: Vec<char>) -> (r: Result<TranslationUnit, Diag>)
    ensures
        (match r {
            Result::Ok(tu) => Result::<SpecTranslationUnit, SpecDiag>::Ok(tu_view(tu)),
            Result::Err(d) => Result::Err(diag_view(d)),
        }) == spec_parse_tu(tokens_view(*ts), file@),
{
    let nsr: Result<(Option<Vec<char>>, usize), Diag> = if tok_is_x(ts, 0, TokenKind::KwNamespace) {
        match ident_x(ts, 1) {
            Result::Err(d) => Result::Err(d),
            Result::Ok((nm, p1)) => match expect_x(ts, p1, TokenKind::Semi) {
                Result::Err(d) => Result::Err(d),
                Result::Ok(p2) => Result::Ok((Option::Some(nm), p2)),
            },
        }
    } else {
        Result::Ok((Option::None, 0))
    };
    match nsr {
        Result::Err(d) => Result::Err(d),
        Result::Ok((ns, p0)) => match items_x(ts, p0) {
            Result::Err(d) => Result::Err(d),
            Result::Ok(((imps, decls), _p)) => Result::Ok(
                TranslationUnit { file: file, namespace: ns, imports: imps, decls: decls },
            ),
        },
    }
}

/// Strips, tokenizes and parses one file's text.
pub fn parse_file(name: &Vec<char>, text: &Vec<char>) -> (r: Result<TranslationUnit, Diag>)
    ensures
        (match r {
            Result::Ok(tu) => Result::<SpecTranslationUnit, SpecDiag>::Ok(tu_view(tu)),
            Result::Err(d) => Result::Err(diag_view(d)),
        }) == spec_parse_file(name@, text@),
{
    let stripped = crate::uncommenter::uncomment_chars(text);
    match tokenize(&stripped) {
        Result::Err(p) => Result::Err(Diag { pos: p, kind: DiagKind::BadChar }),
        Result::Ok(ts) => parse_tu_x(&ts, copy_word(name)),
    }
}

// The multi-file driver.

/// A diagnostic tied to the file it arose in.
pub struct FileDiag {
    pub file: Vec<char>,
    pub diag: Diag,
}

pub ghost struct SpecFileDiag {
    pub file: Seq<char>,
    pub diag: SpecDiag,
}

pub open spec fn file_diag_view(f: FileDiag) -> SpecFileDiag {
    SpecFileDiag { file: f.file@, diag: diag_view(f.diag) }
}

/// Whether `w` occurs in `ws`.
pub open spec fn word_in(ws: Seq<Seq<char>>, w: Seq<char>) -> bool {
    exists|i: int| 0 <= i < ws.len() && ws[i] == w
}

/// Whether two words hold the same characters.
pub fn word_eq(a: &Vec<char>, b: &Vec<char>) -> (r: bool)
    ensures
        r == (a@ == b@),
{
    if a.len() != b.len() {
        proof {
            assert(a@.len() != b@.len());
        }
        return false;
    }
    let mut i: usize = 0;
    while i < a.len()
        invariant
            a@.len() == b@.len(),
            0 <= i <= a@.len(),
            forall|k: int| 0 <= k < i ==> a@[k] == b@[k],
        decreases a@.len() - i,
    {
        if a[i] != b[i] {
            return false;
        }
        i = i + 1;
    }
    proof {
        assert(a@ =~= b@);
    }
    true
}

pub fn word_in_x(ws: &Vec<Vec<char>>, w: &Vec<char>) -> (r: bool)
    ensures
        r == word_in(words_view(*ws), w@),
{
    let mut i: usize = 0;
    while i < ws.len()
        invariant
            0 <= i <= ws@.len(),
            forall|k: int| 0 <= k < i ==> words_view(*ws)[k] != w@,
        decreases ws@.len() - i,
    {
        if word_eq(&ws[i], w) {
            proof {
                assert(words_view(*ws)[i as int] == ws@[i as int]@);
            }
            return true;
        }
        proof {
            assert(words_view(*ws)[i as int] == ws@[i as int]@);
        }
        i = i + 1;
    }
    false
}

/// Text of the first file named `name` in `files`, from index `i` on.
pub open spec fn lookup_in_files(files: Seq<SpecSourceFile>, name: Seq<char>, i: int) -> Option<
    Seq<char>,
>
    decreases files.len() - i,
    when i >= 0
{
    if i >= files.len() {
        Option::None
    } else if files[i].name == name {
        Option::Some(files[i].text)
    } else {
        lookup_in_files(files, name, i + 1)
    }
}

/// Text of the first file named `name` in the search directories, in order,
/// from directory `i` on.
pub open spec fn lookup_file(dirs: Seq<SpecSourceDir>, name: Seq<char>, i: int) -> Option<Seq<char>>
    decreases dirs.len() - i,
    when i >= 0
{
    if i >= dirs.len() {
        Option::None
    } else {
        match lookup_in_files(dirs[i].files, name, 0) {
            Option::Some(t) => Option::Some(t),
            Option::None => lookup_file(dirs, name, i + 1),
        }
    }
}

fn lookup_in_files_x(files: &Vec<SourceFile>, name: &Vec<char>, i: usize) -> (r: Option<Vec<char>>)
    ensures
        (match r {
            Option::Some(t) => Option::Some(t@),
            Option::None => Option::None,
        }) == lookup_in_files(files_view(*files), name@, i as int),
    decreases files@.len() - i,
{
    if i >= files.len() {
        Option::None
    } else {
        proof {
            assert(files_view(*files)[i as int] == file_view(files@[i as int]));
        }
        if word_eq(&files[i].name, name) {
            Option::Some(copy_word(&files[i].text))
        } else {
            lookup_in_files_x(files, name, i + 1)
        }
    }
}

fn lookup_file_x(dirs: &Vec<SourceDir>, name: &Vec<char>, i: usize) -> (r: Option<Vec<char>>)
    ensures
        (match r {
            Option::Some(t) => Option::Some(t@),
            Option::None => Option::None,
        }) == lookup_file(dirs_view(*dirs), name@, i as int),
    decreases dirs@.len() - i,
{
    if i >= dirs.len() {
        Option::None
    } else {
        proof {
            assert(dirs_view(*dirs)[i as int] == dir_view(dirs@[i as int]));
        }
        match lookup_in_files_x(&dirs[i].files, name, 0) {
            Option::Some(t) => Option::Some(t),
            Option::None => lookup_file_x(dirs, name, i + 1),
        }
    }
}

/// Bound on how many file references a compilation may follow: the number of
/// files in all search directories, saturating.
pub open spec fn spec_budget(dirs: Seq<SpecSourceDir>, i: int) -> int
    decreases dirs.len() - i,
    when i >= 0
{
    if i >= dirs.len() {
        0
    } else {
        let rest = spec_budget(dirs, i + 1);
        if dirs[i].files.len() > usize::MAX - rest {
            usize::MAX as int
        } else {
            dirs[i].files.len() + rest
        }
    }
}

fn budget_x(dirs: &Vec<SourceDir>, i: usize) -> (r: usize)
    ensures
        r as int == spec_budget(dirs_view(*dirs), i as int),
    decreases dirs@.len() - i,
{
    if i >= dirs.len() {
        0
    } else {
        proof {
            assert(dirs_view(*dirs)[i as int] == dir_view(dirs@[i as int]));
        }
        let rest = budget_x(dirs, i + 1);
        let n = dirs[i].files.len();
        if n > usize::MAX - rest {
            usize::MAX
        } else {
            n + rest
        }
    }
}

/// All file references of the given units, in unit order.
pub open spec fn spec_queue_init(units: Seq<SpecTranslationUnit>, i: int) -> Seq<Seq<char>>
    decreases units.len() - i,
    when i >= 0
{
    if i >= units.len() {
        Seq::empty()
    } else {
        units[i].imports + spec_queue_init(units, i + 1)
    }
}

/// Appends a copy of every word of `src` to `dst`.
fn append_words(dst: &mut Vec<Vec<char>>, src: &Vec<Vec<char>>)
    ensures
        words_view(*final(dst)) == words_view(*old(dst)) + words_view(*src),
{
    let mut i: usize = 0;
    while i < src.len()
        invariant
            0 <= i <= src@.len(),
            words_view(*dst) == words_view(*old(dst)) + words_view(*src).take(i as int),
        decreases src@.len() - i,
    {
        let ghost before = words_view(*dst);
        dst.push(copy_word(&src[i]));
        proof {
            assert(words_view(*src)[i as int] == src@[i as int]@);
            assert(words_view(*dst) =~= before.push(src@[i as int]@));
            assert(words_view(*dst) =~= words_view(*old(dst)) + words_view(*src).take(i + 1));
        }
        i = i + 1;
    }
    proof {
        assert(words_view(*src).take(src@.len() as int) =~= words_view(*src));
    }
}

fn queue_init_x(units: &Vec<TranslationUnit>, i: usize) -> (r: Vec<Vec<char>>)
    ensures
        words_view(r) == spec_queue_init(tus_view(*units), i as int),
    decreases units@.len() - i,
{
    if i >= units.len() {
        let r: Vec<Vec<char>> = Vec::new();
        proof {
            assert(words_view(r) =~= Seq::<Seq<char>>::empty());
        }
        r
    } else {
        proof {
            assert(tus_view(*units)[i as int] == tu_view(units@[i as int]));
        }
        let mut r: Vec<Vec<char>> = Vec::new();
        proof {
            assert(words_view(r) =~= Seq::<Seq<char>>::empty());
        }
        append_words(&mut r, &units[i].imports);
        let rest = queue_init_x(units, i + 1);
        let ghost before = words_view(r);
        append_words(&mut r, &rest);
        proof {
            assert(words_view(r) =~= spec_queue_init(tus_view(*units), i as int));
        }
        r
    }
}

/// The names of the requested files, from `i` on.
pub open spec fn spec_names(files: Seq<SpecSourceFile>, i: int) -> Seq<Seq<char>>
    decreases files.len() - i,
    when i >= 0
{
    if i >= files.len() {
        Seq::empty()
    } else {
        spec_names(files, i + 1).insert(0, files[i].name)
    }
}

fn names_x(files: &Vec<SourceFile>, i: usize) -> (r: Vec<Vec<char>>)
    ensures
        words_view(r) == spec_names(files_view(*files), i as int),
    decreases files@.len() - i,
{
    if i >= files.len() {
        let r: Vec<Vec<char>> = Vec::new();
        proof {
            assert(words_view(r) =~= Seq::<Seq<char>>::empty());
        }
        r
    } else {
        proof {
            assert(files_view(*files)[i as int] == file_view(files@[i as int]));
        }
        let mut r = names_x(files, i + 1);
        let ghost before = words_view(r);
        r.insert(0, copy_word(&files[i].name));
        proof {
            assert(words_view(r) =~= before.insert(0, files@[i as int].name@));
        }
        r
    }
}

/// Parses every requested file, in order.
pub open spec fn spec_parse_requested(files: Seq<SpecSourceFile>, i: int) -> Result<
    Seq<SpecTranslationUnit>,
    SpecFileDiag,
>
    decreases files.len() - i,
    when i >= 0
{
    if i >= files.len() {
        Result::Ok(Seq::empty())
    } else {
        match spec_parse_file(files[i].name, files[i].text) {
            Result::Err(d) => Result::Err(SpecFileDiag { file: files[i].name, diag: d }),
            Result::Ok(tu) => match spec_parse_requested(files, i + 1) {
                Result::Err(e) => Result::Err(e),
                Result::Ok(us) => Result::Ok(us.insert(0, tu)),
            },
        }
    }
}

fn parse_requested_x(files: &Vec<SourceFile>, i: usize) -> (r: Result<Vec<TranslationUnit>, FileDiag>)
    ensures
        (match r {
            Result::Ok(us) => Result::<Seq<SpecTranslationUnit>, SpecFileDiag>::Ok(tus_view(us)),
            Result::Err(e) => Result::Err(file_diag_view(e)),
        }) == spec_parse_requested(files_view(*files), i as int),
    decreases files@.len() - i,
{
    if i >= files.len() {
        let r: Vec<TranslationUnit> = Vec::new();
        proof {
            assert(tus_view(r) =~= Seq::<SpecTranslationUnit>::empty());
        }
        Result::Ok(r)
    } else {
        proof {
            assert(files_view(*files)[i as int] == file_view(files@[i as int]));
        }
        match parse_file(&files[i].name, &files[i].text) {
            Result::Err(d) => Result::Err(FileDiag { file: copy_word(&files[i].name), diag: d }),
            Result::Ok(tu) => match parse_requested_x(files, i + 1) {
                Result::Err(e) => Result::Err(e),
                Result::Ok(mut us) => {
                    let ghost before = tus_view(us);
                    let ghost tuv = tu_view(tu);
                    us.insert(0, tu);
                    proof {
                        assert(tus_view(us) =~= before.insert(0, tuv));
                    }
                    Result::Ok(us)
                },
            },
        }
    }
}

/// Follows file references until none is outstanding.  A name already dealt
/// with is not read again, so reference cycles end; a name no directory
/// satisfies, or a file that does not parse, ends the run with its
/// diagnostic.  `budget` bounds the files read.
pub open spec fn spec_resolve(
    dirs: Seq<SpecSourceDir>,
    queue: Seq<Seq<char>>,
    done: Seq<Seq<char>>,
    acc: Seq<SpecTranslationUnit>,
    budget: int,
) -> Result<Seq<SpecTranslationUnit>, SpecFileDiag>
    decreases budget, queue.len(),
    when budget >= 0
{
    if queue.len() == 0 {
        Result::Ok(acc)
    } else if word_in(done, queue[0]) {
        spec_resolve(dirs, queue.drop_first(), done, acc, budget)
    } else {
        match lookup_file(dirs, queue[0], 0) {
            Option::None => Result::Err(
                SpecFileDiag {
                    file: queue[0],
                    diag: SpecDiag { pos: 0, kind: SpecDiagKind::MissingFile(queue[0]) },
                },
            ),
            Option::Some(text) => if budget <= 0 {
                Result::Err(
                    SpecFileDiag {
                        file: queue[0],
                        diag: SpecDiag { pos: 0, kind: SpecDiagKind::FileLimit },
                    },
                )
            } else { match spec_parse_file(queue[0], text) {
                Result::Err(d) => Result::Err(SpecFileDiag { file: queue[0], diag: d }),
                Result::Ok(tu) => spec_resolve(
                    dirs,
                    queue.drop_first() + tu.imports,
                    done.push(queue[0]),
                    acc.push(tu),
                    budget - 1,
                ),
            }},
        }
    }
}

fn resolve_x(
    dirs: &Vec<SourceDir>,
    queue: Vec<Vec<char>>,
    done: Vec<Vec<char>>,
    acc: Vec<TranslationUnit>,
    budget: usize,
) -> (r: Result<Vec<TranslationUnit>, FileDiag>)
    ensures
        (match r {
            Result::Ok(us) => Result::<Seq<SpecTranslationUnit>, SpecFileDiag>::Ok(tus_view(us)),
            Result::Err(e) => Result::Err(file_diag_view(e)),
        }) == spec_resolve(
            dirs_view(*dirs),
            words_view(queue),
            words_view(done),
            tus_view(acc),
            budget as int,
        ),
    decreases budget, queue@.len(),
{
    let ghost q0 = words_view(queue);
    if queue.len() == 0 {
        proof {
            assert(q0.len() == 0);
        }
        Result::Ok(acc)
    } else {
        let mut queue = queue;
        let name = queue.remove(0);
        proof {
            assert(words_view(queue) =~= q0.drop_first());
            assert(q0[0] == name@);
        }
        if word_in_x(&done, &name) {
            resolve_x(dirs, queue, done, acc, budget)
        } else {
            match lookup_file_x(dirs, &name, 0) {
                Option::None => {
                    let w = copy_word(&name);
                    Result::Err(
                        FileDiag { file: name, diag: Diag { pos: 0, kind: DiagKind::MissingFile(w) } },
                    )
                },
                Option::Some(text) => if budget == 0 {
                    Result::Err(
                        FileDiag { file: name, diag: Diag { pos: 0, kind: DiagKind::FileLimit } },
                    )
                } else { match parse_file(&name, &text) {
                    Result::Err(d) => Result::Err(FileDiag { file: name, diag: d }),
                    Result::Ok(tu) => {
                        let ghost tuv = tu_view(tu);
                        let mut done = done;
                        let mut acc = acc;
                        let ghost done0 = words_view(done);
                        let ghost acc0 = tus_view(acc);
                        let ghost queue1 = words_view(queue);
                        append_words(&mut queue, &tu.imports);
                        done.push(name);
                        acc.push(tu);
                        proof {
                            assert(words_view(queue) =~= queue1 + tuv.imports);
                            assert(words_view(done) =~= done0.push(q0[0]));
                            assert(tus_view(acc) =~= acc0.push(tuv));
                        }
                        resolve_x(dirs, queue, done, acc, budget - 1)
                    },
                }},
            }
        }
    }
}

/// What `parse_with_errors` returns: every requested file parsed, in order,
/// followed by every unit they transitively refer to, each file read once.
pub open spec fn spec_parse_all(dirs: Seq<SpecSourceDir>, files: Seq<SpecSourceFile>) -> Result<
    Seq<SpecTranslationUnit>,
    SpecFileDiag,
> {
    match spec_parse_requested(files, 0) {
        Result::Err(e) => Result::Err(e),
        Result::Ok(units) => spec_resolve(
            dirs,
            spec_queue_init(units, 0),
            spec_names(files, 0),
            units,
            spec_budget(dirs, 0),
        ),
    }
}

/// Parses the requested files and, transitively, every file they reference,
/// searching the directories in order; the detailed variant, which keeps the
/// first failure's diagnostic.
pub fn parse_with_errors(import_dirs: &Vec<SourceDir>, files: Vec<SourceFile>) -> (r: Result<
    Vec<TranslationUnit>,
    FileDiag,
>)
    ensures
        (match r {
            Result::Ok(us) => Result::<Seq<SpecTranslationUnit>, SpecFileDiag>::Ok(tus_view(us)),
            Result::Err(e) => Result::Err(file_diag_view(e)),
        }) == spec_parse_all(dirs_view(*import_dirs), files_view(files)),
{
    match parse_requested_x(&files, 0) {
        Result::Err(e) => Result::Err(e),
        Result::Ok(units) => {
            let queue = queue_init_x(&units, 0);
            let done = names_x(&files, 0);
            let budget = budget_x(import_dirs, 0);
            resolve_x(import_dirs, queue, done, units, budget)
        },
    }
}

/// The coarse variant: the parsed units, or nothing.
pub fn parse(import_dirs: &Vec<SourceDir>, files: Vec<SourceFile>) -> (r: Option<
    Vec<TranslationUnit>,
>)
    ensures
        r is Some <==> spec_parse_all(dirs_view(*import_dirs), files_view(files)) is Ok,
        r is Some ==> tus_view(r->Some_0) == spec_parse_all(
            dirs_view(*import_dirs),
            files_view(files),
        )->Ok_0,
{
    match parse_with_errors(import_dirs, files) {
        Result::Ok(us) => Option::Some(us),
        Result::Err(_e) => Option::None,
    }
}


// Success is owed: on a well-formed file set the driver cannot fail.

/// The unit a source file parses to, where it parses.
pub open spec fn unit_of(sf: SpecSourceFile) -> SpecTranslationUnit {
    spec_parse_file(sf.name, sf.text)->Ok_0
}

/// A source file is well formed against `dirs` when it parses and every
/// file it references is found in some search directory.
pub open spec fn file_wf(dirs: Seq<SpecSourceDir>, sf: SpecSourceFile) -> bool {
    &&& spec_parse_file(sf.name, sf.text) is Ok
    &&& forall|t: int|
        0 <= t < unit_of(sf).imports.len() ==> lookup_file(dirs, unit_of(sf).imports[t], 0) is Some
}

/// Every file of every search directory is well formed.
pub open spec fn dirs_wellformed(dirs: Seq<SpecSourceDir>) -> bool {
    forall|d: int, f: int|
        0 <= d < dirs.len() && 0 <= f < dirs[d].files.len() ==> file_wf(dirs, dirs[d].files[f])
}

/// Every requested file is well formed.
pub open spec fn files_wellformed(dirs: Seq<SpecSourceDir>, files: Seq<SpecSourceFile>) -> bool {
    forall|i: int| 0 <= i < files.len() ==> file_wf(dirs, files[i])
}

/// The names of the files of one directory, from `j` on.
pub open spec fn dir_file_names(files: Seq<SpecSourceFile>, j: int) -> Seq<Seq<char>>
    decreases files.len() - j,
    when j >= 0
{
    if j >= files.len() {
        Seq::empty()
    } else {
        dir_file_names(files, j + 1).insert(0, files[j].name)
    }
}

/// The names of every file of every directory, from directory `i` on.
pub open spec fn all_dir_names(dirs: Seq<SpecSourceDir>, i: int) -> Seq<Seq<char>>
    decreases dirs.len() - i,
    when i >= 0
{
    if i >= dirs.len() {
        Seq::empty()
    } else {
        dir_file_names(dirs[i].files, 0) + all_dir_names(dirs, i + 1)
    }
}

/// How many of the names of `all` are not yet in `done`, counted with
/// multiplicity.
pub open spec fn count_fresh(all: Seq<Seq<char>>, done: Seq<Seq<char>>) -> nat
    decreases all.len(),
{
    if all.len() == 0 {
        0
    } else {
        (if word_in(done, all[0]) {
            0nat
        } else {
            1nat
        }) + count_fresh(all.drop_first(), done)
    }
}

proof fn lemma_count_fresh_le_len(all: Seq<Seq<char>>, done: Seq<Seq<char>>)
    ensures
        count_fresh(all, done) <= all.len(),
    decreases all.len(),
{
    if all.len() > 0 {
        lemma_count_fresh_le_len(all.drop_first(), done);
    }
}

proof fn lemma_count_fresh_mono(all: Seq<Seq<char>>, done: Seq<Seq<char>>, n: Seq<char>)
    ensures
        count_fresh(all, done.push(n)) <= count_fresh(all, done),
    decreases all.len(),
{
    if all.len() > 0 {
        if word_in(done, all[0]) {
            let w = choose|i: int| 0 <= i < done.len() && done[i] == all[0];
            assert(done.push(n)[w] == all[0]);
        }
        lemma_count_fresh_mono(all.drop_first(), done, n);
    }
}

proof fn lemma_count_fresh_push(all: Seq<Seq<char>>, done: Seq<Seq<char>>, n: Seq<char>)
    requires
        word_in(all, n),
        !word_in(done, n),
    ensures
        count_fresh(all, done.push(n)) < count_fresh(all, done),
    decreases all.len(),
{
    if all[0] == n {
        assert(done.push(n)[done.len() as int] == n);
        assert(word_in(done.push(n), all[0]));
        lemma_count_fresh_mono(all.drop_first(), done, n);
    } else {
        let w = choose|i: int| 0 <= i < all.len() && all[i] == n;
        assert(all.drop_first()[w - 1] == n);
        assert(word_in(all.drop_first(), n));
        lemma_count_fresh_push(all.drop_first(), done, n);
        if word_in(done, all[0]) {
            let v = choose|i: int| 0 <= i < done.len() && done[i] == all[0];
            assert(done.push(n)[v] == all[0]);
        } else {
            if word_in(done.push(n), all[0]) {
                let v = choose|i: int| 0 <= i < done.push(n).len() && done.push(n)[i] == all[0];
                assert(v < done.len());
                assert(done[v] == all[0]);
            }
        }
    }
}

/// A found file really is one of the directories' files.
proof fn lemma_lookup_in_files_witness(files: Seq<SpecSourceFile>, name: Seq<char>, j: int)
    requires
        j >= 0,
        lookup_in_files(files, name, j) is Some,
    ensures
        exists|f: int|
            j <= f < files.len() && files[f].name == name && files[f].text == lookup_in_files(
                files,
                name,
                j,
            )->Some_0,
    decreases files.len() - j,
{
    if j < files.len() {
        if files[j].name == name {
            assert(j <= j < files.len() && files[j].name == name && files[j].text
                == lookup_in_files(files, name, j)->Some_0);
        } else {
            lemma_lookup_in_files_witness(files, name, j + 1);
        }
    }
}

proof fn lemma_lookup_witness(dirs: Seq<SpecSourceDir>, name: Seq<char>, i: int)
    requires
        i >= 0,
        lookup_file(dirs, name, i) is Some,
    ensures
        exists|d: int, f: int|
            i <= d < dirs.len() && 0 <= f < dirs[d].files.len() && dirs[d].files[f].name == name
                && dirs[d].files[f].text == lookup_file(dirs, name, i)->Some_0,
    decreases dirs.len() - i,
{
    if i < dirs.len() {
        match lookup_in_files(dirs[i].files, name, 0) {
            Option::Some(_t) => {
                lemma_lookup_in_files_witness(dirs[i].files, name, 0);
            },
            Option::None => {
                lemma_lookup_witness(dirs, name, i + 1);
            },
        }
    }
}

/// A name in one directory's file list occurs among that directory's names.
proof fn lemma_dir_name_occurs(files: Seq<SpecSourceFile>, f: int)
    requires
        0 <= f < files.len(),
    ensures
        word_in(dir_file_names(files, 0), files[f].name),
    decreases files.len(),
{
    lemma_dir_names_from(files, 0, f);
}

proof fn lemma_dir_names_from(files: Seq<SpecSourceFile>, j: int, f: int)
    requires
        0 <= j <= f < files.len(),
    ensures
        word_in(dir_file_names(files, j), files[f].name),
    decreases files.len() - j,
{
    if j == f {
        assert(dir_file_names(files, j)[0] == files[f].name);
    } else {
        lemma_dir_names_from(files, j + 1, f);
        let w = choose|t: int|
            0 <= t < dir_file_names(files, j + 1).len() && #[trigger] dir_file_names(files, j + 1)[t]
                == files[f].name;
        assert(dir_file_names(files, j)[w + 1] == files[f].name);
    }
}

/// The name of any directory file occurs among all directory names.
proof fn lemma_all_names_occurs(dirs: Seq<SpecSourceDir>, i: int, d: int, f: int)
    requires
        0 <= i <= d < dirs.len(),
        0 <= f < dirs[d].files.len(),
    ensures
        word_in(all_dir_names(dirs, i), dirs[d].files[f].name),
    decreases dirs.len() - i,
{
    if i == d {
        lemma_dir_name_occurs(dirs[d].files, f);
        let w = choose|t: int|
            0 <= t < dir_file_names(dirs[d].files, 0).len() && #[trigger] dir_file_names(dirs[d].files, 0)[t]
                == dirs[d].files[f].name;
        assert(all_dir_names(dirs, i)[w] == dirs[d].files[f].name);
    } else {
        lemma_all_names_occurs(dirs, i + 1, d, f);
        let w = choose|t: int|
            0 <= t < all_dir_names(dirs, i + 1).len() && #[trigger] all_dir_names(dirs, i + 1)[t]
                == dirs[d].files[f].name;
        assert(all_dir_names(dirs, i)[dir_file_names(dirs[i].files, 0).len() + w] == dirs[d]
            .files[f].name);
    }
}

proof fn lemma_count_fresh_pos(all: Seq<Seq<char>>, done: Seq<Seq<char>>, n: Seq<char>)
    requires
        word_in(all, n),
        !word_in(done, n),
    ensures
        count_fresh(all, done) >= 1,
    decreases all.len(),
{
    if all[0] == n {
    } else {
        let w = choose|i: int| 0 <= i < all.len() && all[i] == n;
        assert(all.drop_first()[w - 1] == n);
        lemma_count_fresh_pos(all.drop_first(), done, n);
    }
}

proof fn lemma_dir_names_len(files: Seq<SpecSourceFile>, j: int)
    requires
        0 <= j <= files.len(),
    ensures
        dir_file_names(files, j).len() == files.len() - j,
    decreases files.len() - j,
{
    if j < files.len() {
        lemma_dir_names_len(files, j + 1);
    }
}

/// Where all the directories' names fit the machine, the reference budget
/// counts exactly those names.
proof fn lemma_budget_counts(dirs: Seq<SpecSourceDir>, i: int)
    requires
        0 <= i,
        all_dir_names(dirs, i).len() <= usize::MAX,
    ensures
        spec_budget(dirs, i) == all_dir_names(dirs, i).len(),
    decreases dirs.len() - i,
{
    if i < dirs.len() {
        lemma_dir_names_len(dirs[i].files, 0);
        lemma_budget_counts(dirs, i + 1);
    }
}

/// On a well-formed file set the resolver cannot fail: every queued name is
/// found, every found file parses, and the budget outlasts the fresh names.
proof fn lemma_resolve_ok(
    dirs: Seq<SpecSourceDir>,
    queue: Seq<Seq<char>>,
    done: Seq<Seq<char>>,
    acc: Seq<SpecTranslationUnit>,
    budget: int,
)
    requires
        dirs_wellformed(dirs),
        forall|t: int| 0 <= t < queue.len() ==> lookup_file(dirs, queue[t], 0) is Some,
        budget >= count_fresh(all_dir_names(dirs, 0), done),
    ensures
        spec_resolve(dirs, queue, done, acc, budget) is Ok,
    decreases budget, queue.len(),
{
    if queue.len() == 0 {
    } else if word_in(done, queue[0]) {
        assert(forall|t: int|
            0 <= t < queue.drop_first().len() ==> queue.drop_first()[t] == queue[t + 1]);
        lemma_resolve_ok(dirs, queue.drop_first(), done, acc, budget);
    } else {
        let n = queue[0];
        assert(lookup_file(dirs, n, 0) is Some);
        let text = lookup_file(dirs, n, 0)->Some_0;
        lemma_lookup_witness(dirs, n, 0);
        let (d, f) = choose|d: int, f: int|
            0 <= d < dirs.len() && 0 <= f < dirs[d].files.len() && dirs[d].files[f].name == n
                && dirs[d].files[f].text == text;
        assert(file_wf(dirs, dirs[d].files[f]));
        lemma_all_names_occurs(dirs, 0, d, f);
        lemma_count_fresh_pos(all_dir_names(dirs, 0), done, n);
        assert(budget >= 1);
        assert(spec_parse_file(n, text) is Ok);
        let tu = spec_parse_file(n, text)->Ok_0;
        assert(tu == unit_of(dirs[d].files[f]));
        let queue2 = queue.drop_first() + tu.imports;
        assert forall|t: int| 0 <= t < queue2.len() implies lookup_file(dirs, queue2[t], 0)
            is Some by {
            if t < queue.drop_first().len() {
                assert(queue2[t] == queue[t + 1]);
            } else {
                assert(queue2[t] == tu.imports[t - queue.drop_first().len()]);
            }
        }
        lemma_count_fresh_push(all_dir_names(dirs, 0), done, n);
        lemma_resolve_ok(dirs, queue2, done.push(n), acc.push(tu), budget - 1);
    }
}

/// Every file reference of every given unit is satisfied by a directory.
pub open spec fn units_imports_resolvable(
    dirs: Seq<SpecSourceDir>,
    units: Seq<SpecTranslationUnit>,
) -> bool {
    forall|j: int, t: int|
        0 <= j < units.len() && 0 <= t < units[j].imports.len() ==> lookup_file(
            dirs,
            #[trigger] units[j].imports[t],
            0,
        ) is Some
}

proof fn lemma_parse_requested_ok(dirs: Seq<SpecSourceDir>, files: Seq<SpecSourceFile>, i: int)
    requires
        0 <= i,
        files_wellformed(dirs, files),
    ensures
        spec_parse_requested(files, i) is Ok,
        units_imports_resolvable(dirs, spec_parse_requested(files, i)->Ok_0),
    decreases files.len() - i,
{
    if i < files.len() {
        assert(file_wf(dirs, files[i]));
        lemma_parse_requested_ok(dirs, files, i + 1);
        let tu = spec_parse_file(files[i].name, files[i].text)->Ok_0;
        let rest = spec_parse_requested(files, i + 1)->Ok_0;
        let us = spec_parse_requested(files, i)->Ok_0;
        assert(us == rest.insert(0, tu));
        assert forall|j: int, t: int|
            0 <= j < us.len() && 0 <= t < us[j].imports.len() implies lookup_file(
            dirs,
            #[trigger] us[j].imports[t],
            0,
        ) is Some by {
            if j == 0 {
                assert(us[0] == tu);
            } else {
                assert(us[j] == rest[j - 1]);
                assert(rest[j - 1].imports[t] == us[j].imports[t]);
            }
        }
        assert(units_imports_resolvable(dirs, us));
    }
}

proof fn lemma_queue_init_lookups(
    dirs: Seq<SpecSourceDir>,
    units: Seq<SpecTranslationUnit>,
    i: int,
)
    requires
        0 <= i,
        units_imports_resolvable(dirs, units),
    ensures
        forall|t: int|
            0 <= t < spec_queue_init(units, i).len() ==> lookup_file(
                dirs,
                #[trigger] spec_queue_init(units, i)[t],
                0,
            ) is Some,
    decreases units.len() - i,
{
    if i < units.len() {
        lemma_queue_init_lookups(dirs, units, i + 1);
        let q = spec_queue_init(units, i);
        assert forall|t: int| 0 <= t < q.len() implies lookup_file(dirs, q[t], 0) is Some by {
            if t < units[i].imports.len() {
                assert(q[t] == units[i].imports[t]);
            } else {
                assert(q[t] == spec_queue_init(units, i + 1)[t - units[i].imports.len()]);
            }
        }
    }
}

/// Law: on a well-formed file set parsing succeeds: every requested file
/// and every file of every search directory parses, every file reference is
/// satisfied by some directory, and the directories' names fit the
/// machine's counting bound.
pub proof fn lemma_parse_all_ok(dirs: Seq<SpecSourceDir>, files: Seq<SpecSourceFile>)
    requires
        dirs_wellformed(dirs),
        files_wellformed(dirs, files),
        all_dir_names(dirs, 0).len() <= usize::MAX,
    ensures
        spec_parse_all(dirs, files) is Ok,
{
    lemma_parse_requested_ok(dirs, files, 0);
    let units = spec_parse_requested(files, 0)->Ok_0;
    lemma_queue_init_lookups(dirs, units, 0);
    lemma_budget_counts(dirs, 0);
    lemma_count_fresh_le_len(all_dir_names(dirs, 0), spec_names(files, 0));
    lemma_resolve_ok(
        dirs,
        spec_queue_init(units, 0),
        spec_names(files, 0),
        units,
        spec_budget(dirs, 0),
    );
}


// The output set is closed: every unit a parsed unit refers to is present.

/// Some unit of `units` is the unit of file `n`.
pub open spec fn has_unit_for(units: Seq<SpecTranslationUnit>, n: Seq<char>) -> bool {
    exists|k: int| 0 <= k < units.len() && units[k].file == n
}

/// Every file reference of every unit has its unit in the set.
pub open spec fn closed_under_imports(units: Seq<SpecTranslationUnit>) -> bool {
    forall|j: int, t: int|
        0 <= j < units.len() && 0 <= t < units[j].imports.len() ==> has_unit_for(
            units,
            #[trigger] units[j].imports[t],
        )
}

/// A parsed file's unit carries that file's name.
proof fn lemma_parse_file_names(name: Seq<char>, text: Seq<char>)
    requires
        spec_parse_file(name, text) is Ok,
    ensures
        spec_parse_file(name, text)->Ok_0.file == name,
{
}


proof fn lemma_budget_nonneg(dirs: Seq<SpecSourceDir>, i: int)
    requires
        0 <= i,
    ensures
        spec_budget(dirs, i) >= 0,
    decreases dirs.len() - i,
{
    if i < dirs.len() {
        lemma_budget_nonneg(dirs, i + 1);
    }
}

proof fn lemma_resolve_closed(
    dirs: Seq<SpecSourceDir>,
    queue: Seq<Seq<char>>,
    done: Seq<Seq<char>>,
    acc: Seq<SpecTranslationUnit>,
    budget: int,
)
    requires
        budget >= 0,
        spec_resolve(dirs, queue, done, acc, budget) is Ok,
        forall|j: int, t: int|
            0 <= j < acc.len() && 0 <= t < acc[j].imports.len() ==> word_in(
                done,
                #[trigger] acc[j].imports[t],
            ) || word_in(queue, acc[j].imports[t]),
        forall|n: int| 0 <= n < done.len() ==> has_unit_for(acc, #[trigger] done[n]),
    ensures
        closed_under_imports(spec_resolve(dirs, queue, done, acc, budget)->Ok_0),
    decreases budget, queue.len(),
{
    let res = spec_resolve(dirs, queue, done, acc, budget)->Ok_0;
    if queue.len() == 0 {
        assert forall|j: int, t: int|
            0 <= j < res.len() && 0 <= t < res[j].imports.len() implies has_unit_for(
            res,
            #[trigger] res[j].imports[t],
        ) by {
            assert(word_in(done, res[j].imports[t]) || word_in(queue, res[j].imports[t]));
            let n = choose|n: int| 0 <= n < done.len() && done[n] == res[j].imports[t];
        }
    } else if word_in(done, queue[0]) {
        assert forall|j: int, t: int|
            0 <= j < acc.len() && 0 <= t < acc[j].imports.len() implies word_in(
            done,
            #[trigger] acc[j].imports[t],
        ) || word_in(queue.drop_first(), acc[j].imports[t]) by {
            if !word_in(done, acc[j].imports[t]) {
                let w = choose|w: int| 0 <= w < queue.len() && queue[w] == acc[j].imports[t];
                if w == 0 {
                    assert(word_in(done, queue[0]));
                } else {
                    assert(queue.drop_first()[w - 1] == acc[j].imports[t]);
                }
            }
        }
        lemma_resolve_closed(dirs, queue.drop_first(), done, acc, budget);
    } else {
        let n0 = queue[0];
        let text = lookup_file(dirs, n0, 0)->Some_0;
        let tu = spec_parse_file(n0, text)->Ok_0;
        lemma_parse_file_names(n0, text);
        let queue2 = queue.drop_first() + tu.imports;
        let done2 = done.push(n0);
        let acc2 = acc.push(tu);
        assert forall|j: int, t: int|
            0 <= j < acc2.len() && 0 <= t < acc2[j].imports.len() implies word_in(
            done2,
            #[trigger] acc2[j].imports[t],
        ) || word_in(queue2, acc2[j].imports[t]) by {
            if j == acc.len() {
                assert(acc2[j] == tu);
                assert(queue2[queue.drop_first().len() + t] == tu.imports[t]);
            } else {
                assert(acc2[j] == acc[j]);
                if word_in(done, acc[j].imports[t]) {
                    let w = choose|w: int| 0 <= w < done.len() && done[w] == acc[j].imports[t];
                    assert(done2[w] == acc[j].imports[t]);
                } else {
                    let w = choose|w: int| 0 <= w < queue.len() && queue[w] == acc[j].imports[t];
                    if w == 0 {
                        assert(done2[done.len() as int] == n0);
                    } else {
                        assert(queue2[w - 1] == acc[j].imports[t]);
                    }
                }
            }
        }
        assert forall|n: int| 0 <= n < done2.len() implies has_unit_for(
            acc2,
            #[trigger] done2[n],
        ) by {
            if n < done.len() {
                assert(has_unit_for(acc, done[n]));
                let k = choose|k: int| 0 <= k < acc.len() && acc[k].file == done[n];
                assert(acc2[k].file == done2[n]);
            } else {
                assert(acc2[acc.len() as int].file == n0);
            }
        }
        lemma_resolve_closed(dirs, queue2, done2, acc2, budget - 1);
    }
}

/// Law: when parsing succeeds, the returned set is complete.  It holds a
/// unit named for each requested file, and every file reference of every
/// returned unit is satisfied by a unit of the set, so checking can resolve
/// names across files without reading anything again.
pub proof fn lemma_parse_all_closed(dirs: Seq<SpecSourceDir>, files: Seq<SpecSourceFile>)
    requires
        spec_parse_all(dirs, files) is Ok,
    ensures
        closed_under_imports(spec_parse_all(dirs, files)->Ok_0),
        forall|i: int|
            0 <= i < files.len() ==> has_unit_for(
                spec_parse_all(dirs, files)->Ok_0,
                #[trigger] files[i].name,
            ),
{
    let units = spec_parse_requested(files, 0)->Ok_0;
    let queue = spec_queue_init(units, 0);
    let done = spec_names(files, 0);
    lemma_parse_requested_names(files, 0);
    lemma_names_len(files, 0);
    lemma_budget_nonneg(dirs, 0);
    assert forall|j: int, t: int|
        0 <= j < units.len() && 0 <= t < units[j].imports.len() implies word_in(
        done,
        #[trigger] units[j].imports[t],
    ) || word_in(queue, units[j].imports[t]) by {
        lemma_queue_init_has(units, 0, j, t);
        let w = choose|w: int|
            0 <= w < spec_queue_init(units, 0).len() && #[trigger] spec_queue_init(units, 0)[w]
                == units[j].imports[t];
    }
    assert forall|n: int| 0 <= n < done.len() implies has_unit_for(units, #[trigger] done[n]) by {
        lemma_names_index(files, 0, n);
        assert(units[n].file == done[n]);
    }
    lemma_resolve_closed(dirs, queue, done, units, spec_budget(dirs, 0));
    lemma_resolve_keeps_acc(dirs, queue, done, units, spec_budget(dirs, 0));
    let res = spec_parse_all(dirs, files)->Ok_0;
    assert forall|i: int| 0 <= i < files.len() implies has_unit_for(
        res,
        #[trigger] files[i].name,
    ) by {
        lemma_names_index(files, 0, i);
        assert(res[i] == units[i]);
        assert(units[i].file == files[i].name);
    }
}

/// The names of the requested files are the files of the requested units,
/// position by position.
proof fn lemma_parse_requested_names(files: Seq<SpecSourceFile>, i: int)
    requires
        0 <= i <= files.len(),
        spec_parse_requested(files, i) is Ok,
    ensures
        spec_parse_requested(files, i)->Ok_0.len() == files.len() - i,
        forall|j: int|
            0 <= j < files.len() - i ==> #[trigger] spec_parse_requested(files, i)->Ok_0[j].file
                == files[i + j].name,
    decreases files.len() - i,
{
    if i < files.len() {
        lemma_parse_requested_names(files, i + 1);
        lemma_parse_file_names(files[i].name, files[i].text);
    }
}

proof fn lemma_names_index(files: Seq<SpecSourceFile>, i: int, n: int)
    requires
        0 <= i <= i + n < files.len() + 1,
        0 <= n < spec_names(files, i).len(),
    ensures
        spec_names(files, i)[n] == files[i + n].name,
        spec_names(files, i).len() == files.len() - i,
    decreases files.len() - i,
{
    if i < files.len() {
        if n > 0 {
            lemma_names_index(files, i + 1, n - 1);
        } else {
            lemma_names_len(files, i + 1);
        }
    }
}

proof fn lemma_names_len(files: Seq<SpecSourceFile>, i: int)
    requires
        0 <= i <= files.len(),
    ensures
        spec_names(files, i).len() == files.len() - i,
    decreases files.len() - i,
{
    if i < files.len() {
        lemma_names_len(files, i + 1);
    }
}

/// Every import of every unit occurs in the initial reference queue.
proof fn lemma_queue_init_has(units: Seq<SpecTranslationUnit>, i: int, j: int, t: int)
    requires
        0 <= i <= j < units.len(),
        0 <= t < units[j].imports.len(),
    ensures
        word_in(spec_queue_init(units, i), units[j].imports[t]),
    decreases units.len() - i,
{
    if i == j {
        assert(spec_queue_init(units, i)[t] == units[j].imports[t]);
    } else {
        lemma_queue_init_has(units, i + 1, j, t);
        let w = choose|w: int|
            0 <= w < spec_queue_init(units, i + 1).len() && #[trigger] spec_queue_init(
                units,
                i + 1,
            )[w] == units[j].imports[t];
        assert(spec_queue_init(units, i)[units[i].imports.len() + w] == units[j].imports[t]);
    }
}

/// The resolver only appends: what went in comes out, in place.
proof fn lemma_resolve_keeps_acc(
    dirs: Seq<SpecSourceDir>,
    queue: Seq<Seq<char>>,
    done: Seq<Seq<char>>,
    acc: Seq<SpecTranslationUnit>,
    budget: int,
)
    requires
        budget >= 0,
        spec_resolve(dirs, queue, done, acc, budget) is Ok,
    ensures
        spec_resolve(dirs, queue, done, acc, budget)->Ok_0.len() >= acc.len(),
        forall|j: int|
            0 <= j < acc.len() ==> #[trigger] spec_resolve(dirs, queue, done, acc, budget)->Ok_0[j]
                == acc[j],
    decreases budget, queue.len(),
{
    if queue.len() == 0 {
    } else if word_in(done, queue[0]) {
        lemma_resolve_keeps_acc(dirs, queue.drop_first(), done, acc, budget);
    } else {
        let n0 = queue[0];
        let text = lookup_file(dirs, n0, 0)->Some_0;
        let tu = spec_parse_file(n0, text)->Ok_0;
        lemma_resolve_keeps_acc(
            dirs,
            queue.drop_first() + tu.imports,
            done.push(n0),
            acc.push(tu),
            budget - 1,
        );
    }
}

} // verus!
