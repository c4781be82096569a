//! The data model shared by parsing and checking: source files handed to the
//! driver, and per-file syntax trees (translation units) with protocols,
//! messages, structs, unions and foreign-type aliases.
//!
//! Each executable type has a spec-level mirror holding mathematical
//! sequences, and a view function onto it; contracts speak of the mirrors.

use vstd::prelude::*;

verus! {

/// One source file handed to the driver: its name and its raw text.
pub struct SourceFile {
    pub name: Vec<char>,
    pub text: Vec<char>,
}

/// One directory searched when a file refers to another file.
pub struct SourceDir {
    pub files: Vec<SourceFile>,
}

/// Who sends a message: the parent side, the child side, or either.
#[derive(Clone, Copy, PartialEq, Eq, Structural, Debug)]
pub enum Direction {
    /// Sent by the parent to the child.
    ToChild,
    /// Sent by the child to the parent.
    ToParent,
    /// May be sent by either side.
    Both,
}

/// How a message is sent: fire-and-forget, blocking without a reply value,
/// or blocking with a reply value.
#[derive(Clone, Copy, PartialEq, Eq, Structural, Debug)]
pub enum SendKind {
    Async,
    Sync,
    Rpc,
}

/// A typed, named message parameter, or a typed, named aggregate field.
pub struct Param {
    pub ty: Vec<char>,
    pub name: Vec<char>,
}

/// The state pair of a message: legal in `from_state`, moves the protocol to
/// `to_state`.
pub struct Transition {
    pub from_state: Vec<char>,
    pub to_state: Vec<char>,
}

/// A message declared on a protocol.
pub struct Message {
    pub name: Vec<char>,
    pub direction: Direction,
    pub kind: SendKind,
    pub params: Vec<Param>,
    pub reply: Option<Vec<char>>,
    pub transition: Option<Transition>,
}

/// A named actor-pair contract: optional manager, managed protocols, named
/// states, and messages.
pub struct Protocol {
    pub name: Vec<char>,
    pub manager: Option<Vec<char>>,
    pub manages: Vec<Vec<char>>,
    pub states: Vec<Vec<char>>,
    pub messages: Vec<Message>,
}

/// A named aggregate type.
pub struct StructDecl {
    pub name: Vec<char>,
    pub fields: Vec<Param>,
}

/// A named tagged-alternative type.
pub struct UnionDecl {
    pub name: Vec<char>,
    pub alts: Vec<Vec<char>>,
}

/// A top-level declaration of a translation unit.
pub enum Decl {
    ProtocolDecl(Protocol),
    StructDef(StructDecl),
    UnionDef(UnionDecl),
    /// A foreign type introduced by a `using` declaration.
    UsingDecl(Vec<char>),
}

/// One parsed source file: its name, its namespace, the names of the files
/// it refers to, and its top-level declarations.
pub struct TranslationUnit {
    pub file: Vec<char>,
    pub namespace: Option<Vec<char>>,
    pub imports: Vec<Vec<char>>,
    pub decls: Vec<Decl>,
}

// Spec-level mirrors.

pub ghost struct SpecSourceFile {
    pub name: Seq<char>,
    pub text: Seq<char>,
}

pub ghost struct SpecSourceDir {
    pub files: Seq<SpecSourceFile>,
}

pub ghost struct SpecParam {
    pub ty: Seq<char>,
    pub name: Seq<char>,
}

pub ghost struct SpecTransition {
    pub from_state: Seq<char>,
    pub to_state: Seq<char>,
}

pub ghost struct SpecMessage {
    pub name: Seq<char>,
    pub direction: Direction,
    pub kind: SendKind,
    pub params: Seq<SpecParam>,
    pub reply: Option<Seq<char>>,
    pub transition: Option<SpecTransition>,
}

pub ghost struct SpecProtocol {
    pub name: Seq<char>,
    pub manager: Option<Seq<char>>,
    pub manages: Seq<Seq<char>>,
    pub states: Seq<Seq<char>>,
    pub messages: Seq<SpecMessage>,
}

pub ghost struct SpecStructDecl {
    pub name: Seq<char>,
    pub fields: Seq<SpecParam>,
}

pub ghost struct SpecUnionDecl {
    pub name: Seq<char>,
    pub alts: Seq<Seq<char>>,
}

pub ghost enum SpecDecl {
    ProtocolDecl(SpecProtocol),
    StructDef(SpecStructDecl),
    UnionDef(SpecUnionDecl),
    UsingDecl(Seq<char>),
}

pub ghost struct SpecTranslationUnit {
    pub file: Seq<char>,
    pub namespace: Option<Seq<char>>,
    pub imports: Seq<Seq<char>>,
    pub decls: Seq<SpecDecl>,
}

// View functions.

pub open spec fn words_view(v: Vec<Vec<char>>) -> Seq<Seq<char>> {
    v@.map_values(|w: Vec<char>| w@)
}

pub open spec fn opt_word_view(o: Option<Vec<char>>) -> Option<Seq<char>> {
    match o {
        Option::Some(w) => Option::Some(w@),
        Option::None => Option::None,
    }
}

pub open spec fn file_view(f: SourceFile) -> SpecSourceFile {
    SpecSourceFile { name: f.name@, text: f.text@ }
}

pub open spec fn dir_view(d: SourceDir) -> SpecSourceDir {
    SpecSourceDir { files: d.files@.map_values(|f: SourceFile| file_view(f)) }
}

pub open spec fn dirs_view(ds: Vec<SourceDir>) -> Seq<SpecSourceDir> {
    ds@.map_values(|d: SourceDir| dir_view(d))
}

pub open spec fn files_view(fs: Vec<SourceFile>) -> Seq<SpecSourceFile> {
    fs@.map_values(|f: SourceFile| file_view(f))
}

pub open spec fn param_view(p: Param) -> SpecParam {
    SpecParam { ty: p.ty@, name: p.name@ }
}

pub open spec fn transition_view(t: Transition) -> SpecTransition {
    SpecTransition { from_state: t.from_state@, to_state: t.to_state@ }
}

pub open spec fn opt_transition_view(o: Option<Transition>) -> Option<SpecTransition> {
    match o {
        Option::Some(t) => Option::Some(transition_view(t)),
        Option::None => Option::None,
    }
}

pub open spec fn message_view(m: Message) -> SpecMessage {
    SpecMessage {
        name: m.name@,
        direction: m.direction,
        kind: m.kind,
        params: m.params@.map_values(|p: Param| param_view(p)),
        reply: opt_word_view(m.reply),
        transition: opt_transition_view(m.transition),
    }
}

pub open spec fn protocol_view(p: Protocol) -> SpecProtocol {
    SpecProtocol {
        name: p.name@,
        manager: opt_word_view(p.manager),
        manages: words_view(p.manages),
        states: words_view(p.states),
        messages: p.messages@.map_values(|m: Message| message_view(m)),
    }
}

pub open spec fn decl_view(d: Decl) -> SpecDecl {
    match d {
        Decl::ProtocolDecl(p) => SpecDecl::ProtocolDecl(protocol_view(p)),
        Decl::StructDef(s) => SpecDecl::StructDef(
            SpecStructDecl { name: s.name@, fields: s.fields@.map_values(|p: Param| param_view(p)) },
        ),
        Decl::UnionDef(u) => SpecDecl::UnionDef(
            SpecUnionDecl { name: u.name@, alts: words_view(u.alts) },
        ),
        Decl::UsingDecl(w) => SpecDecl::UsingDecl(w@),
    }
}

pub open spec fn tu_view(t: TranslationUnit) -> SpecTranslationUnit {
    SpecTranslationUnit {
        file: t.file@,
        namespace: opt_word_view(t.namespace),
        imports: words_view(t.imports),
        decls: t.decls@.map_values(|d: Decl| decl_view(d)),
    }
}

pub open spec fn tus_view(ts: Vec<TranslationUnit>) -> Seq<SpecTranslationUnit> {
    ts@.map_values(|t: TranslationUnit| tu_view(t))
}

/// The name of a top-level declaration.
pub open spec fn spec_decl_name(d: SpecDecl) -> Seq<char> {
    match d {
        SpecDecl::ProtocolDecl(p) => p.name,
        SpecDecl::StructDef(s) => s.name,
        SpecDecl::UnionDef(u) => u.name,
        SpecDecl::UsingDecl(w) => w,
    }
}

} // verus!
