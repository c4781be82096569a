//! Whole-program semantic checking: cross-file name resolution, duplicate
//! declarations, message shape rules, protocol state legality and
//! manager/managed consistency.
//!
//! The checker never stops at the first problem: it walks every unit and
//! declaration in order and returns all diagnostics it found, in
//! file-then-declaration order, so the outcome is the same on every run over
//! the same units.

use vstd::prelude::*;
use crate::ast::{
    Decl, Direction, Message, Param, Protocol, SendKind, SpecDecl, SpecMessage, SpecParam,
    SpecProtocol, SpecTranslationUnit, TranslationUnit, decl_view, message_view, opt_word_view,
    param_view, protocol_view, spec_decl_name, tu_view, tus_view, words_view,
};
use crate::lexer::copy_word;
use crate::parser::{word_eq, word_in};

verus! {

/// The kinds of semantic diagnostic.
#[derive(Clone, Copy, PartialEq, Eq, Structural, Debug)]
pub enum SemErrKind {
    /// A second declaration of a name already declared in the namespace.
    DuplicateDecl,
    /// A type or protocol reference no visible declaration satisfies.
    UnresolvedName,
    /// A transition through a state the protocol does not declare.
    BadState,
    /// A message whose send kind, direction and reply do not fit the table.
    BadMessageShape,
    /// A manager/managed pair declared on one side only.
    ManagerMismatch,
}

/// One semantic diagnostic: its kind, the file it arose in, and the name of
/// the offending construct.
pub struct SemErr {
    pub kind: SemErrKind,
    pub file: Vec<char>,
    pub subject: Vec<char>,
}

pub ghost struct SpecSemErr {
    pub kind: SemErrKind,
    pub file: Seq<char>,
    pub subject: Seq<char>,
}

pub open spec fn sem_view(e: SemErr) -> SpecSemErr {
    SpecSemErr { kind: e.kind, file: e.file@, subject: e.subject@ }
}

pub open spec fn sems_view(es: Vec<SemErr>) -> Seq<SpecSemErr> {
    es@.map_values(|e: SemErr| sem_view(e))
}

// Visibility: a unit sees itself and, transitively, every unit whose file
// name it imports.  Computed as a marking iterated once per unit.

/// One marking pass: a unit becomes visible when a visible unit refers to
/// its file.
pub open spec fn vis_pass(units: Seq<SpecTranslationUnit>, vis: Seq<bool>) -> Seq<bool> {
    Seq::new(
        vis.len(),
        |k: int|
            vis[k] || exists|i: int|
                0 <= i < units.len() && 0 <= i < vis.len() && vis[i] && word_in(
                    units[i].imports,
                    units[k].file,
                ),
    )
}

/// The marking after `n` passes.
pub open spec fn vis_iter(units: Seq<SpecTranslationUnit>, vis: Seq<bool>, n: nat) -> Seq<bool>
    decreases n,
{
    if n == 0 {
        vis
    } else {
        vis_iter(units, vis_pass(units, vis), (n - 1) as nat)
    }
}

/// The marking in which only unit `i` is visible.
pub open spec fn vis_only(n: nat, i: int) -> Seq<bool> {
    Seq::new(n, |k: int| k == i)
}

/// The units unit `i` sees: itself and its transitive imports, after as many
/// passes as there are units.
pub open spec fn spec_visible(units: Seq<SpecTranslationUnit>, i: int) -> Seq<bool> {
    vis_iter(units, vis_only(units.len(), i), units.len())
}

fn vis_pass_x(units: &Vec<TranslationUnit>, vis: &Vec<bool>) -> (r: Vec<bool>)
    requires
        vis@.len() == units@.len(),
    ensures
        r@ == vis_pass(tus_view(*units), vis@),
{
    let n = vis.len();
    let mut r: Vec<bool> = Vec::new();
    let mut k: usize = 0;
    while k < n
        invariant
            n == vis@.len() == units@.len(),
            0 <= k <= n,
            r@.len() == k,
            forall|t: int| 0 <= t < k ==> r@[t] == vis_pass(tus_view(*units), vis@)[t],
        decreases n - k,
    {
        let mut found: bool = vis[k];
        let mut i: usize = 0;
        while i < n
            invariant
                n == vis@.len() == units@.len(),
                0 <= i <= n,
                0 <= k < n,
                found == (vis@[k as int] || exists|a: int|
                    0 <= a < i && vis@[a] && word_in(
                        tus_view(*units)[a].imports,
                        tus_view(*units)[k as int].file,
                    )),
            decreases n - i,
        {
            if !found && vis[i] {
                proof {
                    assert(tus_view(*units)[i as int] == tu_view(units@[i as int]));
                    assert(tus_view(*units)[k as int] == tu_view(units@[k as int]));
                }
                if crate::parser::word_in_x(&units[i].imports, &units[k].file) {
                    found = true;
                }
            }
            i = i + 1;
        }
        r.push(found);
        k = k + 1;
    }
    proof {
        assert(r@ =~= vis_pass(tus_view(*units), vis@));
    }
    r
}

fn visible_x(units: &Vec<TranslationUnit>, i: usize) -> (r: Vec<bool>)
    requires
        i < units@.len(),
    ensures
        r@ == spec_visible(tus_view(*units), i as int),
        r@.len() == units@.len(),
{
    let n = units.len();
    let mut vis: Vec<bool> = Vec::new();
    let mut k: usize = 0;
    while k < n
        invariant
            0 <= k <= n,
            n == units@.len(),
            i < n,
            vis@.len() == k,
            forall|t: int| 0 <= t < k ==> vis@[t] == (t == i as int),
        decreases n - k,
    {
        vis.push(k == i);
        k = k + 1;
    }
    proof {
        assert(vis@ =~= vis_only(units@.len() as nat, i as int));
    }
    let mut round: usize = 0;
    while round < n
        invariant
            0 <= round <= n,
            n == units@.len(),
            vis@.len() == n,
            vis_iter(tus_view(*units), vis@, (n - round) as nat) == spec_visible(
                tus_view(*units),
                i as int,
            ),
        decreases n - round,
    {
        let ghost before = vis@;
        vis = vis_pass_x(units, &vis);
        proof {
            assert(vis_iter(tus_view(*units), before, (n - round) as nat) == vis_iter(
                tus_view(*units),
                vis@,
                (n - round - 1) as nat,
            ));
        }
        round = round + 1;
    }
    vis
}

// Name resolution.

/// Whether unit `u` declares `name` at top level.
pub open spec fn decl_in_unit(u: SpecTranslationUnit, name: Seq<char>) -> bool {
    exists|j: int| 0 <= j < u.decls.len() && spec_decl_name(u.decls[j]) == name
}

/// Whether `name` resolves from a unit with namespace `ns` and visibility
/// marking `vis`: some visible unit of the same namespace declares it.
pub open spec fn resolves(
    units: Seq<SpecTranslationUnit>,
    vis: Seq<bool>,
    ns: Option<Seq<char>>,
    name: Seq<char>,
) -> bool {
    exists|k: int|
        0 <= k < units.len() && 0 <= k < vis.len() && vis[k] && units[k].namespace == ns
            && decl_in_unit(units[k], name)
}

/// Whether two optional namespace names are the same.
fn opt_word_eq(a: &Option<Vec<char>>, b: &Option<Vec<char>>) -> (r: bool)
    ensures
        r == (opt_word_view(*a) == opt_word_view(*b)),
{
    match (a, b) {
        (Option::None, Option::None) => true,
        (Option::Some(x), Option::Some(y)) => word_eq(x, y),
        _ => false,
    }
}

/// The name a declaration binds.
fn decl_name_x<'a>(d: &'a Decl) -> (r: &'a Vec<char>)
    ensures
        r@ == spec_decl_name(decl_view(*d)),
{
    match d {
        Decl::ProtocolDecl(p) => &p.name,
        Decl::StructDef(s) => &s.name,
        Decl::UnionDef(u) => &u.name,
        Decl::UsingDecl(w) => w,
    }
}

fn decl_in_unit_x(u: &TranslationUnit, name: &Vec<char>) -> (r: bool)
    ensures
        r == decl_in_unit(tu_view(*u), name@),
{
    let mut j: usize = 0;
    while j < u.decls.len()
        invariant
            0 <= j <= u.decls@.len(),
            forall|t: int|
                0 <= t < j ==> spec_decl_name(tu_view(*u).decls[t]) != name@,
        decreases u.decls@.len() - j,
    {
        proof {
            assert(tu_view(*u).decls[j as int] == decl_view(u.decls@[j as int]));
        }
        if word_eq(decl_name_x(&u.decls[j]), name) {
            return true;
        }
        j = j + 1;
    }
    false
}

fn resolves_x(
    units: &Vec<TranslationUnit>,
    vis: &Vec<bool>,
    ns: &Option<Vec<char>>,
    name: &Vec<char>,
) -> (r: bool)
    ensures
        r == resolves(tus_view(*units), vis@, opt_word_view(*ns), name@),
{
    let mut k: usize = 0;
    while k < units.len()
        invariant
            0 <= k <= units@.len(),
            forall|t: int|
                0 <= t < k ==> !(0 <= t < vis@.len() && vis@[t] && tus_view(*units)[t].namespace
                    == opt_word_view(*ns) && decl_in_unit(tus_view(*units)[t], name@)),
        decreases units@.len() - k,
    {
        proof {
            assert(tus_view(*units)[k as int] == tu_view(units@[k as int]));
        }
        if k < vis.len() && vis[k] && opt_word_eq(&units[k].namespace, ns) && decl_in_unit_x(
            &units[k],
            name,
        ) {
            return true;
        }
        k = k + 1;
    }
    false
}

// Locating a protocol declaration for manager/managed checking.

/// Index of the first protocol declaration named `name` in `decls`, from `j`
/// on.
pub open spec fn find_proto_in(decls: Seq<SpecDecl>, name: Seq<char>, j: int) -> Option<int>
    decreases decls.len() - j,
    when j >= 0
{
    if j >= decls.len() {
        Option::None
    } else if decls[j] is ProtocolDecl && decls[j]->ProtocolDecl_0.name == name {
        Option::Some(j)
    } else {
        find_proto_in(decls, name, j + 1)
    }
}

/// The first visible protocol declaration named `name` in namespace `ns`:
/// its unit and declaration indices.
pub open spec fn find_proto(
    units: Seq<SpecTranslationUnit>,
    vis: Seq<bool>,
    ns: Option<Seq<char>>,
    name: Seq<char>,
    k: int,
) -> Option<(int, int)>
    decreases units.len() - k,
    when k >= 0
{
    if k >= units.len() {
        Option::None
    } else if 0 <= k < vis.len() && vis[k] && units[k].namespace == ns {
        match find_proto_in(units[k].decls, name, 0) {
            Option::Some(j) => Option::Some((k, j)),
            Option::None => find_proto(units, vis, ns, name, k + 1),
        }
    } else {
        find_proto(units, vis, ns, name, k + 1)
    }
}

fn find_proto_in_x(decls: &Vec<Decl>, name: &Vec<char>, j: usize) -> (r: Option<usize>)
    ensures
        (match r {
            Option::Some(x) => Option::Some(x as int),
            Option::None => Option::None,
        }) == find_proto_in(decls@.map_values(|d: Decl| decl_view(d)), name@, j as int),
    decreases decls@.len() - j,
{
    let ghost dv = decls@.map_values(|d: Decl| decl_view(d));
    if j >= decls.len() {
        Option::None
    } else {
        proof {
            assert(dv[j as int] == decl_view(decls@[j as int]));
        }
        match &decls[j] {
            Decl::ProtocolDecl(p) => {
                if word_eq(&p.name, name) {
                    Option::Some(j)
                } else {
                    find_proto_in_x(decls, name, j + 1)
                }
            },
            _ => find_proto_in_x(decls, name, j + 1),
        }
    }
}

fn find_proto_x(
    units: &Vec<TranslationUnit>,
    vis: &Vec<bool>,
    ns: &Option<Vec<char>>,
    name: &Vec<char>,
    k: usize,
) -> (r: Option<(usize, usize)>)
    ensures
        (match r {
            Option::Some((a, b)) => Option::Some((a as int, b as int)),
            Option::None => Option::None,
        }) == find_proto(tus_view(*units), vis@, opt_word_view(*ns), name@, k as int),
    decreases units@.len() - k,
{
    if k >= units.len() {
        Option::None
    } else {
        proof {
            assert(tus_view(*units)[k as int] == tu_view(units@[k as int]));
        }
        if k < vis.len() && vis[k] && opt_word_eq(&units[k].namespace, ns) {
            match find_proto_in_x(&units[k].decls, name, 0) {
                Option::Some(j) => Option::Some((k, j)),
                Option::None => find_proto_x(units, vis, ns, name, k + 1),
            }
        } else {
            find_proto_x(units, vis, ns, name, k + 1)
        }
    }
}

// Duplicate declarations.

/// Whether an earlier declaration (unit before `i`, or same unit before
/// `j`) in the same namespace binds the same name.
pub open spec fn dup_before(units: Seq<SpecTranslationUnit>, i: int, j: int) -> bool {
    exists|a: int, b: int|
        0 <= a < units.len() && 0 <= b < units[a].decls.len() && (a < i || (a == i && b < j))
            && units[a].namespace == units[i].namespace && spec_decl_name(units[a].decls[b])
            == spec_decl_name(units[i].decls[j])
}

fn dup_before_x(units: &Vec<TranslationUnit>, i: usize, j: usize) -> (r: bool)
    requires
        i < units@.len(),
        j < units@[i as int].decls@.len(),
    ensures
        r == dup_before(tus_view(*units), i as int, j as int),
{
    proof {
        assert(tus_view(*units)[i as int] == tu_view(units@[i as int]));
    }
    let mut a: usize = 0;
    while a < units.len()
        invariant
            0 <= a <= units@.len(),
            i < units@.len(),
            j < units@[i as int].decls@.len(),
            forall|x: int, y: int|
                0 <= x < a && 0 <= y < tus_view(*units)[x].decls.len() ==> !((x < i as int || (x
                    == i as int && y < j as int)) && tus_view(*units)[x].namespace == tus_view(
                    *units,
                )[i as int].namespace && spec_decl_name(tus_view(*units)[x].decls[y])
                    == spec_decl_name(tus_view(*units)[i as int].decls[j as int])),
        decreases units@.len() - a,
    {
        proof {
            assert(tus_view(*units)[a as int] == tu_view(units@[a as int]));
            assert(tus_view(*units)[i as int] == tu_view(units@[i as int]));
        }
        if a <= i && opt_word_eq(&units[a].namespace, &units[i].namespace) {
            let limit: usize = if a < i {
                units[a].decls.len()
            } else {
                j
            };
            let mut b: usize = 0;
            while b < limit
                invariant
                    0 <= b <= limit,
                    a < units@.len(),
                    i < units@.len(),
                    j < units@[i as int].decls@.len(),
                    limit <= units@[a as int].decls@.len(),
                    a < i ==> limit == units@[a as int].decls@.len(),
                    a == i ==> limit == j,
                    a <= i,
                    tus_view(*units)[a as int].namespace == tus_view(*units)[i as int].namespace,
                    forall|y: int|
                        0 <= y < b ==> spec_decl_name(tus_view(*units)[a as int].decls[y])
                            != spec_decl_name(tus_view(*units)[i as int].decls[j as int]),
                decreases limit - b,
            {
                proof {
                    assert(tus_view(*units)[a as int].decls[b as int] == decl_view(
                        units@[a as int].decls@[b as int],
                    ));
                    assert(tus_view(*units)[i as int].decls[j as int] == decl_view(
                        units@[i as int].decls@[j as int],
                    ));
                }
                if word_eq(decl_name_x(&units[a].decls[b]), decl_name_x(&units[i].decls[j])) {
                    return true;
                }
                b = b + 1;
            }
        }
        a = a + 1;
    }
    false
}

// The message shape table.

/// The explicit table of legal message shapes: a fire-and-forget message
/// carries no reply; a blocking message is sent only towards the parent; a
/// remote call both blocks towards the parent and carries a reply.
pub open spec fn legal_shape(k: SendKind, d: Direction, has_reply: bool) -> bool {
    match k {
        SendKind::Async => !has_reply,
        SendKind::Sync => d == Direction::ToParent,
        SendKind::Rpc => d == Direction::ToParent && has_reply,
    }
}

/// Executable form of the shape table.
pub fn legal_shape_x(k: SendKind, d: Direction, has_reply: bool) -> (r: bool)
    ensures
        r == legal_shape(k, d, has_reply),
{
    match k {
        SendKind::Async => !has_reply,
        SendKind::Sync => matches!(d, Direction::ToParent),
        SendKind::Rpc => matches!(d, Direction::ToParent) && has_reply,
    }
}


// Collecting the diagnostics, in file-then-declaration order.

pub open spec fn one_err(k: SemErrKind, file: Seq<char>, subject: Seq<char>) -> Seq<SpecSemErr> {
    seq![SpecSemErr { kind: k, file: file, subject: subject }]
}

/// Diagnostics for a list of referenced type names, from `t` on.
pub open spec fn errs_types(
    units: Seq<SpecTranslationUnit>,
    vis: Seq<bool>,
    ns: Option<Seq<char>>,
    file: Seq<char>,
    tys: Seq<Seq<char>>,
    t: int,
) -> Seq<SpecSemErr>
    decreases tys.len() - t,
    when t >= 0
{
    if t >= tys.len() {
        Seq::empty()
    } else {
        (if resolves(units, vis, ns, tys[t]) {
            Seq::empty()
        } else {
            one_err(SemErrKind::UnresolvedName, file, tys[t])
        }) + errs_types(units, vis, ns, file, tys, t + 1)
    }
}

/// Diagnostics for a parameter or field list, from `t` on.
pub open spec fn errs_params(
    units: Seq<SpecTranslationUnit>,
    vis: Seq<bool>,
    ns: Option<Seq<char>>,
    file: Seq<char>,
    ps: Seq<SpecParam>,
    t: int,
) -> Seq<SpecSemErr>
    decreases ps.len() - t,
    when t >= 0
{
    if t >= ps.len() {
        Seq::empty()
    } else {
        (if resolves(units, vis, ns, ps[t].ty) {
            Seq::empty()
        } else {
            one_err(SemErrKind::UnresolvedName, file, ps[t].ty)
        }) + errs_params(units, vis, ns, file, ps, t + 1)
    }
}

/// Diagnostics for one message: unresolved parameter and reply types, an
/// illegal shape, and transitions through undeclared states.
pub open spec fn errs_message(
    units: Seq<SpecTranslationUnit>,
    vis: Seq<bool>,
    ns: Option<Seq<char>>,
    file: Seq<char>,
    states: Seq<Seq<char>>,
    m: SpecMessage,
) -> Seq<SpecSemErr> {
    errs_params(units, vis, ns, file, m.params, 0) + (match m.reply {
        Option::Some(t) => if resolves(units, vis, ns, t) {
            Seq::empty()
        } else {
            one_err(SemErrKind::UnresolvedName, file, t)
        },
        Option::None => Seq::empty(),
    }) + (if legal_shape(m.kind, m.direction, m.reply is Some) {
        Seq::empty()
    } else {
        one_err(SemErrKind::BadMessageShape, file, m.name)
    }) + (match m.transition {
        Option::Some(tr) => (if word_in(states, tr.from_state) {
            Seq::empty()
        } else {
            one_err(SemErrKind::BadState, file, tr.from_state)
        }) + (if word_in(states, tr.to_state) {
            Seq::empty()
        } else {
            one_err(SemErrKind::BadState, file, tr.to_state)
        }),
        Option::None => Seq::empty(),
    })
}

pub open spec fn errs_messages(
    units: Seq<SpecTranslationUnit>,
    vis: Seq<bool>,
    ns: Option<Seq<char>>,
    file: Seq<char>,
    states: Seq<Seq<char>>,
    msgs: Seq<SpecMessage>,
    t: int,
) -> Seq<SpecSemErr>
    decreases msgs.len() - t,
    when t >= 0
{
    if t >= msgs.len() {
        Seq::empty()
    } else {
        errs_message(units, vis, ns, file, states, msgs[t]) + errs_messages(
            units,
            vis,
            ns,
            file,
            states,
            msgs,
            t + 1,
        )
    }
}

/// The protocol declaration at unit `k`, declaration `j`.
pub open spec fn proto_at(units: Seq<SpecTranslationUnit>, k: int, j: int) -> SpecProtocol {
    units[k].decls[j]->ProtocolDecl_0
}

/// Diagnostics for the managed-protocol list of protocol `pname`: each must
/// resolve to a protocol that names `pname` as its manager.
pub open spec fn errs_manages(
    units: Seq<SpecTranslationUnit>,
    vis: Seq<bool>,
    ns: Option<Seq<char>>,
    file: Seq<char>,
    pname: Seq<char>,
    mgs: Seq<Seq<char>>,
    t: int,
) -> Seq<SpecSemErr>
    decreases mgs.len() - t,
    when t >= 0
{
    if t >= mgs.len() {
        Seq::empty()
    } else {
        (match find_proto(units, vis, ns, mgs[t], 0) {
            Option::None => one_err(SemErrKind::UnresolvedName, file, mgs[t]),
            Option::Some((k, j)) => if proto_at(units, k, j).manager == Option::Some(pname) {
                Seq::empty()
            } else {
                one_err(SemErrKind::ManagerMismatch, file, mgs[t])
            },
        }) + errs_manages(units, vis, ns, file, pname, mgs, t + 1)
    }
}

/// Diagnostics for one protocol: its manager must resolve to a protocol
/// that manages it, its managed protocols must name it back, and its
/// messages must be well shaped and move through declared states.
pub open spec fn errs_protocol(
    units: Seq<SpecTranslationUnit>,
    vis: Seq<bool>,
    ns: Option<Seq<char>>,
    file: Seq<char>,
    p: SpecProtocol,
) -> Seq<SpecSemErr> {
    (match p.manager {
        Option::None => Seq::empty(),
        Option::Some(m) => match find_proto(units, vis, ns, m, 0) {
            Option::None => one_err(SemErrKind::UnresolvedName, file, m),
            Option::Some((k, j)) => if word_in(proto_at(units, k, j).manages, p.name) {
                Seq::empty()
            } else {
                one_err(SemErrKind::ManagerMismatch, file, m)
            },
        },
    }) + errs_manages(units, vis, ns, file, p.name, p.manages, 0) + errs_messages(
        units,
        vis,
        ns,
        file,
        p.states,
        p.messages,
        0,
    )
}

/// Diagnostics for declaration `j` of unit `i`: a duplicate-name
/// diagnostic, then the declaration's own.
pub open spec fn errs_decl(
    units: Seq<SpecTranslationUnit>,
    vis: Seq<bool>,
    i: int,
    j: int,
) -> Seq<SpecSemErr> {
    let u = units[i];
    let d = u.decls[j];
    (if dup_before(units, i, j) {
        one_err(SemErrKind::DuplicateDecl, u.file, spec_decl_name(d))
    } else {
        Seq::empty()
    }) + (match d {
        SpecDecl::UsingDecl(_w) => Seq::empty(),
        SpecDecl::StructDef(s) => errs_params(units, vis, u.namespace, u.file, s.fields, 0),
        SpecDecl::UnionDef(un) => errs_types(units, vis, u.namespace, u.file, un.alts, 0),
        SpecDecl::ProtocolDecl(p) => errs_protocol(units, vis, u.namespace, u.file, p),
    })
}

pub open spec fn errs_decls(
    units: Seq<SpecTranslationUnit>,
    vis: Seq<bool>,
    i: int,
    j: int,
) -> Seq<SpecSemErr>
    decreases units[i].decls.len() - j,
    when t_decls_guard(units, i, j)
{
    if j >= units[i].decls.len() {
        Seq::empty()
    } else {
        errs_decl(units, vis, i, j) + errs_decls(units, vis, i, j + 1)
    }
}

pub open spec fn t_decls_guard(units: Seq<SpecTranslationUnit>, i: int, j: int) -> bool {
    0 <= i < units.len() && j >= 0
}

/// Diagnostics of every unit from `i` on, each against its own visible set.
pub open spec fn errs_units(units: Seq<SpecTranslationUnit>, i: int) -> Seq<SpecSemErr>
    decreases units.len() - i,
    when i >= 0
{
    if i >= units.len() {
        Seq::empty()
    } else {
        errs_decls(units, spec_visible(units, i), i, 0) + errs_units(units, i + 1)
    }
}

/// Every semantic diagnostic of the program, in file-then-declaration
/// order.
pub open spec fn spec_check(units: Seq<SpecTranslationUnit>) -> Seq<SpecSemErr> {
    errs_units(units, 0)
}

// Executable collection.

proof fn lemma_find_proto_in_bounds(decls: Seq<SpecDecl>, name: Seq<char>, j: int)
    requires
        j >= 0,
        find_proto_in(decls, name, j) is Some,
    ensures
        j <= find_proto_in(decls, name, j)->Some_0 < decls.len(),
        decls[find_proto_in(decls, name, j)->Some_0] is ProtocolDecl,
    decreases decls.len() - j,
{
    if j < decls.len() {
        if !(decls[j] is ProtocolDecl && decls[j]->ProtocolDecl_0.name == name) {
            lemma_find_proto_in_bounds(decls, name, j + 1);
        }
    }
}

proof fn lemma_find_proto_bounds(
    units: Seq<SpecTranslationUnit>,
    vis: Seq<bool>,
    ns: Option<Seq<char>>,
    name: Seq<char>,
    k: int,
)
    requires
        k >= 0,
        find_proto(units, vis, ns, name, k) is Some,
    ensures
        ({
            let (a, b) = find_proto(units, vis, ns, name, k)->Some_0;
            k <= a < units.len() && 0 <= b < units[a].decls.len() && units[a].decls[b]
                is ProtocolDecl
        }),
    decreases units.len() - k,
{
    if k < units.len() {
        if 0 <= k < vis.len() && vis[k] && units[k].namespace == ns {
            match find_proto_in(units[k].decls, name, 0) {
                Option::Some(j) => {
                    lemma_find_proto_in_bounds(units[k].decls, name, 0);
                },
                Option::None => {
                    lemma_find_proto_bounds(units, vis, ns, name, k + 1);
                },
            }
        } else {
            lemma_find_proto_bounds(units, vis, ns, name, k + 1);
        }
    }
}


fn one_err_x(k: SemErrKind, file: &Vec<char>, subject: &Vec<char>) -> (r: Vec<SemErr>)
    ensures
        sems_view(r) == one_err(k, file@, subject@),
{
    let mut r: Vec<SemErr> = Vec::new();
    r.push(SemErr { kind: k, file: copy_word(file), subject: copy_word(subject) });
    proof {
        assert(sems_view(r) =~= one_err(k, file@, subject@));
    }
    r
}

fn errs_types_x(
    units: &Vec<TranslationUnit>,
    vis: &Vec<bool>,
    ns: &Option<Vec<char>>,
    file: &Vec<char>,
    tys: &Vec<Vec<char>>,
    t: usize,
) -> (r: Vec<SemErr>)
    ensures
        sems_view(r) == errs_types(
            tus_view(*units),
            vis@,
            opt_word_view(*ns),
            file@,
            words_view(*tys),
            t as int,
        ),
    decreases tys@.len() - t,
{
    if t >= tys.len() {
        let r: Vec<SemErr> = Vec::new();
        proof {
            assert(sems_view(r) =~= Seq::<SpecSemErr>::empty());
        }
        r
    } else {
        proof {
            assert(words_view(*tys)[t as int] == tys@[t as int]@);
        }
        let mut head: Vec<SemErr> = if resolves_x(units, vis, ns, &tys[t]) {
            Vec::new()
        } else {
            one_err_x(SemErrKind::UnresolvedName, file, &tys[t])
        };
        let ghost h0 = sems_view(head);
        let mut rest = errs_types_x(units, vis, ns, file, tys, t + 1);
        let ghost r0 = sems_view(rest);
        head.append(&mut rest);
        proof {
            assert(sems_view(head) =~= h0 + r0);
            if !resolves(tus_view(*units), vis@, opt_word_view(*ns), words_view(*tys)[t as int]) {
                assert(h0 =~= one_err(SemErrKind::UnresolvedName, file@, words_view(*tys)[t as int]));
            } else {
                assert(h0 =~= Seq::<SpecSemErr>::empty());
            }
        }
        head
    }
}

fn errs_params_x(
    units: &Vec<TranslationUnit>,
    vis: &Vec<bool>,
    ns: &Option<Vec<char>>,
    file: &Vec<char>,
    ps: &Vec<Param>,
    t: usize,
) -> (r: Vec<SemErr>)
    ensures
        sems_view(r) == errs_params(
            tus_view(*units),
            vis@,
            opt_word_view(*ns),
            file@,
            ps@.map_values(|q: Param| param_view(q)),
            t as int,
        ),
    decreases ps@.len() - t,
{
    let ghost psv = ps@.map_values(|q: Param| param_view(q));
    if t >= ps.len() {
        let r: Vec<SemErr> = Vec::new();
        proof {
            assert(sems_view(r) =~= Seq::<SpecSemErr>::empty());
        }
        r
    } else {
        proof {
            assert(psv[t as int] == param_view(ps@[t as int]));
        }
        let mut head: Vec<SemErr> = if resolves_x(units, vis, ns, &ps[t].ty) {
            Vec::new()
        } else {
            one_err_x(SemErrKind::UnresolvedName, file, &ps[t].ty)
        };
        let ghost h0 = sems_view(head);
        let mut rest = errs_params_x(units, vis, ns, file, ps, t + 1);
        let ghost r0 = sems_view(rest);
        head.append(&mut rest);
        proof {
            assert(sems_view(head) =~= h0 + r0);
            if !resolves(tus_view(*units), vis@, opt_word_view(*ns), psv[t as int].ty) {
                assert(h0 =~= one_err(SemErrKind::UnresolvedName, file@, psv[t as int].ty));
            } else {
                assert(h0 =~= Seq::<SpecSemErr>::empty());
            }
        }
        head
    }
}

fn errs_message_x(
    units: &Vec<TranslationUnit>,
    vis: &Vec<bool>,
    ns: &Option<Vec<char>>,
    file: &Vec<char>,
    states: &Vec<Vec<char>>,
    m: &Message,
) -> (r: Vec<SemErr>)
    ensures
        sems_view(r) == errs_message(
            tus_view(*units),
            vis@,
            opt_word_view(*ns),
            file@,
            words_view(*states),
            message_view(*m),
        ),
{
    let mut out = errs_params_x(units, vis, ns, file, &m.params, 0);
    let ghost part1 = sems_view(out);
    let mut part2: Vec<SemErr> = match &m.reply {
        Option::Some(t) => {
            if resolves_x(units, vis, ns, t) {
                Vec::new()
            } else {
                one_err_x(SemErrKind::UnresolvedName, file, t)
            }
        },
        Option::None => Vec::new(),
    };
    let ghost p2 = sems_view(part2);
    out.append(&mut part2);
    let has_reply = matches!(&m.reply, Option::Some(_));
    let mut part3: Vec<SemErr> = if legal_shape_x(m.kind, m.direction, has_reply) {
        Vec::new()
    } else {
        one_err_x(SemErrKind::BadMessageShape, file, &m.name)
    };
    let ghost p3 = sems_view(part3);
    out.append(&mut part3);
    let mut part4: Vec<SemErr> = match &m.transition {
        Option::Some(tr) => {
            let mut v: Vec<SemErr> = if crate::parser::word_in_x(states, &tr.from_state) {
                Vec::new()
            } else {
                one_err_x(SemErrKind::BadState, file, &tr.from_state)
            };
            let ghost v0 = sems_view(v);
            let mut w: Vec<SemErr> = if crate::parser::word_in_x(states, &tr.to_state) {
                Vec::new()
            } else {
                one_err_x(SemErrKind::BadState, file, &tr.to_state)
            };
            let ghost w0 = sems_view(w);
            v.append(&mut w);
            proof {
                assert(sems_view(v) =~= v0 + w0);
            }
            v
        },
        Option::None => Vec::new(),
    };
    let ghost p4 = sems_view(part4);
    out.append(&mut part4);
    proof {
        let mv = message_view(*m);
        assert(sems_view(out) =~= part1 + p2 + p3 + p4);
        assert(mv.reply is Some <==> has_reply);
        assert(sems_view(out) =~= errs_message(
            tus_view(*units),
            vis@,
            opt_word_view(*ns),
            file@,
            words_view(*states),
            mv,
        ));
    }
    out
}

fn errs_messages_x(
    units: &Vec<TranslationUnit>,
    vis: &Vec<bool>,
    ns: &Option<Vec<char>>,
    file: &Vec<char>,
    states: &Vec<Vec<char>>,
    msgs: &Vec<Message>,
    t: usize,
) -> (r: Vec<SemErr>)
    ensures
        sems_view(r) == errs_messages(
            tus_view(*units),
            vis@,
            opt_word_view(*ns),
            file@,
            words_view(*states),
            msgs@.map_values(|m: Message| message_view(m)),
            t as int,
        ),
    decreases msgs@.len() - t,
{
    let ghost msv = msgs@.map_values(|m: Message| message_view(m));
    if t >= msgs.len() {
        let r: Vec<SemErr> = Vec::new();
        proof {
            assert(sems_view(r) =~= Seq::<SpecSemErr>::empty());
        }
        r
    } else {
        proof {
            assert(msv[t as int] == message_view(msgs@[t as int]));
        }
        let mut head = errs_message_x(units, vis, ns, file, states, &msgs[t]);
        let ghost h0 = sems_view(head);
        let mut rest = errs_messages_x(units, vis, ns, file, states, msgs, t + 1);
        let ghost r0 = sems_view(rest);
        head.append(&mut rest);
        proof {
            assert(sems_view(head) =~= h0 + r0);
        }
        head
    }
}

fn errs_manages_x(
    units: &Vec<TranslationUnit>,
    vis: &Vec<bool>,
    ns: &Option<Vec<char>>,
    file: &Vec<char>,
    pname: &Vec<char>,
    mgs: &Vec<Vec<char>>,
    t: usize,
) -> (r: Vec<SemErr>)
    ensures
        sems_view(r) == errs_manages(
            tus_view(*units),
            vis@,
            opt_word_view(*ns),
            file@,
            pname@,
            words_view(*mgs),
            t as int,
        ),
    decreases mgs@.len() - t,
{
    if t >= mgs.len() {
        let r: Vec<SemErr> = Vec::new();
        proof {
            assert(sems_view(r) =~= Seq::<SpecSemErr>::empty());
        }
        r
    } else {
        proof {
            assert(words_view(*mgs)[t as int] == mgs@[t as int]@);
        }
        let mut head: Vec<SemErr> = match find_proto_x(units, vis, ns, &mgs[t], 0) {
            Option::None => one_err_x(SemErrKind::UnresolvedName, file, &mgs[t]),
            Option::Some((k, j)) => {
                proof {
                    lemma_find_proto_bounds(
                        tus_view(*units),
                        vis@,
                        opt_word_view(*ns),
                        mgs@[t as int]@,
                        0,
                    );
                    assert(tus_view(*units)[k as int] == tu_view(units@[k as int]));
                    assert(tus_view(*units)[k as int].decls[j as int] == decl_view(
                        units@[k as int].decls@[j as int],
                    ));
                }
                let found = match &units[k].decls[j] {
                    Decl::ProtocolDecl(p) => match &p.manager {
                        Option::Some(mg) => word_eq(mg, pname),
                        Option::None => false,
                    },
                    _ => false,
                };
                if found {
                    Vec::new()
                } else {
                    one_err_x(SemErrKind::ManagerMismatch, file, &mgs[t])
                }
            },
        };
        let ghost h0 = sems_view(head);
        let mut rest = errs_manages_x(units, vis, ns, file, pname, mgs, t + 1);
        let ghost r0 = sems_view(rest);
        head.append(&mut rest);
        proof {
            assert(sems_view(head) =~= h0 + r0);
        }
        head
    }
}


fn errs_protocol_x(
    units: &Vec<TranslationUnit>,
    vis: &Vec<bool>,
    ns: &Option<Vec<char>>,
    file: &Vec<char>,
    p: &Protocol,
) -> (r: Vec<SemErr>)
    ensures
        sems_view(r) == errs_protocol(
            tus_view(*units),
            vis@,
            opt_word_view(*ns),
            file@,
            protocol_view(*p),
        ),
{
    let mut out: Vec<SemErr> = match &p.manager {
        Option::None => Vec::new(),
        Option::Some(m) => match find_proto_x(units, vis, ns, m, 0) {
            Option::None => one_err_x(SemErrKind::UnresolvedName, file, m),
            Option::Some((k, j)) => {
                proof {
                    lemma_find_proto_bounds(tus_view(*units), vis@, opt_word_view(*ns), m@, 0);
                    assert(tus_view(*units)[k as int] == tu_view(units@[k as int]));
                    assert(tus_view(*units)[k as int].decls[j as int] == decl_view(
                        units@[k as int].decls@[j as int],
                    ));
                }
                let listed = match &units[k].decls[j] {
                    Decl::ProtocolDecl(q) => crate::parser::word_in_x(&q.manages, &p.name),
                    _ => false,
                };
                if listed {
                    Vec::new()
                } else {
                    one_err_x(SemErrKind::ManagerMismatch, file, m)
                }
            },
        },
    };
    let ghost part1 = sems_view(out);
    let mut part2 = errs_manages_x(units, vis, ns, file, &p.name, &p.manages, 0);
    let ghost p2 = sems_view(part2);
    out.append(&mut part2);
    let mut part3 = errs_messages_x(units, vis, ns, file, &p.states, &p.messages, 0);
    let ghost p3 = sems_view(part3);
    out.append(&mut part3);
    proof {
        assert(sems_view(out) =~= part1 + p2 + p3);
    }
    out
}

fn errs_decl_x(units: &Vec<TranslationUnit>, vis: &Vec<bool>, i: usize, j: usize) -> (r: Vec<
    SemErr,
>)
    requires
        i < units@.len(),
        j < units@[i as int].decls@.len(),
    ensures
        sems_view(r) == errs_decl(tus_view(*units), vis@, i as int, j as int),
{
    proof {
        assert(tus_view(*units)[i as int] == tu_view(units@[i as int]));
        assert(tus_view(*units)[i as int].decls[j as int] == decl_view(
            units@[i as int].decls@[j as int],
        ));
    }
    let file = &units[i].file;
    let ns = &units[i].namespace;
    let mut out: Vec<SemErr> = if dup_before_x(units, i, j) {
        one_err_x(SemErrKind::DuplicateDecl, file, decl_name_x(&units[i].decls[j]))
    } else {
        Vec::new()
    };
    let ghost part1 = sems_view(out);
    let mut part2: Vec<SemErr> = match &units[i].decls[j] {
        Decl::UsingDecl(_w) => Vec::new(),
        Decl::StructDef(sd) => errs_params_x(units, vis, ns, file, &sd.fields, 0),
        Decl::UnionDef(un) => errs_types_x(units, vis, ns, file, &un.alts, 0),
        Decl::ProtocolDecl(pr) => errs_protocol_x(units, vis, ns, file, pr),
    };
    let ghost p2 = sems_view(part2);
    out.append(&mut part2);
    proof {
        assert(sems_view(out) =~= part1 + p2);
    }
    out
}

fn errs_decls_x(units: &Vec<TranslationUnit>, vis: &Vec<bool>, i: usize, j: usize) -> (r: Vec<
    SemErr,
>)
    requires
        i < units@.len(),
    ensures
        sems_view(r) == errs_decls(tus_view(*units), vis@, i as int, j as int),
    decreases units@[i as int].decls@.len() - j,
{
    proof {
        assert(tus_view(*units)[i as int] == tu_view(units@[i as int]));
    }
    if j >= units[i].decls.len() {
        let r: Vec<SemErr> = Vec::new();
        proof {
            assert(sems_view(r) =~= Seq::<SpecSemErr>::empty());
        }
        r
    } else {
        let mut head = errs_decl_x(units, vis, i, j);
        let ghost h0 = sems_view(head);
        let mut rest = errs_decls_x(units, vis, i, j + 1);
        let ghost r0 = sems_view(rest);
        head.append(&mut rest);
        proof {
            assert(sems_view(head) =~= h0 + r0);
        }
        head
    }
}

fn errs_units_x(units: &Vec<TranslationUnit>, i: usize) -> (r: Vec<SemErr>)
    ensures
        sems_view(r) == errs_units(tus_view(*units), i as int),
    decreases units@.len() - i,
{
    if i >= units.len() {
        let r: Vec<SemErr> = Vec::new();
        proof {
            assert(sems_view(r) =~= Seq::<SpecSemErr>::empty());
        }
        r
    } else {
        let vis = visible_x(units, i);
        let mut head = errs_decls_x(units, &vis, i, 0);
        let ghost h0 = sems_view(head);
        let mut rest = errs_units_x(units, i + 1);
        let ghost r0 = sems_view(rest);
        head.append(&mut rest);
        proof {
            assert(sems_view(head) =~= h0 + r0);
        }
        head
    }
}

/// Every semantic diagnostic of the program, in order.
pub fn check_units(units: &Vec<TranslationUnit>) -> (r: Vec<SemErr>)
    ensures
        sems_view(r) == spec_check(tus_view(*units)),
{
    errs_units_x(units, 0)
}

// Rendering the diagnostics as one message.

/// The fixed phrase of each diagnostic kind.
pub open spec fn kind_phrase(k: SemErrKind) -> Seq<char> {
    match k {
        SemErrKind::DuplicateDecl => "multiple declaration of "@,
        SemErrKind::UnresolvedName => "unresolved type or protocol name "@,
        SemErrKind::BadState => "transition through undeclared state "@,
        SemErrKind::BadMessageShape => "illegal reply or direction for message "@,
        SemErrKind::ManagerMismatch => "inconsistent manager declaration for "@,
    }
}

/// One diagnostic's line of text.
pub open spec fn spec_render_sem(e: SpecSemErr) -> Seq<char> {
    e.file + ": "@ + kind_phrase(e.kind) + "'"@ + e.subject + "'"@ + "\n"@
}

/// The whole report: one line per diagnostic, in order.
pub open spec fn spec_render_sems(es: Seq<SpecSemErr>, i: int) -> Seq<char>
    decreases es.len() - i,
    when i >= 0
{
    if i >= es.len() {
        Seq::empty()
    } else {
        spec_render_sem(es[i]) + spec_render_sems(es, i + 1)
    }
}

/// Appends the characters of `w` to `s`.
pub(crate) fn append_chars(s: &mut String, w: &Vec<char>)
    ensures
        final(s)@ == old(s)@ + w@,
{
    let mut i: usize = 0;
    while i < w.len()
        invariant
            0 <= i <= w@.len(),
            s@ == old(s)@ + w@.take(i as int),
        decreases w@.len() - i,
    {
        crate::uncommenter::push_char(s, w[i]);
        proof {
            assert(old(s)@ + w@.take(i + 1) =~= (old(s)@ + w@.take(i as int)).push(w@[i as int]));
        }
        i = i + 1;
    }
    proof {
        assert(w@.take(w@.len() as int) =~= w@);
    }
}

fn render_sem_into(s: &mut String, e: &SemErr)
    ensures
        final(s)@ == old(s)@ + spec_render_sem(sem_view(*e)),
{
    append_chars(s, &e.file);
    s.append(": ");
    match e.kind {
        SemErrKind::DuplicateDecl => s.append("multiple declaration of "),
        SemErrKind::UnresolvedName => s.append("unresolved type or protocol name "),
        SemErrKind::BadState => s.append("transition through undeclared state "),
        SemErrKind::BadMessageShape => s.append("illegal reply or direction for message "),
        SemErrKind::ManagerMismatch => s.append("inconsistent manager declaration for "),
    }
    s.append("'");
    append_chars(s, &e.subject);
    s.append("'");
    s.append("\n");
    proof {
        assert(s@ =~= old(s)@ + spec_render_sem(sem_view(*e)));
    }
}

/// Renders the diagnostics from `i` on into one string.
fn render_sems(es: &Vec<SemErr>, i: usize) -> (r: String)
    ensures
        r@ == spec_render_sems(sems_view(*es), i as int),
    decreases es@.len() - i,
{
    if i >= es.len() {
        let r = String::new();
        proof {
            assert(r@ =~= spec_render_sems(sems_view(*es), i as int));
        }
        r
    } else {
        proof {
            assert(sems_view(*es)[i as int] == sem_view(es@[i as int]));
        }
        let mut r = String::new();
        render_sem_into(&mut r, &es[i]);
        let rest = render_sems(es, i + 1);
        let ghost r0 = r@;
        r.append(rest.as_str());
        proof {
            assert(r@ =~= spec_render_sems(sems_view(*es), i as int));
        }
        r
    }
}

/// Checks the whole program.  Succeeds exactly when no semantic rule is
/// violated; otherwise reports every diagnostic, joined in
/// file-then-declaration order.
pub fn check(units: &Vec<TranslationUnit>) -> (r: Result<(), String>)
    ensures
        (r is Ok) <==> spec_check(tus_view(*units)).len() == 0,
        (r is Err) ==> (r->Err_0)@ == spec_render_sems(spec_check(tus_view(*units)), 0),
{
    let errs = check_units(units);
    if errs.len() == 0 {
        proof {
            assert(sems_view(errs).len() == 0);
        }
        Result::Ok(())
    } else {
        proof {
            assert(sems_view(errs).len() > 0);
        }
        Result::Err(render_sems(&errs, 0))
    }
}

} // verus!
