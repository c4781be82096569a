//! The compilation entry point: parse the requested files and everything
//! they reference, then check the whole program, and report the first
//! stage's failure or the checker's aggregate diagnostics as one message.

use vstd::prelude::*;
use crate::ast::{SourceDir, SourceFile, dirs_view, files_view, SpecSourceDir, SpecSourceFile};
use crate::parser::{
    FileDiag, SpecDiagKind, SpecFileDiag, file_diag_view, parse_with_errors, spec_parse_all,
    DiagKind,
};
use crate::type_check::{append_chars, check, spec_check, spec_render_sems};

verus! {

/// One syntax-stage diagnostic's text: the file, then what was found.
pub open spec fn spec_render_diag(fd: SpecFileDiag) -> Seq<char> {
    fd.file + ": "@ + (match fd.diag.kind {
        SpecDiagKind::BadChar => "Unexpected token"@,
        SpecDiagKind::BadToken(w) => "Unexpected token '"@ + w + "'"@,
        SpecDiagKind::BadEnd => "Unexpected end of file"@,
        SpecDiagKind::MissingFile(w) => "cannot find file '"@ + w + "'"@,
        SpecDiagKind::FileLimit => "file reference limit exceeded"@,
    }) + "\n"@
}

fn render_diag(fd: &FileDiag) -> (r: String)
    ensures
        r@ == spec_render_diag(file_diag_view(*fd)),
{
    let mut s = String::new();
    append_chars(&mut s, &fd.file);
    s.append(": ");
    match &fd.diag.kind {
        DiagKind::BadChar => s.append("Unexpected token"),
        DiagKind::BadToken(w) => {
            s.append("Unexpected token '");
            append_chars(&mut s, w);
            s.append("'");
        },
        DiagKind::BadEnd => s.append("Unexpected end of file"),
        DiagKind::MissingFile(w) => {
            s.append("cannot find file '");
            append_chars(&mut s, w);
            s.append("'");
        },
        DiagKind::FileLimit => s.append("file reference limit exceeded"),
    }
    s.append("\n");
    proof {
        assert(s@ =~= spec_render_diag(file_diag_view(*fd)));
    }
    s
}

/// What `compile` reports: success exactly when parsing finds every file
/// well formed and the checker finds no violation; otherwise the failing
/// stage's message.
pub open spec fn spec_compile(dirs: Seq<SpecSourceDir>, files: Seq<SpecSourceFile>) -> Result<
    (),
    Seq<char>,
> {
    match spec_parse_all(dirs, files) {
        Result::Err(fd) => Result::Err(spec_render_diag(fd)),
        Result::Ok(units) => if spec_check(units).len() == 0 {
            Result::Ok(())
        } else {
            Result::Err(spec_render_sems(spec_check(units), 0))
        },
    }
}

/// Compiles the requested files against the search directories: parses them
/// and, transitively, every file they reference, then checks the whole
/// program.  Parsing failure short-circuits checking; the returned error is
/// whichever stage's message, unmodified.
pub fn compile(import_dirs: &Vec<SourceDir>, files: Vec<SourceFile>) -> (r: Result<(), String>)
    ensures
        (r is Ok) <==> (spec_compile(dirs_view(*import_dirs), files_view(files)) is Ok),
        (r is Err) ==> (r->Err_0)@ == spec_compile(
            dirs_view(*import_dirs),
            files_view(files),
        )->Err_0,
{
    match parse_with_errors(import_dirs, files) {
        Result::Err(fd) => Result::Err(render_diag(&fd)),
        Result::Ok(units) => match check(&units) {
            Result::Ok(u) => Result::Ok(u),
            Result::Err(msg) => Result::Err(msg),
        },
    }
}

/// Law: a valid file set compiles, every time.  Where every requested file
/// and every file of the search directories parses, every file reference is
/// satisfied by some directory, the directories' names fit the counting
/// bound, and the parsed program violates no semantic rule, `compile`
/// succeeds; with the determinism law below, a second run succeeds too.
pub proof fn lemma_compile_valid_ok(dirs: Seq<SpecSourceDir>, files: Seq<SpecSourceFile>)
    requires
        crate::parser::dirs_wellformed(dirs),
        crate::parser::files_wellformed(dirs, files),
        crate::parser::all_dir_names(dirs, 0).len() <= usize::MAX,
        spec_check(spec_parse_all(dirs, files)->Ok_0).len() == 0,
    ensures
        spec_compile(dirs, files) is Ok,
{
    crate::parser::lemma_parse_all_ok(dirs, files);
}

/// Law: the reported outcome is a function of the directories and files
/// alone.  Two results that both meet `compile`'s contract on the same
/// inputs agree: same verdict, and on failure the same message.  So running
/// the checker twice over the same malformed input reports the same text.
pub proof fn lemma_compile_deterministic(
    dirs: Seq<SpecSourceDir>,
    files: Seq<SpecSourceFile>,
    r1: Result<(), Seq<char>>,
    r2: Result<(), Seq<char>>,
)
    requires
        (r1 is Ok) <==> (spec_compile(dirs, files) is Ok),
        (r1 is Err) ==> r1->Err_0 == spec_compile(dirs, files)->Err_0,
        (r2 is Ok) <==> (spec_compile(dirs, files) is Ok),
        (r2 is Err) ==> r2->Err_0 == spec_compile(dirs, files)->Err_0,
    ensures
        r1 == r2,
{
    match (r1, r2) {
        (Result::Ok(u1), Result::Ok(u2)) => {
            assert(u1 == u2);
        },
        (Result::Err(e1), Result::Err(e2)) => {
            assert(e1 == spec_compile(dirs, files)->Err_0);
            assert(e2 == spec_compile(dirs, files)->Err_0);
        },
        _ => {
            assert(false);
        },
    }
}

} // verus!
