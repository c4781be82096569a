//! Comment removal: replaces every comment in a source text by whitespace of
//! the same length and line structure, so that later stages see only
//! meaningful tokens while line/column positions stay valid.

use vstd::prelude::*;

verus! {

/// The five states of the character-level comment-removal machine.
#[derive(Clone, Copy, PartialEq, Eq, Structural)]
pub enum StripState {
    /// Ordinary code.
    Default,
    /// Just consumed a `/`; it is buffered, not yet emitted.
    StartComment,
    /// Inside a `//...` comment.
    InLineComment,
    /// Inside a `/*...` comment.
    InMultilineComment,
    /// Just consumed a `*` inside a multiline comment, awaiting `/`.
    EndingMultilineComment,
}

/// State reached after consuming one character `c` in state `st`.
pub open spec fn step_state(st: StripState, c: char) -> StripState {
    match st {
        StripState::Default => if c == '/' {
            StripState::StartComment
        } else {
            StripState::Default
        },
        StripState::StartComment => if c == '/' {
            StripState::InLineComment
        } else if c == '*' {
            StripState::InMultilineComment
        } else {
            StripState::Default
        },
        StripState::InLineComment => if c == '\n' {
            StripState::Default
        } else {
            StripState::InLineComment
        },
        StripState::InMultilineComment => if c == '*' {
            StripState::EndingMultilineComment
        } else {
            StripState::InMultilineComment
        },
        StripState::EndingMultilineComment => if c == '/' {
            StripState::Default
        } else if c == '*' || c == '\n' {
            StripState::EndingMultilineComment
        } else {
            StripState::InMultilineComment
        },
    }
}

/// Characters emitted on consuming one character `c` in state `st`.
pub open spec fn step_out(st: StripState, c: char) -> Seq<char> {
    match st {
        StripState::Default => if c == '/' {
            Seq::<char>::empty()
        } else {
            seq![c]
        },
        StripState::StartComment => if c == '/' || c == '*' {
            seq![' ', ' ']
        } else {
            seq!['/', c]
        },
        StripState::InLineComment => if c == '\n' {
            seq!['\n']
        } else {
            seq![' ']
        },
        StripState::InMultilineComment => if c == '\n' {
            seq!['\n']
        } else {
            seq![' ']
        },
        StripState::EndingMultilineComment => if c == '\n' {
            seq!['\n']
        } else {
            seq![' ']
        },
    }
}

/// Output of the machine run from state `st` over the whole of `s`.
pub open spec fn strip_from(st: StripState, s: Seq<char>) -> Seq<char>
    decreases s.len(),
{
    if s.len() == 0 {
        Seq::<char>::empty()
    } else {
        step_out(st, s[0]) + strip_from(step_state(st, s[0]), s.skip(1))
    }
}

/// State of the machine after running from `st` over the whole of `s`.
pub open spec fn state_after(st: StripState, s: Seq<char>) -> StripState
    decreases s.len(),
{
    if s.len() == 0 {
        st
    } else {
        state_after(step_state(st, s[0]), s.skip(1))
    }
}

/// What `uncomment` returns on a text.
pub open spec fn spec_strip(s: Seq<char>) -> Seq<char> {
    strip_from(StripState::Default, s)
}

/// Number of characters buffered but not yet emitted in state `st`.
pub open spec fn pending(st: StripState) -> nat {
    if st == StripState::StartComment {
        1
    } else {
        0
    }
}

/// The machine emits one character per character consumed, up to buffering:
/// running from `st` over `s` emits `s.len()` characters, corrected by the
/// buffer held on entry and the buffer still held at the end.
pub proof fn lemma_strip_from_len(st: StripState, s: Seq<char>)
    ensures
        strip_from(st, s).len() + pending(state_after(st, s)) == s.len() + pending(st),
    decreases s.len(),
{
    if s.len() > 0 {
        lemma_strip_from_len(step_state(st, s[0]), s.skip(1));
    }
}

/// Law: stripping preserves length, except that a `/` buffered at the very
/// end of the input (a text whose last character opens a possible comment)
/// is dropped; on every other input the lengths are equal.
pub proof fn lemma_strip_len(s: Seq<char>)
    ensures
        spec_strip(s).len() + pending(state_after(StripState::Default, s)) == s.len(),
        state_after(StripState::Default, s) != StripState::StartComment ==> spec_strip(s).len()
            == s.len(),
{
    lemma_strip_from_len(StripState::Default, s);
}

/// The machine can end in the buffering state only when the last input
/// character was a `/` seen in ordinary code.
pub proof fn lemma_final_state_slash(st: StripState, s: Seq<char>)
    requires
        state_after(st, s) == StripState::StartComment,
        st != StripState::StartComment || s.len() > 0,
    ensures
        s.len() > 0 && s[s.len() - 1] == '/',
    decreases s.len(),
{
    if s.len() == 0 {
        assert(state_after(st, s) == st);
        assert(false);
    } else if s.len() == 1 {
        reveal_with_fuel(state_after, 2);
        assert(s.skip(1) =~= Seq::<char>::empty());
        assert(state_after(st, s) == step_state(st, s[0]));
    } else {
        lemma_final_state_slash(step_state(st, s[0]), s.skip(1));
        assert(s.skip(1)[s.len() - 2] == s[s.len() - 1]);
    }
}

/// A position of the output holds a newline exactly when the corresponding
/// input position does, the correspondence being shifted right by the buffer
/// held on entry.
pub proof fn lemma_strip_from_newlines(st: StripState, s: Seq<char>)
    ensures
        forall|i: int|
            0 <= i < strip_from(st, s).len() ==> ((strip_from(st, s)[i] == '\n') <==> (i >= pending(
                st,
            ) && s[i - pending(st)] == '\n')),
    decreases s.len(),
{
    if s.len() > 0 {
        let c = s[0];
        let st2 = step_state(st, c);
        let eo = step_out(st, c);
        let rest = strip_from(st2, s.skip(1));
        lemma_strip_from_newlines(st2, s.skip(1));
        assert(strip_from(st, s) == eo + rest);
        assert forall|i: int| 0 <= i < strip_from(st, s).len() implies ((strip_from(st, s)[i]
            == '\n') <==> (i >= pending(st) && s[i - pending(st)] == '\n')) by {
            if i < eo.len() {
                assert(strip_from(st, s)[i] == eo[i]);
            } else {
                let j = i - eo.len();
                assert(strip_from(st, s)[i] == rest[j]);
                lemma_strip_from_len(st2, s.skip(1));
                if j >= pending(st2) {
                    assert(s.skip(1)[j - pending(st2)] == s[j - pending(st2) + 1]);
                }
            }
        }
    }
}

/// Law: within the stripped text, a position holds a newline exactly when the
/// same position of the input does; and every newline of the input lies
/// within the stripped text.  So the stripped text has the newlines of the
/// input, at the same positions.
pub proof fn lemma_strip_newlines(s: Seq<char>)
    ensures
        forall|i: int|
            0 <= i < spec_strip(s).len() ==> ((spec_strip(s)[i] == '\n') <==> (s[i] == '\n')),
        forall|i: int| 0 <= i < s.len() && s[i] == '\n' ==> i < spec_strip(s).len(),
{
    lemma_strip_from_newlines(StripState::Default, s);
    lemma_strip_len(s);
    assert forall|i: int| 0 <= i < s.len() && s[i] == '\n' implies i < spec_strip(s).len() by {
        if i >= spec_strip(s).len() {
            lemma_final_state_slash(StripState::Default, s);
        }
    }
}

/// No `/` in `s` opens a comment: every `/` is followed by a character that
/// is neither `/` nor `*`.
pub open spec fn comment_free(s: Seq<char>) -> bool {
    forall|i: int|
        0 <= i < s.len() && #[trigger] s[i] == '/' ==> i + 1 < s.len() && s[i + 1] != '/' && s[i
            + 1] != '*'
}

/// The machine's output never contains a comment start, from whatever state
/// it is run.
pub proof fn lemma_strip_from_comment_free(st: StripState, s: Seq<char>)
    ensures
        comment_free(strip_from(st, s)),
    decreases s.len(),
{
    if s.len() > 0 {
        let c = s[0];
        let st2 = step_state(st, c);
        let eo = step_out(st, c);
        let rest = strip_from(st2, s.skip(1));
        lemma_strip_from_comment_free(st2, s.skip(1));
        assert(strip_from(st, s) == eo + rest);
        assert forall|i: int|
            0 <= i < strip_from(st, s).len() && #[trigger] strip_from(st, s)[i]
                == '/' implies i + 1 < strip_from(st, s).len() && strip_from(st, s)[i + 1] != '/'
            && strip_from(st, s)[i + 1] != '*' by {
            if i < eo.len() {
                assert(strip_from(st, s)[i] == eo[i]);
                if i + 1 < eo.len() {
                    assert(strip_from(st, s)[i + 1] == eo[i + 1]);
                } else if i + 1 < strip_from(st, s).len() {
                    assert(strip_from(st, s)[i + 1] == rest[0]);
                }
            } else {
                assert(strip_from(st, s)[i] == rest[i - eo.len()]);
                assert(rest[i - eo.len() + 1] != '/' && rest[i - eo.len() + 1] != '*');
            }
        }
    }
}

/// On a text with no comment start, the machine is the identity.
pub proof fn lemma_strip_comment_free_id(s: Seq<char>)
    requires
        comment_free(s),
    ensures
        spec_strip(s) == s,
    decreases s.len(),
{
    reveal_with_fuel(strip_from, 3);
    if s.len() == 0 {
        assert(spec_strip(s) =~= s);
    } else if s[0] != '/' {
        assert forall|i: int| 0 <= i < s.skip(1).len() && #[trigger] s.skip(1)[i] == '/' implies i
            + 1 < s.skip(1).len() && s.skip(1)[i + 1] != '/' && s.skip(1)[i + 1] != '*' by {
            assert(s.skip(1)[i] == s[i + 1]);
            assert(s[i + 2] == s.skip(1)[i + 1]);
        }
        lemma_strip_comment_free_id(s.skip(1));
        assert(spec_strip(s) =~= s);
    } else {
        assert(s[0] == '/');
        assert(s.len() >= 2 && s[1] != '/' && s[1] != '*');
        let t = s.skip(2);
        assert forall|i: int| 0 <= i < t.len() && #[trigger] t[i] == '/' implies i + 1 < t.len()
            && t[i + 1] != '/' && t[i + 1] != '*' by {
            assert(t[i] == s[i + 2]);
            assert(s[i + 3] == t[i + 1]);
        }
        lemma_strip_comment_free_id(t);
        assert(s.skip(1)[0] == s[1]);
        assert(s.skip(1).skip(1) =~= t);
        assert(spec_strip(s) =~= s);
    }
}

/// Law: stripping is idempotent.  The stripped text contains no comment
/// start, and stripping it a second time returns it unchanged.
pub proof fn lemma_strip_idempotent(s: Seq<char>)
    ensures
        comment_free(spec_strip(s)),
        spec_strip(spec_strip(s)) == spec_strip(s),
{
    lemma_strip_from_comment_free(StripState::Default, s);
    lemma_strip_comment_free_id(spec_strip(s));
}

/// Relies on `String::push`: appends the given character to the end of the
/// string.
#[verifier::external_body]
pub(crate) fn push_char(s: &mut String, c: char)
    ensures
        final(s)@ == old(s)@.push(c),
{
    s.push(c);
}

/// Unfolds one step of the machine at position `i` of `s`.
proof fn lemma_strip_unfold_at(st0: StripState, s: Seq<char>, i: int, st: StripState)
    requires
        0 <= i < s.len(),
        st == state_after(st0, s.take(i)),
    ensures
        state_after(st0, s.take(i + 1)) == step_state(st, s[i]),
        strip_from(st0, s.take(i + 1)) =~= strip_from(st0, s.take(i)) + step_out(st, s[i]),
    decreases i,
{
    if i == 0 {
        reveal_with_fuel(strip_from, 2);
        reveal_with_fuel(state_after, 2);
        assert(s.take(0) =~= Seq::<char>::empty());
        assert(s.take(1) =~= seq![s[0]]);
        assert(s.take(1).skip(1) =~= Seq::<char>::empty());
        assert(state_after(st0, s.take(0)) == st0);
        assert(s.take(1)[0] == s[0]);
        assert(strip_from(st0, s.take(0)) =~= Seq::<char>::empty());
        assert(strip_from(st0, s.take(1)) =~= strip_from(st0, s.take(0)) + step_out(st, s[0]));
    } else {
        let t = s.skip(1);
        assert(s.take(i + 1)[0] == s[0]);
        assert(s.take(i)[0] == s[0]);
        assert(s.take(i).skip(1) =~= t.take(i - 1));
        assert(s.take(i + 1).skip(1) =~= t.take(i));
        assert(t[i - 1] == s[i]);
        lemma_strip_unfold_at(step_state(st0, s[0]), t, i - 1, st);
        assert(strip_from(st0, s.take(i + 1)) == step_out(st0, s[0]) + strip_from(
            step_state(st0, s[0]),
            t.take(i),
        ));
        assert(strip_from(st0, s.take(i)) == step_out(st0, s[0]) + strip_from(
            step_state(st0, s[0]),
            t.take(i - 1),
        ));
        assert(strip_from(st0, s.take(i + 1)) =~= strip_from(st0, s.take(i)) + step_out(st, s[i]));
    }
}

/// The comment-removal machine over a character vector; same contract as
/// `uncomment`.
pub fn uncomment_chars(text: &Vec<char>) -> (out: Vec<char>)
    ensures
        out@ == spec_strip(text@),
{
    let n: usize = text.len();
    let mut out: Vec<char> = Vec::new();
    let mut st: StripState = StripState::Default;
    let mut i: usize = 0;
    while i < n
        invariant
            n == text@.len(),
            0 <= i <= n,
            st == state_after(StripState::Default, text@.take(i as int)),
            out@ == strip_from(StripState::Default, text@.take(i as int)),
        decreases n - i,
    {
        let c: char = text[i];
        let ghost prev: StripState = st;
        proof {
            lemma_strip_unfold_at(StripState::Default, text@, i as int, st);
        }
        match st {
            StripState::Default => {
                if c == '/' {
                    st = StripState::StartComment;
                } else {
                    out.push(c);
                }
            },
            StripState::StartComment => {
                if c == '/' {
                    out.push(' ');
                    out.push(' ');
                    st = StripState::InLineComment;
                } else if c == '*' {
                    out.push(' ');
                    out.push(' ');
                    st = StripState::InMultilineComment;
                } else {
                    out.push('/');
                    out.push(c);
                    st = StripState::Default;
                }
            },
            StripState::InLineComment => {
                if c == '\n' {
                    out.push('\n');
                    st = StripState::Default;
                } else {
                    out.push(' ');
                }
            },
            StripState::InMultilineComment => {
                if c == '\n' {
                    out.push('\n');
                } else if c == '*' {
                    out.push(' ');
                    st = StripState::EndingMultilineComment;
                } else {
                    out.push(' ');
                }
            },
            StripState::EndingMultilineComment => {
                if c == '\n' {
                    out.push('\n');
                } else if c == '/' {
                    out.push(' ');
                    st = StripState::Default;
                } else if c == '*' {
                    out.push(' ');
                } else {
                    out.push(' ');
                    st = StripState::InMultilineComment;
                }
            },
        }
        proof {
            assert(st == step_state(prev, text@[i as int]));
            assert(out@ =~= strip_from(StripState::Default, text@.take(i as int)) + step_out(
                prev,
                text@[i as int],
            ));
        }
        i = i + 1;
    }
    proof {
        assert(text@.take(n as int) =~= text@);
    }
    out
}

/// Replaces every comment in `text` by whitespace: one space per comment
/// character, with newlines inside comments kept, so that the result has the
/// same line structure as the input.  Non-comment characters pass through
/// unchanged.
pub fn uncomment(text: &str) -> (out: String)
    ensures
        out@ == spec_strip(text@),
{
    let cs = str_chars(text);
    let stripped = uncomment_chars(&cs);
    chars_string(&stripped)
}

/// The characters of a string slice, in order.
fn str_chars(text: &str) -> (v: Vec<char>)
    ensures
        v@ == text@,
{
    let n: usize = text.unicode_len();
    let mut v: Vec<char> = Vec::new();
    let mut i: usize = 0;
    while i < n
        invariant
            n == text@.len(),
            0 <= i <= n,
            v@ == text@.take(i as int),
        decreases n - i,
    {
        v.push(text.get_char(i));
        proof {
            assert(v@ =~= text@.take(i + 1));
        }
        i = i + 1;
    }
    proof {
        assert(text@.take(n as int) =~= text@);
    }
    v
}

/// A string holding exactly the given characters.
fn chars_string(v: &Vec<char>) -> (s: String)
    ensures
        s@ == v@,
{
    let mut s = String::new();
    let mut i: usize = 0;
    while i < v.len()
        invariant
            0 <= i <= v@.len(),
            s@ == v@.take(i as int),
        decreases v@.len() - i,
    {
        push_char(&mut s, v[i]);
        proof {
            assert(s@ =~= v@.take(i + 1));
        }
        i = i + 1;
    }
    proof {
        assert(v@.take(v@.len() as int) =~= v@);
    }
    s
}


// Line and column of a character position, and their stability under
// stripping.

/// Line number (1-based) of position `pos` of `s`: one more than the
/// newlines before it.
pub open spec fn spec_line_of(s: Seq<char>, pos: int) -> int
    decreases pos,
    when pos >= 0
{
    if pos <= 0 {
        1
    } else {
        spec_line_of(s, pos - 1) + (if s[pos - 1] == '\n' {
            1int
        } else {
            0int
        })
    }
}

/// Column number (1-based) of position `pos` of `s`: characters since the
/// line began.
pub open spec fn spec_col_of(s: Seq<char>, pos: int) -> int
    decreases pos,
    when pos >= 0
{
    if pos <= 0 {
        1
    } else if s[pos - 1] == '\n' {
        1
    } else {
        spec_col_of(s, pos - 1) + 1
    }
}

/// Line and column of character position `pos` in `text`, both 1-based.
pub fn line_col_of(text: &Vec<char>, pos: usize) -> (r: (usize, usize))
    requires
        pos <= text@.len(),
        pos < usize::MAX,
    ensures
        r.0 as int == spec_line_of(text@, pos as int),
        r.1 as int == spec_col_of(text@, pos as int),
{
    let mut line: usize = 1;
    let mut col: usize = 1;
    let mut i: usize = 0;
    while i < pos
        invariant
            0 <= i <= pos <= text@.len(),
            pos < usize::MAX,
            line as int == spec_line_of(text@, i as int),
            col as int == spec_col_of(text@, i as int),
            line <= i + 1,
            col <= i + 1,
        decreases pos - i,
    {
        if text[i] == '\n' {
            line = line + 1;
            col = 1;
        } else {
            col = col + 1;
        }
        i = i + 1;
    }
    (line, col)
}

/// Law: stripping keeps diagnostic positions valid.  At every position of
/// the stripped text, the line and the column are those of the same
/// position in the original text.
pub proof fn lemma_strip_positions(s: Seq<char>, pos: int)
    requires
        0 <= pos <= spec_strip(s).len(),
    ensures
        spec_line_of(spec_strip(s), pos) == spec_line_of(s, pos),
        spec_col_of(spec_strip(s), pos) == spec_col_of(s, pos),
    decreases pos,
{
    lemma_strip_newlines(s);
    lemma_strip_len(s);
    if pos > 0 {
        lemma_strip_positions(s, pos - 1);
        assert((spec_strip(s)[pos - 1] == '\n') <==> (s[pos - 1] == '\n'));
    }
}

} // verus!
