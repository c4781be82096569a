use ipdl_parser::uncommenter::{line_col_of, uncomment};

#[test]
fn basic_tests() {
    assert_eq!(uncomment("123"), "123");
    assert_eq!(uncomment("//123"), "     ");
    assert_eq!(uncomment("//123\n"), "     \n");
    assert_eq!(uncomment("//123\n45"), "     \n45");
    assert_eq!(uncomment("//123\n45"), "     \n45");
    assert_eq!(uncomment("//123\n//45\n6"), "     \n    \n6");

    assert_eq!(uncomment("0/*123*/0"), "0       0");
    assert_eq!(uncomment("0/*12\n3*/0"), "0    \n   0");

    // Newline right before fake end of multiline comment.
    assert_eq!(uncomment("/**\n*/"), "   \n  ");
}

#[test]
fn length_and_newlines_preserved() {
    let cases = [
        "a // b\nc /* d\ne */ f",
        "no comments at all",
        "/* unterminated\ncomment",
        "x / y",
        "/**/",
        "a/**/*/b",
    ];
    for text in cases {
        let out = uncomment(text);
        assert_eq!(out.chars().count(), text.chars().count());
        let tn: Vec<bool> = text.chars().map(|c| c == '\n').collect();
        let on: Vec<bool> = out.chars().map(|c| c == '\n').collect();
        assert_eq!(tn, on);
    }
}

#[test]
fn trailing_slash_is_buffered() {
    // The one shape on which the output is shorter: a final `/` that could
    // have opened a comment is dropped with the input's end.
    assert_eq!(uncomment("0/"), "0");
    assert_eq!(uncomment("/"), "");
}

#[test]
fn stripping_is_idempotent() {
    let cases = ["a /* b */ // c", "x//y\nz", "/* s */ t /", "0/*12\n3*/0"];
    for text in cases {
        let once = uncomment(text);
        let twice = uncomment(&once);
        assert_eq!(once, twice);
    }
}

#[test]
fn star_inside_multiline_comment_does_not_close_early() {
    // `a` after `*` returns the machine to the ordinary multiline state, so
    // `a/` must not end the comment.
    assert_eq!(uncomment("/* *a/ b */x"), "           x");
}

#[test]
fn line_and_column_survive_stripping() {
    let text = "ab /* c\n d */ e\nf";
    let stripped = uncomment(text);
    let tv: Vec<char> = text.chars().collect();
    let sv: Vec<char> = stripped.chars().collect();
    for pos in 0..sv.len() {
        assert_eq!(line_col_of(&tv, pos), line_col_of(&sv, pos));
    }
    assert_eq!(line_col_of(&tv, 8), (2, 1));
}
