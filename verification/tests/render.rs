use pbxprojopt::lexer::PBXProjLexer;
use pbxprojopt::render::{render, tokenize_and_render};

#[test]
fn test_two_aligned_comment_lines() {
    let src = "// abc123 \n// abc123 \n";
    let root = PBXProjLexer::tokenize(src.as_bytes()).unwrap();
    let out = render(&root, src.as_bytes(), false);
    assert_eq!(
        String::from_utf8(out).unwrap(),
        "File->LineComment<0,10>: // abc123 \n    ->LineComment<11,21>: // abc123 \n"
    );
}

#[test]
fn test_render_single_comment() {
    let src = "//";
    let root = PBXProjLexer::tokenize(src.as_bytes()).unwrap();
    let out = render(&root, src.as_bytes(), false);
    assert_eq!(String::from_utf8(out).unwrap(), "File->LineComment<0,2>: //\n");
}

#[test]
fn test_render_idempotent() {
    let src = "{x = (1, 2); y = 3;}";
    let root = PBXProjLexer::tokenize(src.as_bytes()).unwrap();
    let plain_once = render(&root, src.as_bytes(), false);
    let plain_again = render(&root, src.as_bytes(), false);
    assert_eq!(plain_once, plain_again);
    let styled_once = render(&root, src.as_bytes(), true);
    let styled_again = render(&root, src.as_bytes(), true);
    assert_eq!(styled_once, styled_again);
}

#[test]
fn test_render_styled_control_sequences() {
    let src = "//";
    let root = PBXProjLexer::tokenize(src.as_bytes()).unwrap();
    let out = render(&root, src.as_bytes(), true);
    assert_eq!(
        String::from_utf8(out).unwrap(),
        "\u{1b}[1mFile\u{1b}[0m\u{1b}[2m\u{1b}[0m->\u{1b}[1mLineComment\u{1b}[0m\u{1b}[2m<0,2>\u{1b}[0m: //\n"
    );
}

#[test]
fn test_render_escapes_leaf_text() {
    let src = "\"\t\n\r\"";
    let root = PBXProjLexer::tokenize(src.as_bytes()).unwrap();
    let out = render(&root, src.as_bytes(), false);
    assert_eq!(
        String::from_utf8(out).unwrap(),
        "File->QuotedString<0,5>: \\\"\\t\\n\\r\\\"\n"
    );
}

#[test]
fn test_tokenize_and_render_matches_render() {
    let src = "(1, (2, 3))";
    let root = PBXProjLexer::tokenize(src.as_bytes()).unwrap();
    let direct = render(&root, src.as_bytes(), false);
    let combined = tokenize_and_render(src.as_bytes(), false).unwrap();
    assert_eq!(direct, combined);
}

#[test]
fn test_tokenize_and_render_fails_on_mismatch() {
    assert!(tokenize_and_render("".as_bytes(), true).is_err());
    assert!(tokenize_and_render("{x=}".as_bytes(), false).is_err());
}
