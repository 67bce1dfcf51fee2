use pbxprojopt::lexer::PBXProjLexer;
use pbxprojopt::tree::{GrammarRule, ParseNode};

fn lexable(content: &str) {
    let r = PBXProjLexer::tokenize(content.as_bytes());
    r.unwrap();
}

fn unlexable(content: &str) {
    let r = PBXProjLexer::tokenize(content.as_bytes());
    assert!(r.is_err());
}

/// Case:  An empty file is not parsable
#[test]
fn test_empty_file() {
    unlexable("");
}

#[test]
fn test_comment_line() {
    lexable("//");
    lexable("//abc123");
    lexable("// abc123");
    lexable("// abc123 ");
    lexable("// abc123 \n");
    lexable("// abc123 \n// abc123 \n");
    lexable(" // abc123 \n // abc123 \n");
    lexable("\n // abc123 \n // abc123 \n");
}

#[test]
fn test_comment_block() {
    lexable("/**/");
    lexable("/*abc123*/");
    lexable("/* abc123 */");
    lexable("\n/* abc123 */\n");
    lexable("/*\nabc123\n*/");
    lexable("/*\n*/");
}

#[test]
fn test_string_quoted() {
    lexable("\"\"");
    lexable("\"abc123\"");
    lexable("\"!@#$%^&*()_+1234567890-={}[];':<>,./?`~\"");

    // Note, character escape is implemented in the parser
    lexable("\"\t\n\r\"");
    lexable("\"\\t\\n\\r\"");
    lexable("\"\\\\\"");

    /*
        - No single quotes
        - No unescaped "\"
    */
    unlexable("''");
    unlexable("'a'");
    unlexable("'abc123'");
    unlexable("\"\\\"");
}

#[test]
fn test_string_unquoted() {
    lexable("ABC123");
    lexable("example.test");
    lexable("/foo/bar/baz");
    lexable("FOO_BAR_BAZ");
}

#[test]
fn test_array() {
    lexable("()");
    lexable("( )");
    lexable(" ( ) ");
    lexable("(1)");
    lexable("( 1 )");
    lexable("(1,2,3)");
    lexable("(1, 2, 3)");
    lexable("( 1, 2, 3 )");
    lexable("( \"1\", \"2\", \"3\" )");
    lexable("( // \"1\", \"2\", \"3\" )\n1, 2, 3)");
    lexable("( 1 /* a */, 2 /* a */, /* c */ 3 /* d */ )");
    lexable("(1, 2, 3,)");
}

#[test]
fn test_dictionary() {
    lexable("{}");
    lexable("{x=y;}");
    lexable("{x=y;a=b;}");
    lexable("{ x = y ; }");
    lexable(r#"{ "x" = "y" ; }"#);
    lexable(r#"{ "x" /* a */ = "y" /* b */ ; }"#);
    lexable("{\nx = 1;\n}");
    lexable("{ x = 1; /* test */ }");

    unlexable("{;}");
    unlexable("{x=}");
    unlexable("{x=y}");
}

#[test]
fn test_composite_objects() {
    lexable("(())");
    lexable("(1, 2, (3, 4))");
    lexable("(1, 2, (3, {x = 1; y = 2;}))");
    lexable("{x = (1, 2); y = 3;}");
    lexable("{x = (); y = {z = 1;};}");
}

#[test]
fn test_line_comment_leaf_span() {
    let root = PBXProjLexer::tokenize("//".as_bytes()).unwrap();
    assert_eq!(root.rule(), GrammarRule::File);
    assert_eq!(root.span(), (0, 2));
    assert_eq!(root.children().len(), 1);
    let c = &root.children()[0];
    assert_eq!(c.rule(), GrammarRule::LineComment);
    assert_eq!(c.span(), (0, 2));
    assert_eq!(c.children().len(), 0);
}

#[test]
fn test_dictionary_entry_key_value() {
    let src = "{x=y;}";
    let root = PBXProjLexer::tokenize(src.as_bytes()).unwrap();
    let dict = &root.children()[0];
    assert_eq!(dict.rule(), GrammarRule::Dictionary);
    assert_eq!(dict.span(), (0, 6));
    assert_eq!(dict.children().len(), 1);
    let entry = &dict.children()[0];
    assert_eq!(entry.rule(), GrammarRule::DictionaryEntry);
    assert_eq!(entry.children().len(), 2);
    let key = &entry.children()[0];
    let value = &entry.children()[1];
    assert_eq!(key.rule(), GrammarRule::UnquotedString);
    assert_eq!(key.text(src.as_bytes()), b"x");
    assert_eq!(value.rule(), GrammarRule::UnquotedString);
    assert_eq!(value.text(src.as_bytes()), b"y");
}

#[test]
fn test_dictionary_missing_value_mismatch() {
    let e = PBXProjLexer::tokenize("{x=}".as_bytes()).unwrap_err();
    assert!(e.position <= 4);
}

#[test]
fn test_nested_array_shape() {
    let src = "(1, 2, (3, 4))";
    let root = PBXProjLexer::tokenize(src.as_bytes()).unwrap();
    let arr = &root.children()[0];
    assert_eq!(arr.rule(), GrammarRule::Array);
    assert_eq!(arr.children().len(), 3);
    assert_eq!(arr.children()[0].rule(), GrammarRule::UnquotedString);
    assert_eq!(arr.children()[0].text(src.as_bytes()), b"1");
    assert_eq!(arr.children()[1].rule(), GrammarRule::UnquotedString);
    assert_eq!(arr.children()[1].text(src.as_bytes()), b"2");
    let inner = &arr.children()[2];
    assert_eq!(inner.rule(), GrammarRule::Array);
    assert_eq!(inner.children().len(), 2);
    assert_eq!(inner.children()[0].text(src.as_bytes()), b"3");
    assert_eq!(inner.children()[1].text(src.as_bytes()), b"4");
}

#[test]
fn test_trailing_comma_toggle() {
    assert!(PBXProjLexer::tokenize_with_options("(1, 2, 3,)".as_bytes(), true).is_ok());
    assert!(PBXProjLexer::tokenize_with_options("(1, 2, 3,)".as_bytes(), false).is_err());
    assert!(PBXProjLexer::tokenize_with_options("(1, 2, 3)".as_bytes(), false).is_ok());
}

#[test]
fn test_unterminated_block_comment() {
    unlexable("/*abc");
    unlexable("/* abc123 ");
}

#[test]
fn test_root_spans_whole_input() {
    for src in [" ( ) ", "{x = (1, 2); y = 3;}", "\n // abc123 \n"] {
        let root = PBXProjLexer::tokenize(src.as_bytes()).unwrap();
        assert_eq!(root.rule(), GrammarRule::File);
        assert_eq!(root.span(), (0, src.len()));
    }
}

fn check_children_ordered(node: &ParseNode) {
    let (start, end) = node.span();
    assert!(start <= end);
    let kids = node.children();
    for k in 0..kids.len() {
        let (ks, ke) = kids[k].span();
        assert!(start <= ks && ke <= end);
        if k + 1 < kids.len() {
            let (ns, _) = kids[k + 1].span();
            assert!(ke <= ns);
            assert!(ks < ns);
        }
        check_children_ordered(&kids[k]);
    }
}

#[test]
fn test_children_ordered_and_disjoint() {
    for src in ["(1, 2, (3, {x = 1; y = 2;}))", "{x = (); y = {z = 1;};}", "// a\n/* b */ c"] {
        let root = PBXProjLexer::tokenize(src.as_bytes()).unwrap();
        check_children_ordered(&root);
    }
}

fn collect_leaf_spans(node: &ParseNode, out: &mut Vec<(usize, usize)>) {
    let kids = node.children();
    if kids.is_empty() {
        out.push(node.span());
    } else {
        for k in kids.iter() {
            collect_leaf_spans(k, out);
        }
    }
}

#[test]
fn test_leaf_spans_round_trip() {
    for src in ["{x = (1, 2); y = 3;}", " ( 1 /* a */, 2 ) ", "// abc123 \n// abc123 \n"] {
        let root = PBXProjLexer::tokenize(src.as_bytes()).unwrap();
        let mut spans: Vec<(usize, usize)> = Vec::new();
        collect_leaf_spans(&root, &mut spans);
        let mut rebuilt = String::new();
        let mut at: usize = 0;
        for (s, e) in spans {
            rebuilt.push_str(&src[at..s]);
            rebuilt.push_str(&src[s..e]);
            at = e;
        }
        rebuilt.push_str(&src[at..]);
        assert_eq!(rebuilt, src);
    }
}
