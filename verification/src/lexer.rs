//! The executable tokenizer: recursive descent over the input bytes,
//! proved to return exactly the tree that the grammar assigns to the
//! input, or to fail exactly when the grammar rejects it.

use vstd::prelude::*;

use crate::grammar::{
    block_comment_end, is_escapable, is_line_end, is_word_byte, is_ws_byte,
    line_comment_end, parse_array, parse_array_tail, parse_dict, parse_dict_tail, parse_entry,
    parse_file, parse_file_tail, parse_value, quoted_end, scan_block, scan_line, scan_quoted,
    scan_word, skip_trivia, skip_ws, word_end,
};
use crate::tree::{node_view, views_of, GrammarRule, NodeView, ParseNode};

verus! {

/// The single failure outcome of the tokenizer: the innermost rule whose
/// match was last attempted, and the input position reached.
#[derive(Clone, Copy, PartialEq, Eq, Structural, Debug)]
pub struct GrammarMismatch {
    pub rule: GrammarRule,
    pub position: usize,
}

fn ws_byte(b: u8) -> (r: bool)
    ensures
        r == is_ws_byte(b),
{
    b == 32 || b == 9 || b == 10 || b == 13
}

fn line_end_byte(b: u8) -> (r: bool)
    ensures
        r == is_line_end(b),
{
    b == 10 || b == 13
}

fn word_byte(b: u8) -> (r: bool)
    ensures
        r == is_word_byte(b),
{
    (48 <= b && b <= 57) || (65 <= b && b <= 90) || (97 <= b && b <= 122) || b == 95 || b == 46
        || b == 47 || b == 45 || b == 36
}

fn escapable_byte(b: u8) -> (r: bool)
    ensures
        r == is_escapable(b),
{
    b == 116 || b == 110 || b == 114 || b == 92
}

fn ws_to(s: &[u8], i: usize) -> (r: usize)
    requires
        i <= s@.len(),
    ensures
        r as int == skip_ws(s@, i as int),
        i <= r <= s@.len(),
    decreases s@.len() - i,
{
    if i < s.len() && ws_byte(s[i]) {
        ws_to(s, i + 1)
    } else {
        i
    }
}

fn line_to(s: &[u8], i: usize) -> (r: usize)
    requires
        i <= s@.len(),
    ensures
        r as int == scan_line(s@, i as int),
        i <= r <= s@.len(),
    decreases s@.len() - i,
{
    if i < s.len() && !line_end_byte(s[i]) {
        line_to(s, i + 1)
    } else {
        i
    }
}

fn line_comment_to(s: &[u8], i: usize) -> (r: Option<usize>)
    requires
        i <= s@.len(),
    ensures
        r is Some <==> line_comment_end(s@, i as int) is Some,
        r matches Some(e) ==> e as int == line_comment_end(s@, i as int).unwrap() && i + 2 <= e
            <= s@.len(),
{
    if i < s.len() && i + 1 < s.len() && s[i] == 47 && s[i + 1] == 47 {
        Some(line_to(s, i + 2))
    } else {
        None
    }
}

fn block_to(s: &[u8], i: usize) -> (r: Option<usize>)
    requires
        i <= s@.len(),
    ensures
        r is Some <==> scan_block(s@, i as int) is Some,
        r matches Some(e) ==> e as int == scan_block(s@, i as int).unwrap() && i + 2 <= e
            <= s@.len(),
    decreases s@.len() - i,
{
    if i >= s.len() {
        None
    } else if s[i] == 42 && i + 1 < s.len() && s[i + 1] == 47 {
        Some(i + 2)
    } else {
        block_to(s, i + 1)
    }
}

fn block_comment_to(s: &[u8], i: usize) -> (r: Option<usize>)
    requires
        i <= s@.len(),
    ensures
        r is Some <==> block_comment_end(s@, i as int) is Some,
        r matches Some(e) ==> e as int == block_comment_end(s@, i as int).unwrap() && i + 4 <= e
            <= s@.len(),
{
    if i < s.len() && i + 1 < s.len() && s[i] == 47 && s[i + 1] == 42 {
        block_to(s, i + 2)
    } else {
        None
    }
}

fn quoted_to(s: &[u8], i: usize) -> (r: Option<usize>)
    requires
        i <= s@.len(),
    ensures
        r is Some <==> scan_quoted(s@, i as int) is Some,
        r matches Some(e) ==> e as int == scan_quoted(s@, i as int).unwrap() && i + 1 <= e
            <= s@.len(),
    decreases s@.len() - i,
{
    if i >= s.len() {
        None
    } else if s[i] == 34 {
        Some(i + 1)
    } else if s[i] == 92 {
        if i + 1 < s.len() && escapable_byte(s[i + 1]) {
            quoted_to(s, i + 2)
        } else {
            None
        }
    } else {
        quoted_to(s, i + 1)
    }
}

fn quoted_string_to(s: &[u8], i: usize) -> (r: Option<usize>)
    requires
        i <= s@.len(),
    ensures
        r is Some <==> quoted_end(s@, i as int) is Some,
        r matches Some(e) ==> e as int == quoted_end(s@, i as int).unwrap() && i + 2 <= e
            <= s@.len(),
{
    if i < s.len() && s[i] == 34 {
        quoted_to(s, i + 1)
    } else {
        None
    }
}

fn word_to(s: &[u8], i: usize) -> (r: usize)
    requires
        i <= s@.len(),
    ensures
        r as int == scan_word(s@, i as int),
        i <= r <= s@.len(),
    decreases s@.len() - i,
{
    if i < s.len() && word_byte(s[i]) {
        word_to(s, i + 1)
    } else {
        i
    }
}

fn word_string_to(s: &[u8], i: usize) -> (r: Option<usize>)
    requires
        i <= s@.len(),
    ensures
        r is Some <==> word_end(s@, i as int) is Some,
        r matches Some(e) ==> e as int == word_end(s@, i as int).unwrap() && i + 1 <= e
            <= s@.len(),
{
    if i < s.len() && word_byte(s[i]) {
        Some(word_to(s, i + 1))
    } else {
        None
    }
}

fn trivia_to(s: &[u8], i: usize) -> (r: usize)
    requires
        i <= s@.len(),
    ensures
        r as int == skip_trivia(s@, i as int),
        i <= r <= s@.len(),
    decreases s@.len() - i,
{
    let j = ws_to(s, i);
    if let Some(k) = line_comment_to(s, j) {
        return trivia_to(s, k);
    }
    if let Some(k) = block_comment_to(s, j) {
        return trivia_to(s, k);
    }
    j
}

/// `views_of` distributes over `push`.
proof fn lemma_views_push(s: Seq<ParseNode>, x: ParseNode)
    ensures
        views_of(s.push(x)) == views_of(s).push(node_view(x)),
{
    assert(s.push(x).drop_last() =~= s);
    assert(s.push(x).last() == x);
}

fn value_at(s: &[u8], i: usize, trailing_comma: bool) -> (r: Result<ParseNode, GrammarMismatch>)
    requires
        i <= s@.len(),
    ensures
        r is Ok <==> parse_value(s@, i as int, trailing_comma) is Some,
        r matches Ok(n) ==> node_view(n) == parse_value(s@, i as int, trailing_comma).unwrap()
            && n.start == i && i < n.end <= s@.len(),
        r matches Err(e) ==> e.position <= s@.len(),
    decreases s@.len() - i, 3int,
{
    if i >= s.len() {
        return Err(GrammarMismatch { rule: GrammarRule::UnquotedString, position: i });
    }
    if let Some(e) = line_comment_to(s, i) {
        return Ok(ParseNode { rule: GrammarRule::LineComment, start: i, end: e, children: Vec::new() });
    }
    if let Some(e) = block_comment_to(s, i) {
        return Ok(ParseNode { rule: GrammarRule::BlockComment, start: i, end: e, children: Vec::new() });
    }
    if let Some(e) = quoted_string_to(s, i) {
        return Ok(ParseNode { rule: GrammarRule::QuotedString, start: i, end: e, children: Vec::new() });
    }
    if s[i] == 34 {
        return Err(GrammarMismatch { rule: GrammarRule::QuotedString, position: i });
    }
    if s[i] == 40 {
        return array_at(s, i, trailing_comma);
    }
    if s[i] == 123 {
        return dict_at(s, i, trailing_comma);
    }
    match word_string_to(s, i) {
        Some(e) => Ok(ParseNode { rule: GrammarRule::UnquotedString, start: i, end: e, children: Vec::new() }),
        None => Err(GrammarMismatch { rule: GrammarRule::UnquotedString, position: i }),
    }
}

fn array_at(s: &[u8], i: usize, trailing_comma: bool) -> (r: Result<ParseNode, GrammarMismatch>)
    requires
        i < s@.len(),
        s@[i as int] == 40,
    ensures
        r is Ok <==> parse_array(s@, i as int, trailing_comma) is Some,
        r matches Ok(n) ==> node_view(n) == parse_array(s@, i as int, trailing_comma).unwrap()
            && n.start == i && i < n.end <= s@.len(),
        r matches Err(e) ==> e.position <= s@.len(),
    decreases s@.len() - i, 2int,
{
    let n: usize = s.len();
    let j = trivia_to(s, i + 1);
    if j < n && s[j] == 41 {
        return Ok(ParseNode { rule: GrammarRule::Array, start: i, end: j + 1, children: Vec::new() });
    }
    match value_at(s, j, trailing_comma) {
        Err(e) => Err(e),
        Ok(v) => {
            let e2 = v.end;
            let mut kids: Vec<ParseNode> = Vec::new();
            proof {
                lemma_views_push(kids@, v);
            }
            kids.push(v);
            array_tail_at(s, i, e2, kids, trailing_comma)
        },
    }
}

fn array_tail_at(
    s: &[u8],
    start: usize,
    i: usize,
    kids: Vec<ParseNode>,
    trailing_comma: bool,
) -> (r: Result<ParseNode, GrammarMismatch>)
    requires
        start < i <= s@.len(),
    ensures
        r is Ok <==> parse_array_tail(
            s@,
            start as int,
            i as int,
            views_of(kids@),
            trailing_comma,
        ) is Some,
        r matches Ok(n) ==> node_view(n) == parse_array_tail(
            s@,
            start as int,
            i as int,
            views_of(kids@),
            trailing_comma,
        ).unwrap() && n.start == start && start < n.end <= s@.len(),
        r matches Err(e) ==> e.position <= s@.len(),
    decreases s@.len() - i, 2int,
{
    let j = trivia_to(s, i);
    if j < s.len() && s[j] == 41 {
        return Ok(ParseNode { rule: GrammarRule::Array, start, end: j + 1, children: kids });
    }
    if j < s.len() && s[j] == 44 {
        let k = trivia_to(s, j + 1);
        if k < s.len() && s[k] == 41 {
            if trailing_comma {
                return Ok(ParseNode { rule: GrammarRule::Array, start, end: k + 1, children: kids });
            } else {
                return Err(GrammarMismatch { rule: GrammarRule::Array, position: k });
            }
        }
        match value_at(s, k, trailing_comma) {
            Err(e) => Err(e),
            Ok(v) => {
                let e2 = v.end;
                proof {
                    lemma_views_push(kids@, v);
                }
                let mut kids2 = kids;
                kids2.push(v);
                array_tail_at(s, start, e2, kids2, trailing_comma)
            },
        }
    } else {
        Err(GrammarMismatch { rule: GrammarRule::Array, position: j })
    }
}

fn dict_at(s: &[u8], i: usize, trailing_comma: bool) -> (r: Result<ParseNode, GrammarMismatch>)
    requires
        i < s@.len(),
        s@[i as int] == 123,
    ensures
        r is Ok <==> parse_dict(s@, i as int, trailing_comma) is Some,
        r matches Ok(n) ==> node_view(n) == parse_dict(s@, i as int, trailing_comma).unwrap()
            && n.start == i && i < n.end <= s@.len(),
        r matches Err(e) ==> e.position <= s@.len(),
    decreases s@.len() - i, 2int,
{
    let _n: usize = s.len();
    dict_tail_at(s, i, i + 1, Vec::new(), trailing_comma)
}

fn dict_tail_at(
    s: &[u8],
    start: usize,
    i: usize,
    kids: Vec<ParseNode>,
    trailing_comma: bool,
) -> (r: Result<ParseNode, GrammarMismatch>)
    requires
        start < i <= s@.len(),
    ensures
        r is Ok <==> parse_dict_tail(
            s@,
            start as int,
            i as int,
            views_of(kids@),
            trailing_comma,
        ) is Some,
        r matches Ok(n) ==> node_view(n) == parse_dict_tail(
            s@,
            start as int,
            i as int,
            views_of(kids@),
            trailing_comma,
        ).unwrap() && n.start == start && start < n.end <= s@.len(),
        r matches Err(e) ==> e.position <= s@.len(),
    decreases s@.len() - i, 2int,
{
    let j = trivia_to(s, i);
    if j < s.len() && s[j] == 125 {
        return Ok(ParseNode { rule: GrammarRule::Dictionary, start, end: j + 1, children: kids });
    }
    match entry_at(s, j, trailing_comma) {
        Err(e) => Err(e),
        Ok(en) => {
            let e2 = en.end;
            proof {
                lemma_views_push(kids@, en);
            }
            let mut kids2 = kids;
            kids2.push(en);
            dict_tail_at(s, start, e2, kids2, trailing_comma)
        },
    }
}

fn entry_at(s: &[u8], i: usize, trailing_comma: bool) -> (r: Result<ParseNode, GrammarMismatch>)
    requires
        i <= s@.len(),
    ensures
        r is Ok <==> parse_entry(s@, i as int, trailing_comma) is Some,
        r matches Ok(n) ==> node_view(n) == parse_entry(s@, i as int, trailing_comma).unwrap()
            && n.start == i && i < n.end <= s@.len(),
        r matches Err(e) ==> e.position <= s@.len(),
    decreases s@.len() - i, 1int,
{
    let key: ParseNode;
    if let Some(e) = quoted_string_to(s, i) {
        key = ParseNode { rule: GrammarRule::QuotedString, start: i, end: e, children: Vec::new() };
    } else if let Some(e) = word_string_to(s, i) {
        key = ParseNode { rule: GrammarRule::UnquotedString, start: i, end: e, children: Vec::new() };
    } else {
        return Err(GrammarMismatch { rule: GrammarRule::DictionaryEntry, position: i });
    }
    let j = trivia_to(s, key.end);
    if !(j < s.len() && s[j] == 61) {
        return Err(GrammarMismatch { rule: GrammarRule::DictionaryEntry, position: j });
    }
    let k = trivia_to(s, j + 1);
    match value_at(s, k, trailing_comma) {
        Err(e) => Err(e),
        Ok(v) => {
            let j2 = trivia_to(s, v.end);
            if j2 < s.len() && s[j2] == 59 {
                let mut kids: Vec<ParseNode> = Vec::new();
                proof {
                    assert(views_of(Seq::<ParseNode>::empty()) =~= Seq::<NodeView>::empty());
                    lemma_views_push(Seq::<ParseNode>::empty(), key);
                    lemma_views_push(Seq::<ParseNode>::empty().push(key), v);
                    assert(Seq::<NodeView>::empty().push(node_view(key)).push(node_view(v))
                        =~= seq![node_view(key), node_view(v)]);
                }
                kids.push(key);
                kids.push(v);
                Ok(ParseNode { rule: GrammarRule::DictionaryEntry, start: i, end: j2 + 1, children: kids })
            } else {
                Err(GrammarMismatch { rule: GrammarRule::DictionaryEntry, position: j2 })
            }
        },
    }
}

fn file_tail_at(
    s: &[u8],
    i: usize,
    kids: Vec<ParseNode>,
    trailing_comma: bool,
) -> (r: Result<ParseNode, GrammarMismatch>)
    requires
        i <= s@.len(),
    ensures
        r is Ok <==> parse_file_tail(s@, i as int, views_of(kids@), trailing_comma) is Some,
        r matches Ok(n) ==> node_view(n) == parse_file_tail(
            s@,
            i as int,
            views_of(kids@),
            trailing_comma,
        ).unwrap(),
        r matches Err(e) ==> e.position <= s@.len(),
    decreases s@.len() - i, 4int,
{
    let j = ws_to(s, i);
    if j == s.len() {
        proof {
            crate::tree::lemma_views_of(kids@);
        }
        if kids.len() > 0 {
            Ok(ParseNode { rule: GrammarRule::File, start: 0, end: s.len(), children: kids })
        } else {
            Err(GrammarMismatch { rule: GrammarRule::File, position: j })
        }
    } else {
        match value_at(s, j, trailing_comma) {
            Err(e) => Err(e),
            Ok(v) => {
                let e2 = v.end;
                proof {
                    lemma_views_push(kids@, v);
                }
                let mut kids2 = kids;
                kids2.push(v);
                file_tail_at(s, e2, kids2, trailing_comma)
            },
        }
    }
}

/// The tokenizer for the `.pbxproj` lexical grammar.
pub struct PBXProjLexer;

impl PBXProjLexer {
    /// Tokenize `source` against the `File` production, with a trailing
    /// comma in arrays accepted or not as `trailing_comma` says. The call
    /// succeeds if and only if the grammar matches the whole input, and
    /// then returns exactly the tree the grammar assigns to it.
    pub fn tokenize_with_options(source: &[u8], trailing_comma: bool) -> (r: Result<
        ParseNode,
        GrammarMismatch,
    >)
        ensures
            r is Ok <==> parse_file(source@, trailing_comma) is Some,
            r matches Ok(root) ==> node_view(root) == parse_file(source@, trailing_comma).unwrap(),
            r matches Err(e) ==> e.position <= source@.len(),
    {
        proof {
            assert(views_of(Seq::<ParseNode>::empty()) =~= Seq::<NodeView>::empty());
        }
        file_tail_at(source, 0, Vec::new(), trailing_comma)
    }

    /// Tokenize `source` with the default configuration: a trailing comma
    /// in arrays is accepted.
    pub fn tokenize(source: &[u8]) -> (r: Result<ParseNode, GrammarMismatch>)
        ensures
            r is Ok <==> parse_file(source@, true) is Some,
            r matches Ok(root) ==> node_view(root) == parse_file(source@, true).unwrap(),
            r matches Err(e) ==> e.position <= source@.len(),
    {
        Self::tokenize_with_options(source, true)
    }
}

} // verus!
