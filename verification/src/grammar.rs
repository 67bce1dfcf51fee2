//! The lexical grammar of a `.pbxproj` file, stated declaratively as
//! specification functions over byte sequences.
//!
//! Each production returns the parse tree it assigns to the input at a
//! given position, or `None` where the input does not match. The grammar
//! uses ordered choice: comments and quoted strings are tried before bare
//! strings, so `//` is never consumed as the start of a bare string.
//! Whether an array may end in a trailing comma is a configuration flag
//! (`trailing_comma`), threaded through every production.

use vstd::prelude::*;

use crate::tree::GrammarRule;
use crate::tree::NodeView;

verus! {

/// Insignificant whitespace: space, tab, line feed, carriage return.
pub open spec fn is_ws_byte(b: u8) -> bool {
    b == 32 || b == 9 || b == 10 || b == 13
}

/// A byte that ends a line comment.
pub open spec fn is_line_end(b: u8) -> bool {
    b == 10 || b == 13
}

/// The identifier/path-like character class of a bare (unquoted) string:
/// letters, digits, `_`, `.`, `/`, `-`, `$`.
pub open spec fn is_word_byte(b: u8) -> bool {
    ||| 48 <= b <= 57
    ||| 65 <= b <= 90
    ||| 97 <= b <= 122
    ||| b == 95
    ||| b == 46
    ||| b == 47
    ||| b == 45
    ||| b == 36
}

/// A byte that may follow a backslash inside a quoted string:
/// `t`, `n`, `r`, `\`.
pub open spec fn is_escapable(b: u8) -> bool {
    b == 116 || b == 110 || b == 114 || b == 92
}

/// First position at or after `i` holding no whitespace.
pub open spec fn skip_ws(s: Seq<u8>, i: int) -> int
    decreases s.len() - i,
{
    if 0 <= i < s.len() && is_ws_byte(s[i]) {
        skip_ws(s, i + 1)
    } else {
        i
    }
}

/// First position at or after `i` holding a line terminator, or the end.
pub open spec fn scan_line(s: Seq<u8>, i: int) -> int
    decreases s.len() - i,
{
    if 0 <= i < s.len() && !is_line_end(s[i]) {
        scan_line(s, i + 1)
    } else {
        i
    }
}

/// Where a line comment starting at `i` ends: after `//`, the comment runs
/// up to (not including) a line terminator or the end of input.
pub open spec fn line_comment_end(s: Seq<u8>, i: int) -> Option<int> {
    if 0 <= i && i + 2 <= s.len() && s[i] == 47 && s[i + 1] == 47 {
        Some(scan_line(s, i + 2))
    } else {
        None
    }
}

/// Position just after the first `*/` at or after `i`, if any.
pub open spec fn scan_block(s: Seq<u8>, i: int) -> Option<int>
    decreases s.len() - i,
{
    if !(0 <= i < s.len()) {
        None
    } else if s[i] == 42 && i + 2 <= s.len() && s[i + 1] == 47 {
        Some(i + 2)
    } else {
        scan_block(s, i + 1)
    }
}

/// Where a block comment starting at `i` ends: `/*`, then anything up to
/// the first `*/`, which must be present.
pub open spec fn block_comment_end(s: Seq<u8>, i: int) -> Option<int> {
    if 0 <= i && i + 2 <= s.len() && s[i] == 47 && s[i + 1] == 42 {
        scan_block(s, i + 2)
    } else {
        None
    }
}

/// Position just after the closing quote, scanning from `i` (just after
/// the opening quote). A backslash must be followed by an escapable byte;
/// a dangling backslash, or a missing closing quote, fails.
pub open spec fn scan_quoted(s: Seq<u8>, i: int) -> Option<int>
    decreases s.len() - i,
{
    if !(0 <= i < s.len()) {
        None
    } else if s[i] == 34 {
        Some(i + 1)
    } else if s[i] == 92 {
        if i + 2 <= s.len() && is_escapable(s[i + 1]) {
            scan_quoted(s, i + 2)
        } else {
            None
        }
    } else {
        scan_quoted(s, i + 1)
    }
}

/// Where a quoted string starting at `i` ends, quotes included.
pub open spec fn quoted_end(s: Seq<u8>, i: int) -> Option<int> {
    if 0 <= i < s.len() && s[i] == 34 {
        scan_quoted(s, i + 1)
    } else {
        None
    }
}

/// First position at or after `i` holding no word byte.
pub open spec fn scan_word(s: Seq<u8>, i: int) -> int
    decreases s.len() - i,
{
    if 0 <= i < s.len() && is_word_byte(s[i]) {
        scan_word(s, i + 1)
    } else {
        i
    }
}

/// Where a bare string starting at `i` ends: a maximal run of one or more
/// word bytes.
pub open spec fn word_end(s: Seq<u8>, i: int) -> Option<int> {
    if 0 <= i < s.len() && is_word_byte(s[i]) {
        Some(scan_word(s, i))
    } else {
        None
    }
}

/// First position at or after `i` past all whitespace and comments.
/// Inside arrays and dictionaries, comments separate tokens and produce
/// no nodes.
pub open spec fn skip_trivia(s: Seq<u8>, i: int) -> int
    decreases s.len() - i,
{
    let j = skip_ws(s, i);
    match line_comment_end(s, j) {
        Some(k) => if i < k <= s.len() {
            skip_trivia(s, k)
        } else {
            k
        },
        None => match block_comment_end(s, j) {
            Some(k) => if i < k <= s.len() {
                skip_trivia(s, k)
            } else {
                k
            },
            None => j,
        },
    }
}

/// A leaf node: a rule that matched the span `(start, end)` directly.
pub open spec fn leaf(rule: GrammarRule, start: int, end: int) -> NodeView {
    NodeView { rule, start, end, children: Seq::empty() }
}

/// One value: a comment, a quoted string, an array, a dictionary, or —
/// tried last — a bare string.
pub open spec fn parse_value(s: Seq<u8>, i: int, trailing_comma: bool) -> Option<NodeView>
    decreases s.len() - i, 3int,
{
    if !(0 <= i < s.len()) {
        None
    } else {
        match line_comment_end(s, i) {
            Some(e) => Some(leaf(GrammarRule::LineComment, i, e)),
            None => match block_comment_end(s, i) {
                Some(e) => Some(leaf(GrammarRule::BlockComment, i, e)),
                None => match quoted_end(s, i) {
                    Some(e) => Some(leaf(GrammarRule::QuotedString, i, e)),
                    None => if s[i] == 40 {
                        parse_array(s, i, trailing_comma)
                    } else if s[i] == 123 {
                        parse_dict(s, i, trailing_comma)
                    } else {
                        match word_end(s, i) {
                            Some(e) => Some(leaf(GrammarRule::UnquotedString, i, e)),
                            None => None,
                        }
                    },
                },
            },
        }
    }
}

/// An array: `(`, zero or more comma-separated values, `)`. Whitespace and
/// comments may stand between any two tokens; a trailing comma before `)`
/// is legal exactly when `trailing_comma` is set.
pub open spec fn parse_array(s: Seq<u8>, i: int, trailing_comma: bool) -> Option<NodeView>
    decreases s.len() - i, 2int,
{
    if 0 <= i < s.len() && s[i] == 40 {
        let j = skip_trivia(s, i + 1);
        if !(i < j <= s.len()) {
            None
        } else if j < s.len() && s[j] == 41 {
            Some(NodeView { rule: GrammarRule::Array, start: i, end: j + 1, children: Seq::empty() })
        } else {
            match parse_value(s, j, trailing_comma) {
                None => None,
                Some(v) => if i < v.end <= s.len() {
                    parse_array_tail(s, i, v.end, seq![v], trailing_comma)
                } else {
                    None
                },
            }
        }
    } else {
        None
    }
}

/// The rest of an array after its elements `kids`, scanning from `i`:
/// either `)`, or `,` followed by another value or — with the flag — `)`.
pub open spec fn parse_array_tail(
    s: Seq<u8>,
    start: int,
    i: int,
    kids: Seq<NodeView>,
    trailing_comma: bool,
) -> Option<NodeView>
    decreases s.len() - i, 2int,
{
    if !(0 <= i <= s.len()) {
        None
    } else {
        let j = skip_trivia(s, i);
        if j < s.len() && s[j] == 41 {
            Some(NodeView { rule: GrammarRule::Array, start, end: j + 1, children: kids })
        } else if j < s.len() && s[j] == 44 {
            let k = skip_trivia(s, j + 1);
            if k < s.len() && s[k] == 41 {
                if trailing_comma {
                    Some(NodeView { rule: GrammarRule::Array, start, end: k + 1, children: kids })
                } else {
                    None
                }
            } else if !(i < k <= s.len()) {
                None
            } else {
                match parse_value(s, k, trailing_comma) {
                    None => None,
                    Some(v) => if i < v.end <= s.len() {
                        parse_array_tail(s, start, v.end, kids.push(v), trailing_comma)
                    } else {
                        None
                    },
                }
            }
        } else {
            None
        }
    }
}

/// A dictionary: `{`, zero or more entries, `}`, with whitespace and
/// comments between any two tokens.
pub open spec fn parse_dict(s: Seq<u8>, i: int, trailing_comma: bool) -> Option<NodeView>
    decreases s.len() - i, 2int,
{
    if 0 <= i < s.len() && s[i] == 123 {
        parse_dict_tail(s, i, i + 1, Seq::empty(), trailing_comma)
    } else {
        None
    }
}

/// The rest of a dictionary after its entries `kids`, scanning from `i`:
/// either `}` or another entry.
pub open spec fn parse_dict_tail(
    s: Seq<u8>,
    start: int,
    i: int,
    kids: Seq<NodeView>,
    trailing_comma: bool,
) -> Option<NodeView>
    decreases s.len() - i, 2int,
{
    if !(0 <= i <= s.len()) {
        None
    } else {
        let j = skip_trivia(s, i);
        if j < s.len() && s[j] == 125 {
            Some(NodeView { rule: GrammarRule::Dictionary, start, end: j + 1, children: kids })
        } else if !(i <= j <= s.len()) {
            None
        } else {
            match parse_entry(s, j, trailing_comma) {
                None => None,
                Some(en) => if i < en.end <= s.len() {
                    parse_dict_tail(s, start, en.end, kids.push(en), trailing_comma)
                } else {
                    None
                },
            }
        }
    }
}

/// One dictionary entry: `Key = Value ;`, the key a quoted or bare string,
/// with whitespace and comments allowed between any two tokens.
pub open spec fn parse_entry(s: Seq<u8>, i: int, trailing_comma: bool) -> Option<NodeView>
    decreases s.len() - i, 1int,
{
    let key = match quoted_end(s, i) {
        Some(e) => Some(leaf(GrammarRule::QuotedString, i, e)),
        None => match word_end(s, i) {
            Some(e) => Some(leaf(GrammarRule::UnquotedString, i, e)),
            None => None,
        },
    };
    match key {
        None => None,
        Some(kl) => {
            let j = skip_trivia(s, kl.end);
            if j < s.len() && s[j] == 61 {
                let k = skip_trivia(s, j + 1);
                if !(i < k <= s.len()) {
                    None
                } else {
                    match parse_value(s, k, trailing_comma) {
                        None => None,
                        Some(v) => {
                            let j2 = skip_trivia(s, v.end);
                            if j2 < s.len() && s[j2] == 59 {
                                Some(
                                    NodeView {
                                        rule: GrammarRule::DictionaryEntry,
                                        start: i,
                                        end: j2 + 1,
                                        children: seq![kl, v],
                                    },
                                )
                            } else {
                                None
                            }
                        },
                    }
                }
            } else {
                None
            }
        },
    }
}

/// The whole input: whitespace-separated values, at least one, reaching
/// the end of the input. The root `File` node spans the entire input.
pub open spec fn parse_file(s: Seq<u8>, trailing_comma: bool) -> Option<NodeView> {
    parse_file_tail(s, 0, Seq::empty(), trailing_comma)
}

/// The rest of the input after the values `kids`, scanning from `i`.
pub open spec fn parse_file_tail(
    s: Seq<u8>,
    i: int,
    kids: Seq<NodeView>,
    trailing_comma: bool,
) -> Option<NodeView>
    decreases s.len() - i, 4int,
{
    if !(0 <= i <= s.len()) {
        None
    } else {
        let j = skip_ws(s, i);
        if !(i <= j <= s.len()) {
            None
        } else if j == s.len() {
            if kids.len() > 0 {
                Some(NodeView { rule: GrammarRule::File, start: 0, end: s.len() as int, children: kids })
            } else {
                None
            }
        } else {
            match parse_value(s, j, trailing_comma) {
                None => None,
                Some(v) => if i < v.end <= s.len() {
                    parse_file_tail(s, v.end, kids.push(v), trailing_comma)
                } else {
                    None
                },
            }
        }
    }
}

/// `skip_ws` stays within the input.
pub proof fn lemma_skip_ws_bounds(s: Seq<u8>, i: int)
    requires
        0 <= i <= s.len(),
    ensures
        i <= skip_ws(s, i) <= s.len(),
    decreases s.len() - i,
{
    if i < s.len() && is_ws_byte(s[i]) {
        lemma_skip_ws_bounds(s, i + 1);
    }
}

/// `scan_line` stays within the input.
pub proof fn lemma_scan_line_bounds(s: Seq<u8>, i: int)
    requires
        0 <= i <= s.len(),
    ensures
        i <= scan_line(s, i) <= s.len(),
    decreases s.len() - i,
{
    if i < s.len() && !is_line_end(s[i]) {
        lemma_scan_line_bounds(s, i + 1);
    }
}

/// `scan_block` stays within the input and consumes at least `*/`.
pub proof fn lemma_scan_block_bounds(s: Seq<u8>, i: int)
    requires
        0 <= i <= s.len(),
    ensures
        scan_block(s, i) matches Some(k) ==> i + 2 <= k <= s.len(),
    decreases s.len() - i,
{
    if i < s.len() && !(s[i] == 42 && i + 2 <= s.len() && s[i + 1] == 47) {
        lemma_scan_block_bounds(s, i + 1);
    }
}

/// `scan_quoted` stays within the input and consumes at least the
/// closing quote.
pub proof fn lemma_scan_quoted_bounds(s: Seq<u8>, i: int)
    requires
        0 <= i <= s.len(),
    ensures
        scan_quoted(s, i) matches Some(k) ==> i + 1 <= k <= s.len(),
    decreases s.len() - i,
{
    if 0 <= i < s.len() {
        if s[i] == 34 {
        } else if s[i] == 92 {
            if i + 2 <= s.len() && is_escapable(s[i + 1]) {
                lemma_scan_quoted_bounds(s, i + 2);
            }
        } else {
            lemma_scan_quoted_bounds(s, i + 1);
        }
    }
}

/// `scan_word` stays within the input.
pub proof fn lemma_scan_word_bounds(s: Seq<u8>, i: int)
    requires
        0 <= i <= s.len(),
    ensures
        i <= scan_word(s, i) <= s.len(),
    decreases s.len() - i,
{
    if i < s.len() && is_word_byte(s[i]) {
        lemma_scan_word_bounds(s, i + 1);
    }
}

/// `skip_trivia` stays within the input.
pub proof fn lemma_skip_trivia_bounds(s: Seq<u8>, i: int)
    requires
        0 <= i <= s.len(),
    ensures
        i <= skip_trivia(s, i) <= s.len(),
    decreases s.len() - i,
{
    lemma_skip_ws_bounds(s, i);
    let j = skip_ws(s, i);
    match line_comment_end(s, j) {
        Some(k) => {
            lemma_scan_line_bounds(s, j + 2);
            lemma_skip_trivia_bounds(s, k);
        },
        None => match block_comment_end(s, j) {
            Some(k) => {
                lemma_scan_block_bounds(s, j + 2);
                lemma_skip_trivia_bounds(s, k);
            },
            None => {},
        },
    }
}

} // verus!
