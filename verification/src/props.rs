//! Structural properties of the trees the grammar produces: every parse
//! tree is well-formed, the root spans the whole input, the empty input
//! never matches, and stitching the leaf texts back together with the
//! separator bytes between them reproduces the input exactly.

use vstd::prelude::*;

use crate::grammar::{
    block_comment_end, leaf, line_comment_end, lemma_scan_block_bounds, lemma_scan_line_bounds,
    lemma_scan_quoted_bounds, lemma_scan_word_bounds, lemma_skip_trivia_bounds,
    lemma_skip_ws_bounds, parse_array, parse_array_tail, parse_dict, parse_dict_tail, parse_entry,
    parse_file, parse_file_tail, parse_value, quoted_end, skip_trivia, skip_ws, word_end,
};
use crate::tree::{GrammarRule, NodeView};

verus! {

/// Accumulated children: each well-formed, lying within `[lo, hi]`, and
/// pairwise non-overlapping in order.
pub open spec fn kids_ok(kids: Seq<NodeView>, lo: int, hi: int) -> bool {
    &&& forall|k: int|
        0 <= k < kids.len() ==> (#[trigger] kids[k]).wf() && lo <= kids[k].start && kids[k].end
            <= hi
    &&& forall|m: int, n: int|
        0 <= m < n < kids.len() ==> (#[trigger] kids[m]).end <= (#[trigger] kids[n]).start
}

/// Pushing a further child keeps the accumulated children acceptable,
/// with the upper bound moved to the new child's end.
#[verifier::rlimit(100)]
#[verifier::spinoff_prover]
proof fn lemma_kids_ok_push(kids: Seq<NodeView>, v: NodeView, lo: int, hi: int, hi2: int)
    requires
        kids_ok(kids, lo, hi),
        v.wf(),
        lo <= v.start,
        hi <= v.start,
        v.end <= hi2,
        hi <= hi2,
    ensures
        kids_ok(kids.push(v), lo, hi2),
{
    let all = kids.push(v);
    assert forall|m: int|
        0 <= m < all.len() implies (#[trigger] all[m]).wf() && lo <= all[m].start && all[m].end
        <= hi2 by {
        if m < kids.len() {
            assert(all[m] == kids[m]);
        } else {
            assert(all[m] == v);
        }
    }
    assert forall|m: int, n: int|
        0 <= m < n < all.len() implies (#[trigger] all[m]).end <= (#[trigger] all[n]).start by {
        assert(all[m] == kids[m]);
        if n < kids.len() {
            assert(all[n] == kids[n]);
        } else {
            assert(all[n] == v);
        }
    }
}

/// A node whose children are acceptable within its own span is
/// well-formed.
#[verifier::rlimit(100)]
#[verifier::spinoff_prover]
proof fn lemma_node_wf(n: NodeView, hi: int)
    requires
        n.start < n.end,
        hi <= n.end,
        kids_ok(n.children, n.start, hi),
    ensures
        n.wf(),
{
}

/// Every tree that `parse_value` produces starts where the match started,
/// consumes at least one byte, stays within the input, and is well-formed.
#[verifier::rlimit(100)]
#[verifier::spinoff_prover]
pub proof fn lemma_value_wf(s: Seq<u8>, i: int, tc: bool)
    requires
        0 <= i,
    ensures
        parse_value(s, i, tc) matches Some(v) ==> v.start == i && i < v.end <= s.len() && v.wf(),
    decreases s.len() - i, 3int,
{
    if 0 <= i < s.len() {
        if line_comment_end(s, i) is Some {
            lemma_scan_line_bounds(s, i + 2);
        } else if block_comment_end(s, i) is Some {
            lemma_scan_block_bounds(s, i + 2);
        } else if quoted_end(s, i) is Some {
            lemma_scan_quoted_bounds(s, i + 1);
        } else if s[i] == 40 {
            lemma_array_wf(s, i, tc);
        } else if s[i] == 123 {
            lemma_dict_wf(s, i, tc);
        } else if word_end(s, i) is Some {
            lemma_scan_word_bounds(s, i + 1);
        }
    }
}

#[verifier::rlimit(100)]
#[verifier::spinoff_prover]
pub proof fn lemma_array_wf(s: Seq<u8>, i: int, tc: bool)
    requires
        0 <= i,
    ensures
        parse_array(s, i, tc) matches Some(a) ==> a.start == i && i < a.end <= s.len() && a.wf(),
    decreases s.len() - i, 2int,
{
    if 0 <= i < s.len() && s[i] == 40 {
        lemma_skip_trivia_bounds(s, i + 1);
        let j = skip_trivia(s, i + 1);
        if j < s.len() && s[j] == 41 {
        } else {
            lemma_value_wf(s, j, tc);
            match parse_value(s, j, tc) {
                Some(v) => {
                    if i < v.end <= s.len() {
                        lemma_array_tail_wf(s, i, v.end, seq![v], tc);
                    }
                },
                None => {},
            }
        }
    }
}

#[verifier::rlimit(100)]
#[verifier::spinoff_prover]
pub proof fn lemma_array_tail_wf(s: Seq<u8>, start: int, i: int, kids: Seq<NodeView>, tc: bool)
    requires
        0 <= start < i <= s.len(),
        kids_ok(kids, start, i),
    ensures
        parse_array_tail(s, start, i, kids, tc) matches Some(a) ==> a.start == start && start
            < a.end <= s.len() && a.wf(),
    decreases s.len() - i, 2int,
{
    lemma_skip_trivia_bounds(s, i);
    let j = skip_trivia(s, i);
    if j < s.len() && s[j] == 41 {
        let a = NodeView { rule: GrammarRule::Array, start, end: j + 1, children: kids };
        lemma_node_wf(a, i);
    } else if j < s.len() && s[j] == 44 {
        lemma_skip_trivia_bounds(s, j + 1);
        let k = skip_trivia(s, j + 1);
        if k < s.len() && s[k] == 41 {
            if tc {
                let a = NodeView { rule: GrammarRule::Array, start, end: k + 1, children: kids };
                lemma_node_wf(a, i);
            }
        } else {
            lemma_value_wf(s, k, tc);
            match parse_value(s, k, tc) {
                Some(v) => {
                    if i < v.end <= s.len() {
                        lemma_kids_ok_push(kids, v, start, i, v.end);
                        lemma_array_tail_wf(s, start, v.end, kids.push(v), tc);
                    }
                },
                None => {},
            }
        }
    }
}

#[verifier::rlimit(100)]
#[verifier::spinoff_prover]
pub proof fn lemma_dict_wf(s: Seq<u8>, i: int, tc: bool)
    requires
        0 <= i,
    ensures
        parse_dict(s, i, tc) matches Some(d) ==> d.start == i && i < d.end <= s.len() && d.wf(),
    decreases s.len() - i, 2int,
{
    if 0 <= i < s.len() && s[i] == 123 {
        lemma_dict_tail_wf(s, i, i + 1, Seq::empty(), tc);
    }
}

#[verifier::rlimit(100)]
#[verifier::spinoff_prover]
pub proof fn lemma_dict_tail_wf(s: Seq<u8>, start: int, i: int, kids: Seq<NodeView>, tc: bool)
    requires
        0 <= start < i <= s.len(),
        kids_ok(kids, start, i),
    ensures
        parse_dict_tail(s, start, i, kids, tc) matches Some(d) ==> d.start == start && start
            < d.end <= s.len() && d.wf(),
    decreases s.len() - i, 2int,
{
    lemma_skip_trivia_bounds(s, i);
    let j = skip_trivia(s, i);
    if j < s.len() && s[j] == 125 {
        let d = NodeView { rule: GrammarRule::Dictionary, start, end: j + 1, children: kids };
        lemma_node_wf(d, i);
    } else {
        lemma_entry_wf(s, j, tc);
        match parse_entry(s, j, tc) {
            Some(en) => {
                if i < en.end <= s.len() {
                    lemma_kids_ok_push(kids, en, start, i, en.end);
                    lemma_dict_tail_wf(s, start, en.end, kids.push(en), tc);
                }
            },
            None => {},
        }
    }
}

#[verifier::rlimit(100)]
#[verifier::spinoff_prover]
pub proof fn lemma_entry_wf(s: Seq<u8>, i: int, tc: bool)
    requires
        0 <= i <= s.len(),
    ensures
        parse_entry(s, i, tc) matches Some(en) ==> en.start == i && i < en.end <= s.len()
            && en.wf(),
    decreases s.len() - i, 1int,
{
    if quoted_end(s, i) is Some {
        lemma_scan_quoted_bounds(s, i + 1);
    } else if word_end(s, i) is Some {
        if 0 <= i < s.len() {
            lemma_scan_word_bounds(s, i + 1);
        }
    }
    let key_end: int = if quoted_end(s, i) is Some {
        quoted_end(s, i).unwrap()
    } else if word_end(s, i) is Some {
        word_end(s, i).unwrap()
    } else {
        i
    };
    if (quoted_end(s, i) is Some || word_end(s, i) is Some) && i < key_end <= s.len() {
        let kl = if quoted_end(s, i) is Some {
            leaf(GrammarRule::QuotedString, i, key_end)
        } else {
            leaf(GrammarRule::UnquotedString, i, key_end)
        };
        assert(kl.wf());
        lemma_skip_trivia_bounds(s, key_end);
        let j = skip_trivia(s, key_end);
        if j < s.len() && s[j] == 61 {
            lemma_skip_trivia_bounds(s, j + 1);
            let k = skip_trivia(s, j + 1);
            lemma_value_wf(s, k, tc);
            match parse_value(s, k, tc) {
                Some(v) => {
                    lemma_skip_trivia_bounds(s, v.end);
                    let j2 = skip_trivia(s, v.end);
                    if j2 < s.len() && s[j2] == 59 {
                        let en = NodeView {
                            rule: GrammarRule::DictionaryEntry,
                            start: i,
                            end: j2 + 1,
                            children: seq![kl, v],
                        };
                        assert(en.children[0] == kl);
                        assert(en.children[1] == v);
                        assert(en.wf());
                    }
                },
                None => {},
            }
        }
    }
}

#[verifier::rlimit(100)]
#[verifier::spinoff_prover]
pub proof fn lemma_file_tail_wf(s: Seq<u8>, i: int, kids: Seq<NodeView>, tc: bool)
    requires
        0 <= i <= s.len(),
        kids_ok(kids, 0, i),
    ensures
        parse_file_tail(s, i, kids, tc) matches Some(root) ==> root.rule == GrammarRule::File
            && root.start == 0 && root.end == s.len() && root.wf(),
    decreases s.len() - i, 4int,
{
    lemma_skip_ws_bounds(s, i);
    let j = skip_ws(s, i);
    if j == s.len() {
        if kids.len() > 0 {
            let root = NodeView {
                rule: GrammarRule::File,
                start: 0,
                end: s.len() as int,
                children: kids,
            };
            assert(kids[0].wf() && kids[0].end <= i);
            lemma_node_wf(root, i);
        }
    } else {
        lemma_value_wf(s, j, tc);
        match parse_value(s, j, tc) {
            Some(v) => {
                if i < v.end <= s.len() {
                    lemma_kids_ok_push(kids, v, 0, i, v.end);
                    lemma_file_tail_wf(s, v.end, kids.push(v), tc);
                }
            },
            None => {},
        }
    }
}

/// Whenever the grammar matches, the root is a `File` node spanning the
/// whole input, and the whole tree is well-formed: every node's children
/// lie within its span, sorted by start and pairwise non-overlapping.
pub proof fn lemma_parse_file_wf(s: Seq<u8>, tc: bool)
    ensures
        parse_file(s, tc) matches Some(root) ==> root.rule == GrammarRule::File && root.start == 0
            && root.end == s.len() && root.wf(),
{
    lemma_file_tail_wf(s, 0, Seq::empty(), tc);
}

/// The empty input never matches the grammar.
pub proof fn lemma_empty_input_fails(tc: bool)
    ensures
        parse_file(Seq::empty(), tc) is None,
{
    let s = Seq::<u8>::empty();
    assert(skip_ws(s, 0) == 0);
    assert(parse_file_tail(s, 0, Seq::empty(), tc) is None);
}

/// The leaves of a tree, in document order.
pub open spec fn leaves(v: NodeView) -> Seq<NodeView>
    decreases v,
{
    if v.children.len() == 0 {
        seq![v]
    } else {
        leaves_of(v.children)
    }
}

/// The leaves of a forest, in document order.
pub open spec fn leaves_of(vs: Seq<NodeView>) -> Seq<NodeView>
    decreases vs,
{
    if vs.len() == 0 {
        Seq::empty()
    } else {
        leaves(vs.first()) + leaves_of(vs.drop_first())
    }
}

/// Acceptable children remain acceptable under wider bounds.
proof fn lemma_kids_ok_widen(x: Seq<NodeView>, lo: int, hi: int, lo2: int, hi2: int)
    requires
        kids_ok(x, lo, hi),
        lo2 <= lo,
        hi <= hi2,
    ensures
        kids_ok(x, lo2, hi2),
{
}

/// Dropping the first of an acceptable sequence leaves an acceptable
/// sequence, bounded below by the dropped node's end.
proof fn lemma_kids_ok_drop_first(vs: Seq<NodeView>, lo: int, hi: int)
    requires
        kids_ok(vs, lo, hi),
        vs.len() > 0,
    ensures
        kids_ok(vs.drop_first(), vs[0].end, hi),
{
    let rest = vs.drop_first();
    assert forall|m: int|
        0 <= m < rest.len() implies (#[trigger] rest[m]).wf() && vs[0].end <= rest[m].start
        && rest[m].end <= hi by {
        assert(rest[m] == vs[m + 1]);
    }
    assert forall|m: int, n: int|
        0 <= m < n < rest.len() implies (#[trigger] rest[m]).end <= (#[trigger] rest[n]).start by {
        assert(rest[m] == vs[m + 1]);
        assert(rest[n] == vs[n + 1]);
    }
}

/// Two acceptable sequences that meet at `mid` concatenate to an
/// acceptable sequence.
proof fn lemma_kids_ok_concat(a: Seq<NodeView>, b: Seq<NodeView>, lo: int, mid: int, hi: int)
    requires
        kids_ok(a, lo, mid),
        kids_ok(b, mid, hi),
        lo <= mid <= hi,
    ensures
        kids_ok(a + b, lo, hi),
{
    let all = a + b;
    assert forall|m: int|
        0 <= m < all.len() implies (#[trigger] all[m]).wf() && lo <= all[m].start && all[m].end
        <= hi by {
        if m < a.len() {
            assert(all[m] == a[m]);
        } else {
            assert(all[m] == b[m - a.len()]);
        }
    }
    assert forall|m: int, n: int|
        0 <= m < n < all.len() implies (#[trigger] all[m]).end <= (#[trigger] all[n]).start by {
        if n < a.len() {
            assert(all[m] == a[m]);
            assert(all[n] == a[n]);
        } else if m >= a.len() {
            assert(all[m] == b[m - a.len()]);
            assert(all[n] == b[n - a.len()]);
        } else {
            assert(all[m] == a[m]);
            assert(all[n] == b[n - a.len()]);
        }
    }
}

/// The leaves of a well-formed tree are themselves an acceptable
/// sequence within the tree's span, and there is at least one.
pub proof fn lemma_leaves_chain(v: NodeView)
    requires
        v.wf(),
    ensures
        kids_ok(leaves(v), v.start, v.end),
        leaves(v).len() >= 1,
    decreases v, 1int,
{
    if v.children.len() == 0 {
        assert(leaves(v) == seq![v]);
        assert(leaves(v)[0] == v);
    } else {
        assert(kids_ok(v.children, v.start, v.end));
        lemma_leaves_of_chain(v.children, v.start, v.end);
        assert(v.children[0].wf());
    }
}

/// The leaves of an acceptable forest are an acceptable sequence within
/// the same bounds, one or more per tree.
pub proof fn lemma_leaves_of_chain(vs: Seq<NodeView>, lo: int, hi: int)
    requires
        kids_ok(vs, lo, hi),
        lo <= hi,
    ensures
        kids_ok(leaves_of(vs), lo, hi),
        leaves_of(vs).len() >= vs.len(),
    decreases vs, 0int,
{
    if vs.len() > 0 {
        assert(vs[0].wf());
        lemma_leaves_chain(vs[0]);
        lemma_kids_ok_drop_first(vs, lo, hi);
        lemma_leaves_of_chain(vs.drop_first(), vs[0].end, hi);
        lemma_kids_ok_widen(leaves(vs[0]), vs[0].start, vs[0].end, lo, vs[0].end);
        lemma_kids_ok_concat(
            leaves(vs[0]),
            leaves_of(vs.drop_first()),
            lo,
            vs[0].end,
            hi,
        );
    }
}

/// The text of the span `(from, to)`, rebuilt from the given leaves in
/// order: each gap of separator bytes, then the leaf's own text, and the
/// final gap after the last leaf.
pub open spec fn stitched(s: Seq<u8>, ls: Seq<NodeView>, from: int, to: int) -> Seq<u8>
    decreases ls.len(),
{
    if ls.len() == 0 {
        s.subrange(from, to)
    } else {
        s.subrange(from, ls[0].start) + s.subrange(ls[0].start, ls[0].end) + stitched(
            s,
            ls.drop_first(),
            ls[0].end,
            to,
        )
    }
}

/// Stitching an acceptable leaf sequence reproduces the spanned text.
proof fn lemma_stitched_id(s: Seq<u8>, ls: Seq<NodeView>, from: int, to: int)
    requires
        0 <= from <= to <= s.len(),
        kids_ok(ls, from, to),
    ensures
        stitched(s, ls, from, to) == s.subrange(from, to),
    decreases ls.len(),
{
    if ls.len() > 0 {
        assert(ls[0].wf());
        lemma_kids_ok_drop_first(ls, from, to);
        lemma_stitched_id(s, ls.drop_first(), ls[0].end, to);
        assert(s.subrange(from, ls[0].start) + s.subrange(ls[0].start, ls[0].end) + s.subrange(
            ls[0].end,
            to,
        ) =~= s.subrange(from, to));
    }
}

/// Round trip: concatenating the source text under every leaf span of a
/// well-formed whole-input tree, in document order and interleaved with
/// the original separator bytes between them, reproduces the input
/// exactly.
pub proof fn lemma_round_trip(s: Seq<u8>, root: NodeView)
    requires
        root.wf(),
        root.start == 0,
        root.end == s.len(),
    ensures
        stitched(s, leaves(root), 0, s.len() as int) == s,
{
    lemma_leaves_chain(root);
    lemma_stitched_id(s, leaves(root), 0, s.len() as int);
    assert(s.subrange(0, s.len() as int) =~= s);
}

} // verus!
