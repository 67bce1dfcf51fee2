//! The tree visualizer: renders a parse tree as an aligned, arrow-chained
//! textual trace, with optional terminal styling through `ansi_term`.
//!
//! Every line of the trace names the chain of rules down to one leaf and
//! ends with the leaf's source text, escape characters rendered in escaped
//! form. A child's label is printed directly under its first sibling's
//! label: before the second and every further child, a run of spaces as
//! wide as everything already printed on the line by the ancestors. The
//! full output is pinned down byte for byte by `render_node`.

use vstd::prelude::*;

use crate::tree::{lemma_views_of, node_view, views_of, GrammarRule, NodeView, ParseNode};

verus! {

broadcast use vstd::std_specs::vec::group_vec_axioms;

/// The printed name of a grammar rule.
pub open spec fn rule_name(r: GrammarRule) -> Seq<u8> {
    match r {
        GrammarRule::File => seq![70u8, 105u8, 108u8, 101u8],
        GrammarRule::LineComment => seq![
            76u8, 105u8, 110u8, 101u8, 67u8, 111u8, 109u8, 109u8, 101u8, 110u8, 116u8,
        ],
        GrammarRule::BlockComment => seq![
            66u8, 108u8, 111u8, 99u8, 107u8, 67u8, 111u8, 109u8, 109u8, 101u8, 110u8, 116u8,
        ],
        GrammarRule::QuotedString => seq![
            81u8, 117u8, 111u8, 116u8, 101u8, 100u8, 83u8, 116u8, 114u8, 105u8, 110u8, 103u8,
        ],
        GrammarRule::UnquotedString => seq![
            85u8, 110u8, 113u8, 117u8, 111u8, 116u8, 101u8, 100u8, 83u8, 116u8, 114u8, 105u8,
            110u8, 103u8,
        ],
        GrammarRule::Array => seq![65u8, 114u8, 114u8, 97u8, 121u8],
        GrammarRule::Dictionary => seq![
            68u8, 105u8, 99u8, 116u8, 105u8, 111u8, 110u8, 97u8, 114u8, 121u8,
        ],
        GrammarRule::DictionaryEntry => seq![
            68u8, 105u8, 99u8, 116u8, 105u8, 111u8, 110u8, 97u8, 114u8, 121u8, 69u8, 110u8,
            116u8, 114u8, 121u8,
        ],
    }
}

/// The decimal digits of `n`, most significant first.
pub open spec fn dec_rep(n: nat) -> Seq<u8>
    decreases n,
{
    if n < 10 {
        seq![(48 + n) as u8]
    } else {
        dec_rep(n / 10).push((48 + n % 10) as u8)
    }
}

spec fn pow10(k: nat) -> nat
    decreases k,
{
    if k == 0 {
        1
    } else {
        10 * pow10((k - 1) as nat)
    }
}

proof fn lemma_dec_rep_len(n: nat, k: nat)
    requires
        1 <= k,
        n < pow10(k),
    ensures
        1 <= dec_rep(n).len() <= k,
    decreases k,
{
    if n >= 10 {
        assert(pow10(k) == 10 * pow10((k - 1) as nat));
        assert(n / 10 < pow10((k - 1) as nat)) by (nonlinear_arith)
            requires
                n < 10 * pow10((k - 1) as nat),
                n >= 10,
        ;
        lemma_dec_rep_len(n / 10, (k - 1) as nat);
    }
}

proof fn lemma_dec_rep_len_usize(n: nat)
    requires
        n <= usize::MAX,
    ensures
        1 <= dec_rep(n).len() <= 20,
{
    reveal_with_fuel(pow10, 21);
    assert(pow10(20) == 100000000000000000000);
    lemma_dec_rep_len(n, 20);
}

/// One byte of leaf text in its printed form: tab, line feed, carriage
/// return, backslash and double quote come out as two-byte escape
/// sequences, every other byte as itself.
pub open spec fn escaped_byte(b: u8) -> Seq<u8> {
    if b == 9 {
        seq![92u8, 116u8]
    } else if b == 10 {
        seq![92u8, 110u8]
    } else if b == 13 {
        seq![92u8, 114u8]
    } else if b == 92 {
        seq![92u8, 92u8]
    } else if b == 34 {
        seq![92u8, 34u8]
    } else {
        seq![b]
    }
}

/// A byte string in its printed form.
pub open spec fn escaped(bs: Seq<u8>) -> Seq<u8>
    decreases bs.len(),
{
    if bs.len() == 0 {
        Seq::empty()
    } else {
        escaped_byte(bs[0]) + escaped(bs.drop_first())
    }
}

/// A run of `n` spaces.
pub open spec fn spaces(n: int) -> Seq<u8> {
    Seq::new(if n > 0 { n as nat } else { 0 }, |i: int| 32u8)
}

/// What `ansi_term` prints around bold text: `ESC[1m`, the text, `ESC[0m`.
pub open spec fn bold_wrap(x: Seq<u8>) -> Seq<u8> {
    seq![27u8, 91u8, 49u8, 109u8] + x + seq![27u8, 91u8, 48u8, 109u8]
}

/// What `ansi_term` prints around dimmed text: `ESC[2m`, the text,
/// `ESC[0m`.
pub open spec fn dim_wrap(x: Seq<u8>) -> Seq<u8> {
    seq![27u8, 91u8, 50u8, 109u8] + x + seq![27u8, 91u8, 48u8, 109u8]
}

/// The arrow before a rule name: `->` everywhere but at the start of a
/// line.
pub open spec fn arrow(offset: int) -> Seq<u8> {
    if offset != 0 {
        seq![45u8, 62u8]
    } else {
        Seq::empty()
    }
}

/// The `<start,end>` span annotation of a leaf.
pub open spec fn span_note(v: NodeView) -> Seq<u8> {
    seq![60u8] + dec_rep(v.start as nat) + seq![44u8] + dec_rep(v.end as nat) + seq![62u8]
}

/// The span annotation as printed: present only on leaves.
pub open spec fn note_of(v: NodeView) -> Seq<u8> {
    if v.children.len() == 0 {
        span_note(v)
    } else {
        Seq::empty()
    }
}

/// How many characters the node's own label puts on the line, styling
/// excluded: the alignment of its children is computed from this.
pub open spec fn printed_len(v: NodeView, offset: int) -> int {
    arrow(offset).len() + rule_name(v.rule).len() + note_of(v).len() as int
}

/// Addition that stops at the machine limit; the indentation column
/// saturates there instead of wrapping.
pub open spec fn sat_add(a: int, b: int) -> int {
    if a + b > usize::MAX as int {
        usize::MAX as int
    } else {
        a + b
    }
}

/// The full rendering of the subtree `v`, beginning in column `offset`.
/// A leaf line ends with `": "` and the leaf's escaped source text; a
/// composite node renders its children in order, each child of the first
/// aligned under it.
pub open spec fn render_node(s: Seq<u8>, v: NodeView, offset: int, styled: bool) -> Seq<u8>
    decreases v, 1int,
{
    let name = if styled {
        bold_wrap(rule_name(v.rule))
    } else {
        rule_name(v.rule)
    };
    let note = if styled {
        dim_wrap(note_of(v))
    } else {
        note_of(v)
    };
    let head = arrow(offset) + name + note;
    if v.children.len() == 0 {
        head + seq![58u8, 32u8] + escaped(s.subrange(v.start, v.end))
    } else {
        head + render_kids(s, v.children, 0, sat_add(offset, printed_len(v, offset)), styled)
    }
}

/// The rendering of the children `kids[idx..]`, each beginning in column
/// `indent`: spaces up to that column before every child but the first,
/// and a line break after every leaf child.
pub open spec fn render_kids(
    s: Seq<u8>,
    kids: Seq<NodeView>,
    idx: int,
    indent: int,
    styled: bool,
) -> Seq<u8>
    decreases kids, kids.len() - idx,
{
    if !(0 <= idx < kids.len()) {
        Seq::empty()
    } else {
        (if idx > 0 {
            spaces(indent)
        } else {
            Seq::empty()
        }) + render_node(s, kids[idx], indent, styled) + (if kids[idx].children.len() == 0 {
            seq![10u8]
        } else {
            Seq::empty()
        }) + render_kids(s, kids, idx + 1, indent, styled)
    }
}

/// Rendering is a function of the tree, the source and the flag alone:
/// two renderings with the same arguments are identical, byte for byte.
pub proof fn lemma_render_deterministic(
    s: Seq<u8>,
    v: NodeView,
    offset: int,
    styled: bool,
    r1: Seq<u8>,
    r2: Seq<u8>,
)
    requires
        r1 == render_node(s, v, offset, styled),
        r2 == render_node(s, v, offset, styled),
    ensures
        r1 == r2,
{
}

/// Relies on ansi_term: `Style::new().bold().paint(bytes)` written out is
/// `ESC[1m`, the bytes unchanged, `ESC[0m` (`Style::write_prefix`,
/// `ANSIGenericString::write_to_any`, `RESET` in its source).
#[verifier::external_body]
fn paint_bold(s: &Vec<u8>) -> (r: Vec<u8>)
    ensures
        r@ == bold_wrap(s@),
{
    let mut out: Vec<u8> = Vec::new();
    ansi_term::Style::new().bold().paint(s.as_slice()).write_to(&mut out).unwrap();
    out
}

/// Relies on ansi_term: `Style::new().dimmed().paint(bytes)` written out
/// is `ESC[2m`, the bytes unchanged, `ESC[0m`.
#[verifier::external_body]
fn paint_dimmed(s: &Vec<u8>) -> (r: Vec<u8>)
    ensures
        r@ == dim_wrap(s@),
{
    let mut out: Vec<u8> = Vec::new();
    ansi_term::Style::new().dimmed().paint(s.as_slice()).write_to(&mut out).unwrap();
    out
}

fn rule_name_bytes(r: GrammarRule) -> (v: Vec<u8>)
    ensures
        v@ == rule_name(r),
        v@.len() <= 15,
{
    let mut v: Vec<u8> = Vec::new();
    match r {
        GrammarRule::File => {
            v.push(70);
            v.push(105);
            v.push(108);
            v.push(101);
        },
        GrammarRule::LineComment => {
            v.push(76);
            v.push(105);
            v.push(110);
            v.push(101);
            v.push(67);
            v.push(111);
            v.push(109);
            v.push(109);
            v.push(101);
            v.push(110);
            v.push(116);
        },
        GrammarRule::BlockComment => {
            v.push(66);
            v.push(108);
            v.push(111);
            v.push(99);
            v.push(107);
            v.push(67);
            v.push(111);
            v.push(109);
            v.push(109);
            v.push(101);
            v.push(110);
            v.push(116);
        },
        GrammarRule::QuotedString => {
            v.push(81);
            v.push(117);
            v.push(111);
            v.push(116);
            v.push(101);
            v.push(100);
            v.push(83);
            v.push(116);
            v.push(114);
            v.push(105);
            v.push(110);
            v.push(103);
        },
        GrammarRule::UnquotedString => {
            v.push(85);
            v.push(110);
            v.push(113);
            v.push(117);
            v.push(111);
            v.push(116);
            v.push(101);
            v.push(100);
            v.push(83);
            v.push(116);
            v.push(114);
            v.push(105);
            v.push(110);
            v.push(103);
        },
        GrammarRule::Array => {
            v.push(65);
            v.push(114);
            v.push(114);
            v.push(97);
            v.push(121);
        },
        GrammarRule::Dictionary => {
            v.push(68);
            v.push(105);
            v.push(99);
            v.push(116);
            v.push(105);
            v.push(111);
            v.push(110);
            v.push(97);
            v.push(114);
            v.push(121);
        },
        GrammarRule::DictionaryEntry => {
            v.push(68);
            v.push(105);
            v.push(99);
            v.push(116);
            v.push(105);
            v.push(111);
            v.push(110);
            v.push(97);
            v.push(114);
            v.push(121);
            v.push(69);
            v.push(110);
            v.push(116);
            v.push(114);
            v.push(121);
        },
    }
    proof {
        assert(v@ =~= rule_name(r));
    }
    v
}

fn push_dec(out: &mut Vec<u8>, n: usize)
    ensures
        final(out)@ == old(out)@ + dec_rep(n as nat),
    decreases n,
{
    if n < 10 {
        out.push(48 + n as u8);
        proof {
            assert(out@ =~= old(out)@ + dec_rep(n as nat));
        }
    } else {
        push_dec(out, n / 10);
        out.push(48 + (n % 10) as u8);
        proof {
            assert(out@ =~= old(out)@ + dec_rep(n as nat));
        }
    }
}

fn push_spaces(out: &mut Vec<u8>, n: usize)
    ensures
        final(out)@ == old(out)@ + spaces(n as int),
    decreases n,
{
    if n > 0 {
        push_spaces(out, n - 1);
        out.push(32);
        proof {
            assert(out@ =~= old(out)@ + spaces(n as int));
        }
    } else {
        proof {
            assert(out@ =~= old(out)@ + spaces(0));
        }
    }
}

fn push_escaped(out: &mut Vec<u8>, s: &[u8], from: usize, to: usize)
    requires
        from <= to <= s@.len(),
    ensures
        final(out)@ == old(out)@ + escaped(s@.subrange(from as int, to as int)),
    decreases to - from,
{
    if from < to {
        let b = s[from];
        if b == 9 {
            out.push(92);
            out.push(116);
        } else if b == 10 {
            out.push(92);
            out.push(110);
        } else if b == 13 {
            out.push(92);
            out.push(114);
        } else if b == 92 {
            out.push(92);
            out.push(92);
        } else if b == 34 {
            out.push(92);
            out.push(34);
        } else {
            out.push(b);
        }
        proof {
            assert(out@ =~= old(out)@ + escaped_byte(b));
            assert(s@.subrange(from as int, to as int).drop_first() =~= s@.subrange(
                from as int + 1,
                to as int,
            ));
        }
        push_escaped(out, s, from + 1, to);
        proof {
            assert(out@ =~= old(out)@ + escaped(s@.subrange(from as int, to as int)));
        }
    } else {
        proof {
            assert(s@.subrange(from as int, to as int) =~= Seq::empty());
            assert(out@ =~= old(out)@ + escaped(s@.subrange(from as int, to as int)));
        }
    }
}

/// Recursively render the tokens and matching rules of a parse tree into
/// `buffer`. Returns whether the node was a leaf, so that the caller adds
/// the line break. With `stylize`, rule names come out bold and span
/// annotations dimmed, through ANSI control sequences that leave the
/// plain text unchanged.
#[verifier::rlimit(100)]
#[verifier::spinoff_prover]
pub fn visualize_matched_grammar_rule(
    node: &ParseNode,
    source: &[u8],
    offset: usize,
    buffer: &mut Vec<u8>,
    stylize: bool,
) -> (is_leaf: bool)
    requires
        node_view(*node).wf(),
        node_view(*node).end <= source@.len(),
    ensures
        final(buffer)@ == old(buffer)@ + render_node(source@, node_view(*node), offset as int, stylize),
        is_leaf == (node_view(*node).children.len() == 0),
    decreases *node, 1int,
{
    let ghost v = node_view(*node);
    let is_leaf = node.children.len() == 0;
    proof {
        lemma_views_of(node.children@);
        lemma_dec_rep_len_usize(node.start as nat);
        lemma_dec_rep_len_usize(node.end as nat);
    }
    let arrow_len: usize = if offset != 0 {
        2
    } else {
        0
    };
    let name_v = rule_name_bytes(node.rule);
    let mut note_v: Vec<u8> = Vec::new();
    if is_leaf {
        note_v.push(60);
        push_dec(&mut note_v, node.start);
        note_v.push(44);
        push_dec(&mut note_v, node.end);
        note_v.push(62);
        proof {
            assert(note_v@ =~= span_note(v));
        }
    }
    proof {
        assert(note_v@ == note_of(v));
    }
    let printed: usize = arrow_len + name_v.len() + note_v.len();
    proof {
        assert(printed == printed_len(v, offset as int));
    }
    if offset != 0 {
        buffer.push(45);
        buffer.push(62);
    }
    if stylize {
        let mut painted = paint_bold(&name_v);
        buffer.append(&mut painted);
        let mut painted_note = paint_dimmed(&note_v);
        buffer.append(&mut painted_note);
    } else {
        let mut name_m = name_v;
        buffer.append(&mut name_m);
        let mut note_m = note_v;
        buffer.append(&mut note_m);
    }
    if is_leaf {
        buffer.push(58);
        buffer.push(32);
        push_escaped(buffer, source, node.start, node.end);
        proof {
            assert(buffer@ =~= old(buffer)@ + render_node(source@, v, offset as int, stylize));
        }
        true
    } else {
        let child_offset = offset.saturating_add(printed);
        proof {
            assert(child_offset as int == sat_add(offset as int, printed_len(v, offset as int)));
            assert forall|m: int| 0 <= m < node.children@.len() implies node_view(
                #[trigger] node.children@[m],
            ).wf() && node_view(node.children@[m]).end <= source@.len() by {
                assert(v.children[m] == node_view(node.children@[m]));
                assert(v.children[m].wf() && v.children[m].end <= v.end);
            }
        }
        render_children(&node.children, source, 0, child_offset, buffer, stylize);
        proof {
            assert(buffer@ =~= old(buffer)@ + render_node(source@, v, offset as int, stylize));
        }
        false
    }
}

#[verifier::rlimit(100)]
#[verifier::spinoff_prover]
fn render_children(
    kids: &Vec<ParseNode>,
    source: &[u8],
    idx: usize,
    indent: usize,
    buffer: &mut Vec<u8>,
    stylize: bool,
)
    requires
        idx <= kids@.len(),
        forall|m: int|
            0 <= m < kids@.len() ==> node_view(#[trigger] kids@[m]).wf() && node_view(
                kids@[m],
            ).end <= source@.len(),
    ensures
        final(buffer)@ == old(buffer)@ + render_kids(
            source@,
            views_of(kids@),
            idx as int,
            indent as int,
            stylize,
        ),
    decreases *kids, kids@.len() - idx,
{
    proof {
        lemma_views_of(kids@);
    }
    if idx < kids.len() {
        if idx > 0 {
            push_spaces(buffer, indent);
        }
        proof {
            assert(decreases_to!(*kids => kids@));
            assert(decreases_to!(kids@ => kids@[idx as int]));
        }
        let child = &kids[idx];
        let child_is_leaf = visualize_matched_grammar_rule(
            child,
            source,
            indent,
            buffer,
            stylize,
        );
        if child_is_leaf {
            buffer.push(10);
        }
        render_children(kids, source, idx + 1, indent, buffer, stylize);
        proof {
            assert(buffer@ =~= old(buffer)@ + render_kids(
                source@,
                views_of(kids@),
                idx as int,
                indent as int,
                stylize,
            ));
        }
    } else {
        proof {
            assert(buffer@ =~= old(buffer)@ + render_kids(
                source@,
                views_of(kids@),
                idx as int,
                indent as int,
                stylize,
            ));
        }
    }
}

/// Tokenize and render in one step: the trace for the tree of `source`,
/// or the tokenizer's failure. Succeeds exactly when the grammar matches
/// the whole input.
pub fn tokenize_and_render(source: &[u8], styled: bool) -> (r: Result<
    Vec<u8>,
    crate::lexer::GrammarMismatch,
>)
    ensures
        r is Ok <==> crate::grammar::parse_file(source@, true) is Some,
        r matches Ok(out) ==> out@ == render_node(
            source@,
            crate::grammar::parse_file(source@, true).unwrap(),
            0,
            styled,
        ),
{
    match crate::lexer::PBXProjLexer::tokenize(source) {
        Err(e) => Err(e),
        Ok(root) => {
            proof {
                crate::props::lemma_parse_file_wf(source@, true);
            }
            Ok(render(&root, source, styled))
        },
    }
}

/// Render a whole tree from column zero into a fresh buffer.
pub fn render(root: &ParseNode, source: &[u8], styled: bool) -> (out: Vec<u8>)
    requires
        node_view(*root).wf(),
        node_view(*root).end <= source@.len(),
    ensures
        out@ == render_node(source@, node_view(*root), 0, styled),
{
    let mut out: Vec<u8> = Vec::new();
    let _ = visualize_matched_grammar_rule(root, source, 0, &mut out, styled);
    out
}

} // verus!
