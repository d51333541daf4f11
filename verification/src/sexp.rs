//! Reading a simplified S-expression into a tree of nodes.
//!
//! The text is split at whitespace into tokens. Each `(` in a token opens a
//! level; what is left of a token once its parentheses are removed, if
//! anything, becomes a node whose parent is the innermost open node. A
//! node is itself open for the nodes that follow when its token held a
//! `(`; each `)` closes the innermost open node.

use vstd::prelude::*;
use crate::ast_matrix::{CodeNode, label_view};
use crate::text::{chars_of, string_from_chars};

verus! {

/// The Unicode `White_Space` characters, the separators of tokens.
pub open spec fn is_space(c: char) -> bool {
    let u = c as u32;
    ||| 9 <= u <= 13
    ||| u == 32
    ||| u == 0x85
    ||| u == 0xa0
    ||| u == 0x1680
    ||| 0x2000 <= u <= 0x200a
    ||| u == 0x2028
    ||| u == 0x2029
    ||| u == 0x202f
    ||| u == 0x205f
    ||| u == 0x3000
}

/// Whether `c` separates tokens.
pub fn is_space_char(c: char) -> (b: bool)
    ensures
        b == is_space(c),
{
    let u = c as u32;
    (9 <= u && u <= 13) || u == 32 || u == 0x85 || u == 0xa0 || u == 0x1680 || (0x2000 <= u && u
        <= 0x200a) || u == 0x2028 || u == 0x2029 || u == 0x202f || u == 0x205f || u == 0x3000
}

/// Reading `s` from the left: the tokens completed so far, and the
/// token still being read.
pub open spec fn scan(s: Seq<char>) -> (Seq<Seq<char>>, Seq<char>)
    decreases s.len(),
{
    if s.len() == 0 {
        (Seq::empty(), Seq::empty())
    } else {
        let prev = scan(s.drop_last());
        let c = s.last();
        if is_space(c) {
            if prev.1.len() > 0 {
                (prev.0.push(prev.1), Seq::empty())
            } else {
                (prev.0, Seq::empty())
            }
        } else {
            (prev.0, prev.1.push(c))
        }
    }
}

/// The maximal runs of non-whitespace characters of `s`, in order.
pub open spec fn tokens(s: Seq<char>) -> Seq<Seq<char>> {
    let r = scan(s);
    if r.1.len() > 0 {
        r.0.push(r.1)
    } else {
        r.0
    }
}

/// How many times `c` occurs in `s`.
pub open spec fn count_of(s: Seq<char>, c: char) -> nat
    decreases s.len(),
{
    if s.len() == 0 {
        0
    } else {
        count_of(s.drop_last(), c) + if s.last() == c {
            1nat
        } else {
            0nat
        }
    }
}

/// `s` with every `(` and `)` removed.
pub open spec fn without_parens(s: Seq<char>) -> Seq<char>
    decreases s.len(),
{
    if s.len() == 0 {
        s
    } else {
        let rest = without_parens(s.drop_last());
        if s.last() == '(' || s.last() == ')' {
            rest
        } else {
            rest.push(s.last())
        }
    }
}

/// `s` without its leading `"` characters.
pub open spec fn trim_leading_quotes(s: Seq<char>) -> Seq<char>
    decreases s.len(),
{
    if s.len() > 0 && s[0] == '"' {
        trim_leading_quotes(s.drop_first())
    } else {
        s
    }
}

/// `s` without its trailing `"` characters.
pub open spec fn trim_trailing_quotes(s: Seq<char>) -> Seq<char>
    decreases s.len(),
{
    if s.len() > 0 && s.last() == '"' {
        trim_trailing_quotes(s.drop_last())
    } else {
        s
    }
}

/// `s` without its leading and trailing `"` characters.
pub open spec fn trim_quotes(s: Seq<char>) -> Seq<char> {
    trim_trailing_quotes(trim_leading_quotes(s))
}

/// A node as read: its type, its label, its depth.
pub type NodeModel = (Seq<char>, Option<Seq<char>>, int);

/// The model of a node.
pub open spec fn node_model(n: CodeNode) -> NodeModel {
    (n.node_type@, label_view(n.label), n.depth as int)
}

/// What has been read so far: the nodes, the parent of each node, and the
/// open nodes (innermost last).
pub struct ParseState {
    pub nodes: Seq<NodeModel>,
    pub parents: Seq<Option<usize>>,
    pub stack: Seq<usize>,
}

/// Nothing read yet.
pub open spec fn initial_state() -> ParseState {
    ParseState { nodes: Seq::empty(), parents: Seq::empty(), stack: Seq::empty() }
}

/// Reads one token.
pub open spec fn parse_step(st: ParseState, tok: Seq<char>) -> ParseState {
    let opens = count_of(tok, '(');
    let closes = count_of(tok, ')');
    let cleaned = without_parens(tok);
    let grown = if cleaned.len() > 0 {
        let parent = if st.stack.len() > 0 {
            Some(st.stack.last())
        } else {
            None
        };
        let label = if cleaned[0] == '"' {
            Some(trim_quotes(cleaned))
        } else {
            None
        };
        ParseState {
            nodes: st.nodes.push((cleaned, label, st.stack.len() as int)),
            parents: st.parents.push(parent),
            stack: if opens > 0 {
                st.stack.push(st.nodes.len() as usize)
            } else {
                st.stack
            },
        }
    } else {
        st
    };
    let kept = if grown.stack.len() >= closes {
        grown.stack.len() - closes
    } else {
        0
    };
    ParseState { stack: grown.stack.take(kept), ..grown }
}

/// Reads the tokens in order.
pub open spec fn parse_tokens(toks: Seq<Seq<char>>) -> ParseState
    decreases toks.len(),
{
    if toks.len() == 0 {
        initial_state()
    } else {
        parse_step(parse_tokens(toks.drop_last()), toks.last())
    }
}

/// What the text `s` reads as.
pub open spec fn parse_sexp(s: Seq<char>) -> ParseState {
    parse_tokens(tokens(s))
}

/// Every parent precedes its child, every open node exists, and depths
/// count ancestors: a root has depth 0, any other node one more than its
/// parent; the open node at stack position `k` has depth `k`.
pub open spec fn well_nested(st: ParseState) -> bool {
    &&& st.nodes.len() == st.parents.len()
    &&& forall|i: int|
        0 <= i < st.parents.len() ==> (#[trigger] st.parents[i] matches Some(p) ==> p < i)
    &&& forall|k: int| 0 <= k < st.stack.len() ==> #[trigger] st.stack[k] < st.nodes.len()
    &&& forall|i: int|
        0 <= i < st.parents.len() ==> #[trigger] st.nodes[i].2 == match st.parents[i] {
            Some(p) => st.nodes[p as int].2 + 1,
            None => 0,
        }
    &&& forall|k: int| 0 <= k < st.stack.len() ==> st.nodes[#[trigger] st.stack[k] as int].2 == k
}

/// Reading a token keeps the state well nested.
pub proof fn lemma_step_well_nested(st: ParseState, tok: Seq<char>)
    requires
        well_nested(st),
        without_parens(tok).len() > 0 ==> st.nodes.len() < usize::MAX,
    ensures
        well_nested(parse_step(st, tok)),
{
    let r = parse_step(st, tok);
    let cleaned = without_parens(tok);
    let opens = count_of(tok, '(');
    let grown_stack = if cleaned.len() > 0 && opens > 0 {
        st.stack.push(st.nodes.len() as usize)
    } else {
        st.stack
    };
    assert forall|k: int| 0 <= k < r.stack.len() implies #[trigger] r.stack[k] < r.nodes.len() && r.nodes[r.stack[k] as int].2 == k by {
        assert(r.stack[k] == grown_stack[k]);
        if cleaned.len() > 0 && opens > 0 && k == st.stack.len() {
        } else {
            assert(r.stack[k] == st.stack[k]);
            if cleaned.len() > 0 {
                assert(r.nodes[st.stack[k] as int] == st.nodes[st.stack[k] as int]);
            }
        }
    }
    assert forall|i: int| 0 <= i < r.parents.len() implies #[trigger] r.nodes[i].2 == match r.parents[i] {
        Some(p) => r.nodes[p as int].2 + 1,
        None => 0,
    } by {
        if cleaned.len() > 0 && i == st.nodes.len() {
            if st.stack.len() > 0 {
                let p = st.stack.last();
                assert(st.nodes[p as int].2 == st.stack.len() - 1);
                assert(r.nodes[p as int] == st.nodes[p as int]);
            }
        } else {
            assert(r.parents[i] == st.parents[i]);
            assert(r.nodes[i] == st.nodes[i]);
            if let Some(p) = st.parents[i] {
                assert(r.nodes[p as int] == st.nodes[p as int]);
            }
        }
    }
}

/// Reading one token. When something besides parentheses is left of it,
/// that is a new node, appended after the others: its parent is the
/// innermost open node (none when nothing is open), its depth is the number
/// of open nodes, its label is its text without surrounding `"` when it
/// starts with one, and it is opened itself when the token holds a `(`.
/// Then each `)` of the token closes one open node, innermost first: the
/// open nodes are those of before (and the new one, if opened) less as many
/// of the innermost as the token has `)`, down to none at all.
pub proof fn lemma_step_closes(st: ParseState, tok: Seq<char>)
    ensures
        ({
            let r = parse_step(st, tok);
            let name = without_parens(tok);
            let opened: Seq<usize> = if name.len() > 0 && count_of(tok, '(') > 0 {
                st.stack.push(st.nodes.len() as usize)
            } else {
                st.stack
            };
            let closes = count_of(tok, ')') as int;
            &&& r.stack.len() == if opened.len() >= closes {
                opened.len() - closes
            } else {
                0
            }
            &&& forall|k: int| 0 <= k < r.stack.len() ==> #[trigger] r.stack[k] == opened[k]
            &&& name.len() > 0 ==> {
                &&& r.nodes.len() == st.nodes.len() + 1
                &&& r.parents.len() == st.parents.len() + 1
                &&& r.nodes.drop_last() == st.nodes
                &&& r.parents.drop_last() == st.parents
                &&& r.nodes.last().0 == name
                &&& r.nodes.last().1 == if name[0] == '"' {
                    Some(trim_quotes(name))
                } else {
                    None
                }
                &&& r.nodes.last().2 == st.stack.len()
                &&& r.parents.last() == if st.stack.len() > 0 {
                    Some(st.stack.last())
                } else {
                    None
                }
            }
            &&& name.len() == 0 ==> r.nodes == st.nodes && r.parents == st.parents
        }),
{
}

/// How many nodes reading `tok` leaves open that were not open before: one
/// when it names a node and holds a `(`, less one per `)`.
pub open spec fn net_opens(tok: Seq<char>) -> int {
    (if without_parens(tok).len() > 0 && count_of(tok, '(') > 0 {
        1int
    } else {
        0int
    }) - count_of(tok, ')')
}

/// The sum of `net_opens` over `toks`.
pub open spec fn level(toks: Seq<Seq<char>>) -> int
    decreases toks.len(),
{
    if toks.len() == 0 {
        0
    } else {
        level(toks.drop_last()) + net_opens(toks.last())
    }
}

/// A run of tokens that closes exactly what it opens, and never more than
/// it has opened so far: a balanced sub-expression such as `(if (return 1))`.
pub open spec fn balanced(toks: Seq<Seq<char>>) -> bool {
    &&& level(toks) == 0
    &&& forall|k: int| 0 <= k <= toks.len() ==> level(#[trigger] toks.take(k)) >= 0
}

proof fn lemma_levels(pre: Seq<Seq<char>>, a: Seq<Seq<char>>, k: int)
    requires
        0 <= k <= a.len(),
        forall|j: int| 0 <= j <= k ==> level(#[trigger] a.take(j)) >= 0,
    ensures
        parse_tokens(pre + a.take(k)).stack.len() == parse_tokens(pre).stack.len() + level(
            a.take(k),
        ),
        forall|i: int|
            0 <= i < parse_tokens(pre).stack.len() ==> #[trigger] parse_tokens(
                pre + a.take(k),
            ).stack[i] == parse_tokens(pre).stack[i],
    decreases k,
{
    if k == 0 {
        assert(pre + a.take(0) =~= pre);
    } else {
        lemma_levels(pre, a, k - 1);
        assert((pre + a.take(k)).drop_last() =~= pre + a.take(k - 1));
        assert(a.take(k).drop_last() =~= a.take(k - 1));
        assert(level(a.take(k)) >= 0);
        let st = parse_tokens(pre + a.take(k - 1));
        lemma_step_closes(st, a[k - 1]);
        assert(parse_tokens(pre + a.take(k)) == parse_step(st, a[k - 1]));
    }
}

/// A balanced run of tokens leaves the open nodes as they were, so what
/// follows it hangs where it would have hung without it: in `(p A x)`, with
/// `A` any balanced sub-expression, the node `x` has the parent `p`, as in
/// `(p x)`.
pub proof fn lemma_balanced_keeps_open(pre: Seq<Seq<char>>, a: Seq<Seq<char>>, x: Seq<char>)
    requires
        balanced(a),
    ensures
        parse_tokens(pre + a).stack == parse_tokens(pre).stack,
        without_parens(x).len() > 0 ==> parse_tokens(pre + a + seq![x]).parents.last()
            == parse_tokens(pre + seq![x]).parents.last(),
{
    lemma_levels(pre, a, a.len() as int);
    assert(a.take(a.len() as int) =~= a);
    assert(parse_tokens(pre + a).stack =~= parse_tokens(pre).stack);
    assert((pre + a + seq![x]).drop_last() =~= pre + a);
    assert((pre + seq![x]).drop_last() =~= pre);
    lemma_step_closes(parse_tokens(pre + a), x);
    lemma_step_closes(parse_tokens(pre), x);
}

/// Reading never removes a node.
pub proof fn lemma_parse_grows(toks: Seq<Seq<char>>, k: int)
    requires
        0 <= k <= toks.len(),
    ensures
        parse_tokens(toks.take(k)).nodes.len() <= parse_tokens(toks).nodes.len(),
    decreases toks.len(),
{
    if k < toks.len() {
        assert(toks.drop_last() =~= toks.take(toks.len() - 1));
        lemma_parse_grows(toks.drop_last(), k);
        assert(toks.drop_last().take(k) =~= toks.take(k));
    } else {
        assert(toks.take(k) =~= toks);
    }
}

/// Whatever is read, every node's parent precedes it, every open node
/// exists, and each node's depth is its number of ancestors: the nodes and
/// their parents form a forest whose roots have depth 0.
pub proof fn lemma_parse_well_nested(toks: Seq<Seq<char>>)
    requires
        parse_tokens(toks).nodes.len() <= usize::MAX,
    ensures
        well_nested(parse_tokens(toks)),
    decreases toks.len(),
{
    if toks.len() > 0 {
        let prev = toks.drop_last();
        lemma_parse_grows(toks, toks.len() - 1);
        assert(toks.take(toks.len() - 1) =~= prev);
        lemma_parse_well_nested(prev);
        lemma_step_well_nested(parse_tokens(prev), toks.last());
    }
}

/// A token yields at most one node.
pub proof fn lemma_nodes_at_most_tokens(toks: Seq<Seq<char>>)
    ensures
        parse_tokens(toks).nodes.len() <= toks.len(),
    decreases toks.len(),
{
    if toks.len() > 0 {
        lemma_nodes_at_most_tokens(toks.drop_last());
    }
}

proof fn lemma_scan_count(s: Seq<char>)
    ensures
        scan(s).0.len() + (if scan(s).1.len() > 0 { 1int } else { 0 }) <= s.len(),
    decreases s.len(),
{
    if s.len() > 0 {
        lemma_scan_count(s.drop_last());
    }
}

/// A text reads as at most as many nodes as it has characters.
pub proof fn lemma_nodes_at_most_chars(s: Seq<char>)
    ensures
        parse_sexp(s).nodes.len() <= s.len(),
{
    lemma_scan_count(s);
    lemma_nodes_at_most_tokens(tokens(s));
}

/// The exec state holds the model state `st`.
pub open spec fn holds_state(
    nodes: Seq<CodeNode>,
    parents: Seq<Option<usize>>,
    stack: Seq<usize>,
    st: ParseState,
) -> bool {
    &&& nodes.map_values(|n: CodeNode| node_model(n)) == st.nodes
    &&& parents == st.parents
    &&& stack == st.stack
}

/// The number of `(`, the number of `)`, and the rest of `tok`.
fn token_parts(tok: &Vec<char>) -> (r: (usize, usize, Vec<char>))
    ensures
        r.0 == count_of(tok@, '('),
        r.1 == count_of(tok@, ')'),
        r.2@ == without_parens(tok@),
        r.0 <= tok@.len(),
{
    let mut opens: usize = 0;
    let mut closes: usize = 0;
    let mut cleaned: Vec<char> = Vec::new();
    let mut i: usize = 0;
    while i < tok.len()
        invariant
            i <= tok.len(),
            opens == count_of(tok@.take(i as int), '('),
            closes == count_of(tok@.take(i as int), ')'),
            cleaned@ == without_parens(tok@.take(i as int)),
            opens + closes <= i,
        decreases tok.len() - i,
    {
        let c = tok[i];
        proof {
            assert(tok@.take(i + 1).drop_last() =~= tok@.take(i as int));
        }
        if c == '(' {
            opens = opens + 1;
        } else if c == ')' {
            closes = closes + 1;
        } else {
            cleaned.push(c);
        }
        i = i + 1;
    }
    proof {
        assert(tok@.take(tok@.len() as int) =~= tok@);
    }
    (opens, closes, cleaned)
}

/// The cells `lo..hi` of `v`.
fn copy_range(v: &Vec<char>, lo: usize, hi: usize) -> (r: Vec<char>)
    requires
        lo <= hi <= v.len(),
    ensures
        r@ == v@.subrange(lo as int, hi as int),
{
    let mut r: Vec<char> = Vec::new();
    let mut i = lo;
    while i < hi
        invariant
            lo <= i <= hi,
            hi <= v.len(),
            r@ == v@.subrange(lo as int, i as int),
        decreases hi - i,
    {
        r.push(v[i]);
        i = i + 1;
    }
    r
}

/// `s` without leading and trailing `"`.
fn trimmed_quotes(s: &Vec<char>) -> (r: Vec<char>)
    ensures
        r@ == trim_quotes(s@),
{
    let mut a: usize = 0;
    assert(s@.subrange(0, s@.len() as int) =~= s@);
    while a < s.len() && s[a] == '"'
        invariant
            a <= s.len(),
            trim_leading_quotes(s@) == trim_leading_quotes(s@.subrange(a as int, s@.len() as int)),
        decreases s.len() - a,
    {
        assert(s@.subrange(a as int, s@.len() as int).drop_first() =~= s@.subrange(
            a + 1,
            s@.len() as int,
        ));
        a = a + 1;
    }
    assert(s@.subrange(0, s@.len() as int) =~= s@);
    let lead = copy_range(s, a, s.len());
    assert(trim_leading_quotes(s@) == lead@);
    let mut b: usize = lead.len();
    assert(lead@.subrange(0, lead@.len() as int) =~= lead@);
    while b > 0 && lead[b - 1] == '"'
        invariant
            b <= lead.len(),
            trim_trailing_quotes(lead@) == trim_trailing_quotes(lead@.subrange(0, b as int)),
        decreases b,
    {
        assert(lead@.subrange(0, b as int).drop_last() =~= lead@.subrange(0, b - 1));
        b = b - 1;
    }
    assert(lead@.subrange(0, lead@.len() as int) =~= lead@);
    copy_range(&lead, 0, b)
}

/// Reads one token into the exec state.
fn read_token(
    tok: &Vec<char>,
    nodes: &mut Vec<CodeNode>,
    parents: &mut Vec<Option<usize>>,
    stack: &mut Vec<usize>,
    Ghost(st): Ghost<ParseState>,
)
    requires
        holds_state(old(nodes)@, old(parents)@, old(stack)@, st),
    ensures
        holds_state(final(nodes)@, final(parents)@, final(stack)@, parse_step(st, tok@)),
{
    let (opens, closes, cleaned) = token_parts(tok);
    if cleaned.len() > 0 {
        let parent = if stack.len() > 0 {
            Some(stack[stack.len() - 1])
        } else {
            None
        };
        let idx = nodes.len();
        let label = if cleaned[0] == '"' {
            let t = trimmed_quotes(&cleaned);
            Some(string_from_chars(&t))
        } else {
            None
        };
        let node_type = string_from_chars(&cleaned);
        let ghost before = nodes@;
        nodes.push(CodeNode::new(node_type.as_str(), label, stack.len()));
        proof {
            assert(nodes@.map_values(|n: CodeNode| node_model(n)) =~= before.map_values(
                |n: CodeNode| node_model(n),
            ).push(node_model(nodes@.last())));
        }
        parents.push(parent);
        if opens > 0 {
            stack.push(idx);
        }
    }
    let ghost grown_stack = stack@;
    let mut k: usize = 0;
    while k < closes
        invariant
            k <= closes,
            stack@ == grown_stack.take(
                if grown_stack.len() >= k {
                    grown_stack.len() - k
                } else {
                    0
                },
            ),
        decreases closes - k,
    {
        if stack.len() > 0 {
            stack.pop();
        }
        k = k + 1;
    }
}

/// Reads the text `sexp` into nodes and their parents.
pub fn read_sexp(sexp: &str) -> (r: (Vec<CodeNode>, Vec<Option<usize>>))
    ensures
        r.0@.map_values(|n: CodeNode| node_model(n)) == parse_sexp(sexp@).nodes,
        r.1@ == parse_sexp(sexp@).parents,
{
    let chars = chars_of(sexp);
    let mut nodes: Vec<CodeNode> = Vec::new();
    let mut parents: Vec<Option<usize>> = Vec::new();
    let mut stack: Vec<usize> = Vec::new();
    let mut cur: Vec<char> = Vec::new();
    let ghost mut st = initial_state();
    proof {
        assert(chars@.take(0) =~= Seq::<char>::empty());
        assert(nodes@.map_values(|n: CodeNode| node_model(n)) =~= Seq::<NodeModel>::empty());
    }
    let mut i: usize = 0;
    while i < chars.len()
        invariant
            chars@ == sexp@,
            i <= chars.len(),
            scan(chars@.take(i as int)).1 == cur@,
            st == parse_tokens(scan(chars@.take(i as int)).0),
            holds_state(nodes@, parents@, stack@, st),
        decreases chars.len() - i,
    {
        let c = chars[i];
        let ghost prev = scan(chars@.take(i as int));
        proof {
            assert(chars@.take(i + 1).drop_last() =~= chars@.take(i as int));
        }
        if is_space_char(c) {
            if cur.len() > 0 {
                read_token(&cur, &mut nodes, &mut parents, &mut stack, Ghost(st));
                proof {
                    assert(prev.0.push(cur@).drop_last() =~= prev.0);
                    st = parse_step(st, cur@);
                }
                cur = Vec::new();
            }
        } else {
            cur.push(c);
        }
        i = i + 1;
    }
    proof {
        assert(chars@.take(chars@.len() as int) =~= chars@);
    }
    if cur.len() > 0 {
        let ghost prev = scan(chars@);
        read_token(&cur, &mut nodes, &mut parents, &mut stack, Ghost(st));
        proof {
            assert(prev.0.push(cur@).drop_last() =~= prev.0);
            st = parse_step(st, cur@);
        }
    }
    (nodes, parents)
}

} // verus!
