//! From a parsed file to the library's syntax tables.
//!
//! tree-sitter hands over the nodes of a tree in pre-order, each with its
//! depth below the root, and the matches of a query as (capture index,
//! node id) pairs. Laying the nodes out as a table (parents, children,
//! texts, spans) and turning captures into named rows is decided here.

use vstd::prelude::*;
use std::collections::HashMap;
use streaming_iterator::StreamingIterator;
use crate::binder::BindingMatches;
use crate::compiled::{LanguageRules, SourcedQuery};
use crate::engine::{TaintInputs, evaluated, extracted, explained};
use crate::explain::Explanation;
use crate::findings::{Finding, Pos, Span};
use crate::hashing::utf8_bytes;
use crate::linker::FileLinked;
use crate::matcher::runs_fit;
use crate::structure::{ProfileMatches, matches_fit};
use crate::summary::{PortableBindings, RuleSummaries};
use crate::syntax::{Capture, QueryMatch, SyntaxNode, SyntaxTree};
use crate::taint::TaintMatches;

verus! {

broadcast use vstd::std_specs::hash::group_hash_axioms;

#[verifier::external_type_specification]
#[verifier::external_body]
pub struct ExTree(tree_sitter::Tree);


/// One node of a parsed tree as plain values: its id within the tree, its
/// kind, whether it is named, its depth below the root, and its range
/// (bytes, and 0-based rows and columns).
pub struct RawNode {
    pub id: usize,
    pub kind: String,
    pub named: bool,
    pub depth: u32,
    pub start_byte: usize,
    pub end_byte: usize,
    pub start_row: usize,
    pub start_column: usize,
    pub end_row: usize,
    pub end_column: usize,
}

/// There is a node, and every range is ordered with coordinates that are
/// 32-bit values, as tree-sitter keeps them.
pub open spec fn layout_ok(raws: Seq<RawNode>) -> bool {
    &&& raws.len() > 0
    &&& forall|i: int| 0 <= i < raws.len() ==> range_ok(#[trigger] raws[i])
}

pub open spec fn range_ok(r: RawNode) -> bool {
    &&& r.start_byte <= r.end_byte <= u32::MAX
    &&& r.start_row <= u32::MAX && r.start_column <= u32::MAX
    &&& r.end_row <= u32::MAX && r.end_column <= u32::MAX
}

/// The depth the table gives node `i`: the first node is the root at
/// depth 0; any other node lies at least one level below the root and at
/// most one below the node before it. (In a pre-order walk of a tree this
/// is each node's own depth.)
pub open spec fn depth_at(raws: Seq<RawNode>, i: int) -> int
    decreases i,
{
    if i <= 0 {
        0
    } else {
        let prev = depth_at(raws, i - 1);
        let d = raws[i].depth as int;
        if d < 1 { 1 } else if d > prev + 1 { prev + 1 } else { d }
    }
}

/// The last node before position `i` at depth `d` (-1 when there is none).
pub open spec fn last_at(raws: Seq<RawNode>, i: int, d: int) -> int
    decreases i,
{
    if i <= 0 {
        -1
    } else if depth_at(raws, i - 1) == d {
        i - 1
    } else {
        last_at(raws, i - 1, d)
    }
}

/// The parent of node `i`: the nearest earlier node one level up.
pub open spec fn parent_row(raws: Seq<RawNode>, i: int) -> Option<usize> {
    if i == 0 { None } else { Some(last_at(raws, i, depth_at(raws, i) - 1) as usize) }
}

/// The children of node `p` among the first `i` nodes, in order.
pub open spec fn children_upto(raws: Seq<RawNode>, p: int, i: int) -> Seq<usize>
    decreases i,
{
    if i <= 0 {
        Seq::empty()
    } else {
        let rest = children_upto(raws, p, i - 1);
        if i - 1 > 0 && last_at(raws, i - 1, depth_at(raws, i - 1) - 1) == p { rest.push((i - 1) as usize) } else { rest }
    }
}

/// The text of a byte range of the source: its UTF-8 decoding, or empty
/// where the range is out of bounds or not valid UTF-8.
pub open spec fn range_text(bytes: Seq<u8>, start: usize, end: usize) -> Seq<char> {
    if start <= end <= bytes.len() && vstd::utf8::valid_utf8(bytes.subrange(start as int, end as int)) {
        vstd::utf8::decode_utf8(bytes.subrange(start as int, end as int))
    } else {
        Seq::empty()
    }
}

/// A 0-based row or column counted from 1, as a 32-bit value (wrapping
/// to 0 past the largest one).
pub open spec fn one_based(x: usize) -> u32 {
    if x < u32::MAX { (x + 1) as u32 } else { 0 }
}

fn one_based_of(x: usize) -> (r: u32)
    ensures
        r == one_based(x),
{
    if x < 4294967295usize { (x + 1) as u32 } else { 0 }
}

/// A node's span: 1-based lines and columns, byte offsets.
pub open spec fn span_of(r: RawNode) -> Span {
    Span {
        start: Pos { line: one_based(r.start_row), column: one_based(r.start_column) },
        end: Pos { line: one_based(r.end_row), column: one_based(r.end_column) },
        start_byte: r.start_byte as u32,
        end_byte: r.end_byte as u32,
    }
}

/// The table lays out the nodes in the order given, each with its kind,
/// span, text, parent and children.
pub open spec fn laid_out(t: SyntaxTree, raws: Seq<RawNode>, bytes: Seq<u8>) -> bool {
    &&& t.nodes@.len() == raws.len()
    &&& forall|i: int| 0 <= i < raws.len() ==> {
        let n = #[trigger] t.nodes@[i];
        &&& n.kind@ == raws[i].kind@
        &&& n.named == raws[i].named
        &&& n.span == span_of(raws[i])
        &&& n.text@ == range_text(bytes, raws[i].start_byte, raws[i].end_byte)
        &&& n.parent == parent_row(raws, i)
        &&& n.children@ == children_upto(raws, i, raws.len() as int)
    }
}

proof fn lemma_depth_nonneg(raws: Seq<RawNode>, i: int)
    ensures
        depth_at(raws, i) >= 0,
        i > 0 ==> depth_at(raws, i) >= 1,
    decreases i,
{
    if i > 0 {
        lemma_depth_nonneg(raws, i - 1);
    }
}

proof fn lemma_last_at_below(raws: Seq<RawNode>, i: int, d: int)
    requires
        i >= 0,
    ensures
        last_at(raws, i, d) < i,
        i > 0 ==> last_at(raws, i, d) >= -1,
    decreases i,
{
    if i > 0 {
        lemma_last_at_below(raws, i - 1, d);
    }
}

proof fn lemma_children_none_yet(raws: Seq<RawNode>, p: int, k: int)
    requires
        k <= p + 1,
    ensures
        children_upto(raws, p, k) == Seq::<usize>::empty(),
    decreases k,
{
    if k > 0 {
        lemma_children_none_yet(raws, p, k - 1);
        if k - 1 > 0 {
            lemma_last_at_below(raws, k - 1, depth_at(raws, k - 1) - 1);
        }
    }
}

/// The text of a byte range (`std::str::from_utf8`): the decoding of
/// `bytes` exactly when they are valid UTF-8.
#[verifier::external_body]
fn decode_utf8(bytes: &[u8]) -> (r: Option<String>)
    ensures
        r is Some <==> vstd::utf8::valid_utf8(bytes@),
        r matches Some(s) ==> s@ == vstd::utf8::decode_utf8(bytes@),
{
    std::str::from_utf8(bytes).ok().map(|s| s.to_owned())
}

fn text_of(bytes: &Vec<u8>, start: usize, end: usize) -> (r: String)
    ensures
        r@ == range_text(bytes@, start, end),
{
    if start <= end && end <= bytes.len() {
        let b = vstd::slice::slice_subrange(bytes.as_slice(), start, end);
        match decode_utf8(b) {
            Some(s) => s,
            None => String::new(),
        }
    } else {
        String::new()
    }
}

/// Node `k` of a table under construction, with the first `i` nodes laid
/// out.
spec fn node_fits(nd: SyntaxNode, raws: Seq<RawNode>, bytes: Seq<u8>, k: int, i: int) -> bool {
    &&& nd.kind@ == raws[k].kind@
    &&& nd.named == raws[k].named
    &&& nd.span == span_of(raws[k])
    &&& nd.text@ == range_text(bytes, raws[k].start_byte, raws[k].end_byte)
    &&& nd.parent == parent_row(raws, k)
    &&& nd.children@ == children_upto(raws, k, i)
    &&& (k == 0 ==> nd.parent is None)
    &&& (k > 0 ==> (nd.parent matches Some(p) && p < k))
    &&& forall|j: int| 0 <= j < nd.children@.len() ==> k < #[trigger] nd.children@[j] < i
}

fn empty_node() -> (r: SyntaxNode) {
    SyntaxNode {
        kind: String::new(),
        span: Span { start: Pos { line: 0, column: 0 }, end: Pos { line: 0, column: 0 }, start_byte: 0, end_byte: 0 },
        text: String::new(),
        named: false,
        parent: None,
        children: Vec::new(),
    }
}

/// Lay out pre-order nodes as a syntax table, the texts taken from the
/// source's UTF-8 bytes; `None` when there is no node or a range is not
/// ordered or does not fit 32 bits.
#[verifier::rlimit(40)]
pub fn layout(raws: &Vec<RawNode>, bytes: &Vec<u8>) -> (r: Option<SyntaxTree>)
    ensures
        r is Some <==> layout_ok(raws@),
        r matches Some(t) ==> t.wf() && laid_out(t, raws@, bytes@),
{
    let n = raws.len();
    if n == 0 {
        return None;
    }
    let mut nodes: Vec<SyntaxNode> = Vec::new();
    let mut stack: Vec<usize> = Vec::new();
    for i in 0..n
        invariant
            n == raws@.len(),
            n > 0,
            nodes@.len() == i,
            i == 0 ==> stack@.len() == 0,
            i > 0 ==> stack@.len() == depth_at(raws@, i - 1) + 1,
            forall|d: int| 0 <= d < stack@.len() ==> #[trigger] stack@[d] == last_at(raws@, i as int, d) && 0 <= stack@[d] < i,
            forall|k: int| 0 <= k < i ==> range_ok(#[trigger] raws@[k]),
            forall|k: int| 0 <= k < i ==> node_fits(#[trigger] nodes@[k], raws@, bytes@, k, i as int),
    {
        let r = &raws[i];
        proof { lemma_depth_nonneg(raws@, i - 1); }
        let d: usize = if i == 0 {
            0
        } else if r.depth == 0 {
            1
        } else if r.depth as usize > stack.len() {
            stack.len()
        } else {
            r.depth as usize
        };
        assert(d as int == depth_at(raws@, i as int));
        if !(r.start_byte <= r.end_byte && r.end_byte <= 4294967295usize
            && r.start_row <= 4294967295usize && r.start_column <= 4294967295usize
            && r.end_row <= 4294967295usize && r.end_column <= 4294967295usize) {
            return None;
        }
        let span = Span {
            start: Pos { line: one_based_of(r.start_row), column: one_based_of(r.start_column) },
            end: Pos { line: one_based_of(r.end_row), column: one_based_of(r.end_column) },
            start_byte: r.start_byte as u32,
            end_byte: r.end_byte as u32,
        };
        let parent: Option<usize> = if i == 0 { None } else { Some(stack[d - 1]) };
        let ghost old_nodes = nodes@;
        proof {
            lemma_children_none_yet(raws@, i as int, i + 1);
        }
        nodes.push(SyntaxNode {
            kind: r.kind.clone(),
            span,
            text: text_of(bytes, r.start_byte, r.end_byte),
            named: r.named,
            parent,
            children: Vec::new(),
        });
        match parent {
            Some(p) => {
                let mut pn = empty_node();
                nodes.set_and_swap(p, &mut pn);
                pn.children.push(i);
                nodes.set(p, pn);
            }
            None => {}
        }
        proof {
            assert forall|k: int| 0 <= k < i + 1 implies node_fits(#[trigger] nodes@[k], raws@, bytes@, k, i + 1) by {
                if k < i {
                    if parent == Some(k as usize) {
                        assert(nodes@[k].children@ == old_nodes[k].children@.push(i));
                    } else {
                        assert(nodes@[k] == old_nodes[k]);
                    }
                }
            }
        }
        if i > 0 {
            stack.truncate(d);
        }
        let ghost st = stack@;
        stack.push(i);
        proof {
            assert forall|e: int| 0 <= e < stack@.len() implies #[trigger] stack@[e] == last_at(raws@, i + 1, e) && 0 <= stack@[e] < i + 1 by {
                if e < st.len() {
                    assert(stack@[e] == st[e]);
                }
            }
        }
    }
    proof {
        assert(layout_ok(raws@));
    }
    let t = SyntaxTree { nodes };
    assert forall|k: int| 0 <= k < n implies (#[trigger] t.nodes@[k]).span.start_byte <= t.nodes@[k].span.end_byte by {
        assert(node_fits(t.nodes@[k], raws@, bytes@, k, n as int));
    }
    assert forall|k: int| 1 <= k < n implies ((#[trigger] t.nodes@[k]).parent matches Some(p) && p < k) by {
        assert(node_fits(t.nodes@[k], raws@, bytes@, k, n as int));
    }
    assert forall|k: int, j: int| 0 <= k < n && 0 <= j < t.nodes@[k].children@.len() implies
        k < #[trigger] t.nodes@[k].children@[j] < n by {
        assert(node_fits(t.nodes@[k], raws@, bytes@, k, n as int));
    }
    assert(node_fits(t.nodes@[0], raws@, bytes@, 0, n as int));
    assert(t.wf());
    assert forall|k: int| 0 <= k < raws@.len() implies {
        let nd = #[trigger] t.nodes@[k];
        &&& nd.kind@ == raws@[k].kind@
        &&& nd.named == raws@[k].named
        &&& nd.span == span_of(raws@[k])
        &&& nd.text@ == range_text(bytes@, raws@[k].start_byte, raws@[k].end_byte)
        &&& nd.parent == parent_row(raws@, k)
        &&& nd.children@ == children_upto(raws@, k, raws@.len() as int)
    } by {
        assert(node_fits(t.nodes@[k], raws@, bytes@, k, n as int));
    }
    Some(t)
}

/// Parse a text from scratch with a grammar (`Parser::new`,
/// `Parser::set_language`, `Parser::parse`). `None` only when tree-sitter
/// refuses the grammar: `Parser::parse` returns a tree whenever a language
/// is set and no timeout or cancellation flag is, as here.
#[verifier::external_body]
fn parse_source(language: &tree_sitter::Language, source: &str) -> Option<tree_sitter::Tree> {
    let mut parser = tree_sitter::Parser::new();
    match parser.set_language(language) {
        Ok(()) => parser.parse(source, None),
        Err(_) => None,
    }
}

/// How many nodes a tree has (`Node::descendant_count` of its root, which
/// counts the root itself).
#[verifier::external_body]
fn node_count(tree: &tree_sitter::Tree) -> (r: usize)
    ensures
        r >= 1,
{
    tree.root_node().descendant_count()
}

/// The node at a pre-order position of a tree (`TreeCursor::goto_descendant`
/// from the root), with the cursor's depth, as plain values. Its range is
/// ordered (`ts_node_end_byte` is the start plus the node's size) and its
/// offsets, rows and columns are tree-sitter's 32-bit values.
#[verifier::external_body]
fn node_at(tree: &tree_sitter::Tree, index: usize) -> (r: RawNode)
    ensures
        range_ok(r),
{
    let mut cursor = tree.walk();
    cursor.goto_descendant(index);
    let node = cursor.node();
    let r = node.range();
    RawNode {
        id: node.id(), kind: node.kind().to_owned(), named: node.is_named(), depth: cursor.depth(),
        start_byte: r.start_byte, end_byte: r.end_byte, start_row: r.start_point.row,
        start_column: r.start_point.column, end_row: r.end_point.row, end_column: r.end_point.column,
    }
}

/// The matches of a query over a whole tree (`QueryCursor::matches`), each
/// as its captures' (capture name, node id) pairs in order, the name being
/// the query's capture name at the capture's index (`Query::capture_names`).
#[verifier::external_body]
fn query_matches(query: &tree_sitter::Query, tree: &tree_sitter::Tree, source: &str) -> Vec<Vec<(String, usize)>> {
    let names = query.capture_names();
    let mut cursor = tree_sitter::QueryCursor::new();
    cursor.matches(query, tree.root_node(), source.as_bytes())
        .map_deref(|m| m.captures.iter().map(|c| (names[c.index as usize].to_owned(), c.node.id())).collect::<Vec<(String, usize)>>())
        .collect()
}

/// The row of each node id among the first `i` nodes (the last one, were
/// an id to repeat).
pub open spec fn rows_of(raws: Seq<RawNode>, i: int) -> Map<usize, usize>
    decreases i,
{
    if i <= 0 { Map::empty() } else { rows_of(raws, i - 1).insert(raws[i - 1].id, (i - 1) as usize) }
}

/// Every row a map gives is below `n`.
pub open spec fn rows_below(rows: Map<usize, usize>, n: int) -> bool {
    forall|id: usize| #[trigger] rows.contains_key(id) ==> rows[id] < n
}

proof fn lemma_rows_below(raws: Seq<RawNode>, i: int)
    requires
        0 <= i <= raws.len(),
        raws.len() <= usize::MAX,
    ensures
        rows_below(rows_of(raws, i), i),
    decreases i,
{
    if i > 0 {
        lemma_rows_below(raws, i - 1);
    }
}

fn row_map(raws: &Vec<RawNode>) -> (m: HashMap<usize, usize>)
    ensures
        m@ == rows_of(raws@, raws@.len() as int),
        rows_below(m@, raws@.len() as int),
{
    let mut m: HashMap<usize, usize> = HashMap::new();
    let n = raws.len();
    for i in 0..n
        invariant
            n == raws@.len(),
            m@ == rows_of(raws@, i as int),
    {
        m.insert(raws[i].id, i);
    }
    proof { lemma_rows_below(raws@, n as int); }
    m
}

/// The captures of one match as (name, row) pairs; captures of nodes
/// outside the table are dropped.
pub open spec fn convert_captures(cs: Seq<(String, usize)>, rows: Map<usize, usize>) -> Seq<(Seq<char>, usize)>
    decreases cs.len(),
{
    if cs.len() == 0 {
        Seq::empty()
    } else {
        let rest = convert_captures(cs.drop_last(), rows);
        let id = cs.last().1;
        if rows.contains_key(id) { rest.push((cs.last().0@, rows[id])) } else { rest }
    }
}

pub open spec fn captures_view(cs: Seq<Capture>) -> Seq<(Seq<char>, usize)> {
    cs.map_values(|c: Capture| (c.name@, c.node))
}

proof fn lemma_convert_below(cs: Seq<(String, usize)>, rows: Map<usize, usize>, n: int)
    requires
        rows_below(rows, n),
    ensures
        forall|j: int| 0 <= j < convert_captures(cs, rows).len() ==> (#[trigger] convert_captures(cs, rows)[j]).1 < n,
    decreases cs.len(),
{
    if cs.len() > 0 {
        lemma_convert_below(cs.drop_last(), rows, n);
        let rest = convert_captures(cs.drop_last(), rows);
        let id = cs.last().1;
        if rows.contains_key(id) {
            assert forall|j: int| 0 <= j < rest.len() + 1 implies (#[trigger] rest.push((cs.last().0@, rows[id]))[j]).1 < n by {
                if j < rest.len() { assert(rest.push((cs.last().0@, rows[id]))[j] == rest[j]); }
            }
        }
    }
}

/// Turn one match's raw captures into named rows.
pub fn convert_match(cs: &Vec<(String, usize)>, rows: &HashMap<usize, usize>) -> (r: QueryMatch)
    ensures
        captures_view(r.captures@) == convert_captures(cs@, rows@),
{
    let mut out: Vec<Capture> = Vec::new();
    let n = cs.len();
    for j in 0..n
        invariant
            n == cs@.len(),
            captures_view(out@) == convert_captures(cs@.take(j as int), rows@),
    {
        assert(cs@.take(j + 1).drop_last() =~= cs@.take(j as int));
        assert(cs@.take(j + 1).last() == cs@[j as int]);
        let id = cs[j].1;
        let ghost before = captures_view(out@);
        match rows.get(&id) {
            Some(row) => {
                out.push(Capture { name: cs[j].0.clone(), node: *row });
                assert(captures_view(out@) =~= before.push((cs@[j as int].0@, rows@[id])));
            }
            None => {}
        }
    }
    assert(cs@.take(n as int) =~= cs@);
    QueryMatch { captures: out }
}

/// The matches `ms` are the raw matches `raw` converted.
pub open spec fn converted(raw: Seq<Vec<(String, usize)>>, rows: Map<usize, usize>, ms: Seq<QueryMatch>) -> bool {
    &&& ms.len() == raw.len()
    &&& forall|k: int| 0 <= k < ms.len() ==>
        captures_view((#[trigger] ms[k]).captures@) == convert_captures(raw[k]@, rows)
}

proof fn lemma_converted_fit(raw: Seq<Vec<(String, usize)>>, rows: Map<usize, usize>, ms: Seq<QueryMatch>, n: int)
    requires
        converted(raw, rows, ms),
        rows_below(rows, n),
    ensures
        matches_fit(ms, n),
{
    assert forall|i: int, j: int| 0 <= i < ms.len() && 0 <= j < ms[i].captures@.len() implies
        (#[trigger] ms[i].captures@[j]).node < n by {
        lemma_convert_below(raw[i]@, rows, n);
        assert(captures_view(ms[i].captures@)[j] == (ms[i].captures@[j].name@, ms[i].captures@[j].node));
        assert(captures_view(ms[i].captures@) == convert_captures(raw[i]@, rows));
        assert(convert_captures(raw[i]@, rows)[j].1 == ms[i].captures@[j].node);
    }
}

/// Convert the raw matches of a query.
pub fn convert_matches(raw: &Vec<Vec<(String, usize)>>, rows: &HashMap<usize, usize>) -> (r: Vec<QueryMatch>)
    ensures
        converted(raw@, rows@, r@),
{
    let mut out: Vec<QueryMatch> = Vec::new();
    let n = raw.len();
    for k in 0..n
        invariant
            n == raw@.len(),
            converted(raw@.take(k as int), rows@, out@),
    {
        let m = convert_match(&raw[k], rows);
        out.push(m);
        assert forall|q: int| 0 <= q < k + 1 implies
            captures_view((#[trigger] out@[q]).captures@) == convert_captures(raw@.take(k + 1)[q]@, rows@) by {
            if q < k { assert(raw@.take(k + 1)[q] == raw@.take(k as int)[q]); }
        }
    }
    assert(raw@.take(n as int) =~= raw@);
    out
}

/// Run a query over a tree and name its captures' rows; every capture then
/// names a row of the table.
fn run_query(query: &tree_sitter::Query, tree: &tree_sitter::Tree, source: &str, rows: &HashMap<usize, usize>, Ghost(n): Ghost<int>) -> (r: Vec<QueryMatch>)
    requires
        rows_below(rows@, n),
    ensures
        matches_fit(r@, n),
        exists|raw: Seq<Vec<(String, usize)>>| converted(raw, rows@, r@),
{
    let raw = query_matches(query, tree, source);
    let ms = convert_matches(&raw, rows);
    proof { lemma_converted_fit(raw@, rows@, ms@, n); }
    ms
}

/// The matches of several queries, one after another.
fn run_all(queries: &Vec<SourcedQuery>, tree: &tree_sitter::Tree, source: &str, rows: &HashMap<usize, usize>, Ghost(n): Ghost<int>) -> (r: Vec<QueryMatch>)
    requires
        rows_below(rows@, n),
    ensures
        matches_fit(r@, n),
{
    let mut out: Vec<QueryMatch> = Vec::new();
    let nq = queries.len();
    for k in 0..nq
        invariant
            nq == queries@.len(),
            rows_below(rows@, n),
            matches_fit(out@, n),
    {
        let mut ms = run_query(&queries[k].query, tree, source, rows, Ghost(n));
        let ghost a = out@;
        let ghost b = ms@;
        out.append(&mut ms);
        assert forall|i: int, j: int| 0 <= i < out@.len() && 0 <= j < out@[i].captures@.len() implies
            (#[trigger] out@[i].captures@[j]).node < n by {
            if i < a.len() { assert(out@[i] == a[i]); } else { assert(out@[i] == b[i - a.len()]); }
        }
    }
    out
}

/// The matches of each query of a taint role, one list per query.
fn run_each(queries: &Vec<crate::compiled::CompiledTaintQuery>, tree: &tree_sitter::Tree, source: &str, rows: &HashMap<usize, usize>, Ghost(n): Ghost<int>) -> (r: Vec<Vec<QueryMatch>>)
    requires
        rows_below(rows@, n),
    ensures
        r@.len() == queries@.len(),
        forall|k: int| 0 <= k < r@.len() ==> matches_fit((#[trigger] r@[k])@, n),
{
    let mut out: Vec<Vec<QueryMatch>> = Vec::new();
    let nq = queries.len();
    for k in 0..nq
        invariant
            nq == queries@.len(),
            out@.len() == k,
            rows_below(rows@, n),
            forall|q: int| 0 <= q < out@.len() ==> matches_fit((#[trigger] out@[q])@, n),
    {
        let ms = run_query(&queries[k].query, tree, source, rows, Ghost(n));
        out.push(ms);
    }
    out
}

/// Everything the analysis of one file consumes: its syntax table and the
/// matches of every compiled query of its language.
pub struct FileInputs {
    pub tree: SyntaxTree,
    pub pattern_matches: Vec<Vec<QueryMatch>>,
    pub profile_matches: Option<ProfileMatches>,
    pub binding_matches: Option<BindingMatches>,
    pub rule_matches: Vec<TaintMatches>,
}

impl FileInputs {
    /// The taint side of the analysis, when the language has a profile.
    pub open spec fn taint_spec<'a>(&'a self, rules: &'a LanguageRules) -> Option<TaintInputs<'a>> {
        match (&rules.profile, &self.profile_matches, &self.binding_matches) {
            (Some(p), Some(pm), Some(bm)) => Some(TaintInputs {
                identifiers: &p.identifiers,
                profile_matches: pm,
                binding_matches: bm,
                rules: &rules.taints,
                rule_matches: &self.rule_matches,
            }),
            _ => None,
        }
    }

    /// The inputs fit the language's compiled rules: a well-formed table,
    /// one match list per pattern, taint matches exactly where the
    /// language has a profile, and every capture naming a row.
    pub open spec fn fits(&self, rules: LanguageRules) -> bool {
        &&& self.tree.wf()
        &&& self.pattern_matches@.len() == rules.patterns@.len()
        &&& runs_fit(self.tree, self.pattern_matches@)
        &&& (rules.profile is Some <==> self.profile_matches is Some)
        &&& (rules.profile is Some <==> self.binding_matches is Some)
        &&& (self.taint_spec(&rules) matches Some(ti) ==> ti.ok(self.tree))
    }

    /// The tables are well formed but hold more call matches than the
    /// analysis can count.
    pub open spec fn too_many_calls(&self, rules: LanguageRules) -> bool {
        &&& self.tree.wf()
        &&& self.pattern_matches@.len() == rules.patterns@.len()
        &&& runs_fit(self.tree, self.pattern_matches@)
        &&& rules.profile is Some
        &&& self.profile_matches matches Some(pm) && pm.fits(self.tree) && 3 * pm.calls@.len() > usize::MAX
    }

    pub fn taint<'a>(&'a self, rules: &'a LanguageRules) -> (r: Option<TaintInputs<'a>>)
        ensures
            r == self.taint_spec(rules),
    {
        match (&rules.profile, &self.profile_matches, &self.binding_matches) {
            (Some(p), Some(pm), Some(bm)) => Some(TaintInputs {
                identifiers: &p.identifiers,
                profile_matches: pm,
                binding_matches: bm,
                rules: &rules.taints,
                rule_matches: &self.rule_matches,
            }),
            _ => None,
        }
    }
}

/// The table was laid out from some pre-order walk of a tree of `source`.
pub open spec fn from_source(t: SyntaxTree, source: Seq<char>) -> bool {
    exists|raws: Seq<RawNode>| layout_ok(raws) && #[trigger] laid_out(t, raws, vstd::utf8::encode_utf8(source))
}

/// The message of tree-sitter refusing a language's grammar.
pub open spec fn grammar_refused(lang_id: Seq<char>) -> Seq<char> {
    "failed to load grammar for "@ + lang_id
}

/// Why reading a file into tables failed: tree-sitter refused the
/// language's grammar, or the file's tables hold more call matches than
/// the analysis can count (a third of the largest `usize`).
pub open spec fn input_failure(m: Seq<char>, rules: LanguageRules, source: Seq<char>) -> bool {
    ||| m == grammar_refused(rules.lang_id@)
    ||| (m == "too many call sites to analyze"@ && exists|fi: FileInputs| #[trigger] fi.too_many_calls(rules) && from_source(fi.tree, source))
}

/// Parse a file with its language's grammar and run every compiled query
/// of the language on it. It fails only when tree-sitter refuses the
/// grammar, or on a file with more call matches than the analysis can
/// count.
pub fn file_inputs(rel_path: &str, source: &str, rules: &LanguageRules, language: &tree_sitter::Language) -> (r: Result<FileInputs, String>)
    requires
        rules.wf(),
    ensures
        r matches Ok(fi) ==> fi.fits(*rules) && from_source(fi.tree, source@),
        r matches Err(m) ==> input_failure(m@, *rules, source@),
{
    let tree = match parse_source(language, source) {
        Some(t) => t,
        None => {
            let mut m = "failed to load grammar for ".to_owned();
            m.append(rules.lang_id.as_str());
            return Err(m);
        }
    };
    let count = node_count(&tree);
    let mut raws: Vec<RawNode> = Vec::new();
    for i in 0..count
        invariant
            raws@.len() == i,
            forall|k: int| 0 <= k < raws@.len() ==> range_ok(#[trigger] raws@[k]),
    {
        raws.push(node_at(&tree, i));
    }
    let bytes = utf8_bytes(source);
    let t = layout(&raws, &bytes).unwrap();
    let ghost n = raws@.len() as int;
    assert(t.nodes@.len() == n);
    let rows = row_map(&raws);
    let mut pattern_matches: Vec<Vec<QueryMatch>> = Vec::new();
    let np = rules.pattern_queries.len();
    for k in 0..np
        invariant
            np == rules.pattern_queries@.len(),
            pattern_matches@.len() == k,
            rows_below(rows@, n),
            forall|q: int| 0 <= q < pattern_matches@.len() ==> matches_fit((#[trigger] pattern_matches@[q])@, n),
    {
        let ms = run_query(&rules.pattern_queries[k].query, &tree, source, &rows, Ghost(n));
        pattern_matches.push(ms);
    }
    let mut profile_matches: Option<ProfileMatches> = None;
    let mut binding_matches: Option<BindingMatches> = None;
    let mut rule_matches: Vec<TaintMatches> = Vec::new();
    match &rules.profile {
        Some(p) => {
            let pm = ProfileMatches {
                functions: run_all(&p.functions, &tree, source, &rows, Ghost(n)),
                assignments: run_all(&p.assignments, &tree, source, &rows, Ghost(n)),
                params: run_all(&p.params, &tree, source, &rows, Ghost(n)),
                calls: run_all(&p.calls, &tree, source, &rows, Ghost(n)),
                returns: run_all(&p.returns, &tree, source, &rows, Ghost(n)),
            };
            if pm.calls.len() > usize::MAX / 3 {
                proof {
                    let w = FileInputs { tree: t, pattern_matches, profile_matches: Some(pm), binding_matches: None, rule_matches };
                    assert(w.tree.nodes@.len() == n);
                    assert(w.too_many_calls(*rules));
                    assert(laid_out(w.tree, raws@, vstd::utf8::encode_utf8(source@)));
                }
                return Err("too many call sites to analyze".to_owned());
            }
            let bm = BindingMatches {
                imports: run_all(&p.imports, &tree, source, &rows, Ghost(n)),
                exports: run_all(&p.exports, &tree, source, &rows, Ghost(n)),
                functions: run_all(&p.functions, &tree, source, &rows, Ghost(n)),
                calls: run_all(&p.calls, &tree, source, &rows, Ghost(n)),
                method_calls: run_all(&p.method_calls, &tree, source, &rows, Ghost(n)),
                member_access: run_all(&p.member_access, &tree, source, &rows, Ghost(n)),
            };
            let nt = rules.taint_queries.len();
            for k in 0..nt
                invariant
                    nt == rules.taint_queries@.len(),
                    rule_matches@.len() == k,
                    rows_below(rows@, n),
                    forall|q: int| 0 <= q < rule_matches@.len() ==> {
                        let tm = #[trigger] rule_matches@[q];
                        &&& tm.sources@.len() == rules.taint_queries@[q].sources@.len()
                        &&& tm.sinks@.len() == rules.taint_queries@[q].sinks@.len()
                        &&& tm.sanitizers@.len() == rules.taint_queries@[q].sanitizers@.len()
                        &&& forall|j: int| 0 <= j < tm.sources@.len() ==> matches_fit((#[trigger] tm.sources@[j])@, n)
                        &&& forall|j: int| 0 <= j < tm.sinks@.len() ==> matches_fit((#[trigger] tm.sinks@[j])@, n)
                        &&& forall|j: int| 0 <= j < tm.sanitizers@.len() ==> matches_fit((#[trigger] tm.sanitizers@[j])@, n)
                    },
            {
                let set = &rules.taint_queries[k];
                let tm = TaintMatches {
                    sources: run_each(&set.sources, &tree, source, &rows, Ghost(n)),
                    sinks: run_each(&set.sinks, &tree, source, &rows, Ghost(n)),
                    sanitizers: run_each(&set.sanitizers, &tree, source, &rows, Ghost(n)),
                };
                rule_matches.push(tm);
            }
            profile_matches = Some(pm);
            binding_matches = Some(bm);
        }
        None => {}
    }
    let fi = FileInputs { tree: t, pattern_matches, profile_matches, binding_matches, rule_matches };
    proof {
        assert(fi.tree.nodes@.len() == n);
        if fi.taint_spec(rules) is Some {
            let ti = fi.taint_spec(rules)->0;
            assert forall|k: int| 0 <= k < ti.rules@.len() implies crate::taint::matches_ok(fi.tree, #[trigger] ti.rules@[k], ti.rule_matches@[k]) by {
                assert(rules.taints@[k].sources@.len() == rules.taint_queries@[k].sources@.len());
            }
        }
        assert(laid_out(fi.tree, raws@, vstd::utf8::encode_utf8(source@)));
    }
    Ok(fi)
}

/// Analyze one file from its source: parse it, run its language's queries,
/// and evaluate the rules on the resulting tables with the cross-file
/// summaries `linked`.
pub fn evaluate_source(rel_path: &str, source: &str, rules: &LanguageRules, language: &tree_sitter::Language, linked: &FileLinked) -> (r: Result<Vec<Finding>, String>)
    requires
        rules.wf(),
    ensures
        r matches Ok(fs) ==> exists|fi: FileInputs| {
            &&& #[trigger] fi.fits(*rules)
            &&& from_source(fi.tree, source@)
            &&& evaluated(rel_path@, source@, rules.lang_id@, fi.tree, rules.patterns@, fi.pattern_matches@, fi.taint_spec(rules), *linked, fs@)
        },
        r matches Err(m) ==> input_failure(m@, *rules, source@),
{
    let fi = file_inputs(rel_path, source, rules, language)?;
    let taint = fi.taint(rules);
    Ok(crate::engine::evaluate(rel_path, source, rules.lang_id.as_str(), &fi.tree, &rules.patterns, &fi.pattern_matches, taint, linked))
}

/// Extract a file's binding facts and per-rule function summaries from its
/// source.
pub fn extract_source(rel_path: &str, source: &str, rules: &LanguageRules, language: &tree_sitter::Language) -> (r: Result<(PortableBindings, Vec<RuleSummaries>), String>)
    requires
        rules.wf(),
    ensures
        r matches Ok(x) ==> exists|fi: FileInputs| {
            &&& #[trigger] fi.fits(*rules)
            &&& from_source(fi.tree, source@)
            &&& extracted(rel_path@, source@, fi.tree, fi.taint_spec(rules), x)
        },
        r matches Err(m) ==> input_failure(m@, *rules, source@),
{
    let fi = file_inputs(rel_path, source, rules, language)?;
    let taint = fi.taint(rules);
    Ok(crate::engine::extract(rel_path, source, &fi.tree, taint))
}

/// Explain how the taint engine sees one file, from its source.
pub fn explain_source(rel_path: &str, source: &str, rules: &LanguageRules, language: &tree_sitter::Language, rule_filter: Option<&str>) -> (r: Result<Explanation, String>)
    requires
        rules.wf(),
    ensures
        r matches Ok(x) ==> exists|fi: FileInputs| {
            &&& #[trigger] fi.fits(*rules)
            &&& from_source(fi.tree, source@)
            &&& explained(rel_path@, rules.lang_id@, source@, fi.tree, fi.taint_spec(rules), match rule_filter { Some(w) => Some(w@), None => None }, x)
        },
        r matches Err(m) ==> input_failure(m@, *rules, source@),
{
    let fi = file_inputs(rel_path, source, rules, language)?;
    let taint = fi.taint(rules);
    Ok(crate::engine::explain(rel_path, rules.lang_id.as_str(), source, &fi.tree, taint, rule_filter))
}

} // verus!
