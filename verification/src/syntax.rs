//! Syntax trees and query matches as plain tables.
//!
//! A parsed file reaches the library as a list of nodes in which the root
//! comes first, every parent precedes its children, and each node carries
//! its kind, span and text. A query match is a list of named captures, each
//! naming a node.

use vstd::prelude::*;
use crate::findings::Span;

verus! {

#[derive(Debug)]
pub struct SyntaxNode {
    /// Grammar kind, e.g. `identifier`.
    pub kind: String,
    pub span: Span,
    /// The source text the node covers.
    pub text: String,
    /// Named (not an anonymous token).
    pub named: bool,
    pub parent: Option<usize>,
    /// Children in document order.
    pub children: Vec<usize>,
}

#[derive(Debug)]
pub struct SyntaxTree {
    /// Node 0 is the root.
    pub nodes: Vec<SyntaxNode>,
}

/// One capture of a query match.
#[derive(Debug)]
pub struct Capture {
    pub name: String,
    pub node: usize,
}

/// One match of a query: its captures, in order.
#[derive(Debug)]
pub struct QueryMatch {
    pub captures: Vec<Capture>,
}

impl SyntaxTree {
    /// The root has no parent; every other node has an earlier parent;
    /// children come after their parent; spans do not end before they
    /// start.
    pub open spec fn wf(&self) -> bool {
        &&& self.nodes@.len() > 0
        &&& self.nodes@[0].parent is None
        &&& forall|i: int| 1 <= i < self.nodes@.len() ==>
            ((#[trigger] self.nodes@[i]).parent matches Some(p) && p < i)
        &&& forall|i: int, j: int| 0 <= i < self.nodes@.len() && 0 <= j < self.nodes@[i].children@.len() ==>
            i < #[trigger] self.nodes@[i].children@[j] < self.nodes@.len()
        &&& forall|i: int| 0 <= i < self.nodes@.len() ==>
            (#[trigger] self.nodes@[i]).span.start_byte <= self.nodes@[i].span.end_byte
    }

    /// Check `wf`.
    pub fn is_wf(&self) -> (r: bool)
        ensures
            r == self.wf(),
    {
        let n = self.nodes.len();
        if n == 0 {
            return false;
        }
        if self.nodes[0].parent.is_some() {
            return false;
        }
        for i in 0..n
            invariant
                n == self.nodes@.len(),
                n > 0,
                self.nodes@[0].parent is None,
                forall|k: int| 1 <= k < i ==> ((#[trigger] self.nodes@[k]).parent matches Some(p) && p < k),
                forall|k: int, j: int| 0 <= k < i && 0 <= j < self.nodes@[k].children@.len() ==>
                    k < #[trigger] self.nodes@[k].children@[j] < n,
                forall|k: int| 0 <= k < i ==> (#[trigger] self.nodes@[k]).span.start_byte <= self.nodes@[k].span.end_byte,
        {
            let node = &self.nodes[i];
            if i > 0 {
                match node.parent {
                    Some(p) => {
                        if p >= i {
                            return false;
                        }
                    },
                    None => return false,
                }
            }
            if node.span.start_byte > node.span.end_byte {
                return false;
            }
            let m = node.children.len();
            for j in 0..m
                invariant
                    n == self.nodes@.len(),
                    i < n,
                    m == node.children@.len(),
                    *node == self.nodes@[i as int],
                    forall|jj: int| 0 <= jj < j ==> i < #[trigger] node.children@[jj] < n,
            {
                let c = node.children[j];
                if c <= i || c >= n {
                    assert(self.nodes@[i as int].children@[j as int] == c);
                    return false;
                }
            }
        }
        true
    }

    /// The named children of node `n`, in document order.
    pub open spec fn named_children(&self, n: int) -> Seq<usize> {
        self.nodes@[n].children@.filter(|c: usize| self.nodes@[c as int].named)
    }
}

/// The node of the first capture called `name`.
pub open spec fn capture_spec(cs: Seq<Capture>, name: Seq<char>) -> Option<usize>
    decreases cs.len(),
{
    if cs.len() == 0 {
        None
    } else if cs[0].name@ == name {
        Some(cs[0].node)
    } else {
        capture_spec(cs.drop_first(), name)
    }
}

/// The node captured as `name` in match `m`.
pub fn capture_named(m: &QueryMatch, name: &str) -> (r: Option<usize>)
    ensures
        r == capture_spec(m.captures@, name@),
        r matches Some(x) ==> exists|j: int| 0 <= j < m.captures@.len() && (#[trigger] m.captures@[j]).node == x,
{
    let n = m.captures.len();
    assert(m.captures@.skip(0) =~= m.captures@);
    for i in 0..n
        invariant
            n == m.captures@.len(),
            capture_spec(m.captures@, name@) == capture_spec(m.captures@.skip(i as int), name@),
    {
        assert(m.captures@.skip(i as int)[0] == m.captures@[i as int]);
        if crate::text::str_is(m.captures[i].name.as_str(), name) {
            assert(m.captures@[i as int].node == m.captures[i as int].node);
            return Some(m.captures[i].node);
        }
        assert(m.captures@.skip(i as int).drop_first() =~= m.captures@.skip(i + 1));
    }
    None
}

} // verus!
