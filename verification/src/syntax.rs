//! Plain-value model of a concrete syntax tree, stored in preorder, and a
//! cursor that walks it the way a tree-sitter cursor does.
use vstd::prelude::*;

verus! {

/// The node kinds that the solver distinguishes, by grammar name.
#[derive(Clone, Copy, Debug, PartialEq, Eq, Structural)]
pub enum NodeKind {
    /// `constant`
    Constant,
    /// `identifier`
    Identifier,
    /// `op`
    Op,
    /// `and`
    And,
    /// `-`
    Minus,
    /// `parameters`
    Parameters,
    /// `inter`
    Inter,
    /// `=`
    Equal,
    /// `<=`
    LessEqual,
    /// `>=`
    GreaterEqual,
    /// any other grammar name
    Other,
}

/// The kind that a grammar name stands for.
pub open spec fn kind_of_name(name: Seq<char>) -> NodeKind {
    if name == "constant"@ {
        NodeKind::Constant
    } else if name == "identifier"@ {
        NodeKind::Identifier
    } else if name == "op"@ {
        NodeKind::Op
    } else if name == "and"@ {
        NodeKind::And
    } else if name == "-"@ {
        NodeKind::Minus
    } else if name == "parameters"@ {
        NodeKind::Parameters
    } else if name == "inter"@ {
        NodeKind::Inter
    } else if name == "="@ {
        NodeKind::Equal
    } else if name == "<="@ {
        NodeKind::LessEqual
    } else if name == ">="@ {
        NodeKind::GreaterEqual
    } else {
        NodeKind::Other
    }
}

/// Whether two strings are equal.
pub(crate) fn str_eq(a: &str, b: &str) -> (r: bool)
    ensures
        r == (a@ == b@),
{
    let x = a.to_owned();
    let y = b.to_owned();
    x == y
}

impl NodeKind {
    /// Classifies a grammar name.
    pub fn from_grammar_name(name: &str) -> (k: NodeKind)
        ensures
            k == kind_of_name(name@),
    {
        if str_eq(name, "constant") {
            NodeKind::Constant
        } else if str_eq(name, "identifier") {
            NodeKind::Identifier
        } else if str_eq(name, "op") {
            NodeKind::Op
        } else if str_eq(name, "and") {
            NodeKind::And
        } else if str_eq(name, "-") {
            NodeKind::Minus
        } else if str_eq(name, "parameters") {
            NodeKind::Parameters
        } else if str_eq(name, "inter") {
            NodeKind::Inter
        } else if str_eq(name, "=") {
            NodeKind::Equal
        } else if str_eq(name, "<=") {
            NodeKind::LessEqual
        } else if str_eq(name, ">=") {
            NodeKind::GreaterEqual
        } else {
            NodeKind::Other
        }
    }
}

/// One node of a syntax tree: its kind, the bytes of the source that it
/// spans, and its depth (the root has depth 0).
#[derive(Clone, Copy, Debug)]
pub struct SyntaxNode {
    pub kind: NodeKind,
    pub start_byte: usize,
    pub end_byte: usize,
    pub depth: usize,
}

impl SyntaxNode {
    /// A node from its grammar name, byte span and depth.
    pub fn new(grammar_name: &str, start_byte: usize, end_byte: usize, depth: usize) -> (n:
        SyntaxNode)
        ensures
            n.kind == kind_of_name(grammar_name@),
            n.start_byte == start_byte,
            n.end_byte == end_byte,
            n.depth == depth,
    {
        SyntaxNode { kind: NodeKind::from_grammar_name(grammar_name), start_byte, end_byte, depth }
    }
}

/// A sequence of depths is the preorder listing of one tree: the root comes
/// first at depth 0, every other node is deeper than the root and at most one
/// level deeper than the node before it.
pub open spec fn valid_preorder(nodes: Seq<SyntaxNode>) -> bool {
    &&& nodes.len() > 0
    &&& nodes[0].depth == 0
    &&& forall|i: int| 0 < i < nodes.len() ==> #[trigger] depth_step(nodes, i)
}

/// Node `i` is below the root and at most one level below node `i - 1`.
pub open spec fn depth_step(nodes: Seq<SyntaxNode>, i: int) -> bool {
    1 <= nodes[i].depth <= nodes[i - 1].depth + 1
}

/// A syntax tree whose nodes are stored in preorder.
pub struct SyntaxTree {
    nodes: Vec<SyntaxNode>,
    ends: Vec<usize>,
    parents: Vec<usize>,
}

impl SyntaxTree {
    /// The nodes, in preorder.
    pub closed spec fn nodes(&self) -> Seq<SyntaxNode> {
        self.nodes@
    }

    pub open spec fn len(&self) -> int {
        self.nodes().len() as int
    }

    pub open spec fn kind(&self, i: int) -> NodeKind {
        self.nodes()[i].kind
    }

    pub open spec fn depth(&self, i: int) -> int {
        self.nodes()[i].depth as int
    }

    /// The position just past the subtree rooted at `i` (see `lemma_end_of`).
    pub closed spec fn end_of(&self, i: int) -> int {
        self.ends@[i] as int
    }

    /// The position of the parent of `i > 0` (see `lemma_parent_of`).
    pub closed spec fn parent_of(&self, i: int) -> int {
        self.parents@[i] as int
    }

    #[verifier::type_invariant]
    closed spec fn well_built(self) -> bool {
        self.wf()
    }

    pub closed spec fn wf(&self) -> bool {
        &&& valid_preorder(self.nodes@)
        &&& self.ends@.len() == self.nodes@.len()
        &&& self.parents@.len() == self.nodes@.len()
        &&& forall|i: int| 0 <= i < self.len() ==> #[trigger] self.end_facts(i)
        &&& forall|i: int| 0 < i < self.len() ==> #[trigger] self.parent_facts(i)
    }

    closed spec fn end_facts(&self, i: int) -> bool {
        let e = self.ends@[i] as int;
        &&& i < e <= self.len()
        &&& forall|k: int| i < k < e ==> self.depth(k) > self.depth(i)
        &&& e < self.len() ==> self.depth(e) <= self.depth(i)
    }

    closed spec fn parent_facts(&self, i: int) -> bool {
        let p = self.parents@[i] as int;
        &&& 0 <= p < i
        &&& self.depth(p) < self.depth(i)
        &&& forall|k: int| p < k < i ==> self.depth(k) >= self.depth(i)
    }

    /// `a` is `x` or one of its ancestors.
    pub open spec fn is_ancestor_or_self(&self, a: int, x: int) -> bool {
        a <= x < self.end_of(a)
    }

    /// The first child of `i`, if it has one.
    pub open spec fn first_child(&self, i: int) -> Option<int> {
        if i + 1 < self.end_of(i) {
            Some(i + 1)
        } else {
            None
        }
    }

    /// The next sibling of `i`, if it has one.
    pub open spec fn next_sibling(&self, i: int) -> Option<int> {
        let e = self.end_of(i);
        if e < self.len() && self.depth(e) == self.depth(i) {
            Some(e)
        } else {
            None
        }
    }

    /// The parent of `i`, if `i` is not the root.
    pub open spec fn parent(&self, i: int) -> Option<int> {
        if i > 0 {
            Some(self.parent_of(i))
        } else {
            None
        }
    }

    /// The subtree of `i` is the run of deeper nodes that follows it.
    pub proof fn lemma_end_of(&self, i: int)
        requires
            self.wf(),
            0 <= i < self.len(),
        ensures
            i < self.end_of(i) <= self.len(),
            forall|k: int| i < k < self.end_of(i) ==> self.depth(k) > self.depth(i),
            self.end_of(i) < self.len() ==> self.depth(self.end_of(i)) <= self.depth(i),
    {
        assert(self.end_facts(i));
    }

    /// The parent of `i` is the closest node before it that is shallower.
    pub proof fn lemma_parent_of(&self, i: int)
        requires
            self.wf(),
            0 < i < self.len(),
        ensures
            0 <= self.parent_of(i) < i,
            self.depth(self.parent_of(i)) + 1 == self.depth(i),
            forall|k: int| self.parent_of(i) < k < i ==> self.depth(k) >= self.depth(i),
    {
        assert(self.parent_facts(i));
        let p = self.parent_of(i);
        assert(depth_step(self.nodes(), p + 1));
        if p + 1 < i {
            assert(self.depth(p + 1) >= self.depth(i));
        }
    }

    /// The parent's subtree holds the child's subtree.
    pub proof fn lemma_parent_encloses(&self, i: int)
        requires
            self.wf(),
            0 < i < self.len(),
        ensures
            self.parent_of(i) < i,
            self.end_of(i) <= self.end_of(self.parent_of(i)),
            self.is_ancestor_or_self(self.parent_of(i), i),
    {
        let p = self.parent_of(i);
        self.lemma_parent_of(i);
        self.lemma_end_of(i);
        self.lemma_end_of(p);
        let ep = self.end_of(p);
        if ep < self.end_of(i) {
            assert(ep > p);
            if ep < i {
                assert(self.depth(ep) >= self.depth(i));
            } else if ep > i {
                assert(self.depth(ep) > self.depth(i));
            }
            assert(false);
        }
    }

    /// The first child's parent is the node itself.
    pub proof fn lemma_first_child_parent(&self, i: int)
        requires
            self.wf(),
            0 <= i < self.len(),
            self.first_child(i) is Some,
        ensures
            self.parent_of(i + 1) == i,
            self.depth(i + 1) == self.depth(i) + 1,
    {
        self.lemma_end_of(i);
        self.lemma_parent_of(i + 1);
        assert(self.depth(i + 1) > self.depth(i));
        assert(depth_step(self.nodes(), i + 1));
        let p = self.parent_of(i + 1);
        if p < i {
            assert(self.depth(i) >= self.depth(i + 1));
        }
    }

    /// A proper ancestor of the next sibling of `c` is a proper ancestor of
    /// `c` too, and so of everything in the subtree of `c`.
    pub proof fn lemma_sibling_ancestor(&self, c: int, a: int, x: int)
        requires
            self.wf(),
            0 <= c < self.len(),
            self.next_sibling(c) is Some,
            0 <= a < self.len(),
            a < self.end_of(c) < self.end_of(a),
            self.is_ancestor_or_self(c, x),
        ensures
            a < c,
            self.is_ancestor_or_self(a, x),
    {
        self.lemma_end_of(c);
        self.lemma_end_of(a);
        let s = self.end_of(c);
        assert(self.depth(s) > self.depth(a));
        if c <= a {
            if c == a {
                assert(false);
            } else {
                assert(self.depth(a) > self.depth(c));
                assert(false);
            }
        }
    }

    /// A tree has a root.
    pub proof fn lemma_nonempty(&self)
        requires
            self.wf(),
        ensures
            self.len() > 0,
    {
    }

    /// The root's subtree is the whole tree.
    pub proof fn lemma_root_end(&self)
        requires
            self.wf(),
        ensures
            self.end_of(0) == self.len(),
            self.next_sibling(0) is None,
    {
        self.lemma_end_of(0);
        let e = self.end_of(0);
        if e < self.len() {
            assert(depth_step(self.nodes(), e));
        }
    }

    /// Siblings share their parent.
    pub proof fn lemma_next_sibling_parent(&self, c: int)
        requires
            self.wf(),
            0 <= c < self.len(),
            self.next_sibling(c) is Some,
        ensures
            0 < c < self.end_of(c) < self.len(),
            self.parent_of(self.end_of(c)) == self.parent_of(c),
    {
        self.lemma_root_end();
        self.lemma_end_of(c);
        let s = self.end_of(c);
        self.lemma_parent_of(c);
        self.lemma_parent_of(s);
        let p = self.parent_of(c);
        let q = self.parent_of(s);
        assert forall|k: int| p < k < s implies self.depth(k) >= self.depth(s) by {
            if k < c {
            } else if k == c {
            } else {
                assert(self.depth(k) > self.depth(c));
            }
        }
        if q < p {
            assert(self.depth(p) >= self.depth(s));
        } else if q > p {
            assert(self.depth(q) >= self.depth(s));
        }
    }

    /// Builds a tree from its nodes in preorder; `None` when the depths do
    /// not describe one tree.
    pub fn from_preorder(nodes: Vec<SyntaxNode>) -> (r: Option<SyntaxTree>)
        ensures
            r is Some <==> valid_preorder(nodes@),
            r matches Some(t) ==> t.wf() && t.nodes() == nodes@,
    {
        let n = nodes.len();
        if n == 0 || nodes[0].depth != 0 {
            return None;
        }
        let mut i: usize = 1;
        while i < n
            invariant
                n == nodes@.len(),
                1 <= i <= n,
                nodes@[0].depth == 0,
                forall|k: int| 0 < k < i ==> #[trigger] depth_step(nodes@, k),
            decreases n - i,
        {
            if nodes[i].depth < 1 || nodes[i].depth - 1 > nodes[i - 1].depth {
                assert(!depth_step(nodes@, i as int));
                return None;
            }
            i = i + 1;
        }
        let mut ends: Vec<usize> = Vec::new();
        let mut i: usize = 0;
        while i < n
            invariant
                n == nodes@.len(),
                i <= n,
                ends@.len() == i,
                forall|q: int|
                    0 <= q < i ==> {
                        let e = #[trigger] ends@[q] as int;
                        &&& q < e <= n
                        &&& forall|k: int| q < k < e ==> nodes@[k].depth > nodes@[q].depth
                        &&& e < n ==> nodes@[e].depth <= nodes@[q].depth
                    },
            decreases n - i,
        {
            let mut j: usize = i + 1;
            while j < n && nodes[j].depth > nodes[i].depth
                invariant
                    n == nodes@.len(),
                    i < n,
                    i < j <= n,
                    forall|k: int| i < k < j ==> nodes@[k].depth > nodes@[i as int].depth,
                decreases n - j,
            {
                j = j + 1;
            }
            ends.push(j);
            i = i + 1;
        }
        let mut parents: Vec<usize> = Vec::new();
        parents.push(0);
        let mut i: usize = 1;
        while i < n
            invariant
                n == nodes@.len(),
                1 <= i <= n,
                parents@.len() == i,
                valid_preorder(nodes@),
                forall|q: int|
                    0 < q < i ==> {
                        let p = #[trigger] parents@[q] as int;
                        &&& 0 <= p < q
                        &&& nodes@[p].depth < nodes@[q].depth
                        &&& forall|k: int| p < k < q ==> nodes@[k].depth >= nodes@[q].depth
                    },
            decreases n - i,
        {
            let mut j: usize = i - 1;
            while nodes[j].depth >= nodes[i].depth
                invariant
                    n == nodes@.len(),
                    1 <= i < n,
                    j < i,
                    valid_preorder(nodes@),
                    forall|k: int| j < k < i ==> nodes@[k].depth >= nodes@[i as int].depth,
                decreases j,
            {
                assert(j != 0) by {
                    assert(depth_step(nodes@, i as int));
                }
                j = j - 1;
            }
            parents.push(j);
            i = i + 1;
        }
        let t = SyntaxTree { nodes, ends, parents };
        assert forall|q: int| 0 <= q < t.len() implies #[trigger] t.end_facts(q) by {
            assert(t.ends@[q] == ends@[q]);
        }
        assert forall|q: int| 0 < q < t.len() implies #[trigger] t.parent_facts(q) by {
            assert(t.parents@[q] == parents@[q]);
        }
        Some(t)
    }

    /// The number of nodes.
    pub fn node_count(&self) -> (n: usize)
        ensures
            n == self.len(),
    {
        self.nodes.len()
    }

    /// A cursor on the root.
    pub fn walk(&self) -> (c: SyntaxCursor<'_>)
        ensures
            c.wf(),
            c.tree() == *self,
            c.pos() == 0,
    {
        proof {
            use_type_invariant(self);
        }
        SyntaxCursor { tree: self, pos: 0 }
    }
}

/// A position in a syntax tree, moved between parent, children and siblings.
pub struct SyntaxCursor<'a> {
    tree: &'a SyntaxTree,
    pos: usize,
}

impl<'a> SyntaxCursor<'a> {
    #[verifier::type_invariant]
    pub open spec fn on_a_node(self) -> bool {
        self.wf()
    }

    pub closed spec fn tree(&self) -> SyntaxTree {
        *self.tree
    }

    pub closed spec fn pos(&self) -> int {
        self.pos as int
    }

    pub open spec fn wf(&self) -> bool {
        &&& self.tree().wf()
        &&& 0 <= self.pos() < self.tree().len()
    }

    /// The number of nodes of the tree.
    pub fn tree_len(&self) -> (n: usize)
        ensures
            n == self.tree().len(),
    {
        self.tree.nodes.len()
    }

    /// The node under the cursor.
    pub fn node(&self) -> (n: SyntaxNode)
        ensures
            self.wf(),
            n == self.tree().nodes()[self.pos()],
    {
        proof {
            use_type_invariant(self);
        }
        self.tree.nodes[self.pos]
    }

    /// Moves to the first child; `false`, and no move, when there is none.
    pub fn goto_first_child(&mut self) -> (moved: bool)
        ensures
            old(self).wf(),
            final(self).wf(),
            final(self).tree() == old(self).tree(),
            moved == old(self).tree().first_child(old(self).pos()) is Some,
            final(self).pos() == match old(self).tree().first_child(old(self).pos()) {
                Some(c) => c,
                None => old(self).pos(),
            },
    {
        proof {
            use_type_invariant(&*self);
            self.tree.lemma_end_of(self.pos as int);
        }
        if self.pos + 1 < self.tree.ends[self.pos] {
            self.pos = self.pos + 1;
            true
        } else {
            false
        }
    }

    /// Moves to the next sibling; `false`, and no move, when there is none.
    pub fn goto_next_sibling(&mut self) -> (moved: bool)
        ensures
            old(self).wf(),
            final(self).wf(),
            final(self).tree() == old(self).tree(),
            moved == old(self).tree().next_sibling(old(self).pos()) is Some,
            final(self).pos() == match old(self).tree().next_sibling(old(self).pos()) {
                Some(s) => s,
                None => old(self).pos(),
            },
    {
        proof {
            use_type_invariant(&*self);
            self.tree.lemma_end_of(self.pos as int);
        }
        let e = self.tree.ends[self.pos];
        if e < self.tree.nodes.len() && self.tree.nodes[e].depth == self.tree.nodes[self.pos].depth {
            self.pos = e;
            true
        } else {
            false
        }
    }

    /// Moves to the parent; `false`, and no move, on the root.
    pub fn goto_parent(&mut self) -> (moved: bool)
        ensures
            old(self).wf(),
            final(self).wf(),
            final(self).tree() == old(self).tree(),
            moved == old(self).tree().parent(old(self).pos()) is Some,
            final(self).pos() == match old(self).tree().parent(old(self).pos()) {
                Some(p) => p,
                None => old(self).pos(),
            },
    {
        proof {
            use_type_invariant(&*self);
        }
        if self.pos > 0 {
            proof {
                self.tree.lemma_parent_of(self.pos as int);
            }
            self.pos = self.tree.parents[self.pos];
            true
        } else {
            false
        }
    }
}

} // verus!
