//! The concrete syntax tree as the binder reads it.
use vstd::prelude::*;
use vstd::utf8::*;

verus! {

/// One node of a concrete syntax tree.
pub struct CstNode {
    /// The grammar production that produced the node.
    pub kind: String,
    /// Byte offset of the first byte of the node in the source text.
    pub start: usize,
    /// Byte offset one past the last byte of the node in the source text.
    pub end: usize,
    /// Whether the node is a named node of the grammar (not a literal token).
    pub is_named: bool,
    /// Whether the parser flagged the node as a syntax error.
    pub is_error: bool,
    /// The field name labelling the edge from the parent to this node.
    pub field: Option<String>,
    /// Indices of the children in source order.
    pub children: Vec<usize>,
}

/// A concrete syntax tree over its source text, held as an arena of nodes.
///
/// Node 0 is the root. The nodes are stored in pre-order: a node's subtree
/// occupies the indices from the node up to `subtree_end`, its first child
/// comes right after it, and each further child right after the subtree of
/// the previous one. So the arena order is the pre-order of the tree.
pub struct Tree {
    pub source: String,
    pub nodes: Vec<CstNode>,
}

/// The bytes of a source text.
pub open spec fn bytes_of(s: &String) -> Seq<u8> {
    encode_utf8(s@)
}

impl Tree {
    /// Node `n` is well-formed: its byte range lies on character boundaries of
    /// the source and its children come after it in the arena.
    pub open spec fn node_wf(&self, n: int) -> bool {
        let nd = self.nodes@[n];
        &&& nd.start <= nd.end <= bytes_of(&self.source).len()
        &&& is_char_boundary(bytes_of(&self.source), nd.start as int)
        &&& is_char_boundary(bytes_of(&self.source), nd.end as int)
        &&& forall|j: int|
            0 <= j < nd.children@.len() ==> n < #[trigger] nd.children@[j] < self.nodes@.len()
    }

    /// The children of node `n` are laid out in pre-order: the first right
    /// after `n`, each further one right after the previous one's subtree.
    pub open spec fn laid_out(&self, n: int) -> bool {
        let cs = self.nodes@[n].children@;
        forall|j: int|
            0 <= j < cs.len() ==> (j == 0 ==> #[trigger] cs[j] == n + 1) && (j > 0 ==> cs[j]
                == self.subtree_end(cs[j - 1] as int))
    }

    /// One past the last index of the subtree rooted at `n`: the end of the
    /// subtree of its last child, or `n + 1` for a leaf.
    pub open spec fn subtree_end(&self, n: int) -> int
        decreases self.nodes@.len() - n,
    {
        if !(0 <= n < self.nodes@.len()) || self.nodes@[n].children@.len() == 0 {
            n + 1
        } else {
            let last = self.nodes@[n].children@.last();
            if n < last < self.nodes@.len() {
                self.subtree_end(last as int)
            } else {
                n + 1
            }
        }
    }

    /// The tree is non-empty, every node is well-formed, and the root's
    /// subtree covers the whole arena.
    pub open spec fn wf(&self) -> bool {
        &&& self.nodes@.len() > 0
        &&& forall|n: int| 0 <= n < self.nodes@.len() ==> #[trigger] self.node_wf(n)
        &&& forall|n: int| 0 <= n < self.nodes@.len() ==> #[trigger] self.laid_out(n)
        &&& self.subtree_end(0) == self.nodes@.len()
    }

    /// Whether node `c` is labelled with field name `rule` and, where
    /// `named_only` holds, is a named node.
    pub open spec fn selects(&self, c: usize, rule: Seq<char>, named_only: bool) -> bool {
        &&& 0 <= c < self.nodes@.len()
        &&& self.nodes@[c as int].field matches Some(f) && f@ == rule
        &&& (named_only ==> self.nodes@[c as int].is_named)
    }

    /// The nodes of `cs` selected by `selects`, in the order of `cs`.
    pub open spec fn select(&self, cs: Seq<usize>, rule: Seq<char>, named_only: bool) -> Seq<usize>
        decreases cs.len(),
    {
        if cs.len() == 0 {
            Seq::empty()
        } else {
            let rest = self.select(cs.drop_last(), rule, named_only);
            if self.selects(cs.last(), rule, named_only) {
                rest.push(cs.last())
            } else {
                rest
            }
        }
    }

    /// All children of `n` labelled `rule`, named and anonymous, in source order.
    pub open spec fn field_children(&self, n: int, rule: Seq<char>) -> Seq<usize> {
        self.select(self.nodes@[n].children@, rule, false)
    }

    /// The named children of `n` labelled `rule`, in source order.
    pub open spec fn named_field_children(&self, n: int, rule: Seq<char>) -> Seq<usize> {
        self.select(self.nodes@[n].children@, rule, true)
    }

    /// The first node of `cs` labelled `rule`, if there is one.
    pub open spec fn first_selected(&self, cs: Seq<usize>, rule: Seq<char>) -> Option<usize>
        decreases cs.len(),
    {
        if cs.len() == 0 {
            None
        } else if self.selects(cs[0], rule, false) {
            Some(cs[0])
        } else {
            self.first_selected(cs.drop_first(), rule)
        }
    }

    /// The first child of `n` labelled `rule`, if there is one.
    pub open spec fn child_by_field(&self, n: int, rule: Seq<char>) -> Option<usize> {
        self.first_selected(self.nodes@[n].children@, rule)
    }

    /// The source bytes that node `n` covers.
    pub open spec fn text_bytes(&self, n: int) -> Seq<u8> {
        bytes_of(&self.source).subrange(self.nodes@[n].start as int, self.nodes@[n].end as int)
    }
}

/// A node that `first_selected` finds is an element of its input.
pub proof fn lemma_first_selected_within(t: &Tree, cs: Seq<usize>, rule: Seq<char>)
    ensures
        t.first_selected(cs, rule) matches Some(c) ==> exists|j: int| 0 <= j < cs.len() && cs[j] == c,
    decreases cs.len(),
{
    if cs.len() > 0 && !t.selects(cs[0], rule, false) {
        lemma_first_selected_within(t, cs.drop_first(), rule);
        if let Some(c) = t.first_selected(cs, rule) {
            let j = choose|j: int| 0 <= j < cs.drop_first().len() && cs.drop_first()[j] == c;
            assert(cs[j + 1] == c);
        }
    } else if cs.len() > 0 {
        assert(cs[0] == cs[0]);
    }
}

/// In a well-formed tree, the children that lookups by field name return
/// come after their parent and lie in the tree.
pub proof fn lemma_field_lookup_bounds(t: &Tree, n: int, rule: Seq<char>)
    requires
        t.wf(),
        0 <= n < t.nodes@.len(),
    ensures
        t.child_by_field(n, rule) matches Some(c) ==> n < c < t.nodes@.len(),
        forall|k: int|
            0 <= k < t.named_field_children(n, rule).len() ==> n < #[trigger] t.named_field_children(
                n,
                rule,
            )[k] < t.nodes@.len(),
        forall|k: int|
            0 <= k < t.field_children(n, rule).len() ==> n < #[trigger] t.field_children(
                n,
                rule,
            )[k] < t.nodes@.len(),
{
    let cs = t.nodes@[n].children@;
    assert(t.node_wf(n));
    lemma_first_selected_within(t, cs, rule);
    lemma_select_within(t, cs, rule, true);
    lemma_select_within(t, cs, rule, false);
}

/// `select` keeps the selected nodes in the order of its input: it is the
/// filter of its input by `selects`.
pub proof fn lemma_select_is_filter(t: &Tree, cs: Seq<usize>, rule: Seq<char>, named_only: bool)
    ensures
        t.select(cs, rule, named_only) == cs.filter(|c: usize| t.selects(c, rule, named_only)),
    decreases cs.len(),
{
    reveal(Seq::filter);
    if cs.len() > 0 {
        lemma_select_is_filter(t, cs.drop_last(), rule, named_only);
    }
}

/// Every element that `select` keeps is an element of its input.
pub proof fn lemma_select_within(t: &Tree, cs: Seq<usize>, rule: Seq<char>, named_only: bool)
    ensures
        forall|k: int|
            0 <= k < t.select(cs, rule, named_only).len() ==> {
                &&& t.selects(#[trigger] t.select(cs, rule, named_only)[k], rule, named_only)
                &&& exists|j: int| 0 <= j < cs.len() && cs[j] == t.select(cs, rule, named_only)[k]
            },
    decreases cs.len(),
{
    if cs.len() > 0 {
        lemma_select_within(t, cs.drop_last(), rule, named_only);
        let rest = t.select(cs.drop_last(), rule, named_only);
        assert forall|k: int| 0 <= k < rest.len() implies exists|j: int|
            0 <= j < cs.len() && cs[j] == #[trigger] rest[k] by {
            let j = choose|j: int| 0 <= j < cs.drop_last().len() && cs.drop_last()[j] == rest[k];
            assert(cs[j] == rest[k]);
        }
        assert(cs[cs.len() - 1] == cs.last());
    }
}

impl Tree {
    /// Whether node `c` is labelled `rule` (and is named, where `named_only`).
    fn selects_exec(&self, c: usize, rule: &String, named_only: bool) -> (r: bool)
        requires
            c < self.nodes@.len(),
        ensures
            r == self.selects(c, rule@, named_only),
    {
        let nd = &self.nodes[c];
        match &nd.field {
            Some(f) => f.eq(rule) && (!named_only || nd.is_named),
            None => false,
        }
    }

    /// The first child of `n` labelled `rule`, found without a cursor.
    pub fn child_by_field_name(&self, n: usize, rule: &String) -> (r: Option<usize>)
        requires
            n < self.nodes@.len(),
            self.wf(),
        ensures
            r == self.child_by_field(n as int, rule@),
    {
        let cs = &self.nodes[n].children;
        proof {
            assert(self.node_wf(n as int));
            assert(cs@.subrange(0, cs@.len() as int) =~= cs@);
        }
        let mut i: usize = 0;
        while i < cs.len()
            invariant
                self.wf(),
                n < self.nodes@.len(),
                cs@ == self.nodes@[n as int].children@,
                i <= cs@.len(),
                self.first_selected(cs@.subrange(i as int, cs@.len() as int), rule@)
                    == self.child_by_field(n as int, rule@),
                forall|j: int| 0 <= j < cs@.len() ==> #[trigger] cs@[j] < self.nodes@.len(),
            decreases cs@.len() - i,
        {
            let c = cs[i];
            let ghost rest = cs@.subrange(i as int, cs@.len() as int);
            assert(rest[0] == c);
            assert(rest.drop_first() =~= cs@.subrange(i + 1, cs@.len() as int));
            if self.selects_exec(c, rule, false) {
                return Some(c);
            }
            i = i + 1;
        }
        None
    }
}

impl Tree {
    /// The end of the subtree rooted at `n`, as `subtree_end` states it.
    pub fn subtree_end_of(&self, n: usize) -> (r: usize)
        requires
            n < self.nodes@.len(),
        ensures
            r as int == self.subtree_end(n as int),
    {
        let len = self.nodes.len();
        let mut m: usize = n;
        loop
            invariant
                len == self.nodes@.len(),
                m < self.nodes@.len(),
                self.subtree_end(n as int) == self.subtree_end(m as int),
            decreases self.nodes@.len() - m,
        {
            let cs = &self.nodes[m].children;
            if cs.len() == 0 {
                return m + 1;
            }
            let last = cs[cs.len() - 1];
            if !(m < last && last < len) {
                return m + 1;
            }
            m = last;
        }
    }

    /// Whether the tree is well-formed, as `wf` states it.
    pub fn is_wf(&self) -> (r: bool)
        ensures
            r == self.wf(),
    {
        let src = self.source.as_str();
        let len = src.as_bytes().len();
        if self.nodes.len() == 0 {
            return false;
        }
        let mut n: usize = 0;
        while n < self.nodes.len()
            invariant
                n <= self.nodes@.len(),
                src@ == self.source@,
                len == bytes_of(&self.source).len(),
                forall|m: int| 0 <= m < n ==> #[trigger] self.node_wf(m),
                forall|m: int| 0 <= m < n ==> #[trigger] self.laid_out(m),
            decreases self.nodes@.len() - n,
        {
            let nd = &self.nodes[n];
            if !(nd.start <= nd.end && nd.end <= len && src.is_char_boundary(nd.start)
                && src.is_char_boundary(nd.end)) {
                assert(!self.node_wf(n as int));
                return false;
            }
            let mut j: usize = 0;
            while j < nd.children.len()
                invariant
                    j <= nd.children@.len(),
                    n < self.nodes@.len(),
                    nd == self.nodes@[n as int],
                    forall|k: int|
                        0 <= k < j ==> n < #[trigger] nd.children@[k] < self.nodes@.len() && (k == 0
                            ==> nd.children@[k] == n + 1) && (k > 0 ==> nd.children@[k]
                            == self.subtree_end(nd.children@[k - 1] as int)),
                decreases nd.children@.len() - j,
            {
                let c = nd.children[j];
                if !(n < c && c < self.nodes.len()) {
                    assert(!self.node_wf(n as int));
                    return false;
                }
                let expected = if j == 0 {
                    n + 1
                } else {
                    self.subtree_end_of(nd.children[j - 1])
                };
                if c != expected {
                    assert(!self.laid_out(n as int));
                    return false;
                }
                j = j + 1;
            }
            assert(self.node_wf(n as int));
            assert(self.laid_out(n as int));
            n = n + 1;
        }
        self.subtree_end_of(0) == self.nodes.len()
    }
}

/// A traversal position in a tree. A binding pass owns exactly one cursor
/// and hands it from context to context.
pub struct Cursor {
    pub pos: usize,
}

impl Cursor {
    /// A cursor at the root.
    pub fn new() -> (r: Cursor)
        ensures
            r.pos == 0,
    {
        Cursor { pos: 0 }
    }

    /// Walks the children of `n`, collects those labelled `rule` (and named,
    /// where `named_only`) in source order, and returns to `n`.
    pub fn field_children(&mut self, tree: &Tree, n: usize, rule: &String, named_only: bool) -> (r:
        Vec<usize>)
        requires
            tree.wf(),
            n < tree.nodes@.len(),
        ensures
            r@ == tree.select(tree.nodes@[n as int].children@, rule@, named_only),
            final(self).pos == n,
    {
        let cs = &tree.nodes[n].children;
        proof {
            assert(tree.node_wf(n as int));
        }
        let mut out: Vec<usize> = Vec::new();
        let mut i: usize = 0;
        while i < cs.len()
            invariant
                cs@ == tree.nodes@[n as int].children@,
                i <= cs@.len(),
                out@ == tree.select(cs@.subrange(0, i as int), rule@, named_only),
                forall|j: int| 0 <= j < cs@.len() ==> #[trigger] cs@[j] < tree.nodes@.len(),
            decreases cs@.len() - i,
        {
            let c = cs[i];
            self.pos = c;
            let ghost pre = cs@.subrange(0, i + 1);
            assert(pre.drop_last() =~= cs@.subrange(0, i as int));
            assert(pre.last() == c);
            if tree.selects_exec(c, rule, named_only) {
                out.push(c);
            }
            i = i + 1;
        }
        assert(cs@.subrange(0, cs@.len() as int) =~= cs@);
        self.pos = n;
        out
    }
}

} // verus!
