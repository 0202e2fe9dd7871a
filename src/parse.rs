//! Entry points: binding a whole tree against a root schema type, in strict
//! mode (syntax errors abort before binding) or collecting mode (syntax
//! errors are recorded and binding goes on).
use std::ops::Range;
use vstd::prelude::*;
use crate::node::{bind_ok, binds, Node};
use crate::schema::Schema;
use crate::tree::{Cursor, Tree};
use crate::value::{Error, ErrorKind, Value};

verus! {

/// Whether node `i` is the first node, in pre-order, that the parser flagged
/// as a syntax error.
pub open spec fn first_error(t: Tree, i: int) -> bool {
    &&& 0 <= i < t.nodes@.len()
    &&& t.nodes@[i].is_error
    &&& forall|j: int| 0 <= j < i ==> !t.nodes@[j].is_error
}

/// Whether no node of the tree is flagged as a syntax error.
pub open spec fn error_free(t: Tree) -> bool {
    forall|i: int| 0 <= i < t.nodes@.len() ==> !#[trigger] t.nodes@[i].is_error
}

/// The nodes among the first `k` that are flagged as syntax errors, in pre-order.
pub open spec fn error_nodes(t: Tree, k: int) -> Seq<usize>
    decreases k,
{
    if k <= 0 {
        Seq::empty()
    } else if t.nodes@[k - 1].is_error {
        error_nodes(t, k - 1).push((k - 1) as usize)
    } else {
        error_nodes(t, k - 1)
    }
}

/// Whether `errs` holds the byte ranges of the nodes `ns`, in order.
pub open spec fn ranges_of(t: Tree, ns: Seq<usize>, errs: Seq<Range<usize>>) -> bool {
    &&& errs.len() == ns.len()
    &&& forall|j: int|
        0 <= j < ns.len() ==> (#[trigger] errs[j]).start == t.nodes@[ns[j] as int].start
            && errs[j].end == t.nodes@[ns[j] as int].end
}

/// Walks the whole tree in pre-order with the cursor and reports the first
/// node flagged as a syntax error, with its byte range.
pub fn check_for_errors(cursor: &mut Cursor, tree: &Tree) -> (r: Result<(), Error>)
    requires
        tree.wf(),
    ensures
        r is Ok == error_free(*tree),
        r matches Err(e) ==> e.kind == ErrorKind::Node && exists|i: int|
            first_error(*tree, i) && e.range.start == tree.nodes@[i].start && e.range.end
                == tree.nodes@[i].end,
{
    let mut i: usize = 0;
    while i < tree.nodes.len()
        invariant
            i <= tree.nodes@.len(),
            forall|j: int| 0 <= j < i ==> !tree.nodes@[j].is_error,
        decreases tree.nodes@.len() - i,
    {
        cursor.pos = i;
        let nd = &tree.nodes[i];
        if nd.is_error {
            assert(first_error(*tree, i as int));
            return Err(Error { range: Range { start: nd.start, end: nd.end }, kind: ErrorKind::Node });
        }
        i = i + 1;
    }
    Ok(())
}

/// Binds the whole tree as schema type `ty` in strict mode.
///
/// Where the tree holds a syntax error, the result is an error of kind
/// `Node` with the range of the first such node in pre-order, and nothing is
/// bound. Otherwise the root is bound; on a tree without syntax errors the
/// schema must fit the grammar (see `can_bind`), since a mismatch is a
/// contract violation rather than an input error.
pub fn parse(tree: &Tree, schema: &Schema, ty: usize) -> (r: Result<Value, Error>)
    requires
        tree.wf(),
        schema.wf(),
        ty < schema.types@.len(),
        error_free(*tree) ==> bind_ok(*tree, *schema, ty as int, 0),
    ensures
        !error_free(*tree) ==> (r matches Err(e) && e.kind == ErrorKind::Node && exists|i: int|
            first_error(*tree, i) && e.range.start == tree.nodes@[i].start && e.range.end
                == tree.nodes@[i].end),
        error_free(*tree) ==> (r matches Ok(v) && binds(*tree, *schema, ty as int, 0, v)),
{
    let mut cursor = Cursor::new();
    match check_for_errors(&mut cursor, tree) {
        Err(e) => Err(e),
        Ok(()) => {
            let mut node = Node::root(tree);
            Ok(node.bind(schema, ty))
        },
    }
}

/// Binds the whole tree as schema type `ty` in collecting mode.
///
/// Binding is not stopped by syntax errors: the result pairs the bound root
/// with the byte ranges of every node flagged as a syntax error, in
/// pre-order. A schema/grammar mismatch stays fatal in this mode too, so the
/// schema must fit the tree (see `can_bind`).
pub fn parse_collecting(tree: &Tree, schema: &Schema, ty: usize) -> (r: (Value, Vec<Range<usize>>))
    requires
        tree.wf(),
        schema.wf(),
        ty < schema.types@.len(),
        bind_ok(*tree, *schema, ty as int, 0),
    ensures
        binds(*tree, *schema, ty as int, 0, r.0),
        ranges_of(*tree, error_nodes(*tree, tree.nodes@.len() as int), r.1@),
{
    let mut node = Node::root(tree);
    let v = node.bind(schema, ty);
    let mut errs: Vec<Range<usize>> = Vec::new();
    let mut i: usize = 0;
    while i < tree.nodes.len()
        invariant
            i <= tree.nodes@.len(),
            ranges_of(*tree, error_nodes(*tree, i as int), errs@),
        decreases tree.nodes@.len() - i,
    {
        let nd = &tree.nodes[i];
        if nd.is_error {
            errs.push(Range { start: nd.start, end: nd.end });
        }
        proof {
            let ns = error_nodes(*tree, i + 1);
            if tree.nodes@[i as int].is_error {
                assert(ns[ns.len() - 1] == i);
            }
        }
        i = i + 1;
    }
    (v, errs)
}

} // verus!
