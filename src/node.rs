//! The bind engine: binding contexts over the tree and the interpretation of
//! binding rules.
use std::ops::Range;
use vstd::prelude::*;
use vstd::utf8::*;
use crate::schema::{lemma_rule_target_exists, lemma_variant_earlier, Alt, Rule, Schema, TypeRules};
use crate::tree::{bytes_of, lemma_field_lookup_bounds, lemma_select_is_filter, Cursor, Tree};
use crate::value::Value;

verus! {

/// Whether `a` is the first variant of `alts` whose rule is `kind`.
pub open spec fn alt_index(alts: Seq<Alt>, kind: Seq<char>, a: int) -> bool {
    &&& 0 <= a < alts.len()
    &&& alts[a].rule@ == kind
    &&& forall|j: int| 0 <= j < a ==> alts[j].rule@ != kind
}

/// Whether binding type `ty` at node `n` succeeds: every required child
/// exists and every union node kind has a variant, all the way down.
pub open spec fn bind_ok(t: Tree, s: Schema, ty: int, n: int) -> bool
    decreases t.nodes@.len() - n, ty, 2int,
{
    if !(0 <= n < t.nodes@.len() && 0 <= ty < s.types@.len()) {
        false
    } else {
        match s.types@[ty] {
            TypeRules::Record(rules) => forall|i: int|
                0 <= i < rules@.len() ==> rule_ok(t, s, #[trigger] rules@[i], n),
            TypeRules::Union(alts) => exists|a: int|
                #[trigger] alt_index(alts@, t.nodes@[n].kind@, a) && alts@[a].ty < ty && bind_ok(
                    t,
                    s,
                    alts@[a].ty as int,
                    n,
                ),
        }
    }
}

/// Whether applying `rule` at node `n` succeeds.
pub open spec fn rule_ok(t: Tree, s: Schema, rule: Rule, n: int) -> bool
    decreases t.nodes@.len() - n, 0int, 1int,
{
    if !(0 <= n < t.nodes@.len()) {
        false
    } else {
        match rule {
            Rule::OptionalChild(r, u) => match t.child_by_field(n, r@) {
                None => true,
                Some(c) => n < c < t.nodes@.len() && bind_ok(t, s, u as int, c as int),
            },
            Rule::RequiredChild(r, u) => match t.child_by_field(n, r@) {
                None => false,
                Some(c) => n < c < t.nodes@.len() && bind_ok(t, s, u as int, c as int),
            },
            Rule::RepeatedChildren(r, u) => forall|k: int|
                0 <= k < t.named_field_children(n, r@).len() ==> n < #[trigger] t.named_field_children(
                    n,
                    r@,
                )[k] < t.nodes@.len() && bind_ok(t, s, u as int, t.named_field_children(n, r@)[k] as int),
            _ => true,
        }
    }
}

/// Whether `v` is the value of binding type `ty` at node `n`.
pub open spec fn binds(t: Tree, s: Schema, ty: int, n: int, v: Value) -> bool
    decreases t.nodes@.len() - n, ty, 2int,
{
    if !(0 <= n < t.nodes@.len() && 0 <= ty < s.types@.len()) {
        false
    } else {
        match s.types@[ty] {
            TypeRules::Record(rules) => match v {
                Value::Record(vals) => vals@.len() == rules@.len() && forall|i: int|
                    0 <= i < rules@.len() ==> rule_binds(t, s, #[trigger] rules@[i], n, vals@[i]),
                _ => false,
            },
            TypeRules::Union(alts) => match v {
                Value::Variant(a, b) => alt_index(alts@, t.nodes@[n].kind@, a as int) && alts@[a as int].ty
                    < ty && binds(t, s, alts@[a as int].ty as int, n, *b),
                _ => false,
            },
        }
    }
}

/// Whether `v` is the value of applying `rule` at node `n`.
pub open spec fn rule_binds(t: Tree, s: Schema, rule: Rule, n: int, v: Value) -> bool
    decreases t.nodes@.len() - n, 0int, 1int,
{
    if !(0 <= n < t.nodes@.len()) {
        false
    } else {
        match rule {
            Rule::Span => match v {
                Value::Span(r) => r.start == t.nodes@[n].start && r.end == t.nodes@[n].end,
                _ => false,
            },
            Rule::TextSlice => match v {
                Value::Text(s) => encode_utf8(s@) == t.text_bytes(n),
                _ => false,
            },
            Rule::OptionalChild(r, u) => match t.child_by_field(n, r@) {
                None => v == Value::Opt(None),
                Some(c) => match v {
                    Value::Opt(Some(b)) => n < c < t.nodes@.len() && binds(t, s, u as int, c as int, *b),
                    _ => false,
                },
            },
            Rule::RequiredChild(r, u) => match t.child_by_field(n, r@) {
                None => false,
                Some(c) => n < c < t.nodes@.len() && binds(t, s, u as int, c as int, v),
            },
            Rule::RepeatedChildren(r, u) => match v {
                Value::List(items) => items@.len() == t.named_field_children(n, r@).len() && forall|k: int|
                    0 <= k < items@.len() ==> n < t.named_field_children(n, r@)[k] < t.nodes@.len()
                        && binds(t, s, u as int, t.named_field_children(n, r@)[k] as int, #[trigger] items@[k]),
                _ => false,
            },
            Rule::PresenceFlag(r) => v == Value::Flag(t.child_by_field(n, r@) is Some),
        }
    }
}

/// The text bound by `TextSlice` at a node is exactly the source text in
/// that node's byte range.
pub proof fn lemma_text_slice_round_trip(t: Tree, s: Schema, n: int, v: Value)
    requires
        rule_binds(t, s, Rule::TextSlice, n, v),
    ensures
        v matches Value::Text(x) && encode_utf8(x@) == bytes_of(&t.source).subrange(
            t.nodes@[n].start as int,
            t.nodes@[n].end as int,
        ),
{
}

/// `RepeatedChildren` binds one value per named child under the field name,
/// in source order, and nothing else (none where there is no such child).
pub proof fn lemma_repeated_order(t: Tree, s: Schema, r: String, u: usize, n: int, v: Value)
    requires
        rule_binds(t, s, Rule::RepeatedChildren(r, u), n, v),
    ensures
        t.named_field_children(n, r@) == t.nodes@[n].children@.filter(
            |c: usize| t.selects(c, r@, true),
        ),
        v matches Value::List(items) && items@.len() == t.named_field_children(n, r@).len()
            && forall|k: int|
            0 <= k < items@.len() ==> binds(t, s, u as int, t.named_field_children(n, r@)[k] as int, #[trigger] items@[k]),
        t.named_field_children(n, r@).len() == 0 ==> (v matches Value::List(items) && items@.len() == 0),
{
    lemma_select_is_filter(&t, t.nodes@[n].children@, r@, true);
}

/// `PresenceFlag` never fails, and binds exactly whether a child exists
/// under the field name, whatever that child holds.
pub proof fn lemma_presence_flag(t: Tree, s: Schema, r: String, n: int, v: Value)
    requires
        0 <= n < t.nodes@.len(),
    ensures
        rule_ok(t, s, Rule::PresenceFlag(r), n),
        rule_binds(t, s, Rule::PresenceFlag(r), n, v) <==> v == Value::Flag(t.child_by_field(n, r@) is Some),
{
}

/// `OptionalChild` on a node without a child under the field name never
/// fails and binds the absent value.
pub proof fn lemma_optional_absent(t: Tree, s: Schema, r: String, u: usize, n: int, v: Value)
    requires
        0 <= n < t.nodes@.len(),
        t.child_by_field(n, r@) is None,
    ensures
        rule_ok(t, s, Rule::OptionalChild(r, u), n),
        rule_binds(t, s, Rule::OptionalChild(r, u), n, v) <==> v == Value::Opt(None),
{
}

/// A record with a `RequiredChild` field cannot be bound at a node that has
/// no child under that field name.
pub proof fn lemma_required_missing(t: Tree, s: Schema, ty: int, n: int, i: int)
    requires
        0 <= ty < s.types@.len(),
        s.types@[ty] is Record,
        0 <= i < s.types@[ty]->Record_0@.len(),
        s.types@[ty]->Record_0@[i] matches Rule::RequiredChild(r, _) && t.child_by_field(n, r@) is None,
    ensures
        !bind_ok(t, s, ty, n),
        forall|v: Value| !binds(t, s, ty, n, v),
{
    let rules = s.types@[ty]->Record_0;
    assert(!rule_ok(t, s, rules@[i], n));
    assert forall|v: Value| !binds(t, s, ty, n, v) by {
        if let Value::Record(vals) = v {
            if vals@.len() == rules@.len() {
                assert(!rule_binds(t, s, rules@[i], n, vals@[i]));
            }
        }
    }
}

/// A union bound at a node selects the first variant whose rule is the
/// node's kind; where no variant has that rule, binding fails.
pub proof fn lemma_union_dispatch(t: Tree, s: Schema, ty: int, n: int, v: Value)
    requires
        0 <= ty < s.types@.len(),
        0 <= n < t.nodes@.len(),
        s.types@[ty] is Union,
    ensures
        binds(t, s, ty, n, v) ==> (v matches Value::Variant(a, _) && alt_index(
            s.types@[ty]->Union_0@,
            t.nodes@[n].kind@,
            a as int,
        )),
        (forall|a: int|
            0 <= a < s.types@[ty]->Union_0@.len() ==> (#[trigger] s.types@[ty]->Union_0@[a]).rule@
                != t.nodes@[n].kind@) ==> !bind_ok(t, s, ty, n) && !binds(t, s, ty, n, v),
{
}

/// A byte index that is a character boundary of valid UTF-8 stays one in any
/// prefix that ends on a character boundary after it.
proof fn lemma_boundary_in_prefix(b: Seq<u8>, start: int, end: int)
    requires
        valid_utf8(b),
        0 <= start <= end <= b.len(),
        is_char_boundary(b, start),
        is_char_boundary(b, end),
    ensures
        valid_utf8(b.subrange(0, end)),
        is_char_boundary(b.subrange(0, end), start),
{
    let p = b.subrange(0, end);
    valid_utf8_split(b, end);
    if start == end {
        is_char_boundary_start_end_of_seq(p);
    } else if start > 0 {
        is_char_boundary_iff_not_is_continuation_byte(b, start);
        is_char_boundary_iff_not_is_continuation_byte(p, start);
        assert(p[start] == b[start]);
    }
}

/// A binding context: the tree, the node being bound, and the traversal
/// cursor while this context holds it.
pub struct Node<'t> {
    pub tree: &'t Tree,
    pub index: usize,
    pub cursor: Option<Cursor>,
}

/// Decides whether binding type `ty` at node `n` succeeds, as `bind_ok`
/// states it. Callers run it before binding: a schema/grammar mismatch is a
/// contract violation of the binding functions, not an error they return.
pub fn can_bind(tree: &Tree, schema: &Schema, ty: usize, n: usize) -> (r: bool)
    requires
        tree.wf(),
        schema.wf(),
        ty < schema.types@.len(),
        n < tree.nodes@.len(),
    ensures
        r == bind_ok(*tree, *schema, ty as int, n as int),
    decreases tree.nodes@.len() - n, ty, 2int,
{
    let ghost t = *tree;
    match &schema.types[ty] {
        TypeRules::Record(rules) => {
            let mut i: usize = 0;
            while i < rules.len()
                invariant
                    t == *tree,
                    tree.wf(),
                    schema.wf(),
                    ty < schema.types@.len(),
                    n < tree.nodes@.len(),
                    schema.types@[ty as int] == TypeRules::Record(*rules),
                    i <= rules@.len(),
                    forall|j: int| 0 <= j < i ==> rule_ok(t, *schema, #[trigger] rules@[j], n as int),
                decreases rules@.len() - i,
            {
                proof {
                    lemma_rule_target_exists(schema, ty as int, i as int);
                }
                let ok = match &rules[i] {
                    Rule::OptionalChild(r, u) => {
                        proof {
                            lemma_field_lookup_bounds(tree, n as int, r@);
                        }
                        match tree.child_by_field_name(n, r) {
                            None => true,
                            Some(c) => can_bind(tree, schema, *u, c),
                        }
                    },
                    Rule::RequiredChild(r, u) => {
                        proof {
                            lemma_field_lookup_bounds(tree, n as int, r@);
                        }
                        match tree.child_by_field_name(n, r) {
                            None => false,
                            Some(c) => can_bind(tree, schema, *u, c),
                        }
                    },
                    Rule::RepeatedChildren(r, u) => {
                        proof {
                            lemma_field_lookup_bounds(tree, n as int, r@);
                        }
                        let ghost sel = t.named_field_children(n as int, r@);
                        let mut cursor = Cursor::new();
                        let idxs = cursor.field_children(tree, n, r, true);
                        let mut k: usize = 0;
                        let mut all = true;
                        while k < idxs.len() && all
                            invariant
                                t == *tree,
                                tree.wf(),
                                schema.wf(),
                                *u < schema.types@.len(),
                                idxs@ == sel,
                                forall|j: int| 0 <= j < sel.len() ==> n < #[trigger] sel[j] < tree.nodes@.len(),
                                k <= idxs@.len(),
                                all ==> forall|j: int|
                                    0 <= j < k ==> bind_ok(t, *schema, *u as int, #[trigger] sel[j] as int),
                                !all ==> k > 0 && !bind_ok(t, *schema, *u as int, sel[k - 1] as int),
                            decreases idxs@.len() - k,
                        {
                            all = can_bind(tree, schema, *u, idxs[k]);
                            k = k + 1;
                        }
                        all
                    },
                    _ => true,
                };
                if !ok {
                    assert(!rule_ok(t, *schema, rules@[i as int], n as int));
                    return false;
                }
                i = i + 1;
            }
            true
        },
        TypeRules::Union(alts) => {
            let kind = &tree.nodes[n].kind;
            let mut a: usize = 0;
            while a < alts.len() && !alts[a].rule.eq(kind)
                invariant
                    a <= alts@.len(),
                    forall|j: int| 0 <= j < a ==> alts@[j].rule@ != kind@,
                decreases alts@.len() - a,
            {
                a = a + 1;
            }
            if a == alts.len() {
                return false;
            }
            proof {
                lemma_variant_earlier(schema, ty as int, a as int);
                assert(alt_index(alts@, kind@, a as int));
            }
            can_bind(tree, schema, alts[a].ty, n)
        },
    }
}

impl<'t> Node<'t> {
    /// The context is over a well-formed tree, at one of its nodes, and holds
    /// the cursor, which stands at that node.
    pub open spec fn wf(&self) -> bool {
        &&& self.tree.wf()
        &&& self.index < self.tree.nodes@.len()
        &&& self.cursor == Some(Cursor { pos: self.index })
    }

    /// A context at the root of `tree`, holding a fresh cursor.
    pub fn root(tree: &'t Tree) -> (r: Node<'t>)
        requires
            tree.wf(),
        ensures
            r.wf(),
            r.tree == tree,
            r.index == 0,
    {
        Node { tree, index: 0, cursor: Some(Cursor::new()) }
    }

    /// The kind of the current node.
    pub fn kind(&self) -> (r: &str)
        requires
            self.index < self.tree.nodes@.len(),
        ensures
            r@ == self.tree.nodes@[self.index as int].kind@,
    {
        self.tree.nodes[self.index].kind.as_str()
    }

    /// The byte range of the current node.
    pub fn range(&self) -> (r: Range<usize>)
        requires
            self.index < self.tree.nodes@.len(),
        ensures
            r.start == self.tree.nodes@[self.index as int].start,
            r.end == self.tree.nodes@[self.index as int].end,
    {
        let nd = &self.tree.nodes[self.index];
        Range { start: nd.start, end: nd.end }
    }

    /// The source text of the current node: its UTF-8 encoding is exactly the
    /// source bytes in the node's range.
    pub fn slice(&self) -> (r: String)
        requires
            self.tree.wf(),
            self.index < self.tree.nodes@.len(),
        ensures
            encode_utf8(r@) == self.tree.text_bytes(self.index as int),
    {
        let src = self.tree.source.as_str();
        let nd = &self.tree.nodes[self.index];
        proof {
            assert(self.tree.node_wf(self.index as int));
            encode_utf8_valid_utf8(src@);
            lemma_boundary_in_prefix(encode_utf8(src@), nd.start as int, nd.end as int);
        }
        let (pre, _) = src.split_at(nd.end);
        let (_, mid) = pre.split_at(nd.start);
        let r = mid.to_owned();
        assert(encode_utf8(r@) =~= self.tree.text_bytes(self.index as int));
        r
    }

    /// Whether the current node has a child labelled `rule`.
    pub fn has_child(&self, rule: &str) -> (r: bool)
        requires
            self.tree.wf(),
            self.index < self.tree.nodes@.len(),
        ensures
            r == self.tree.child_by_field(self.index as int, rule@) is Some,
    {
        let rule = rule.to_owned();
        self.tree.child_by_field_name(self.index, &rule).is_some()
    }

    /// Binds `child` as type `ty` in a context of its own. The cursor is
    /// moved down to the child and lent to that context; the child context
    /// hands it back at the child, and it is moved up again.
    fn with(&mut self, schema: &Schema, child: usize, ty: usize) -> (v: Value)
        requires
            old(self).wf(),
            old(self).index < child < old(self).tree.nodes@.len(),
            schema.wf(),
            ty < schema.types@.len(),
            bind_ok(*old(self).tree, *schema, ty as int, child as int),
        ensures
            final(self).tree == old(self).tree,
            final(self).index == old(self).index,
            final(self).cursor == old(self).cursor,
            binds(*old(self).tree, *schema, ty as int, child as int, v),
        decreases old(self).tree.nodes@.len() - old(self).index, 0int, 0int,
    {
        let mut cursor = self.cursor.take().unwrap();
        cursor.pos = child;
        let mut node = Node { tree: self.tree, index: child, cursor: Some(cursor) };
        let v = node.bind(schema, ty);
        let mut cursor = node.cursor.unwrap();
        assert(cursor.pos == child);
        cursor.pos = self.index;
        self.cursor = Some(cursor);
        v
    }

    /// Binds the child labelled `rule`, if there is one, as type `ty`. Where
    /// there is none the result is `None` and the cursor is not moved.
    pub fn try_child(&mut self, schema: &Schema, rule: &str, ty: usize) -> (r: Option<Value>)
        requires
            old(self).wf(),
            schema.wf(),
            ty < schema.types@.len(),
            old(self).tree.child_by_field(old(self).index as int, rule@) matches Some(c) ==> bind_ok(
                *old(self).tree,
                *schema,
                ty as int,
                c as int,
            ),
        ensures
            final(self).tree == old(self).tree,
            final(self).index == old(self).index,
            final(self).cursor == old(self).cursor,
            match old(self).tree.child_by_field(old(self).index as int, rule@) {
                None => r is None,
                Some(c) => r matches Some(v) && binds(*old(self).tree, *schema, ty as int, c as int, v),
            },
        decreases old(self).tree.nodes@.len() - old(self).index, 0int, 1int,
    {
        let rule = rule.to_owned();
        proof {
            lemma_field_lookup_bounds(self.tree, self.index as int, rule@);
        }
        match self.tree.child_by_field_name(self.index, &rule) {
            None => None,
            Some(c) => Some(self.with(schema, c, ty)),
        }
    }

    /// Binds the child labelled `rule` as type `ty`. The child must exist and
    /// bind: its absence is a schema/grammar mismatch, which `can_bind`
    /// detects beforehand.
    pub fn child(&mut self, schema: &Schema, rule: &str, ty: usize) -> (v: Value)
        requires
            old(self).wf(),
            schema.wf(),
            ty < schema.types@.len(),
            old(self).tree.child_by_field(old(self).index as int, rule@) matches Some(c) && bind_ok(
                *old(self).tree,
                *schema,
                ty as int,
                c as int,
            ),
        ensures
            final(self).tree == old(self).tree,
            final(self).index == old(self).index,
            final(self).cursor == old(self).cursor,
            binds(
                *old(self).tree,
                *schema,
                ty as int,
                old(self).tree.child_by_field(old(self).index as int, rule@)->Some_0 as int,
                v,
            ),
        decreases old(self).tree.nodes@.len() - old(self).index, 0int, 1int,
    {
        let rule = rule.to_owned();
        proof {
            lemma_field_lookup_bounds(self.tree, self.index as int, rule@);
        }
        let c = self.tree.child_by_field_name(self.index, &rule).unwrap();
        self.with(schema, c, ty)
    }

    /// Binds each named child labelled `rule` as type `ty`, in source order.
    /// The children are enumerated with the cursor, which ends back at the
    /// current node.
    pub fn children(&mut self, schema: &Schema, rule: &str, ty: usize) -> (r: Vec<Value>)
        requires
            old(self).wf(),
            schema.wf(),
            ty < schema.types@.len(),
            forall|k: int|
                0 <= k < old(self).tree.named_field_children(old(self).index as int, rule@).len()
                    ==> bind_ok(
                    *old(self).tree,
                    *schema,
                    ty as int,
                    #[trigger] old(self).tree.named_field_children(old(self).index as int, rule@)[k] as int,
                ),
        ensures
            final(self).tree == old(self).tree,
            final(self).index == old(self).index,
            final(self).cursor == old(self).cursor,
            ({
                let sel = old(self).tree.named_field_children(old(self).index as int, rule@);
                &&& r@.len() == sel.len()
                &&& forall|k: int|
                    0 <= k < sel.len() ==> binds(*old(self).tree, *schema, ty as int, sel[k] as int, #[trigger] r@[k])
            }),
        decreases old(self).tree.nodes@.len() - old(self).index, 0int, 1int,
    {
        let rule_s = rule.to_owned();
        let ghost sel = self.tree.named_field_children(self.index as int, rule@);
        proof {
            lemma_field_lookup_bounds(self.tree, self.index as int, rule@);
        }
        let mut cur = self.cursor.take().unwrap();
        let idxs = cur.field_children(self.tree, self.index, &rule_s, true);
        self.cursor = Some(cur);
        let mut out: Vec<Value> = Vec::new();
        let mut k: usize = 0;
        while k < idxs.len()
            invariant
                self.tree == old(self).tree,
                self.index == old(self).index,
                self.cursor == old(self).cursor,
                self.wf(),
                schema.wf(),
                ty < schema.types@.len(),
                idxs@ == sel,
                sel == old(self).tree.named_field_children(old(self).index as int, rule@),
                forall|j: int| 0 <= j < sel.len() ==> self.index < #[trigger] sel[j] < self.tree.nodes@.len(),
                forall|j: int| 0 <= j < sel.len() ==> bind_ok(*self.tree, *schema, ty as int, #[trigger] sel[j] as int),
                k <= idxs@.len(),
                out@.len() == k,
                forall|j: int|
                    0 <= j < k ==> binds(*self.tree, *schema, ty as int, sel[j] as int, #[trigger] out@[j]),
            decreases idxs@.len() - k,
        {
            let c = idxs[k];
            assert(sel[k as int] == c);
            let v = self.with(schema, c, ty);
            out.push(v);
            k = k + 1;
        }
        out
    }

    /// Binds the current node as schema type `ty`, which must bind (see
    /// `can_bind`).
    ///
    /// A record binds its fields in declaration order, each by its rule. A
    /// union binds the current node as the payload type of the first variant
    /// whose rule is the node's kind. The cursor ends where it started.
    pub fn bind(&mut self, schema: &Schema, ty: usize) -> (v: Value)
        requires
            old(self).wf(),
            schema.wf(),
            ty < schema.types@.len(),
            bind_ok(*old(self).tree, *schema, ty as int, old(self).index as int),
        ensures
            final(self).tree == old(self).tree,
            final(self).index == old(self).index,
            final(self).cursor == old(self).cursor,
            binds(*old(self).tree, *schema, ty as int, old(self).index as int, v),
        decreases old(self).tree.nodes@.len() - old(self).index, ty, 2int,
    {
        let tree: &'t Tree = self.tree;
        let ghost t = *tree;
        let ghost n = self.index as int;
        match &schema.types[ty] {
            TypeRules::Record(rules) => {
                let mut vals: Vec<Value> = Vec::new();
                let mut i: usize = 0;
                while i < rules.len()
                    invariant
                        self.tree == tree,
                        self.index == n,
                        tree == old(self).tree,
                        t == *old(self).tree,
                        n == old(self).index,
                        self.cursor == old(self).cursor,
                        self.wf(),
                        schema.wf(),
                        ty < schema.types@.len(),
                        schema.types@[ty as int] == TypeRules::Record(*rules),
                        bind_ok(t, *schema, ty as int, n),
                        i <= rules@.len(),
                        vals@.len() == i,
                        forall|j: int| 0 <= j < i ==> rule_binds(t, *schema, rules@[j], n, #[trigger] vals@[j]),
                    decreases rules@.len() - i,
                {
                    proof {
                        lemma_rule_target_exists(schema, ty as int, i as int);
                        assert(rule_ok(t, *schema, rules@[i as int], n));
                    }
                    let v = match &rules[i] {
                        Rule::Span => Value::Span(self.range()),
                        Rule::TextSlice => Value::Text(self.slice()),
                        Rule::OptionalChild(r, u) => {
                            proof {
                                lemma_field_lookup_bounds(tree, n, r@);
                            }
                            match self.try_child(schema, r.as_str(), *u) {
                                Some(v) => Value::Opt(Some(Box::new(v))),
                                None => Value::Opt(None),
                            }
                        },
                        Rule::RequiredChild(r, u) => {
                            proof {
                                lemma_field_lookup_bounds(tree, n, r@);
                            }
                            self.child(schema, r.as_str(), *u)
                        },
                        Rule::RepeatedChildren(r, u) => {
                            proof {
                                lemma_field_lookup_bounds(tree, n, r@);
                            }
                            Value::List(self.children(schema, r.as_str(), *u))
                        },
                        Rule::PresenceFlag(r) => Value::Flag(self.has_child(r.as_str())),
                    };
                    assert(rule_binds(t, *schema, rules@[i as int], n, v));
                    vals.push(v);
                    i = i + 1;
                }
                Value::Record(vals)
            },
            TypeRules::Union(alts) => {
                let kind = &tree.nodes[self.index].kind;
                let mut a: usize = 0;
                while a < alts.len() && !alts[a].rule.eq(kind)
                    invariant
                        a <= alts@.len(),
                        forall|j: int| 0 <= j < a ==> alts@[j].rule@ != kind@,
                    decreases alts@.len() - a,
                {
                    a = a + 1;
                }
                proof {
                    assert(schema.types@[ty as int] == TypeRules::Union(*alts));
                    if a == alts@.len() {
                        let w = choose|w: int|
                            #[trigger] alt_index(alts@, t.nodes@[n].kind@, w) && alts@[w].ty < ty
                                && bind_ok(t, *schema, alts@[w].ty as int, n);
                        assert(alts@[w].rule@ == kind@);
                    }
                    lemma_variant_earlier(schema, ty as int, a as int);
                    assert(alt_index(alts@, kind@, a as int));
                }
                let v = self.bind(schema, alts[a].ty);
                Value::Variant(a, Box::new(v))
            },
        }
    }
}

} // verus!
