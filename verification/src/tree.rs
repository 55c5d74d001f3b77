//! An ordered binary tree of 64-bit integer values.
//!
//! The tree always consists of at least a root node; every node owns up to
//! two subtrees. Insertion routes a value by comparing it with the stored
//! value at each node: when the stored value is *less than* the incoming
//! value the insertion descends to the **left**, otherwise to the right.
//! This is the mirror image of the textbook convention, and it is kept on
//! purpose: lookup follows the same rule, and the in-order traversal is
//! therefore not ascending.
//!
//! `height` is likewise kept with its quirk: it compares the *stored values*
//! of the immediate children (zero for a missing child) and returns the
//! larger plus one, so it is not a measurement of structural depth.

use vstd::prelude::*;

verus! {

/// A node of the tree: a value and up to two owned subtrees.
pub struct Node {
    value: i64,
    left: Option<Box<Node>>,
    right: Option<Box<Node>>,
}

impl Node {
    /// The tree consisting of a single node holding `v`.
    pub closed spec fn spec_leaf(v: i64) -> Node {
        Node { value: v, left: None, right: None }
    }

    /// Number of nodes in an optional subtree.
    pub closed spec fn opt_count(o: Option<Box<Node>>) -> nat
        decreases o,
    {
        match o {
            None => 0,
            Some(n) => n.count(),
        }
    }

    /// Number of nodes in the tree.
    pub closed spec fn count(self) -> nat
        decreases self,
    {
        1 + Node::opt_count(self.left) + Node::opt_count(self.right)
    }

    /// In-order value sequence of an optional subtree.
    pub closed spec fn opt_to_seq(o: Option<Box<Node>>) -> Seq<i64>
        decreases o,
    {
        match o {
            None => Seq::empty(),
            Some(n) => n.to_seq(),
        }
    }

    /// In-order value sequence: left subtree, own value, right subtree.
    pub closed spec fn to_seq(self) -> Seq<i64>
        decreases self,
    {
        Node::opt_to_seq(self.left) + seq![self.value] + Node::opt_to_seq(self.right)
    }

    /// Whether an optional subtree holds `x` anywhere.
    pub closed spec fn opt_contains(o: Option<Box<Node>>, x: i64) -> bool
        decreases o,
    {
        match o {
            None => false,
            Some(n) => n.contains(x),
        }
    }

    /// Whether the tree holds `x` anywhere.
    pub closed spec fn contains(self, x: i64) -> bool
        decreases self,
    {
        self.value == x || Node::opt_contains(self.left, x) || Node::opt_contains(self.right, x)
    }

    /// Ordering invariant maintained by insertion: everything routed left is
    /// strictly greater than the node's value, everything routed right is
    /// less than or equal to it (the mirror of the textbook convention).
    pub closed spec fn opt_wf(o: Option<Box<Node>>) -> bool
        decreases o,
    {
        match o {
            None => true,
            Some(n) => n.wf(),
        }
    }

    /// Ordering invariant for the whole tree.
    pub closed spec fn wf(self) -> bool
        decreases self,
    {
        &&& (forall|x: i64| #[trigger] Node::opt_contains(self.left, x) ==> self.value < x)
        &&& (forall|x: i64| #[trigger] Node::opt_contains(self.right, x) ==> x <= self.value)
        &&& Node::opt_wf(self.left)
        &&& Node::opt_wf(self.right)
    }

    /// The tree obtained by inserting `v` into an optional subtree: a fresh
    /// leaf when the subtree is absent.
    pub closed spec fn opt_insert(o: Option<Box<Node>>, v: i64) -> Node
        decreases o,
    {
        match o {
            None => Node::spec_leaf(v),
            Some(n) => n.spec_insert(v),
        }
    }

    /// The tree obtained by inserting `v`: descend left when the stored
    /// value is less than `v`, right otherwise.
    pub closed spec fn spec_insert(self, v: i64) -> Node
        decreases self,
    {
        if self.value < v {
            Node {
                value: self.value,
                left: Some(Box::new(Node::opt_insert(self.left, v))),
                right: self.right,
            }
        } else {
            Node {
                value: self.value,
                left: self.left,
                right: Some(Box::new(Node::opt_insert(self.right, v))),
            }
        }
    }

    /// A new tree holding only the root value `value`.
    pub fn new(value: i64) -> (root: Node)
        ensures
            root == Node::spec_leaf(value),
            root.wf(),
            root.count() == 1,
    {
        Node { value, left: None, right: None }
    }

    /// Insert `v` below an optional subtree, creating the leaf when absent.
    fn insert_opt(node: &mut Option<Box<Node>>, value: i64)
        ensures
            *final(node) == Some(Box::new(Node::opt_insert(*old(node), value))),
        decreases *old(node),
    {
        match node.take() {
            None => {
                *node = Some(Box::new(Node { value, left: None, right: None }));
            }
            Some(mut n) => {
                (&mut *n).insert(value);
                *node = Some(n);
            }
        }
    }

    /// Insert `value` into the tree. Exactly one new leaf is attached; the
    /// resulting tree is a function of the old tree and the value alone, so
    /// insertion is total and deterministic.
    pub fn insert(&mut self, value: i64)
        ensures
            *final(self) == old(self).spec_insert(value),
            final(self).count() == old(self).count() + 1,
            old(self).wf() ==> final(self).wf(),
        decreases *old(self),
    {
        if self.value < value {
            Node::insert_opt(&mut self.left, value);
        } else {
            Node::insert_opt(&mut self.right, value);
        }
        proof {
            old(self).lemma_insert_count(value);
            if old(self).wf() {
                old(self).lemma_insert_wf(value);
            }
        }
    }

    /// Inserting adds exactly one node.
    proof fn lemma_opt_insert_count(o: Option<Box<Node>>, v: i64)
        ensures
            Node::opt_insert(o, v).count() == Node::opt_count(o) + 1,
        decreases o,
    {
        match o {
            None => {}
            Some(n) => {
                if n.value < v {
                    Node::lemma_opt_insert_count(n.left, v);
                } else {
                    Node::lemma_opt_insert_count(n.right, v);
                }
            }
        }
    }

    /// Inserting adds exactly one node.
    pub proof fn lemma_insert_count(self, v: i64)
        ensures
            self.spec_insert(v).count() == self.count() + 1,
    {
        Node::lemma_opt_insert_count(Some(Box::new(self)), v);
    }

    /// The inserted tree holds exactly the old values and the new one.
    proof fn lemma_opt_insert_contains(o: Option<Box<Node>>, v: i64, x: i64)
        ensures
            Node::opt_insert(o, v).contains(x) <==> (Node::opt_contains(o, x) || x == v),
        decreases o,
    {
        match o {
            None => {}
            Some(n) => {
                if n.value < v {
                    Node::lemma_opt_insert_contains(n.left, v, x);
                } else {
                    Node::lemma_opt_insert_contains(n.right, v, x);
                }
            }
        }
    }

    /// The inserted tree holds exactly the old values and the new one.
    pub proof fn lemma_insert_contains(self, v: i64, x: i64)
        ensures
            self.spec_insert(v).contains(x) <==> (self.contains(x) || x == v),
    {
        Node::lemma_opt_insert_contains(Some(Box::new(self)), v, x);
    }

    /// Insertion preserves the ordering invariant.
    proof fn lemma_opt_insert_wf(o: Option<Box<Node>>, v: i64)
        requires
            Node::opt_wf(o),
        ensures
            Node::opt_insert(o, v).wf(),
        decreases o,
    {
        match o {
            None => {
                let leaf = Node::spec_leaf(v);
                assert forall|x: i64| #[trigger] Node::opt_contains(leaf.left, x) implies leaf.value < x by {}
                assert forall|x: i64| #[trigger] Node::opt_contains(leaf.right, x) implies x <= leaf.value by {}
                assert(leaf.wf());
            }
            Some(n) => {
                let res = n.spec_insert(v);
                if n.value < v {
                    Node::lemma_opt_insert_wf(n.left, v);
                    let nl = Node::opt_insert(n.left, v);
                    assert(res == Node { value: n.value, left: Some(Box::new(nl)), right: n.right });
                    assert forall|x: i64| #[trigger] Node::opt_contains(res.left, x) implies res.value < x by {
                        Node::lemma_opt_insert_contains(n.left, v, x);
                    }
                } else {
                    Node::lemma_opt_insert_wf(n.right, v);
                    let nr = Node::opt_insert(n.right, v);
                    assert(res == Node { value: n.value, left: n.left, right: Some(Box::new(nr)) });
                    assert forall|x: i64| #[trigger] Node::opt_contains(res.right, x) implies x <= res.value by {
                        Node::lemma_opt_insert_contains(n.right, v, x);
                    }
                }
                assert(res.wf());
            }
        }
    }

    /// Insertion preserves the ordering invariant.
    pub proof fn lemma_insert_wf(self, v: i64)
        requires
            self.wf(),
        ensures
            self.spec_insert(v).wf(),
    {
        Node::lemma_opt_insert_wf(Some(Box::new(self)), v);
    }

    /// The path that a membership query for `x` follows: succeed on
    /// equality, descend left when the stored value is less than `x`,
    /// right otherwise, and fail where the branch is absent.
    pub closed spec fn spec_has(self, x: i64) -> bool
        decreases self,
    {
        if self.value == x {
            true
        } else if self.value < x {
            match self.left {
                Some(l) => l.spec_has(x),
                None => false,
            }
        } else {
            match self.right {
                Some(r) => r.spec_has(x),
                None => false,
            }
        }
    }

    /// On a tree that satisfies the ordering invariant — as every tree built
    /// by `new` and `insert` does — the query path finds a value if and only
    /// if the tree holds it somewhere.
    pub proof fn lemma_has_iff_contains(self, x: i64)
        requires
            self.wf(),
        ensures
            self.spec_has(x) <==> self.contains(x),
        decreases self,
    {
        if self.value == x {
        } else if self.value < x {
            assert(!Node::opt_contains(self.right, x));
            match self.left {
                Some(l) => {
                    (*l).lemma_has_iff_contains(x);
                }
                None => {}
            }
        } else {
            assert(!Node::opt_contains(self.left, x));
            match self.right {
                Some(r) => {
                    (*r).lemma_has_iff_contains(x);
                }
                None => {}
            }
        }
    }

    /// Membership test. The result is a function of the tree and the value
    /// alone; on a tree satisfying the ordering invariant it is exactly
    /// "the tree holds `value` somewhere".
    pub fn has(&self, value: i64) -> (found: bool)
        ensures
            found == self.spec_has(value),
            self.wf() ==> (found <==> self.contains(value)),
        decreases *self,
    {
        proof {
            if self.wf() {
                self.lemma_has_iff_contains(value);
            }
        }
        if self.value == value {
            return true;
        }
        if self.value < value {
            match &self.left {
                Some(l) => l.has(value),
                None => false,
            }
        } else {
            match &self.right {
                Some(r) => r.has(value),
                None => false,
            }
        }
    }

    /// Append the in-order value sequence — left subtree, own value, right
    /// subtree — to `output`.
    pub fn inorder(&self, output: &mut Vec<i64>)
        ensures
            final(output)@ == old(output)@ + self.to_seq(),
        decreases *self,
    {
        match &self.left {
            Some(l) => l.inorder(output),
            None => {}
        }
        output.push(self.value);
        match &self.right {
            Some(r) => r.inorder(output),
            None => {}
        }
        proof {
            assert(output@ =~= old(output)@ + self.to_seq());
        }
    }

    /// The in-order sequence emits every node exactly once.
    proof fn lemma_opt_seq_len(o: Option<Box<Node>>)
        ensures
            Node::opt_to_seq(o).len() == Node::opt_count(o),
        decreases o,
    {
        match o {
            None => {}
            Some(n) => {
                Node::lemma_opt_seq_len(n.left);
                Node::lemma_opt_seq_len(n.right);
            }
        }
    }

    /// The in-order sequence emits every node exactly once: its length is
    /// the number of nodes in the tree.
    pub proof fn lemma_inorder_length(self)
        ensures
            self.to_seq().len() == self.count(),
    {
        Node::lemma_opt_seq_len(Some(Box::new(self)));
    }

    /// The quantity `height` reads off an immediate child: the child's
    /// stored value, or zero where the child is absent.
    pub closed spec fn child_quantity(o: Option<Box<Node>>) -> int {
        match o {
            Some(n) => n.value as int,
            None => 0,
        }
    }

    /// What `height` returns: the larger of the two child quantities, plus
    /// one. This is the stored behaviour of the operation — it reads child
    /// *values*, not subtree depths, so it is not a depth measurement.
    pub closed spec fn spec_height(self) -> int {
        let lq = Node::child_quantity(self.left);
        let rq = Node::child_quantity(self.right);
        if lq >= rq {
            lq + 1
        } else {
            rq + 1
        }
    }

    /// The numeric conversion inside `height` succeeds and the increment
    /// does not overflow: the chosen child quantity fits in a 32-bit
    /// integer with room for the `+ 1`.
    pub closed spec fn height_req(self) -> bool {
        i32::MIN <= self.spec_height() - 1 && self.spec_height() - 1 <= i32::MAX - 1
    }

    /// The larger of the two immediate child values (zero standing in for a
    /// missing child), plus one. A value-magnitude reading, not a depth.
    ///
    /// The precondition excludes exactly the inputs on which the conversion
    /// of that value to a 32-bit result would fail.
    pub fn height(&self) -> (h: i32)
        requires
            self.height_req(),
        ensures
            h as int == self.spec_height(),
    {
        let lh: i64 = match &self.left {
            Some(n) => n.value,
            None => 0,
        };
        let rh: i64 = match &self.right {
            Some(n) => n.value,
            None => 0,
        };
        if lh >= rh {
            (lh as i32) + 1
        } else {
            (rh as i32) + 1
        }
    }

    /// Every node below the root can answer `height` and recurse further:
    /// the conversion precondition holds throughout both subtrees.
    pub closed spec fn balanced_req(self) -> bool
        decreases self,
    {
        &&& (match self.left {
            Some(l) => l.height_req() && l.balanced_req(),
            None => true,
        })
        &&& (match self.right {
            Some(r) => r.height_req() && r.balanced_req(),
            None => true,
        })
    }

    /// What `is_balanced` returns: for each side the pair of the child's
    /// `height` result and the child's own balance verdict — `(0, true)`
    /// for an absent child — combined by requiring the two height
    /// quantities to differ by at most one and both sides to be balanced.
    pub closed spec fn spec_balanced(self) -> bool
        decreases self,
    {
        let lq: int = match self.left {
            Some(l) => l.spec_height(),
            None => 0,
        };
        let lb: bool = match self.left {
            Some(l) => l.spec_balanced(),
            None => true,
        };
        let rq: int = match self.right {
            Some(r) => r.spec_height(),
            None => 0,
        };
        let rb: bool = match self.right {
            Some(r) => r.spec_balanced(),
            None => true,
        };
        -1 <= lq - rq && lq - rq <= 1 && lb && rb
    }

    /// Self-consistency check built on `height`: each side's quantity is
    /// the child's `height` result (zero for a missing child), and the two
    /// may differ by at most one, on every node. It inherits `height`'s
    /// value-reading quirk, so it is not an AVL balance guarantee.
    pub fn is_balanced(&self) -> (balanced: bool)
        requires
            self.balanced_req(),
        ensures
            balanced == self.spec_balanced(),
        decreases *self,
    {
        let lh: (i32, bool) = match &self.left {
            Some(n) => (n.height(), n.is_balanced()),
            None => (0, true),
        };
        let rh: (i32, bool) = match &self.right {
            Some(n) => (n.height(), n.is_balanced()),
            None => (0, true),
        };
        let diff: i64 = (lh.0 as i64) - (rh.0 as i64);
        -1 <= diff && diff <= 1 && lh.1 && rh.1
    }

    /// Structural depth of an optional subtree (zero when absent). Used
    /// only to bound the indentation that `draw` accumulates.
    pub closed spec fn opt_depth(o: Option<Box<Node>>) -> nat
        decreases o,
    {
        match o {
            None => 0,
            Some(n) => n.depth(),
        }
    }

    /// Structural depth of the tree: the longest chain of nodes from the
    /// root down.
    pub closed spec fn depth(self) -> nat
        decreases self,
    {
        let ld = Node::opt_depth(self.left);
        let rd = Node::opt_depth(self.right);
        1 + if ld >= rd {
            ld
        } else {
            rd
        }
    }

    /// The rendering of the tree in the rotated, indented layout, one
    /// element per line: the number of leading spaces and the value, with
    /// the left subtree first, then the node, then the right subtree, each
    /// level indented `DRAW_MARGIN` further.
    pub closed spec fn spec_draw(self, space: int) -> Seq<(u16, i64)>
        decreases self,
    {
        Node::opt_draw(self.left, space + DRAW_MARGIN) + seq![((space as u16), self.value)]
            + Node::opt_draw(self.right, space + DRAW_MARGIN)
    }

    /// The rendering of an optional subtree: empty when absent.
    pub closed spec fn opt_draw(o: Option<Box<Node>>, space: int) -> Seq<(u16, i64)>
        decreases o,
    {
        match o {
            None => Seq::empty(),
            Some(n) => n.spec_draw(space),
        }
    }

    /// Append the rendered lines of this subtree to `out`.
    fn draw_into(&self, space: u16, out: &mut Vec<(u16, i64)>)
        requires
            space + DRAW_MARGIN * self.depth() <= u16::MAX,
        ensures
            final(out)@ == old(out)@ + self.spec_draw(space as int),
        decreases *self,
    {
        let next: u16 = space + DRAW_MARGIN;
        match &self.left {
            Some(l) => l.draw_into(next, out),
            None => {}
        }
        out.push((space, self.value));
        match &self.right {
            Some(r) => r.draw_into(next, out),
            None => {}
        }
        proof {
            assert(out@ =~= old(out)@ + self.spec_draw(space as int));
        }
    }

    /// Rotated textual layout of the tree: one line per node, in the order
    /// left subtree, node, right subtree, each line given as its number of
    /// leading spaces and its value. A node at depth `d` below the root is
    /// indented `space + DRAW_MARGIN * d` spaces. Purely observational.
    ///
    /// The precondition keeps the accumulated indentation within `u16`.
    pub fn draw(&self, space: u16) -> (out: Vec<(u16, i64)>)
        requires
            space + DRAW_MARGIN * self.depth() <= u16::MAX,
        ensures
            out@ == self.spec_draw(space as int),
    {
        let mut out: Vec<(u16, i64)> = Vec::new();
        self.draw_into(space, &mut out);
        out
    }

    /// The tree obtained by inserting every value of `vs` in order.
    pub closed spec fn spec_insert_all(self, vs: Seq<i64>) -> Node
        decreases vs.len(),
    {
        if vs.len() == 0 {
            self
        } else {
            self.spec_insert(vs[0]).spec_insert_all(vs.subrange(1, vs.len() as int))
        }
    }

    /// Insertion is total and deterministic: replaying one sequence of
    /// insertions on two equal trees yields equal trees — same shape, same
    /// values at the same positions.
    pub proof fn lemma_insert_all_deterministic(t1: Node, t2: Node, vs: Seq<i64>)
        requires
            t1 == t2,
        ensures
            t1.spec_insert_all(vs) == t2.spec_insert_all(vs),
    {
    }

    /// A batch of insertions preserves the ordering invariant.
    pub proof fn lemma_insert_all_wf(self, vs: Seq<i64>)
        requires
            self.wf(),
        ensures
            self.spec_insert_all(vs).wf(),
        decreases vs.len(),
    {
        if vs.len() > 0 {
            self.lemma_insert_wf(vs[0]);
            self.spec_insert(vs[0]).lemma_insert_all_wf(vs.subrange(1, vs.len() as int));
        }
    }

    /// A batch of insertions grows the node count by exactly its length.
    pub proof fn lemma_insert_all_count(self, vs: Seq<i64>)
        ensures
            self.spec_insert_all(vs).count() == self.count() + vs.len(),
        decreases vs.len(),
    {
        if vs.len() > 0 {
            self.lemma_insert_count(vs[0]);
            self.spec_insert(vs[0]).lemma_insert_all_count(vs.subrange(1, vs.len() as int));
        }
    }

    /// After a batch of insertions the tree holds exactly the old values
    /// and the inserted ones.
    pub proof fn lemma_insert_all_contains(self, vs: Seq<i64>, x: i64)
        ensures
            self.spec_insert_all(vs).contains(x) <==> (self.contains(x) || vs.contains(x)),
        decreases vs.len(),
    {
        if vs.len() == 0 {
            assert(!vs.contains(x));
        } else {
            let rest = vs.subrange(1, vs.len() as int);
            self.lemma_insert_contains(vs[0], x);
            self.spec_insert(vs[0]).lemma_insert_all_contains(rest, x);
            assert(vs.contains(x) <==> (vs[0] == x || rest.contains(x))) by {
                if vs.contains(x) {
                    let i = choose|i: int| 0 <= i < vs.len() && vs[i] == x;
                    if i > 0 {
                        assert(rest[i - 1] == x);
                        assert(rest.contains(x));
                    }
                }
                if rest.contains(x) {
                    let j = choose|j: int| 0 <= j < rest.len() && rest[j] == x;
                    assert(vs[j + 1] == x);
                    assert(vs.contains(x));
                }
                if vs[0] == x {
                    assert(vs.contains(x));
                }
            }
        }
    }

    /// Every value inserted into a well-formed tree is found afterwards by
    /// the membership query, whatever the insertion order and however many
    /// duplicates the batch holds.
    pub proof fn lemma_inserted_values_found(self, vs: Seq<i64>, i: int)
        requires
            self.wf(),
            0 <= i < vs.len(),
        ensures
            self.spec_insert_all(vs).spec_has(vs[i]),
    {
        self.lemma_insert_all_wf(vs);
        self.lemma_insert_all_contains(vs, vs[i]);
        assert(vs.contains(vs[i]));
        self.spec_insert_all(vs).lemma_has_iff_contains(vs[i]);
    }

    /// A tree of a single node reports a height of one and is balanced,
    /// and both operations are defined on it: its two child quantities are
    /// zero.
    pub proof fn lemma_single_node(v: i64)
        ensures
            Node::spec_leaf(v).spec_height() == 1,
            Node::spec_leaf(v).spec_balanced(),
            Node::spec_leaf(v).height_req(),
            Node::spec_leaf(v).balanced_req(),
    {
    }
}

/// Indentation added per level of the rendered layout.
pub const DRAW_MARGIN: u16 = 5;

} // verus!
