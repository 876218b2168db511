//! A rose tree with a breadth-first traversal and a zipper (cursor) that can
//! descend to a matching child and later rebuild the ancestor chain.

use std::collections::VecDeque;
use vstd::prelude::*;

verus! {

/// A tree is a terminal leaf value or a value with an ordered child list.
#[derive(Debug)]
pub enum Tree<T> {
    Leaf(T),
    Node(T, Vec<Tree<T>>),
}

/// The mathematical shape of a [`Tree`]: the same two variants, with the
/// child lists abstracted to sequences, so that structural equality of two
/// trees can be stated directly.
pub enum TreeModel<T> {
    Leaf(T),
    Node(T, Seq<TreeModel<T>>),
}

impl<T> Tree<T> {
    /// The value carried at the root of this tree.
    pub open spec fn value(self) -> T {
        match self {
            Tree::Leaf(v) => v,
            Tree::Node(v, _) => v,
        }
    }

    /// The child list of this tree; empty for a leaf.
    pub open spec fn children(self) -> Seq<Tree<T>> {
        match self {
            Tree::Leaf(_) => Seq::empty(),
            Tree::Node(_, cs) => cs@,
        }
    }
}

impl<T> TreeModel<T> {
    /// The value carried at the root of this tree model.
    pub open spec fn value(self) -> T {
        match self {
            TreeModel::Leaf(v) => v,
            TreeModel::Node(v, _) => v,
        }
    }

    /// The child list of this tree model; empty for a leaf.
    pub open spec fn children(self) -> Seq<TreeModel<T>> {
        match self {
            TreeModel::Leaf(_) => Seq::empty(),
            TreeModel::Node(_, cs) => cs,
        }
    }
}

/// The model of a tree: the same structure with sequences for child lists.
pub open spec fn tree_view<T>(t: Tree<T>) -> TreeModel<T>
    decreases t,
{
    match t {
        Tree::Leaf(v) => TreeModel::Leaf(v),
        Tree::Node(v, cs) => TreeModel::Node(v, forest_view(cs@)),
    }
}

/// The models of a sequence of trees, in order.
pub open spec fn forest_view<T>(f: Seq<Tree<T>>) -> Seq<TreeModel<T>>
    decreases f,
{
    if f.len() == 0 {
        Seq::empty()
    } else {
        seq![tree_view(f[0])] + forest_view(f.subrange(1, f.len() as int))
    }
}

impl<T> View for Tree<T> {
    type V = TreeModel<T>;

    open spec fn view(&self) -> TreeModel<T> {
        tree_view(*self)
    }
}

proof fn lemma_forest_view_len<T>(f: Seq<Tree<T>>)
    ensures
        forest_view(f).len() == f.len(),
    decreases f,
{
    if f.len() > 0 {
        lemma_forest_view_len(f.subrange(1, f.len() as int));
    }
}

proof fn lemma_forest_view_index<T>(f: Seq<Tree<T>>, i: int)
    requires
        0 <= i < f.len(),
    ensures
        forest_view(f).len() == f.len(),
        forest_view(f)[i] == tree_view(f[i]),
    decreases f,
{
    lemma_forest_view_len(f);
    if i > 0 {
        lemma_forest_view_index(f.subrange(1, f.len() as int), i - 1);
    }
}

/// Sequences of trees that agree element by element on their models have the
/// same forest model.
proof fn lemma_forest_view_pointwise<T>(a: Seq<Tree<T>>, b: Seq<Tree<T>>)
    requires
        a.len() == b.len(),
        forall|i: int| 0 <= i < a.len() ==> tree_view(#[trigger] a[i]) == tree_view(b[i]),
    ensures
        forest_view(a) == forest_view(b),
{
    lemma_forest_view_len(a);
    lemma_forest_view_len(b);
    assert forall|i: int| 0 <= i < a.len() implies #[trigger] forest_view(a)[i] == forest_view(
        b,
    )[i] by {
        lemma_forest_view_index(a, i);
        lemma_forest_view_index(b, i);
    }
    assert(forest_view(a) =~= forest_view(b));
}

proof fn lemma_forest_view_take<T>(f: Seq<Tree<T>>, k: int)
    requires
        0 <= k <= f.len(),
    ensures
        forest_view(f.take(k)) == forest_view(f).take(k),
{
    lemma_forest_view_len(f);
    lemma_forest_view_len(f.take(k));
    assert forall|i: int| 0 <= i < k implies #[trigger] forest_view(f.take(k))[i] == forest_view(
        f,
    ).take(k)[i] by {
        lemma_forest_view_index(f.take(k), i);
        lemma_forest_view_index(f, i);
    }
    assert(forest_view(f.take(k)) =~= forest_view(f).take(k));
}

proof fn lemma_forest_view_skip<T>(f: Seq<Tree<T>>, k: int)
    requires
        0 <= k <= f.len(),
    ensures
        forest_view(f.skip(k)) == forest_view(f).skip(k),
{
    lemma_forest_view_len(f);
    lemma_forest_view_len(f.skip(k));
    assert forall|i: int| 0 <= i < f.len() - k implies #[trigger] forest_view(f.skip(k))[i]
        == forest_view(f).skip(k)[i] by {
        lemma_forest_view_index(f.skip(k), i);
        lemma_forest_view_index(f, k + i);
        assert(f.skip(k)[i] == f[k + i]);
    }
    assert(forest_view(f.skip(k)) =~= forest_view(f).skip(k));
}

/// The number of values stored in a tree model (always at least one).
pub open spec fn model_size<T>(m: TreeModel<T>) -> nat
    decreases m,
{
    match m {
        TreeModel::Leaf(_) => 1,
        TreeModel::Node(_, cs) => 1 + model_forest_size(cs),
    }
}

/// The total number of values stored across a sequence of tree models.
pub open spec fn model_forest_size<T>(f: Seq<TreeModel<T>>) -> nat
    decreases f,
{
    if f.len() == 0 {
        0
    } else {
        model_size(f[0]) + model_forest_size(f.subrange(1, f.len() as int))
    }
}

proof fn lemma_model_forest_size_concat<T>(a: Seq<TreeModel<T>>, b: Seq<TreeModel<T>>)
    ensures
        model_forest_size(a + b) == model_forest_size(a) + model_forest_size(b),
    decreases a,
{
    if a.len() == 0 {
        assert(a + b =~= b);
    } else {
        assert((a + b)[0] == a[0]);
        assert((a + b).subrange(1, (a + b).len() as int) =~= a.subrange(1, a.len() as int) + b);
        lemma_model_forest_size_concat(a.subrange(1, a.len() as int), b);
    }
}

/// The values of a work queue of tree models in breadth-first order: the head
/// tree's value first, then the rest of the queue with the head's children
/// appended at the back.
pub open spec fn bfs_forest<T>(q: Seq<TreeModel<T>>) -> Seq<T>
    decreases model_forest_size(q)
        via bfs_forest_decreases::<T>
{
    if q.len() == 0 {
        Seq::empty()
    } else {
        seq![q[0].value()] + bfs_forest(q.subrange(1, q.len() as int) + q[0].children())
    }
}

#[via_fn]
proof fn bfs_forest_decreases<T>(q: Seq<TreeModel<T>>) {
    if q.len() > 0 {
        lemma_model_forest_size_concat(q.subrange(1, q.len() as int), q[0].children());
        match q[0] {
            TreeModel::Leaf(_) => {
                assert(q[0].children() =~= Seq::<TreeModel<T>>::empty());
                assert(model_size(q[0]) == 1);
            },
            TreeModel::Node(_, cs) => {
                assert(model_size(q[0]) == 1 + model_forest_size(cs));
            },
        }
        assert(model_forest_size(q) == model_size(q[0]) + model_forest_size(
            q.subrange(1, q.len() as int),
        ));
    }
}

/// The values of a single tree in breadth-first order: the root first, then
/// each level left to right.
pub open spec fn bfs<T>(m: TreeModel<T>) -> Seq<T> {
    bfs_forest(seq![m])
}

/// A breadth-first traversal over a borrowed tree, driven by an explicit
/// first-in-first-out work queue rather than recursion.
pub struct BreadthFirstIterator<'a, T>(VecDeque<&'a Tree<T>>);

impl<'a, T> BreadthFirstIterator<'a, T> {
    /// The models of the trees still queued for the traversal, front first.
    pub closed spec fn queued_models(self) -> Seq<TreeModel<T>> {
        Seq::new(self.0@.len(), |i: int| tree_view(*self.0@[i]))
    }

    /// The values this traversal has yet to produce, in breadth-first order.
    pub open spec fn remaining(self) -> Seq<T> {
        bfs_forest(self.queued_models())
    }

    pub fn new(root: &'a Tree<T>) -> (it: Self)
        ensures
            it.remaining() == bfs(root@),
    {
        let mut queue: VecDeque<&'a Tree<T>> = VecDeque::new();
        queue.push_back(root);
        let it = BreadthFirstIterator(queue);
        proof {
            assert(it.queued_models() =~= seq![tree_view(*root)]);
        }
        it
    }

    /// Produces the next value in breadth-first order, queueing the children
    /// of the tree it came from.
    pub fn next(&mut self) -> (r: Option<&'a T>)
        ensures
            match r {
                Some(v) => old(self).remaining().len() > 0 && *v == old(self).remaining()[0]
                    && final(self).remaining() == old(self).remaining().drop_first(),
                None => old(self).remaining().len() == 0 && final(self).remaining().len() == 0,
            },
    {
        match self.0.pop_front() {
            None => None,
            Some(current) => {
                proof {
                    assert(old(self).queued_models()[0] == tree_view(*current));
                }
                match current {
                    Tree::Leaf(value) => {
                        proof {
                            assert(tree_view(*current).children() =~= Seq::<TreeModel<T>>::empty());
                            assert(old(self).queued_models().drop_first() + tree_view(
                                *current,
                            ).children() =~= self.queued_models());
                        }
                        Some(value)
                    },
                    Tree::Node(value, children) => {
                        let ghost popped = self.queued_models();
                        let ghost child_models = forest_view(children@);
                        proof {
                            lemma_forest_view_len(children@);
                            assert(popped + child_models.subrange(0, 0) =~= popped);
                        }
                        let n = children.len();
                        for i in 0..n
                            invariant
                                n == children@.len(),
                                child_models.len() == n,
                                child_models == forest_view(children@),
                                self.0@.len() == popped.len() + i,
                                self.queued_models() == popped + child_models.subrange(
                                    0,
                                    i as int,
                                ),
                        {
                            let child_ref = &children[i];
                            self.0.push_back(child_ref);
                            proof {
                                lemma_forest_view_index(children@, i as int);
                                assert(self.queued_models() =~= (popped + child_models.subrange(
                                    0,
                                    i as int,
                                )).push(tree_view(children@[i as int])));
                                assert((popped + child_models.subrange(0, i as int)).push(
                                    child_models[i as int],
                                ) =~= popped + child_models.subrange(0, i as int + 1));
                            }
                        }
                        proof {
                            assert(child_models.subrange(0, n as int) =~= child_models);
                            assert(tree_view(*current).children() == forest_view(children@));
                            assert(old(self).queued_models().drop_first() + tree_view(
                                *current,
                            ).children() =~= self.queued_models());
                        }
                        Some(value)
                    },
                }
            },
        }
    }
}

impl<T> Tree<T> {
    /// A breadth-first traversal of this tree, visiting the root first and
    /// then each level left to right.
    pub fn iter(&self) -> (it: BreadthFirstIterator<'_, T>)
        ensures
            it.remaining() == bfs(self@),
    {
        BreadthFirstIterator::new(self)
    }
}

/// One step of context around a focused subtree: the parent's own value and
/// the siblings on each side of the descent point.
#[derive(Debug)]
pub struct TreeCrumb<T> {
    item: T,
    left: Vec<Tree<T>>,
    right: Vec<Tree<T>>,
}

/// The mathematical shape of a [`TreeCrumb`]: the sibling lists abstracted to
/// sequences of tree models.
pub struct TreeCrumbModel<T> {
    pub item: T,
    pub left: Seq<TreeModel<T>>,
    pub right: Seq<TreeModel<T>>,
}

impl<T> TreeCrumb<T> {
    /// The parent value recorded in this crumb.
    pub closed spec fn crumb_value(self) -> T {
        self.item
    }

    /// The sibling trees to the left of the descent point, in order.
    pub closed spec fn left_trees(self) -> Seq<Tree<T>> {
        self.left@
    }

    /// The sibling trees to the right of the descent point, in order.
    pub closed spec fn right_trees(self) -> Seq<Tree<T>> {
        self.right@
    }
}

impl<T> View for TreeCrumb<T> {
    type V = TreeCrumbModel<T>;

    closed spec fn view(&self) -> TreeCrumbModel<T> {
        TreeCrumbModel {
            item: self.item,
            left: forest_view(self.left@),
            right: forest_view(self.right@),
        }
    }
}

/// How a crumb's model is built from its parts.
pub proof fn lemma_crumb_view<T>(c: TreeCrumb<T>)
    ensures
        c@.item == c.crumb_value(),
        c@.left == forest_view(c.left_trees()),
        c@.right == forest_view(c.right_trees()),
{
}

/// A cursor over a tree: the focused subtree plus the stack of crumbs pushed
/// on the way down, the innermost crumb last.
#[derive(Debug)]
pub struct TreeZipper<T>(pub Tree<T>, pub Vec<TreeCrumb<T>>);

/// Holds when the zipper `to` is `from` moved down to the `i`-th child of its
/// focus: the new focus is that very child, and one crumb recording the
/// parent's value and the sibling lists around position `i` was pushed.
pub open spec fn descended<T>(from: TreeZipper<T>, to: TreeZipper<T>, i: int) -> bool {
    &&& from.0 is Node
    &&& 0 <= i < from.0.children().len()
    &&& to.0 == from.0.children()[i]
    &&& to.1@.len() == from.1@.len() + 1
    &&& to.1@.drop_last() == from.1@
    &&& to.1@.last().crumb_value() == from.0.value()
    &&& to.1@.last().left_trees() == from.0.children().take(i)
    &&& to.1@.last().right_trees() == from.0.children().skip(i + 1)
}

/// Holds when the zipper `to` is `from` moved up one step: the top crumb was
/// popped and the focus spliced back between the siblings it recorded, in
/// their original order.
pub open spec fn ascended<T>(from: TreeZipper<T>, to: TreeZipper<T>) -> bool {
    &&& from.1@.len() > 0
    &&& to.1@ == from.1@.drop_last()
    &&& to.0 is Node
    &&& to.0.value() == from.1@.last().crumb_value()
    &&& to.0.children() == from.1@.last().left_trees() + seq![from.0]
        + from.1@.last().right_trees()
}

/// Ascending right after descending restores the starting point: the rebuilt
/// focus carries the same value and exactly the same child list (the visited
/// child itself untouched, sibling order preserved), over the same remaining
/// crumb stack.
pub proof fn lemma_zipper_round_trip<T>(
    start: TreeZipper<T>,
    mid: TreeZipper<T>,
    done: TreeZipper<T>,
    i: int,
)
    requires
        descended(start, mid, i),
        ascended(mid, done),
    ensures
        done.1@ == start.1@,
        done.0 is Node,
        done.0.value() == start.0.value(),
        done.0.children() == start.0.children(),
        done.0.children()[i] == mid.0,
{
    assert(start.0.children().take(i) + seq![start.0.children()[i]] + start.0.children().skip(
        i + 1,
    ) =~= start.0.children());
}

/// Deep copies of the trees `f[lo..hi]`; `T` is restricted to `Copy` so that
/// the copies provably have the same models as the originals.
pub fn duplicate_range<T: Copy>(f: &Vec<Tree<T>>, lo: usize, hi: usize) -> (r: Vec<Tree<T>>)
    requires
        lo <= hi <= f@.len(),
    ensures
        r@.len() == hi - lo,
        forest_view(r@) == forest_view(f@.subrange(lo as int, hi as int)),
    decreases *f,
{
    let mut out: Vec<Tree<T>> = Vec::new();
    let mut k = lo;
    while k < hi
        invariant
            lo <= k <= hi <= f@.len(),
            out@.len() == k - lo,
            forall|j: int|
                0 <= j < out@.len() ==> tree_view(#[trigger] out@[j]) == tree_view(
                    f@[lo + j],
                ),
        decreases hi - k,
    {
        let copy = f[k].duplicate();
        out.push(copy);
        k += 1;
    }
    proof {
        let sub = f@.subrange(lo as int, hi as int);
        assert forall|j: int| 0 <= j < out@.len() implies tree_view(#[trigger] out@[j])
            == tree_view(sub[j]) by {}
        lemma_forest_view_pointwise(out@, sub);
    }
    out
}

impl<T: Copy> Tree<T> {
    /// A breadth-first traversal that yields a zipper for every position of
    /// this tree, working on a deep copy of it.
    pub fn zipper_iter(&self) -> (it: BreadthFirstTreeZipperIterator<T>)
        ensures
            it.wf(),
            it.root_model() == self@,
            it.queued_models() == seq![self@],
            it.queued_crumbs() == seq![Seq::<TreeCrumbModel<T>>::empty()],
            it.remaining() == bfs(self@),
    {
        BreadthFirstTreeZipperIterator::new(self.duplicate())
    }

    /// A deep copy of this tree, with the same model.
    pub fn duplicate(&self) -> (r: Self)
        ensures
            r@ == self@,
        decreases *self,
    {
        match self {
            Tree::Leaf(v) => Tree::Leaf(*v),
            Tree::Node(v, cs) => {
                let copies = duplicate_range(cs, 0, cs.len());
                proof {
                    assert(cs@.subrange(0, cs@.len() as int) =~= cs@);
                }
                Tree::Node(*v, copies)
            },
        }
    }
}

/// Deep copies of a crumb stack, each crumb with the same model.
fn duplicate_crumbs<T: Copy>(cs: &Vec<TreeCrumb<T>>) -> (r: Vec<TreeCrumb<T>>)
    ensures
        r@.len() == cs@.len(),
        forall|i: int| 0 <= i < r@.len() ==> (#[trigger] r@[i])@ == cs@[i]@,
{
    let mut out: Vec<TreeCrumb<T>> = Vec::new();
    let n = cs.len();
    for i in 0..n
        invariant
            n == cs@.len(),
            out@.len() == i,
            forall|j: int| 0 <= j < i ==> (#[trigger] out@[j])@ == cs@[j]@,
    {
        let c = &cs[i];
        let left = duplicate_range(&c.left, 0, c.left.len());
        let right = duplicate_range(&c.right, 0, c.right.len());
        proof {
            assert(c.left@.subrange(0, c.left@.len() as int) =~= c.left@);
            assert(c.right@.subrange(0, c.right@.len() as int) =~= c.right@);
        }
        out.push(TreeCrumb { item: c.item, left, right });
    }
    out
}

/// Splicing `focus` back through every crumb of `crumbs`, innermost (last)
/// crumb first, rebuilds exactly the tree `root`.
pub open spec fn rebuilds_to<T>(
    root: TreeModel<T>,
    focus: TreeModel<T>,
    crumbs: Seq<TreeCrumbModel<T>>,
) -> bool
    decreases crumbs.len(),
{
    if crumbs.len() == 0 {
        root == focus
    } else {
        rebuilds_to(
            root,
            TreeModel::Node(
                crumbs.last().item,
                crumbs.last().left + seq![focus] + crumbs.last().right,
            ),
            crumbs.drop_last(),
        )
    }
}

/// The models of a sequence of crumbs, in order.
pub open spec fn crumbs_view<T>(s: Seq<TreeCrumb<T>>) -> Seq<TreeCrumbModel<T>> {
    Seq::new(s.len(), |i: int| s[i]@)
}

/// The crumb stacks of the cursors queued for the children of a focus: for
/// the `k`-th child, the focus's own stack with one crumb on top recording
/// the focus's value and the siblings around position `k`.
pub open spec fn child_crumb_stacks<T>(
    stack: Seq<TreeCrumbModel<T>>,
    focus: TreeModel<T>,
) -> Seq<Seq<TreeCrumbModel<T>>> {
    Seq::new(
        focus.children().len(),
        |k: int|
            stack.push(
                TreeCrumbModel {
                    item: focus.value(),
                    left: focus.children().take(k),
                    right: focus.children().skip(k + 1),
                },
            ),
    )
}

/// A forest model splits at any position into the part before, the tree at
/// that position, and the part after.
proof fn lemma_forest_view_split<T>(f: Seq<Tree<T>>, i: int)
    requires
        0 <= i < f.len(),
    ensures
        forest_view(f) == forest_view(f.take(i)) + seq![tree_view(f[i])] + forest_view(
            f.skip(i + 1),
        ),
{
    lemma_forest_view_len(f);
    lemma_forest_view_len(f.take(i));
    lemma_forest_view_len(f.skip(i + 1));
    assert forall|j: int| 0 <= j < f.len() implies #[trigger] forest_view(f)[j] == (forest_view(
        f.take(i),
    ) + seq![tree_view(f[i])] + forest_view(f.skip(i + 1)))[j] by {
        lemma_forest_view_index(f, j);
        if j < i {
            lemma_forest_view_index(f.take(i), j);
        } else if j > i {
            lemma_forest_view_index(f.skip(i + 1), j - i - 1);
        }
    }
    assert(forest_view(f) =~= forest_view(f.take(i)) + seq![tree_view(f[i])] + forest_view(
        f.skip(i + 1),
    ));
}

impl<T> TreeZipper<T> {
    /// Pops one crumb and reassembles the parent node with the focus spliced
    /// back among its original siblings; `None` at the root.
    pub fn go_up(self) -> (r: Option<Self>)
        ensures
            match r {
                Some(z) => ascended(self, z),
                None => self.1@.len() == 0,
            },
    {
        let TreeZipper(focused, mut crumbs) = self;
        match crumbs.pop() {
            None => None,
            Some(crumb) => {
                let TreeCrumb { item, mut left, mut right } = crumb;
                left.push(focused);
                left.append(&mut right);
                let z = TreeZipper(Tree::Node(item, left), crumbs);
                proof {
                    assert(z.0.children() =~= self.1@.last().left_trees() + seq![self.0]
                        + self.1@.last().right_trees());
                }
                Some(z)
            },
        }
    }

    /// The parent values on the crumb stack, outermost first.
    pub fn get_ancestors(&self) -> (r: Vec<&T>)
        ensures
            r@.len() == self.1@.len(),
            forall|i: int| 0 <= i < r@.len() ==> *(#[trigger] r@[i]) == self.1@[i].crumb_value(),
    {
        let mut out: Vec<&T> = Vec::new();
        let n = self.1.len();
        for i in 0..n
            invariant
                n == self.1@.len(),
                out@.len() == i,
                forall|j: int| 0 <= j < i ==> *(#[trigger] out@[j]) == self.1@[j].crumb_value(),
        {
            let c = &self.1[i];
            out.push(&c.item);
        }
        out
    }

    /// Moves to the first child of the focus that is itself a `Node` and
    /// whose value satisfies `match_fn`, pushing a crumb that records the
    /// split sibling lists; `None` when the focus is a leaf or no child
    /// matches.  The zipper is consumed either way.
    pub fn go_to<F: Fn(&T) -> bool>(self, match_fn: F) -> (r: Option<Self>)
        requires
            forall|t: &T| #[trigger] match_fn.requires((t,)),
        ensures
            match r {
                Some(z) => exists|i: int|
                    {
                        &&& #[trigger] descended(self, z, i)
                        &&& z.0 is Node
                        &&& exists|a: &T| *a == z.0.value() && call_ensures(match_fn, (a,), true)
                        &&& forall|j: int|
                            0 <= j < i && (#[trigger] self.0.children()[j]) is Node
                                ==> exists|a: &T|
                                *a == self.0.children()[j].value() && call_ensures(
                                    match_fn,
                                    (a,),
                                    false,
                                )
                    },
                None => forall|j: int|
                    0 <= j < self.0.children().len() && (#[trigger] self.0.children()[j]) is Node
                        ==> exists|a: &T|
                        *a == self.0.children()[j].value() && call_ensures(match_fn, (a,), false),
            },
    {
        let TreeZipper(focused, crumbs) = self;
        match focused {
            Tree::Leaf(_) => None,
            Tree::Node(item, children) => {
                let ghost children0 = children@;
                let n = children.len();
                let mut i: usize = 0;
                let mut found = false;
                while i < n && !found
                    invariant
                        n == children@.len(),
                        i <= n,
                        forall|t: &T| #[trigger] match_fn.requires((t,)),
                        found ==> i < n && children@[i as int] is Node && exists|a: &T|
                            *a == children@[i as int].value() && call_ensures(match_fn, (a,), true),
                        forall|j: int|
                            0 <= j < i && (#[trigger] children@[j]) is Node ==> exists|a: &T|
                                *a == children@[j].value() && call_ensures(match_fn, (a,), false),
                    decreases n - i, (if found { 0int } else { 1int }),
                {
                    let child_ref = &children[i];
                    match child_ref {
                        Tree::Node(child_item, _) => {
                            let hit = match_fn(child_item);
                            proof {
                                assert(*child_item == children@[i as int].value());
                            }
                            if hit {
                                found = true;
                            } else {
                                i += 1;
                            }
                        },
                        _ => {
                            i += 1;
                        },
                    }
                }
                if !found {
                    return None;
                }
                let mut left = children;
                let mut right = left.split_off(i);
                let focus = right.remove(0);
                let ghost leftv = left@;
                let ghost rightv = right@;
                let mut new_crumbs = crumbs;
                new_crumbs.push(TreeCrumb { item, left, right });
                let z = TreeZipper(focus, new_crumbs);
                proof {
                    assert(self.0.children() == children0);
                    assert(leftv =~= children0.take(i as int));
                    assert(rightv =~= children0.skip(i as int + 1));
                    assert(focus == children0[i as int]);
                    assert(z.1@.last().crumb_value() == self.0.value());
                    assert(z.1@.last().left_trees() == leftv);
                    assert(z.1@.last().right_trees() == rightv);
                    assert(z.1@.drop_last() =~= self.1@);
                    assert(descended(self, z, i as int));
                }
                Some(z)
            },
        }
    }
}

/// A breadth-first traversal that yields a zipper for every position of a
/// tree.  It owns the tree and copies the sibling lists for each yielded
/// cursor, so the element type must be `Copy`.
pub struct BreadthFirstTreeZipperIterator<T>(VecDeque<TreeZipper<T>>, Ghost<TreeModel<T>>);

impl<T: Copy> BreadthFirstTreeZipperIterator<T> {
    /// The model of the tree this traversal started from.
    pub closed spec fn root_model(self) -> TreeModel<T> {
        self.1@
    }

    /// The models of the focuses still queued, front first.
    pub closed spec fn queued_models(self) -> Seq<TreeModel<T>> {
        Seq::new(self.0@.len(), |i: int| self.0@[i].0@)
    }

    /// The crumb stacks of the cursors still queued, front first.
    pub closed spec fn queued_crumbs(self) -> Seq<Seq<TreeCrumbModel<T>>> {
        Seq::new(self.0@.len(), |i: int| crumbs_view(self.0@[i].1@))
    }

    /// Every queued zipper rebuilds the root this traversal started from.
    pub closed spec fn wf(self) -> bool {
        forall|i: int|
            0 <= i < self.0@.len() ==> rebuilds_to(
                self.1@,
                (#[trigger] self.0@[i]).0@,
                crumbs_view(self.0@[i].1@),
            )
    }

    /// The focus values this traversal has yet to produce, breadth first.
    pub open spec fn remaining(self) -> Seq<T> {
        bfs_forest(self.queued_models())
    }

    pub fn new(root: Tree<T>) -> (it: Self)
        ensures
            it.wf(),
            it.root_model() == root@,
            it.queued_models() == seq![root@],
            it.queued_crumbs() == seq![Seq::<TreeCrumbModel<T>>::empty()],
            it.remaining() == bfs(root@),
    {
        let ghost root_model = root@;
        let root_zipper = TreeZipper(root, Vec::new());
        let mut queue: VecDeque<TreeZipper<T>> = VecDeque::new();
        queue.push_back(root_zipper);
        let it = BreadthFirstTreeZipperIterator(queue, Ghost(root_model));
        proof {
            assert(it.queued_models() =~= seq![root_model]);
            assert(crumbs_view(Seq::<TreeCrumb<T>>::empty()) =~= Seq::<
                TreeCrumbModel<T>,
            >::empty());
            assert(it.queued_crumbs() =~= seq![Seq::<TreeCrumbModel<T>>::empty()]);
        }
        it
    }

    /// Produces a zipper focused at the next position in breadth-first order,
    /// queueing one zipper per child of that position.  Every yielded zipper
    /// rebuilds the original tree crumb by crumb.
    pub fn next(&mut self) -> (r: Option<TreeZipper<T>>)
        requires
            old(self).wf(),
        ensures
            final(self).wf(),
            final(self).root_model() == old(self).root_model(),
            match r {
                Some(z) => {
                    &&& old(self).queued_models().len() > 0
                    &&& z.0@ == old(self).queued_models()[0]
                    &&& crumbs_view(z.1@) == old(self).queued_crumbs()[0]
                    &&& final(self).queued_models() == old(self).queued_models().drop_first()
                        + z.0@.children()
                    &&& final(self).queued_crumbs() == old(self).queued_crumbs().drop_first()
                        + child_crumb_stacks(crumbs_view(z.1@), z.0@)
                    &&& z.0@.value() == old(self).remaining()[0]
                    &&& final(self).remaining() == old(self).remaining().drop_first()
                    &&& rebuilds_to(old(self).root_model(), z.0@, crumbs_view(z.1@))
                },
                None => {
                    &&& old(self).queued_models().len() == 0
                    &&& final(self).queued_models() == old(self).queued_models()
                    &&& final(self).queued_crumbs() == old(self).queued_crumbs()
                },
            },
    {
        match self.0.pop_front() {
            None => {
                proof {
                    assert(final(self).queued_models() =~= old(self).queued_models());
                    assert(final(self).queued_crumbs() =~= old(self).queued_crumbs());
                }
                None
            },
            Some(current) => {
                proof {
                    assert(old(self).queued_models()[0] == current.0@);
                    assert(old(self).queued_crumbs()[0] == crumbs_view(current.1@));
                }
                match &current.0 {
                    Tree::Leaf(_) => {
                        proof {
                            assert(current.0@ is Leaf);
                            assert(current.0@.children() =~= Seq::<TreeModel<T>>::empty());
                            assert(old(self).queued_models().drop_first() + current.0@.children()
                                =~= self.queued_models());
                            assert(child_crumb_stacks(crumbs_view(current.1@), current.0@) =~= Seq::<
                                Seq<TreeCrumbModel<T>>,
                            >::empty());
                            assert(old(self).queued_crumbs().drop_first() + child_crumb_stacks(
                                crumbs_view(current.1@),
                                current.0@,
                            ) =~= self.queued_crumbs());
                        }
                        Some(current)
                    },
                    Tree::Node(item, children) => {
                        let ghost popped = self.queued_models();
                        let ghost popped_crumbs = self.queued_crumbs();
                        let ghost child_models = forest_view(children@);
                        let ghost child_stacks = child_crumb_stacks(
                            crumbs_view(current.1@),
                            current.0@,
                        );
                        proof {
                            lemma_forest_view_len(children@);
                            assert(popped + child_models.subrange(0, 0) =~= popped);
                            assert(popped_crumbs + child_stacks.take(0) =~= popped_crumbs);
                            assert(popped =~= old(self).queued_models().drop_first());
                            assert(popped_crumbs =~= old(self).queued_crumbs().drop_first());
                        }
                        let n = children.len();
                        for k in 0..n
                            invariant
                                old(self).wf(),
                                rebuilds_to(
                                    old(self).root_model(),
                                    current.0@,
                                    crumbs_view(current.1@),
                                ),
                                current.0 is Node,
                                current.0@ == TreeModel::Node(
                                    current.0.value(),
                                    forest_view(current.0.children()),
                                ),
                                n == children@.len(),
                                children@ == current.0.children(),
                                item == current.0.value(),
                                child_models.len() == n,
                                child_models == forest_view(children@),
                                self.1 == old(self).1,
                                self.0@.len() == popped.len() + k,
                                self.queued_models() == popped + child_models.subrange(
                                    0,
                                    k as int,
                                ),
                                child_stacks == child_crumb_stacks(
                                    crumbs_view(current.1@),
                                    current.0@,
                                ),
                                child_stacks.len() == n,
                                self.queued_crumbs() == popped_crumbs + child_stacks.take(k as int),
                                self.wf(),
                        {
                            let child = children[k].duplicate();
                            let left = duplicate_range(children, 0, k);
                            let right = duplicate_range(children, k + 1, n);
                            let mut zcrumbs = duplicate_crumbs(&current.1);
                            let ghost zcv = crumbs_view(zcrumbs@);
                            proof {
                                assert(zcv =~= crumbs_view(current.1@));
                            }
                            zcrumbs.push(TreeCrumb { item: *item, left, right });
                            let z = TreeZipper(child, zcrumbs);
                            proof {
                                lemma_forest_view_index(children@, k as int);
                                assert(z.1@.last()@ == TreeCrumbModel {
                                    item: current.0.value(),
                                    left: forest_view(children@.take(k as int)),
                                    right: forest_view(children@.skip(k as int + 1)),
                                });
                                assert(crumbs_view(z.1@) =~= zcv.push(z.1@.last()@));
                                lemma_forest_view_take(children@, k as int);
                                lemma_forest_view_skip(children@, k as int + 1);
                                assert(z.1@.last()@ == TreeCrumbModel {
                                    item: current.0@.value(),
                                    left: current.0@.children().take(k as int),
                                    right: current.0@.children().skip(k as int + 1),
                                });
                                assert(crumbs_view(z.1@) == child_stacks[k as int]);
                                lemma_forest_view_split(children@, k as int);
                                assert(TreeModel::Node(
                                    z.1@.last()@.item,
                                    z.1@.last()@.left + seq![z.0@] + z.1@.last()@.right,
                                ) == current.0@);
                                assert(crumbs_view(z.1@).drop_last() =~= zcv);
                                assert(rebuilds_to(
                                    old(self).root_model(),
                                    z.0@,
                                    crumbs_view(z.1@),
                                ));
                            }
                            let ghost prevq = self.0@;
                            self.0.push_back(z);
                            proof {
                                assert(self.queued_models() =~= (popped + child_models.subrange(
                                    0,
                                    k as int,
                                )).push(tree_view(children@[k as int])));
                                assert((popped + child_models.subrange(0, k as int)).push(
                                    child_models[k as int],
                                ) =~= popped + child_models.subrange(0, k as int + 1));
                                assert(self.queued_crumbs() =~= (popped_crumbs + child_stacks.take(
                                    k as int,
                                )).push(crumbs_view(z.1@)));
                                assert((popped_crumbs + child_stacks.take(k as int)).push(
                                    child_stacks[k as int],
                                ) =~= popped_crumbs + child_stacks.take(k as int + 1));
                                assert forall|j: int| 0 <= j < self.0@.len() implies rebuilds_to(
                                    self.1@,
                                    (#[trigger] self.0@[j]).0@,
                                    crumbs_view(self.0@[j].1@),
                                ) by {
                                    if j < prevq.len() {
                                        assert(self.0@[j] == prevq[j]);
                                    } else {
                                        assert(self.0@[j] == z);
                                    }
                                }
                            }
                        }
                        proof {
                            assert(child_models.subrange(0, n as int) =~= child_models);
                            assert(current.0@.children() == forest_view(children@));
                            assert(old(self).queued_models().drop_first() + current.0@.children()
                                =~= self.queued_models());
                            assert(child_stacks.take(n as int) =~= child_stacks);
                            assert(old(self).queued_crumbs().drop_first() + child_stacks
                                =~= self.queued_crumbs());
                        }
                        Some(current)
                    },
                }
            },
        }
    }
}

} // verus!
