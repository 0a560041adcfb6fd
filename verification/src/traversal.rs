//! Traversal of trees whose nodes stand in a file.
//!
//! A node is known by its position. Nothing keeps a damaged file from holding nodes that lead back
//! to themselves, so a traversal goes down only as many nodes as a file of that length can hold:
//! more would repeat a node, and such a path does not end.

use vstd::prelude::*;
use crate::error::{ErrorModel, FormatError};

verus! {

/// What a visit to a node gives: what a leaf holds or why it cannot be read, or the positions of the
/// children of an inner node.
pub enum Visit<A> {
    Leaf(Result<Seq<A>, ErrorModel>),
    Inner(Seq<int>),
}

/// The error of a traversal that goes too deep.
pub open spec fn too_deep() -> ErrorModel {
    ErrorModel::Plain(FormatError::NestingDepthExceeded)
}

/// What the leaves below the node at `p` hold, one after the other, with at most `depth` nodes above
/// each of them.
pub open spec fn found<A>(visit: spec_fn(int) -> Visit<A>, p: int, depth: nat) -> Result<
    Seq<A>,
    ErrorModel,
>
    decreases depth, 0int,
{
    match visit(p) {
        Visit::Leaf(r) => r,
        Visit::Inner(children) => if depth == 0 {
            Err(too_deep())
        } else {
            found_from(visit, children, 0, (depth - 1) as nat)
        },
    }
}

/// What the leaves below the children from the `i`-th on hold.
pub open spec fn found_from<A>(
    visit: spec_fn(int) -> Visit<A>,
    children: Seq<int>,
    i: int,
    depth: nat,
) -> Result<Seq<A>, ErrorModel>
    decreases depth, children.len() - i + 1,
{
    if i >= children.len() {
        Ok(Seq::empty())
    } else {
        match found(visit, children[i], depth) {
            Err(e) => Err(e),
            Ok(first) => match found_from(visit, children, i + 1, depth) {
                Err(e) => Err(e),
                Ok(rest) => Ok(first + rest),
            },
        }
    }
}

// ---- Traversal with a stack ----

/// The children that are left at one level: those of a node from an index on.
pub type Level = (Seq<int>, int);

/// What is found in all, where the leaves so far hold `done` and the levels are left, the lowest one
/// last.
pub open spec fn resumed<A>(
    visit: spec_fn(int) -> Visit<A>,
    levels: Seq<Level>,
    done: Seq<A>,
    limit: nat,
) -> Result<Seq<A>, ErrorModel>
    decreases levels.len(),
{
    if levels.len() == 0 {
        Ok(done)
    } else {
        let (children, i) = levels.last();
        match found_from(visit, children, i, (limit - levels.len()) as nat) {
            Err(e) => Err(e),
            Ok(more) => resumed(visit, levels.drop_last(), done + more, limit),
        }
    }
}

/// A bound on the number of steps for the node at `p`.
pub open spec fn steps<A>(visit: spec_fn(int) -> Visit<A>, p: int, depth: nat) -> nat
    decreases depth, 0int,
{
    match visit(p) {
        Visit::Leaf(r) => 2,
        Visit::Inner(children) => if depth == 0 {
            2
        } else {
            2 + steps_from(visit, children, 0, (depth - 1) as nat)
        },
    }
}

/// A bound on the number of steps for the children from the `i`-th on.
pub open spec fn steps_from<A>(
    visit: spec_fn(int) -> Visit<A>,
    children: Seq<int>,
    i: int,
    depth: nat,
) -> nat
    decreases depth, children.len() - i + 1,
{
    if i >= children.len() {
        0
    } else {
        steps(visit, children[i], depth) + steps_from(visit, children, i + 1, depth)
    }
}

/// A bound on the number of steps that are left.
pub open spec fn steps_left<A>(
    visit: spec_fn(int) -> Visit<A>,
    levels: Seq<Level>,
    limit: nat,
) -> nat
    decreases levels.len(),
{
    if levels.len() == 0 {
        0
    } else {
        let (children, i) = levels.last();
        1 + steps_from(visit, children, i, (limit - levels.len()) as nat) + steps_left(
            visit,
            levels.drop_last(),
            limit,
        )
    }
}

/// The levels after a step to the next child.
pub open spec fn advanced(levels: Seq<Level>) -> Seq<Level> {
    let (children, i) = levels.last();
    levels.drop_last().push((children, i + 1))
}

/// A level without children is left.
pub proof fn lemma_ascend<A>(
    visit: spec_fn(int) -> Visit<A>,
    levels: Seq<Level>,
    done: Seq<A>,
    limit: nat,
)
    requires
        0 < levels.len() <= limit,
        levels.last().1 >= levels.last().0.len(),
    ensures
        resumed(visit, levels, done, limit) == resumed(visit, levels.drop_last(), done, limit),
        steps_left(visit, levels.drop_last(), limit) < steps_left(visit, levels, limit),
{
    assert(done + Seq::<A>::empty() =~= done);
}

/// A leaf is read, or it stops the traversal.
pub proof fn lemma_leaf<A>(
    visit: spec_fn(int) -> Visit<A>,
    levels: Seq<Level>,
    done: Seq<A>,
    limit: nat,
)
    requires
        0 < levels.len() <= limit,
        0 <= levels.last().1 < levels.last().0.len(),
        visit(levels.last().0[levels.last().1]) is Leaf,
    ensures
        match visit(levels.last().0[levels.last().1])->Leaf_0 {
            Ok(more) => resumed(visit, levels, done, limit) == resumed(
                visit,
                advanced(levels),
                done + more,
                limit,
            ),
            Err(e) => resumed(visit, levels, done, limit) == Err::<Seq<A>, ErrorModel>(e),
        },
        steps_left(visit, advanced(levels), limit) < steps_left(visit, levels, limit),
{
    reveal_with_fuel(found, 2);
    reveal_with_fuel(found_from, 2);
    reveal_with_fuel(steps, 2);
    reveal_with_fuel(steps_from, 2);
    reveal_with_fuel(resumed, 3);
    reveal_with_fuel(steps_left, 3);
    let (children, i) = levels.last();
    let next = advanced(levels);
    let depth = (limit - levels.len()) as nat;
    assert(next.drop_last() =~= levels.drop_last());
    assert(next.last() == (children, i + 1));
    if let Ok(more) = visit(children[i])->Leaf_0 {
        if let Ok(rest) = found_from(visit, children, i + 1, depth) {
            assert(done + (more + rest) =~= done + more + rest);
        }
    }
}

/// The children of an inner node come next, or the traversal stops.
pub proof fn lemma_descend<A>(
    visit: spec_fn(int) -> Visit<A>,
    levels: Seq<Level>,
    done: Seq<A>,
    limit: nat,
)
    requires
        0 < levels.len() <= limit,
        0 <= levels.last().1 < levels.last().0.len(),
        visit(levels.last().0[levels.last().1]) is Inner,
    ensures
        levels.len() == limit ==> resumed(visit, levels, done, limit) == Err::<
            Seq<A>,
            ErrorModel,
        >(too_deep()),
        levels.len() < limit ==> {
            let below = visit(levels.last().0[levels.last().1])->Inner_0;
            let next = advanced(levels).push((below, 0int));
            &&& resumed(visit, levels, done, limit) == resumed(visit, next, done, limit)
            &&& steps_left(visit, next, limit) < steps_left(visit, levels, limit)
        },
{
    reveal_with_fuel(found, 2);
    reveal_with_fuel(found_from, 2);
    reveal_with_fuel(steps, 2);
    reveal_with_fuel(steps_from, 2);
    reveal_with_fuel(resumed, 3);
    reveal_with_fuel(steps_left, 3);
    let (children, i) = levels.last();
    let depth = (limit - levels.len()) as nat;
    if levels.len() < limit {
        let below = visit(children[i])->Inner_0;
        let mid = advanced(levels);
        let next = mid.push((below, 0int));
        assert(next.drop_last() =~= mid);
        assert(mid.drop_last() =~= levels.drop_last());
        assert(mid.last() == (children, i + 1));
        if let Ok(first) = found_from(visit, below, 0, (depth - 1) as nat) {
            if let Ok(rest) = found_from(visit, children, i + 1, depth) {
                assert(done + (first + rest) =~= done + first + rest);
            }
        }
    }
}

/// A traversal starts with the root alone.
pub proof fn lemma_start<A>(visit: spec_fn(int) -> Visit<A>, p: int, limit: nat)
    ensures
        match visit(p) {
            Visit::Leaf(r) => found(visit, p, limit) == r,
            Visit::Inner(children) => if limit == 0 {
                found(visit, p, limit) == Err::<Seq<A>, ErrorModel>(too_deep())
            } else {
                found(visit, p, limit) == resumed(
                    visit,
                    seq![(children, 0int)],
                    Seq::empty(),
                    limit,
                )
            },
        },
{
    reveal_with_fuel(resumed, 2);
    if let Visit::Inner(children) = visit(p) {
        if limit > 0 {
            let levels: Seq<Level> = seq![(children, 0int)];
            assert(levels.drop_last() =~= Seq::<Level>::empty());
            if let Ok(all) = found_from(visit, children, 0, (limit - 1) as nat) {
                assert(Seq::<A>::empty() + all =~= all);
            }
        }
    }
}

/// The positions in a file that addresses stand for.
pub open spec fn positions(addresses: Seq<u64>) -> Seq<int> {
    Seq::new(addresses.len(), |i: int| (addresses[i] as usize) as int)
}

/// The children of a node from an index on.
struct Frame {
    children: Vec<u64>,
    next: usize,
}

impl Frame {
    spec fn level(self) -> Level {
        (positions(self.children@), self.next as int)
    }
}

/// The way from the root of a tree to the node that is visited next.
pub struct Path {
    frames: Vec<Frame>,
}

impl Path {
    /// The levels that are left.
    pub closed spec fn levels(&self) -> Seq<Level> {
        Seq::new(self.frames@.len(), |i: int| self.frames@[i].level())
    }

    /// The way to the first child of the root.
    pub fn new(children: Vec<u64>) -> (path: Self)
        ensures
            path.levels() == seq![(positions(children@), 0int)],
    {
        let mut frames: Vec<Frame> = Vec::new();
        frames.push(Frame { children, next: 0 });
        let path = Path { frames };
        assert(path.levels() =~= seq![(positions(children@), 0int)]);
        path
    }

    /// The number of levels.
    pub fn len(&self) -> (n: usize)
        ensures
            n == self.levels().len(),
    {
        self.frames.len()
    }

    /// Goes down to the children of a node.
    pub fn descend(&mut self, children: Vec<u64>)
        ensures
            final(self).levels() == old(self).levels().push((positions(children@), 0int)),
    {
        let ghost below = (positions(children@), 0int);
        self.frames.push(Frame { children, next: 0 });
        assert(self.levels() =~= old(self).levels().push(below));
    }

    /// The address of the next child, or none if all have been visited. Levels without children are
    /// left.
    pub fn next_child<A>(
        &mut self,
        Ghost(visit): Ghost<spec_fn(int) -> Visit<A>>,
        Ghost(done): Ghost<Seq<A>>,
        Ghost(limit): Ghost<nat>,
    ) -> (r: (Option<u64>, Ghost<Seq<Level>>))
        requires
            old(self).levels().len() <= limit,
        ensures
            resumed(visit, old(self).levels(), done, limit) == resumed(visit, r.1@, done, limit),
            steps_left(visit, r.1@, limit) <= steps_left(visit, old(self).levels(), limit),
            match r.0 {
                None => r.1@.len() == 0 && final(self).levels().len() == 0,
                Some(address) => {
                    let levels = r.1@;
                    &&& 0 < levels.len() <= limit
                    &&& 0 <= levels.last().1 < levels.last().0.len()
                    &&& levels.last().0[levels.last().1] == (address as usize) as int
                    &&& final(self).levels() == advanced(levels)
                },
            },
    {
        while self.frames.len() > 0
            invariant
                self.levels().len() <= limit,
                resumed(visit, old(self).levels(), done, limit) == resumed(
                    visit,
                    self.levels(),
                    done,
                    limit,
                ),
                steps_left(visit, self.levels(), limit) <= steps_left(
                    visit,
                    old(self).levels(),
                    limit,
                ),
            decreases self.frames@.len(),
        {
            let ghost levels = self.levels();
            match self.frames.pop() {
                Some(frame) => {
                    assert(self.levels() =~= levels.drop_last());
                    assert(levels.last() == frame.level());
                    if frame.next < frame.children.len() {
                        let address: u64 = frame.children[frame.next];
                        let Frame { children, next } = frame;
                        self.frames.push(Frame { children, next: next + 1 });
                        assert(self.levels() =~= advanced(levels));
                        return (Some(address), Ghost(levels));
                    }
                    proof {
                        lemma_ascend(visit, levels, done, limit);
                    }
                },
                None => {},
            }
        }
        assert(self.levels() =~= Seq::<Level>::empty());
        (None, Ghost(self.levels()))
    }
}

// ---- The bound on the depth ----

/// Whether a traversal from `p` ends within the given depth.
pub open spec fn ends<A>(visit: spec_fn(int) -> Visit<A>, p: int, depth: nat) -> bool {
    found(visit, p, depth) != Err::<Seq<A>, ErrorModel>(too_deep())
}

/// What is found does not depend on the depth, once it suffices.
pub proof fn lemma_depth_suffices<A>(visit: spec_fn(int) -> Visit<A>, p: int, a: nat, b: nat)
    requires
        a <= b,
        ends(visit, p, a),
    ensures
        found(visit, p, b) == found(visit, p, a),
    decreases a, 0int,
{
    if let Visit::Inner(children) = visit(p) {
        lemma_depth_suffices_from(visit, children, 0, (a - 1) as nat, (b - 1) as nat);
    }
}

proof fn lemma_depth_suffices_from<A>(
    visit: spec_fn(int) -> Visit<A>,
    children: Seq<int>,
    i: int,
    a: nat,
    b: nat,
)
    requires
        a <= b,
        found_from(visit, children, i, a) != Err::<Seq<A>, ErrorModel>(too_deep()),
    ensures
        found_from(visit, children, i, b) == found_from(visit, children, i, a),
    decreases a, children.len() - i + 1,
{
    if i < children.len() {
        lemma_depth_suffices(visit, children[i], a, b);
        if found(visit, children[i], a) is Ok {
            lemma_depth_suffices_from(visit, children, i + 1, a, b);
        }
    }
}

/// A child from the `i`-th on for which depth `k + 1` suffices and depth `k` does not.
proof fn lemma_deepest_child<A>(
    visit: spec_fn(int) -> Visit<A>,
    children: Seq<int>,
    i: int,
    k: nat,
) -> (c: int)
    requires
        0 <= i,
        found_from(visit, children, i, k + 1) != Err::<Seq<A>, ErrorModel>(too_deep()),
        found_from(visit, children, i, k) == Err::<Seq<A>, ErrorModel>(too_deep()),
    ensures
        ends(visit, c, k + 1),
        !ends(visit, c, k),
    decreases children.len() - i,
{
    let c = children[i];
    if ends(visit, c, k) {
        lemma_depth_suffices(visit, c, k, k + 1);
        lemma_deepest_child(visit, children, i + 1, k)
    } else {
        c
    }
}

/// Inner nodes of every height up to that of the node at `p`.
proof fn lemma_heights<A>(visit: spec_fn(int) -> Visit<A>, p: int, m: nat) -> (nodes: Seq<int>)
    requires
        m > 0,
        ends(visit, p, m),
        !ends(visit, p, (m - 1) as nat),
        forall|q: int|
            #[trigger] visit(q) != Visit::Leaf(Err::<Seq<A>, ErrorModel>(too_deep())),
    ensures
        nodes.len() == m,
        forall|k: int|
            0 <= k < m ==> visit(#[trigger] nodes[k]) is Inner && ends(
                visit,
                nodes[k],
                (k + 1) as nat,
            ) && !ends(visit, nodes[k], k as nat),
    decreases m,
{
    assert(visit(p) is Inner);
    if m == 1 {
        seq![p]
    } else {
        let children = visit(p)->Inner_0;
        let c = lemma_deepest_child(visit, children, 0, (m - 2) as nat);
        let below = lemma_heights(visit, c, (m - 1) as nat);
        below.push(p)
    }
}

/// As many different numbers below `n` are at most `n`.
proof fn lemma_distinct(nodes: Seq<int>, n: nat)
    requires
        nodes.no_duplicates(),
        forall|k: int| 0 <= k < nodes.len() ==> 0 <= #[trigger] nodes[k] < n,
    ensures
        nodes.len() <= n,
{
    nodes.unique_seq_to_set();
    let range = vstd::set_lib::set_int_range(0, n as int);
    vstd::set_lib::lemma_int_range(0, n as int);
    assert(nodes.to_set().subset_of(range));
    vstd::set_lib::lemma_len_subset(nodes.to_set(), range);
}

/// The first depth that suffices.
proof fn lemma_least<A>(visit: spec_fn(int) -> Visit<A>, p: int, n: nat, b: nat) -> (m: nat)
    requires
        n < b,
        !ends(visit, p, n),
        ends(visit, p, b),
    ensures
        n < m <= b,
        ends(visit, p, m),
        !ends(visit, p, (m - 1) as nat),
    decreases b,
{
    if ends(visit, p, (b - 1) as nat) {
        lemma_least(visit, p, n, (b - 1) as nat)
    } else {
        b
    }
}

/// If a traversal ends at all, then a depth of as many nodes as there are positions suffices, and
/// what is found is the same.
pub proof fn law_traversal_ends<A>(visit: spec_fn(int) -> Visit<A>, n: nat, p: int, depth: nat)
    requires
        forall|q: int| #[trigger] visit(q) is Inner ==> 0 <= q < n,
        forall|q: int|
            #[trigger] visit(q) != Visit::Leaf(Err::<Seq<A>, ErrorModel>(too_deep())),
        ends(visit, p, depth),
    ensures
        found(visit, p, n) == found(visit, p, depth),
{
    if ends(visit, p, n) {
        if depth <= n {
            lemma_depth_suffices(visit, p, depth, n);
        } else {
            lemma_depth_suffices(visit, p, n, depth);
        }
    } else {
        if depth <= n {
            lemma_depth_suffices(visit, p, depth, n);
        }
        let m = lemma_least(visit, p, n, depth);
        let nodes = lemma_heights(visit, p, m);
        assert forall|j: int, k: int|
            0 <= j < k < nodes.len() implies nodes[j] != nodes[k] by {
            if nodes[j] == nodes[k] {
                lemma_depth_suffices(visit, nodes[j], (j + 1) as nat, k as nat);
            }
        }
        assert(nodes.no_duplicates());
        assert forall|k: int| 0 <= k < nodes.len() implies 0 <= #[trigger] nodes[k] < n by {
            assert(visit(nodes[k]) is Inner);
        }
        lemma_distinct(nodes, n);
    }
}

// ---- Trees ----

/// A tree: leaves that hold items, and inner nodes with the positions of their children.
pub enum Tree<A> {
    Leaf(Seq<A>),
    Inner(Seq<int>, Seq<Tree<A>>),
}

/// The items of all leaves of a tree, from left to right.
pub open spec fn leaves<A>(t: Tree<A>) -> Seq<A>
    decreases t, 0int,
{
    match t {
        Tree::Leaf(items) => items,
        Tree::Inner(places, children) => leaves_to(children, children.len() as int),
    }
}

/// The items of all leaves of the first `n` trees.
pub open spec fn leaves_to<A>(trees: Seq<Tree<A>>, n: int) -> Seq<A>
    decreases trees, n,
{
    if 0 < n <= trees.len() {
        leaves_to(trees, n - 1) + leaves(trees[n - 1])
    } else {
        Seq::empty()
    }
}

/// Whether visits from `p` on show the tree `t`.
pub open spec fn shows<A>(visit: spec_fn(int) -> Visit<A>, p: int, t: Tree<A>) -> bool
    decreases t,
{
    match t {
        Tree::Leaf(items) => visit(p) == Visit::Leaf(Ok::<Seq<A>, ErrorModel>(items)),
        Tree::Inner(places, children) => {
            &&& visit(p) == Visit::<A>::Inner(places)
            &&& places.len() == children.len()
            &&& forall|i: int|
                0 <= i < children.len() ==> shows(visit, places[i], #[trigger] children[i])
        },
    }
}

/// The number of inner nodes on the longest way to a leaf.
pub open spec fn height<A>(t: Tree<A>) -> nat
    decreases t, 0int,
{
    match t {
        Tree::Leaf(items) => 0,
        Tree::Inner(places, children) => 1 + height_to(children, children.len() as int),
    }
}

/// The largest height of the first `n` trees.
pub open spec fn height_to<A>(trees: Seq<Tree<A>>, n: int) -> nat
    decreases trees, n,
{
    if 0 < n <= trees.len() {
        let before = height_to(trees, n - 1);
        let last = height(trees[n - 1]);
        if last > before {
            last
        } else {
            before
        }
    } else {
        0
    }
}

/// The items of all leaves of the trees from the `i`-th on.
spec fn leaves_from<A>(trees: Seq<Tree<A>>, i: int) -> Seq<A>
    decreases trees.len() - i,
{
    if 0 <= i < trees.len() {
        leaves(trees[i]) + leaves_from(trees, i + 1)
    } else {
        Seq::empty()
    }
}

proof fn lemma_leaves_split<A>(trees: Seq<Tree<A>>, i: int)
    requires
        0 <= i <= trees.len(),
    ensures
        leaves_to(trees, trees.len() as int) == leaves_to(trees, i) + leaves_from(trees, i),
    decreases trees.len() - i,
{
    if i < trees.len() {
        lemma_leaves_split(trees, i + 1);
        assert(leaves_to(trees, i + 1) == leaves_to(trees, i) + leaves(trees[i]));
        assert(leaves_to(trees, i) + leaves(trees[i]) + leaves_from(trees, i + 1) =~= leaves_to(
            trees,
            i,
        ) + (leaves(trees[i]) + leaves_from(trees, i + 1)));
    } else {
        assert(leaves_to(trees, i) + leaves_from(trees, i) =~= leaves_to(trees, i));
    }
}

proof fn lemma_height_of<A>(trees: Seq<Tree<A>>, i: int, n: int)
    requires
        0 <= i < n <= trees.len(),
    ensures
        height(trees[i]) <= height_to(trees, n),
    decreases n,
{
    if i < n - 1 {
        lemma_height_of(trees, i, n - 1);
    }
}

proof fn lemma_found_tree<A>(visit: spec_fn(int) -> Visit<A>, p: int, t: Tree<A>, depth: nat)
    requires
        shows(visit, p, t),
        height(t) <= depth,
    ensures
        found(visit, p, depth) == Ok::<Seq<A>, ErrorModel>(leaves(t)),
    decreases t, 1int, 0int,
{
    if let Tree::Inner(places, children) = t {
        lemma_found_trees(visit, t, 0, (depth - 1) as nat);
        lemma_leaves_split(children, 0);
        assert(leaves_to(children, 0) + leaves_from(children, 0) =~= leaves_from(children, 0));
    }
}

proof fn lemma_found_trees<A>(visit: spec_fn(int) -> Visit<A>, t: Tree<A>, i: int, depth: nat)
    requires
        t is Inner,
        t->Inner_0.len() == t->Inner_1.len(),
        forall|k: int|
            0 <= k < t->Inner_1.len() ==> shows(visit, t->Inner_0[k], #[trigger] t->Inner_1[k]),
        height_to(t->Inner_1, t->Inner_1.len() as int) <= depth,
        0 <= i <= t->Inner_1.len(),
    ensures
        found_from(visit, t->Inner_0, i, depth) == Ok::<Seq<A>, ErrorModel>(
            leaves_from(t->Inner_1, i),
        ),
    decreases t, 0int, t->Inner_1.len() - i,
{
    let children = t->Inner_1;
    if i < children.len() {
        lemma_height_of(children, i, children.len() as int);
        assert(decreases_to!(t => children[i]));
        lemma_found_tree(visit, t->Inner_0[i], children[i], depth);
        lemma_found_trees(visit, t, i + 1, depth);
    }
}

/// Where visits show a tree, a traversal finds the items of all its leaves, from left to right,
/// whatever its height.
pub proof fn law_traversal_finds_all_leaves<A>(
    visit: spec_fn(int) -> Visit<A>,
    n: nat,
    p: int,
    t: Tree<A>,
)
    requires
        shows(visit, p, t),
        forall|q: int| #[trigger] visit(q) is Inner ==> 0 <= q < n,
        forall|q: int|
            #[trigger] visit(q) != Visit::Leaf(Err::<Seq<A>, ErrorModel>(too_deep())),
    ensures
        found(visit, p, n) == Ok::<Seq<A>, ErrorModel>(leaves(t)),
{
    lemma_found_tree(visit, p, t, height(t));
    law_traversal_ends(visit, n, p, height(t));
}

} // verus!
