//! The walk itself: expanding pending directories until none remain.
//!
//! The concurrent pool hands directories around through a channel, and
//! each worker expands one at a time; which worker expands which
//! directory has no bearing on what is collected. This module carries
//! that walk out over a snapshot of the tree — one node per entry, each
//! child numbered after its parent — with a single work list standing in
//! for the channel and the local slots. Its contracts pin down the two
//! partitions the walk produces, and the work loop is proved to drain:
//! for any finite tree it reaches the state the pool's termination
//! protocol detects, with no pending or outstanding work left.

use vstd::prelude::*;
use vstd::multiset::Multiset;
use crate::names::slash;
use crate::search::{
    is_result, opt_view, spec_contains, spec_exact, spec_ignored, spec_skip, Entry,
};
use crate::searchresult::{SearchResult, SearchResults};
use crate::structs::Search;

verus! {

broadcast use vstd::seq_lib::group_to_multiset_ensures;

/// Decides whether a worker that holds no local work, observes that no
/// worker is currently expanding a directory, and finds the shared work
/// channel empty may initiate pool shutdown. Once this holds, no new
/// work can appear: every pending directory would have been published
/// while the counter was still raised.
pub fn should_stop(has_local_work: bool, working: usize, channel_empty: bool) -> (r: bool)
    ensures
        r == (!has_local_work && working == 0 && channel_empty),
{
    !has_local_work && working == 0 && channel_empty
}

/// Places one discovered subdirectory: a worker keeps it as its own
/// next work when its local slot is free, and hands it back for the
/// shared channel otherwise — depth affinity locally, breadth shared.
/// The first component is the worker's new slot, the second what it
/// must publish.
pub fn place_work<T>(local: Option<T>, found: T) -> (r: (Option<T>, Option<T>))
    ensures
        match local {
            None => r.0 == Some(found) && r.1 is None,
            Some(l) => r.0 == Some(l) && r.1 == Some(found),
        },
{
    match local {
        None => (Some(found), None),
        Some(l) => (Some(l), Some(found)),
    }
}

/// One node of a filesystem snapshot: a base name, the node it lies in,
/// and what the probes reported about it.
pub struct FsNode {
    /// The entry's base name.
    pub name: Vec<u8>,
    /// The directory holding this entry, or nothing for a top-level node.
    pub parent: Option<usize>,
    /// Whether the type probe reported a directory; false on a failed probe.
    pub is_dir: bool,
    /// The platform's hidden-attribute bit.
    pub attr_hidden: bool,
    /// Whether listing the directory succeeds; an unreadable directory
    /// contributes no children and is otherwise harmless.
    pub readable: bool,
}

/// A snapshot of a directory tree: nodes numbered so that every child
/// stands after its parent.
pub struct FsTree {
    /// The nodes, in topological order.
    pub nodes: Vec<FsNode>,
}

impl FsTree {
    /// Every node's parent stands strictly before it; this is what makes
    /// the snapshot a finite tree and the walk below terminate.
    pub open spec fn wf(self) -> bool {
        forall|i: int|
            0 <= i < self.nodes@.len() ==> (#[trigger] self.nodes@[i].parent matches Some(p) ==> p
                < i)
    }
}

/// The full path of a node: its ancestors' names joined by slashes.
pub open spec fn node_path(tree: FsTree, i: int) -> Seq<u8>
    decreases i,
        when tree.wf() && 0 <= i < tree.nodes@.len()
{
    match tree.nodes@[i].parent {
        None => tree.nodes@[i].name@,
        Some(p) => node_path(tree, p as int) + seq![slash()] + tree.nodes@[i].name@,
    }
}

/// Whether a node is one of the configured walk roots.
pub open spec fn seeded(roots: Seq<usize>, i: int) -> bool {
    exists|k: int| 0 <= k < roots.len() && roots[k] == i
}

/// Whether expanding a node lists children: it is a readable directory.
pub open spec fn expandable(tree: FsTree, p: int) -> bool {
    tree.nodes@[p].is_dir && tree.nodes@[p].readable
}

/// Whether the walk descends into a node it came across: a directory the
/// predicate does not pass over. In the snapshot a node's path is its
/// own canonical form.
pub open spec fn traversable(cfg: Search, tree: FsTree, i: int) -> bool {
    tree.nodes@[i].is_dir && !spec_skip(
        cfg,
        node_path(tree, i),
        Some(node_path(tree, i)),
        tree.nodes@[i].attr_hidden,
    )
}

/// Whether the walk enters a node: it is a root, or it lies in an
/// entered, readable directory and the predicate lets the walk descend
/// into it.
pub open spec fn entered(cfg: Search, tree: FsTree, roots: Seq<usize>, i: int) -> bool
    decreases i,
        when tree.wf() && 0 <= i < tree.nodes@.len()
{
    ||| seeded(roots, i)
    ||| (tree.nodes@[i].parent matches Some(p) && entered(cfg, tree, roots, p as int)
        && expandable(tree, p as int) && traversable(cfg, tree, i))
}

/// Whether a node's children are listed during the walk.
pub open spec fn lists_children(cfg: Search, tree: FsTree, roots: Seq<usize>, p: int) -> bool {
    0 <= p < tree.nodes@.len() && entered(cfg, tree, roots, p) && expandable(tree, p)
}

/// Whether the predicate runs on a node: its directory is entered and
/// listed. Roots themselves are never evaluated, only their contents.
pub open spec fn evaluated(cfg: Search, tree: FsTree, roots: Seq<usize>, j: int) -> bool {
    tree.nodes@[j].parent matches Some(p) && lists_children(cfg, tree, roots, p as int)
}

/// Whether an evaluated node would be recorded, in the partition picked
/// by `want_exact`.
pub open spec fn node_hits(cfg: Search, tree: FsTree, j: int, want_exact: bool) -> bool {
    &&& !spec_skip(
        cfg,
        node_path(tree, j),
        Some(node_path(tree, j)),
        tree.nodes@[j].attr_hidden,
    )
    &&& if want_exact {
        spec_exact(cfg, node_path(tree, j), tree.nodes@[j].is_dir)
    } else {
        spec_contains(cfg, node_path(tree, j), tree.nodes@[j].is_dir)
    }
}

/// Whether a node is recorded once the directories in `done` have been
/// expanded.
pub open spec fn counted(
    cfg: Search,
    tree: FsTree,
    done: Set<int>,
    j: int,
    want_exact: bool,
) -> bool {
    &&& tree.nodes@[j].parent matches Some(p) && done.contains(p as int) && expandable(
        tree,
        p as int,
    )
    &&& node_hits(cfg, tree, j, want_exact)
}

/// The matches recorded among the nodes below `k`, once the directories
/// in `done` have been expanded.
pub open spec fn results_upto(
    cfg: Search,
    tree: FsTree,
    done: Set<int>,
    k: int,
    want_exact: bool,
) -> Multiset<Seq<u8>>
    decreases k,
{
    if k <= 0 {
        Multiset::empty()
    } else if counted(cfg, tree, done, k - 1, want_exact) {
        results_upto(cfg, tree, done, k - 1, want_exact).insert(node_path(tree, k - 1))
    } else {
        results_upto(cfg, tree, done, k - 1, want_exact)
    }
}

/// Whether a node below `k` is recorded when the single directory `p` is
/// expanded.
pub open spec fn child_counted(cfg: Search, tree: FsTree, p: int, j: int, want_exact: bool) -> bool {
    &&& tree.nodes@[j].parent matches Some(q) && q as int == p
    &&& expandable(tree, p)
    &&& node_hits(cfg, tree, j, want_exact)
}

/// The matches recorded among the nodes below `k` when the single
/// directory `p` is expanded.
pub open spec fn children_upto(
    cfg: Search,
    tree: FsTree,
    p: int,
    k: int,
    want_exact: bool,
) -> Multiset<Seq<u8>>
    decreases k,
{
    if k <= 0 {
        Multiset::empty()
    } else if child_counted(cfg, tree, p, k - 1, want_exact) {
        children_upto(cfg, tree, p, k - 1, want_exact).insert(node_path(tree, k - 1))
    } else {
        children_upto(cfg, tree, p, k - 1, want_exact)
    }
}

/// The nodes the walk enters.
pub open spec fn entered_set(cfg: Search, tree: FsTree, roots: Seq<usize>) -> Set<int> {
    Set::new(|i: int| 0 <= i < tree.nodes@.len() && entered(cfg, tree, roots, i))
}

/// The exact partition a walk of the snapshot produces: one occurrence
/// of the path of every evaluated node whose folded name equals the
/// query.
pub open spec fn exact_results(cfg: Search, tree: FsTree, roots: Seq<usize>) -> Multiset<Seq<u8>> {
    results_upto(cfg, tree, entered_set(cfg, tree, roots), tree.nodes@.len() as int, true)
}

/// The containing partition a walk of the snapshot produces.
pub open spec fn contains_results(cfg: Search, tree: FsTree, roots: Seq<usize>) -> Multiset<
    Seq<u8>,
> {
    results_upto(cfg, tree, entered_set(cfg, tree, roots), tree.nodes@.len() as int, false)
}

/// A directory pending expansion: its node and the path it was
/// discovered under.
pub struct WorkItem {
    /// The node awaiting expansion.
    pub node: usize,
    /// The node's path.
    pub path: Vec<u8>,
}

/// Expanding a directory that cannot be listed records nothing.
proof fn lemma_children_not_expandable(
    cfg: Search,
    tree: FsTree,
    p: int,
    k: int,
    want_exact: bool,
)
    requires
        !expandable(tree, p),
    ensures
        children_upto(cfg, tree, p, k, want_exact) == Multiset::<Seq<u8>>::empty(),
    decreases k,
{
    if k > 0 {
        lemma_children_not_expandable(cfg, tree, p, k - 1, want_exact);
    }
}

/// Expanding one more directory records exactly the matches among its
/// children, on top of what the already expanded directories record.
proof fn lemma_results_insert(
    cfg: Search,
    tree: FsTree,
    done: Set<int>,
    p: int,
    k: int,
    want_exact: bool,
)
    requires
        !done.contains(p),
    ensures
        results_upto(cfg, tree, done.insert(p), k, want_exact) == results_upto(
            cfg,
            tree,
            done,
            k,
            want_exact,
        ).add(children_upto(cfg, tree, p, k, want_exact)),
    decreases k,
{
    let done2 = done.insert(p);
    if k <= 0 {
        assert(results_upto(cfg, tree, done2, k, want_exact) =~= results_upto(
            cfg,
            tree,
            done,
            k,
            want_exact,
        ).add(children_upto(cfg, tree, p, k, want_exact)));
    } else {
        lemma_results_insert(cfg, tree, done, p, k - 1, want_exact);
        let j = k - 1;
        let r1 = results_upto(cfg, tree, done, j, want_exact);
        let c1 = children_upto(cfg, tree, p, j, want_exact);
        let s = node_path(tree, j);
        assert(counted(cfg, tree, done2, j, want_exact) == (counted(cfg, tree, done, j, want_exact)
            || child_counted(cfg, tree, p, j, want_exact)));
        if counted(cfg, tree, done, j, want_exact) {
            assert(!child_counted(cfg, tree, p, j, want_exact));
            assert((r1.add(c1)).insert(s) =~= (r1.insert(s)).add(c1));
        } else if child_counted(cfg, tree, p, j, want_exact) {
            assert((r1.add(c1)).insert(s) =~= r1.add(c1.insert(s)));
        }
    }
}

/// A path is recorded exactly when some node below `k` is counted and
/// bears it.
proof fn lemma_results_membership(
    cfg: Search,
    tree: FsTree,
    done: Set<int>,
    k: int,
    want_exact: bool,
    s: Seq<u8>,
)
    ensures
        results_upto(cfg, tree, done, k, want_exact).count(s) > 0 <==> exists|j: int|
            0 <= j < k && counted(cfg, tree, done, j, want_exact) && node_path(tree, j) == s,
    decreases k,
{
    if k > 0 {
        lemma_results_membership(cfg, tree, done, k - 1, want_exact, s);
        if results_upto(cfg, tree, done, k, want_exact).count(s) > 0 {
            if !(counted(cfg, tree, done, k - 1, want_exact) && node_path(tree, k - 1) == s) {
                let j = choose|j: int|
                    0 <= j < k - 1 && counted(cfg, tree, done, j, want_exact) && node_path(tree, j)
                        == s;
                assert(0 <= j < k && counted(cfg, tree, done, j, want_exact) && node_path(tree, j)
                    == s);
            }
        }
        if exists|j: int|
            0 <= j < k && counted(cfg, tree, done, j, want_exact) && node_path(tree, j) == s {
            let j = choose|j: int|
                0 <= j < k && counted(cfg, tree, done, j, want_exact) && node_path(tree, j) == s;
            if j < k - 1 {
                assert(results_upto(cfg, tree, done, k - 1, want_exact).count(s) > 0);
            }
        }
    }
}

/// Whether a node has been discovered from its directory: the directory
/// has been expanded and the walk descends into the node.
pub open spec fn parent_due(cfg: Search, tree: FsTree, done: Set<int>, x: int) -> bool {
    tree.nodes@[x].parent matches Some(q) && done.contains(q as int) && expandable(tree, q as int)
        && traversable(cfg, tree, x)
}

/// Whether a node's discovery condition has occurred: it is a root, or
/// its directory has been expanded and the walk descends into it.
pub open spec fn due(
    cfg: Search,
    tree: FsTree,
    roots: Seq<usize>,
    done: Set<int>,
    j: int,
) -> bool {
    ||| seeded(roots, j)
    ||| parent_due(cfg, tree, done, j)
}

/// Once every discovered node has been expanded, every entered node has
/// been expanded: the walk is complete.
proof fn lemma_entered_in_done(
    cfg: Search,
    tree: FsTree,
    roots: Seq<usize>,
    done: Set<int>,
    i: int,
)
    requires
        tree.wf(),
        0 <= i < tree.nodes@.len(),
        entered(cfg, tree, roots, i),
        forall|j: int| 0 <= j < tree.nodes@.len() && due(cfg, tree, roots, done, j) ==> done.contains(j),
    ensures
        done.contains(i),
    decreases i,
{
    if seeded(roots, i) {
        assert(due(cfg, tree, roots, done, i));
    } else {
        let p = tree.nodes@[i].parent->0 as int;
        lemma_entered_in_done(cfg, tree, roots, done, p);
        assert(due(cfg, tree, roots, done, i));
    }
}

/// Whether some pending item carries the node `x`.
pub open spec fn in_pending(pend: Seq<WorkItem>, x: int) -> bool {
    exists|q: int| 0 <= q < pend.len() && pend[q].node == x
}

/// A pending item is sound: its node is in bounds, entered, and paired
/// with its own path.
pub open spec fn item_ok(cfg: Search, tree: FsTree, roots: Seq<usize>, it: WorkItem) -> bool {
    &&& it.node < tree.nodes@.len()
    &&& it.path@ == node_path(tree, it.node as int)
    &&& entered(cfg, tree, roots, it.node as int)
}

/// Every pending item is sound.
pub open spec fn queue_ok(cfg: Search, tree: FsTree, roots: Seq<usize>, pend: Seq<WorkItem>) -> bool {
    forall|q: int| 0 <= q < pend.len() ==> item_ok(cfg, tree, roots, #[trigger] pend[q])
}

/// The directories already expanded, read off the visited flags.
pub open spec fn visited_set(v: Seq<bool>) -> Set<int> {
    Set::new(|i: int| 0 <= i < v.len() && v[i])
}

/// Publishing one more item keeps every pending node pending.
proof fn lemma_in_pending_push(pend: Seq<WorkItem>, it: WorkItem, x: int)
    requires
        in_pending(pend, x),
    ensures
        in_pending(pend.push(it), x),
{
    let q = choose|q: int| 0 <= q < pend.len() && pend[q].node == x;
    assert(pend.push(it)[q].node == x);
}

/// Taking the last item keeps every other pending node pending.
proof fn lemma_in_pending_drop(pend: Seq<WorkItem>, x: int)
    requires
        in_pending(pend, x),
        pend.len() > 0,
        pend[pend.len() - 1].node != x,
    ensures
        in_pending(pend.drop_last(), x),
{
    let q = choose|q: int| 0 <= q < pend.len() && pend[q].node == x;
    assert(pend.drop_last()[q].node == x);
}

/// Publishing a sound item keeps the work list sound.
proof fn lemma_queue_ok_push(
    cfg: Search,
    tree: FsTree,
    roots: Seq<usize>,
    pend: Seq<WorkItem>,
    it: WorkItem,
)
    requires
        queue_ok(cfg, tree, roots, pend),
        item_ok(cfg, tree, roots, it),
    ensures
        queue_ok(cfg, tree, roots, pend.push(it)),
{
    assert forall|q: int| 0 <= q < pend.push(it).len() implies item_ok(
        cfg,
        tree,
        roots,
        #[trigger] pend.push(it)[q],
    ) by {
        if q < pend.len() {
            assert(pend.push(it)[q] == pend[q]);
        }
    }
}

/// Taking the last item keeps the work list sound.
proof fn lemma_queue_ok_drop(cfg: Search, tree: FsTree, roots: Seq<usize>, pend: Seq<WorkItem>)
    requires
        queue_ok(cfg, tree, roots, pend),
        pend.len() > 0,
    ensures
        queue_ok(cfg, tree, roots, pend.drop_last()),
{
    assert forall|q: int| 0 <= q < pend.drop_last().len() implies item_ok(
        cfg,
        tree,
        roots,
        #[trigger] pend.drop_last()[q],
    ) by {
        assert(pend.drop_last()[q] == pend[q]);
    }
}

/// Nothing is recorded while no directory has been expanded.
proof fn lemma_results_no_counted(cfg: Search, tree: FsTree, k: int, want_exact: bool)
    ensures
        results_upto(cfg, tree, Set::<int>::empty(), k, want_exact) == Multiset::<Seq<u8>>::empty(),
    decreases k,
{
    if k > 0 {
        lemma_results_no_counted(cfg, tree, k - 1, want_exact);
    }
}

/// Builds the full path of a node.
pub fn node_path_of(tree: &FsTree, i: usize) -> (r: Vec<u8>)
    requires
        tree.wf(),
        i < tree.nodes@.len(),
    ensures
        r@ == node_path(*tree, i as int),
    decreases i,
{
    let node = &tree.nodes[i];
    match node.parent {
        None => node.name.clone(),
        Some(p) => {
            let mut r = node_path_of(tree, p);
            r.push(47u8);
            let ghost prefix = node_path(*tree, p as int) + seq![slash()];
            proof {
                assert(r@ =~= prefix);
            }
            let mut m: usize = 0;
            while m < node.name.len()
                invariant
                    m <= node.name@.len(),
                    r@ == prefix + node.name@.take(m as int),
                decreases node.name@.len() - m,
            {
                r.push(node.name[m]);
                proof {
                    assert(prefix + node.name@.take(m + 1) =~= (prefix + node.name@.take(
                        m as int,
                    )).push(node.name@[m as int]));
                }
                m = m + 1;
            }
            proof {
                assert(node.name@.take(node.name@.len() as int) =~= node.name@);
            }
            r
        },
    }
}

impl Search {
    /// Walks a snapshot from the given roots and collects both
    /// partitions.
    ///
    /// One pending list stands in for the pool's shared channel and the
    /// workers' local slots; which end items are taken from has no
    /// bearing on what is collected. Expanding a directory evaluates
    /// each of its entries once and publishes each subdirectory the
    /// predicate admits. A directory reached a second time — a root
    /// that also lies under another root — is expanded once. The loop
    /// measure proves the walk drains on every finite snapshot.
    pub fn search(&self, tree: &FsTree, roots: &Vec<usize>) -> (r: SearchResults)
        requires
            tree.wf(),
            forall|k: int| 0 <= k < roots@.len() ==> #[trigger] roots@[k] < tree.nodes@.len(),
        ensures
            r.exact_view().to_multiset() == exact_results(*self, *tree, roots@),
            r.contains_view().to_multiset() == contains_results(*self, *tree, roots@),
    {
        let ghost cfg = *self;
        let ghost rts = roots@;
        let n = tree.nodes.len();
        let mut results = SearchResults::with_capacity(8);

        let mut visited: Vec<bool> = Vec::new();
        let mut t: usize = 0;
        while t < n
            invariant
                t <= n,
                visited@.len() == t,
                forall|x: int| 0 <= x < t ==> !visited@[x],
            decreases n - t,
        {
            visited.push(false);
            t = t + 1;
        }

        let mut pending: Vec<WorkItem> = Vec::new();
        let mut k: usize = 0;
        while k < roots.len()
            invariant
                k <= roots@.len(),
                rts == roots@,
                cfg == *self,
                tree.wf(),
                n == tree.nodes@.len(),
                forall|x: int| 0 <= x < roots@.len() ==> #[trigger] roots@[x] < tree.nodes@.len(),
                queue_ok(cfg, *tree, rts, pending@),
                forall|x: int| 0 <= x < k ==> in_pending(pending@, #[trigger] roots@[x] as int),
            decreases roots@.len() - k,
        {
            let node = roots[k];
            let path = node_path_of(tree, node);
            let ghost pre = pending@;
            let it = WorkItem { node, path };
            proof {
                assert(seeded(rts, node as int));
                assert(entered(cfg, *tree, rts, node as int));
                assert(item_ok(cfg, *tree, rts, it));
                lemma_queue_ok_push(cfg, *tree, rts, pre, it);
            }
            pending.push(it);
            proof {
                assert forall|x: int| 0 <= x < k + 1 implies in_pending(
                    pending@,
                    #[trigger] roots@[x] as int,
                ) by {
                    if x < k {
                        lemma_in_pending_push(pre, it, roots@[x] as int);
                    } else {
                        assert(pending@[pre.len() as int].node == roots@[x]);
                    }
                }
            }
            k = k + 1;
        }

        proof {
            assert(visited_set(visited@) =~= Set::<int>::empty());
            lemma_results_no_counted(cfg, *tree, n as int, true);
            lemma_results_no_counted(cfg, *tree, n as int, false);
            assert(results.exact_view() =~= Seq::<Seq<u8>>::empty());
            assert(results.contains_view() =~= Seq::<Seq<u8>>::empty());
            assert(Seq::<Seq<u8>>::empty().to_multiset() =~= Multiset::<Seq<u8>>::empty());
            assert forall|x: int|
                0 <= x < n && seeded(rts, x) && !visited@[x] implies in_pending(pending@, x) by {
                let idx = choose|idx: int| 0 <= idx < rts.len() && rts[idx] == x;
                assert(in_pending(pending@, rts[idx] as int));
            }
        }

        while pending.len() > 0
            invariant
                rts == roots@,
                cfg == *self,
                tree.wf(),
                n == tree.nodes@.len(),
                forall|x: int| 0 <= x < roots@.len() ==> #[trigger] roots@[x] < tree.nodes@.len(),
                visited@.len() == n,
                queue_ok(cfg, *tree, rts, pending@),
                forall|x: int| 0 <= x < n && #[trigger] visited@[x] ==> entered(cfg, *tree, rts, x),
                forall|x: int|
                    0 <= x < n && seeded(rts, x) && !(#[trigger] visited@[x]) ==> in_pending(
                        pending@,
                        x,
                    ),
                forall|x: int|
                    0 <= x < n && parent_due(cfg, *tree, visited_set(visited@), x) && !(
                    #[trigger] visited@[x]) ==> in_pending(pending@, x),
                results.exact_view().to_multiset() == results_upto(
                    cfg,
                    *tree,
                    visited_set(visited@),
                    n as int,
                    true,
                ),
                results.contains_view().to_multiset() == results_upto(
                    cfg,
                    *tree,
                    visited_set(visited@),
                    n as int,
                    false,
                ),
            decreases n - visited_set(visited@).len(), pending@.len(),
        {
            proof {
                vstd::set_lib::lemma_int_range(0, n as int);
                assert(visited_set(visited@).subset_of(
                    vstd::set_lib::set_int_range(0, n as int),
                ));
                vstd::set_lib::lemma_len_subset(
                    visited_set(visited@),
                    vstd::set_lib::set_int_range(0, n as int),
                );
            }
            let ghost pre_pending = pending@;
            let item = pending.pop().unwrap();
            let inode = item.node;
            proof {
                assert(item_ok(cfg, *tree, rts, pre_pending[pre_pending.len() - 1]));
                lemma_queue_ok_drop(cfg, *tree, rts, pre_pending);
            }
            if visited[inode] {
                proof {
                    assert forall|x: int|
                        0 <= x < n && seeded(rts, x) && !(#[trigger] visited@[x]) implies
                        in_pending(pending@, x) by {
                        assert(x != inode as int);
                        lemma_in_pending_drop(pre_pending, x);
                    }
                    assert forall|x: int|
                        0 <= x < n && parent_due(cfg, *tree, visited_set(visited@), x) && !(
                        #[trigger] visited@[x]) implies in_pending(pending@, x) by {
                        assert(x != inode as int);
                        lemma_in_pending_drop(pre_pending, x);
                    }
                }
            } else {
                let ghost done0 = visited_set(visited@);
                visited.set(inode, true);
                let ghost done1 = visited_set(visited@);
                proof {
                    assert(done1 =~= done0.insert(inode as int));
                    lemma_results_insert(cfg, *tree, done0, inode as int, n as int, true);
                    lemma_results_insert(cfg, *tree, done0, inode as int, n as int, false);
                    assert forall|x: int|
                        0 <= x < n && seeded(rts, x) && !(#[trigger] visited@[x]) implies
                        in_pending(pending@, x) by {
                        assert(x != inode as int);
                        lemma_in_pending_drop(pre_pending, x);
                    }
                }
                let nodei = &tree.nodes[inode];
                if nodei.is_dir && nodei.readable {
                    let ghost base_e = results_upto(cfg, *tree, done0, n as int, true);
                    let ghost base_c = results_upto(cfg, *tree, done0, n as int, false);
                    proof {
                        assert(children_upto(cfg, *tree, inode as int, 0, true)
                            =~= Multiset::<Seq<u8>>::empty());
                        assert(children_upto(cfg, *tree, inode as int, 0, false)
                            =~= Multiset::<Seq<u8>>::empty());
                        assert(results.exact_view().to_multiset() =~= base_e.add(
                            children_upto(cfg, *tree, inode as int, 0, true),
                        ));
                        assert(results.contains_view().to_multiset() =~= base_c.add(
                            children_upto(cfg, *tree, inode as int, 0, false),
                        ));
                        assert forall|x: int|
                            0 <= x < n && parent_due(cfg, *tree, done1, x) && !(
                            #[trigger] visited@[x]) && !(tree.nodes@[x].parent matches Some(q)
                                && q == inode && x >= 0) implies in_pending(pending@, x) by {
                            assert(x != inode as int);
                            assert(parent_due(cfg, *tree, done0, x));
                            lemma_in_pending_drop(pre_pending, x);
                        }
                    }
                    let mut j: usize = 0;
                    while j < n
                        invariant
                            j <= n,
                            rts == roots@,
                            cfg == *self,
                            tree.wf(),
                            n == tree.nodes@.len(),
                            forall|x: int|
                                0 <= x < roots@.len() ==> #[trigger] roots@[x]
                                    < tree.nodes@.len(),
                            visited@.len() == n,
                            visited_set(visited@) == done1,
                            done1 == done0.insert(inode as int),
                            !done0.contains(inode as int),
                            inode < n,
                            visited@[inode as int],
                            expandable(*tree, inode as int),
                            item.path@ == node_path(*tree, inode as int),
                            base_e == results_upto(cfg, *tree, done0, n as int, true),
                            base_c == results_upto(cfg, *tree, done0, n as int, false),
                            queue_ok(cfg, *tree, rts, pending@),
                            forall|x: int|
                                0 <= x < n && #[trigger] visited@[x] ==> entered(
                                    cfg,
                                    *tree,
                                    rts,
                                    x,
                                ),
                            forall|x: int|
                                0 <= x < n && seeded(rts, x) && !(#[trigger] visited@[x])
                                    ==> in_pending(pending@, x),
                            forall|x: int|
                                0 <= x < n && parent_due(cfg, *tree, done1, x) && !(
                                #[trigger] visited@[x]) && !(tree.nodes@[x].parent matches Some(
                                    q,
                                ) && q == inode && x >= j) ==> in_pending(pending@, x),
                            results.exact_view().to_multiset() == base_e.add(
                                children_upto(cfg, *tree, inode as int, j as int, true),
                            ),
                            results.contains_view().to_multiset() == base_c.add(
                                children_upto(cfg, *tree, inode as int, j as int, false),
                            ),
                        decreases n - j,
                    {
                        let nodej = &tree.nodes[j];
                        let is_child = match nodej.parent {
                            Some(q) => q == inode,
                            None => false,
                        };
                        if is_child {
                            let mut cpath = item.path.clone();
                            cpath.push(47u8);
                            let ghost prefix = node_path(*tree, inode as int) + seq![slash()];
                            proof {
                                assert(cpath@ =~= prefix);
                            }
                            let mut m: usize = 0;
                            while m < nodej.name.len()
                                invariant
                                    m <= nodej.name@.len(),
                                    cpath@ == prefix + nodej.name@.take(m as int),
                                decreases nodej.name@.len() - m,
                            {
                                cpath.push(nodej.name[m]);
                                proof {
                                    assert(prefix + nodej.name@.take(m + 1) =~= (prefix
                                        + nodej.name@.take(m as int)).push(
                                        nodej.name@[m as int],
                                    ));
                                }
                                m = m + 1;
                            }
                            proof {
                                assert(nodej.name@.take(nodej.name@.len() as int)
                                    =~= nodej.name@);
                                assert(cpath@ == node_path(*tree, j as int));
                            }
                            let entry = Entry {
                                path: cpath.clone(),
                                is_dir: nodej.is_dir,
                                attr_hidden: nodej.attr_hidden,
                                canonical: Some(cpath),
                            };
                            proof {
                                assert(opt_view(entry.canonical) == Some(
                                    node_path(*tree, j as int),
                                ));
                            }
                            let verdict = is_result(&entry, self);
                            let ghost pend0 = pending@;
                            let ghost ex0 = results.exact_view();
                            let ghost co0 = results.contains_view();
                            match verdict {
                                None => {
                                    proof {
                                        assert(!node_hits(cfg, *tree, j as int, true));
                                        assert(!node_hits(cfg, *tree, j as int, false));
                                        assert(!traversable(cfg, *tree, j as int));
                                    }
                                },
                                Some(pair) => {
                                    match pair.0 {
                                        None => {
                                            proof {
                                                assert(!node_hits(cfg, *tree, j as int, true));
                                                assert(!node_hits(cfg, *tree, j as int, false));
                                            }
                                        },
                                        Some(sr) => {
                                            match sr {
                                                SearchResult::Exact(pv) => {
                                                    proof {
                                                        assert(pv@ == node_path(*tree, j as int));
                                                        assert(node_hits(
                                                            cfg,
                                                            *tree,
                                                            j as int,
                                                            true,
                                                        ));
                                                        assert(!node_hits(
                                                            cfg,
                                                            *tree,
                                                            j as int,
                                                            false,
                                                        ));
                                                    }
                                                    let ghost pre_ex = results.exact@;
                                                    results.push(SearchResult::Exact(pv));
                                                    proof {
                                                        assert(results.exact_view() =~= ex0.push(
                                                            node_path(*tree, j as int),
                                                        ));
                                                        assert(ex0.push(
                                                            node_path(*tree, j as int),
                                                        ).to_multiset() == ex0.to_multiset()
                                                            .insert(node_path(*tree, j as int)));
                                                    }
                                                },
                                                SearchResult::Contains(pv) => {
                                                    proof {
                                                        assert(pv@ == node_path(*tree, j as int));
                                                        assert(node_hits(
                                                            cfg,
                                                            *tree,
                                                            j as int,
                                                            false,
                                                        ));
                                                        assert(!node_hits(
                                                            cfg,
                                                            *tree,
                                                            j as int,
                                                            true,
                                                        ));
                                                    }
                                                    results.push(SearchResult::Contains(pv));
                                                    proof {
                                                        assert(results.contains_view()
                                                            =~= co0.push(
                                                            node_path(*tree, j as int),
                                                        ));
                                                        assert(co0.push(
                                                            node_path(*tree, j as int),
                                                        ).to_multiset() == co0.to_multiset()
                                                            .insert(node_path(*tree, j as int)));
                                                    }
                                                },
                                            }
                                        },
                                    }
                                    match pair.1 {
                                        None => {
                                            proof {
                                                assert(!traversable(cfg, *tree, j as int));
                                            }
                                        },
                                        Some(rp) => {
                                            let ghost pend1 = pending@;
                                            let rit = WorkItem { node: j, path: rp };
                                            proof {
                                                assert(traversable(cfg, *tree, j as int));
                                                assert(entered(cfg, *tree, rts, inode as int));
                                                assert(entered(cfg, *tree, rts, j as int));
                                                assert(item_ok(cfg, *tree, rts, rit));
                                                lemma_queue_ok_push(cfg, *tree, rts, pend1, rit);
                                            }
                                            pending.push(rit);
                                            proof {
                                                assert forall|x: int|
                                                    in_pending(pend1, x) implies in_pending(
                                                    pending@,
                                                    x,
                                                ) by {
                                                    lemma_in_pending_push(pend1, rit, x);
                                                }
                                                assert(in_pending(pending@, j as int)) by {
                                                    assert(pending@[pend1.len() as int].node
                                                        == j);
                                                }
                                            }
                                        },
                                    }
                                },
                            }
                            proof {
                                if !(child_counted(cfg, *tree, inode as int, j as int, true)) {
                                    assert(children_upto(cfg, *tree, inode as int, j + 1, true)
                                        == children_upto(cfg, *tree, inode as int, j as int, true));
                                }
                                if !(child_counted(cfg, *tree, inode as int, j as int, false)) {
                                    assert(children_upto(cfg, *tree, inode as int, j + 1, false)
                                        == children_upto(
                                        cfg,
                                        *tree,
                                        inode as int,
                                        j as int,
                                        false,
                                    ));
                                }
                                if child_counted(cfg, *tree, inode as int, j as int, true) {
                                    assert(base_e.add(
                                        children_upto(cfg, *tree, inode as int, j as int, true),
                                    ).insert(node_path(*tree, j as int)) =~= base_e.add(
                                        children_upto(cfg, *tree, inode as int, j + 1, true),
                                    ));
                                }
                                if child_counted(cfg, *tree, inode as int, j as int, false) {
                                    assert(base_c.add(
                                        children_upto(cfg, *tree, inode as int, j as int, false),
                                    ).insert(node_path(*tree, j as int)) =~= base_c.add(
                                        children_upto(cfg, *tree, inode as int, j + 1, false),
                                    ));
                                }
                            }
                        } else {
                            proof {
                                assert(!child_counted(cfg, *tree, inode as int, j as int, true));
                                assert(!child_counted(cfg, *tree, inode as int, j as int, false));
                            }
                        }
                        j = j + 1;
                    }
                    proof {
                        assert(results.exact_view().to_multiset() == results_upto(
                            cfg,
                            *tree,
                            done1,
                            n as int,
                            true,
                        ));
                        assert(results.contains_view().to_multiset() == results_upto(
                            cfg,
                            *tree,
                            done1,
                            n as int,
                            false,
                        ));
                        assert forall|x: int|
                            0 <= x < n && parent_due(cfg, *tree, done1, x) && !(
                            #[trigger] visited@[x]) implies in_pending(pending@, x) by {
                            assert(!(tree.nodes@[x].parent matches Some(q) && q == inode && x
                                >= n));
                        }
                    }
                } else {
                    proof {
                        lemma_children_not_expandable(cfg, *tree, inode as int, n as int, true);
                        lemma_children_not_expandable(cfg, *tree, inode as int, n as int, false);
                        assert(results_upto(cfg, *tree, done1, n as int, true) =~= results_upto(
                            cfg,
                            *tree,
                            done0,
                            n as int,
                            true,
                        ));
                        assert(results_upto(cfg, *tree, done1, n as int, false) =~= results_upto(
                            cfg,
                            *tree,
                            done0,
                            n as int,
                            false,
                        ));
                        assert forall|x: int|
                            0 <= x < n && parent_due(cfg, *tree, done1, x) && !(
                            #[trigger] visited@[x]) implies in_pending(pending@, x) by {
                            assert(x != inode as int);
                            assert(parent_due(cfg, *tree, done0, x));
                            lemma_in_pending_drop(pre_pending, x);
                        }
                    }
                }
                proof {
                    assert(done1.len() == done0.len() + 1);
                    vstd::set_lib::lemma_int_range(0, n as int);
                    assert(done1.subset_of(vstd::set_lib::set_int_range(0, n as int)));
                    vstd::set_lib::lemma_len_subset(
                        done1,
                        vstd::set_lib::set_int_range(0, n as int),
                    );
                }
            }
        }

        proof {
            let done = visited_set(visited@);
            assert forall|x: int|
                0 <= x < n && due(cfg, *tree, rts, done, x) implies done.contains(x) by {
                if !visited@[x] {
                    assert(in_pending(pending@, x));
                    let q = choose|q: int| 0 <= q < pending@.len() && pending@[q].node == x;
                    assert(false);
                }
            }
            assert forall|i: int|
                0 <= i < n && entered(cfg, *tree, rts, i) implies done.contains(i) by {
                lemma_entered_in_done(cfg, *tree, rts, done, i);
            }
            assert(done =~= entered_set(cfg, *tree, rts));
        }
        results
    }

    /// Picks one match of a walk of the snapshot. At most one path is
    /// ever handed out; one is handed out exactly when a match exists
    /// anywhere in scope, and the empty answer means the walk finished
    /// with both partitions empty. The concurrent pool reaches the same
    /// outcome by stopping early on a flag, which only shortens the
    /// walk.
    pub fn search_first(&self, tree: &FsTree, roots: &Vec<usize>) -> (r: Option<Vec<u8>>)
        requires
            tree.wf(),
            forall|k: int| 0 <= k < roots@.len() ==> #[trigger] roots@[k] < tree.nodes@.len(),
        ensures
            match r {
                Some(p) => exact_results(*self, *tree, roots@).count(p@) > 0 || contains_results(
                    *self,
                    *tree,
                    roots@,
                ).count(p@) > 0,
                None => exact_results(*self, *tree, roots@).len() == 0 && contains_results(
                    *self,
                    *tree,
                    roots@,
                ).len() == 0,
            },
    {
        let mut results = self.search(tree, roots);
        if results.exact.len() > 0 {
            let ghost ev = results.exact_view();
            let p = results.exact.pop().unwrap();
            proof {
                assert(ev[ev.len() - 1] == p@);
                assert(ev.contains(p@));
            }
            Some(p)
        } else if results.contains.len() > 0 {
            let ghost cv = results.contains_view();
            let p = results.contains.pop().unwrap();
            proof {
                assert(cv[cv.len() - 1] == p@);
                assert(cv.contains(p@));
            }
            Some(p)
        } else {
            proof {
                assert(results.exact_view().len() == 0);
                assert(results.contains_view().len() == 0);
            }
            None
        }
    }
}

/// The exact partition holds precisely the paths of the evaluated
/// entries whose folded name equals the query: entries listed in an
/// entered directory that pass the ignore, hidden, type, prefix and
/// suffix rules and whose folded base name equals it in full.
pub proof fn lemma_exact_partition(cfg: Search, tree: FsTree, roots: Seq<usize>, s: Seq<u8>)
    requires
        tree.wf(),
    ensures
        exact_results(cfg, tree, roots).count(s) > 0 <==> exists|j: int|
            0 <= j < tree.nodes@.len() && evaluated(cfg, tree, roots, j) && node_hits(
                cfg,
                tree,
                j,
                true,
            ) && node_path(tree, j) == s,
{
    lemma_partition(cfg, tree, roots, s, true);
}

/// The containing partition holds precisely the paths of the evaluated
/// entries that pass the same rules and whose folded base name holds
/// the query strictly as a substring — none at all in exact-only mode.
pub proof fn lemma_contains_partition(cfg: Search, tree: FsTree, roots: Seq<usize>, s: Seq<u8>)
    requires
        tree.wf(),
    ensures
        contains_results(cfg, tree, roots).count(s) > 0 <==> exists|j: int|
            0 <= j < tree.nodes@.len() && evaluated(cfg, tree, roots, j) && node_hits(
                cfg,
                tree,
                j,
                false,
            ) && node_path(tree, j) == s,
{
    lemma_partition(cfg, tree, roots, s, false);
}

/// Both partition characterizations, shared.
proof fn lemma_partition(cfg: Search, tree: FsTree, roots: Seq<usize>, s: Seq<u8>, want_exact: bool)
    requires
        tree.wf(),
    ensures
        results_upto(
            cfg,
            tree,
            entered_set(cfg, tree, roots),
            tree.nodes@.len() as int,
            want_exact,
        ).count(s) > 0 <==> exists|j: int|
            0 <= j < tree.nodes@.len() && evaluated(cfg, tree, roots, j) && node_hits(
                cfg,
                tree,
                j,
                want_exact,
            ) && node_path(tree, j) == s,
{
    let n = tree.nodes@.len() as int;
    let done = entered_set(cfg, tree, roots);
    lemma_results_membership(cfg, tree, done, n, want_exact, s);
    assert forall|j: int| 0 <= j < n implies (counted(cfg, tree, done, j, want_exact) == (evaluated(
        cfg,
        tree,
        roots,
        j,
    ) && node_hits(cfg, tree, j, want_exact))) by {
        match tree.nodes@[j].parent {
            Some(q) => {
                assert(0 <= q < n);
                assert(done.contains(q as int) == entered(cfg, tree, roots, q as int));
            },
            None => {},
        }
    }
    if results_upto(cfg, tree, done, n, want_exact).count(s) > 0 {
        let j = choose|j: int|
            0 <= j < n && counted(cfg, tree, done, j, want_exact) && node_path(tree, j) == s;
        assert(0 <= j < n && evaluated(cfg, tree, roots, j) && node_hits(cfg, tree, j, want_exact)
            && node_path(tree, j) == s);
    }
    if exists|j: int|
        0 <= j < n && evaluated(cfg, tree, roots, j) && node_hits(cfg, tree, j, want_exact)
            && node_path(tree, j) == s {
        let j = choose|j: int|
            0 <= j < n && evaluated(cfg, tree, roots, j) && node_hits(cfg, tree, j, want_exact)
                && node_path(tree, j) == s;
        assert(0 <= j < n && counted(cfg, tree, done, j, want_exact) && node_path(tree, j) == s);
    }
}

/// Walks of an unmodified snapshot always produce the same partitions:
/// what is collected is a function of the snapshot, the roots and the
/// configuration alone, however the work was interleaved.
pub proof fn lemma_search_idempotent(
    cfg: Search,
    tree: FsTree,
    roots: Seq<usize>,
    e1: Multiset<Seq<u8>>,
    c1: Multiset<Seq<u8>>,
    e2: Multiset<Seq<u8>>,
    c2: Multiset<Seq<u8>>,
)
    requires
        e1 == exact_results(cfg, tree, roots),
        c1 == contains_results(cfg, tree, roots),
        e2 == exact_results(cfg, tree, roots),
        c2 == contains_results(cfg, tree, roots),
    ensures
        e1 == e2,
        c1 == c2,
{
}

/// Whether every route from `j` up the snapshot passes through `a`:
/// `j` is `a` itself, or `j` is not a root and its directory is blocked
/// the same way.
pub open spec fn blocked_by(tree: FsTree, roots: Seq<usize>, j: int, a: int) -> bool
    decreases j,
        when tree.wf() && 0 <= j < tree.nodes@.len()
{
    ||| j == a
    ||| (tree.nodes@[j].parent matches Some(p) && !seeded(roots, j) && blocked_by(
        tree,
        roots,
        p as int,
        a,
    ))
}

/// An ignored directory is never entered, and nothing reached only
/// through it is entered either — even entries that would have
/// matched. Roots are the one exception: they are walked as given,
/// without running the predicate on them.
pub proof fn lemma_ignored_subtree(cfg: Search, tree: FsTree, roots: Seq<usize>, a: int, j: int)
    requires
        tree.wf(),
        0 <= a < tree.nodes@.len(),
        0 <= j < tree.nodes@.len(),
        !seeded(roots, a),
        spec_ignored(cfg, node_path(tree, a), Some(node_path(tree, a))),
        cfg.explicit_ignore@.len() > 0,
        blocked_by(tree, roots, j, a),
    ensures
        !entered(cfg, tree, roots, j),
    decreases j,
{
    crate::search::lemma_ignore_precedence(
        cfg,
        node_path(tree, a),
        Some(node_path(tree, a)),
        tree.nodes@[a].attr_hidden,
    );
    assert(!traversable(cfg, tree, a));
    if j != a {
        let p = tree.nodes@[j].parent->0 as int;
        lemma_ignored_subtree(cfg, tree, roots, a, p);
    }
}

/// No entry of a never-entered directory is ever evaluated.
pub proof fn lemma_not_entered_not_evaluated(
    cfg: Search,
    tree: FsTree,
    roots: Seq<usize>,
    j: int,
    x: int,
)
    requires
        tree.wf(),
        0 <= x < tree.nodes@.len(),
        tree.nodes@[x].parent matches Some(p) && p as int == j,
        !entered(cfg, tree, roots, j),
    ensures
        !evaluated(cfg, tree, roots, x),
{
}

} // verus!
