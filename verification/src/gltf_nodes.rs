//! The node hierarchy of a glTF document: the order in which a scene's
//! nodes are written, the indices their children and the scene roots get,
//! and which nodes a reader starts from.

use vstd::prelude::*;

verus! {

/// How many slots of `seen` are still unvisited.
pub open spec fn count_unseen(seen: Seq<bool>) -> nat
    decreases seen.len(),
{
    if seen.len() == 0 {
        0
    } else {
        count_unseen(seen.drop_last()) + if seen.last() { 0nat } else { 1nat }
    }
}

/// Marking an unvisited slot visits one node fewer.
pub proof fn lemma_mark_seen(seen: Seq<bool>, i: int)
    requires
        0 <= i < seen.len(),
        !seen[i],
    ensures
        count_unseen(seen.update(i, true)) + 1 == count_unseen(seen),
    decreases seen.len(),
{
    let s2 = seen.update(i, true);
    if i == seen.len() - 1 {
        assert(s2.drop_last() =~= seen.drop_last());
    } else {
        assert(s2.drop_last() =~= seen.drop_last().update(i, true));
        lemma_mark_seen(seen.drop_last(), i);
    }
}

/// Every child list names a node in range.
pub open spec fn children_in_range(children: Seq<Seq<usize>>) -> bool {
    forall|k: int, j: int|
        0 <= k < children.len() && 0 <= j < children[k].len() ==> #[trigger] children[k][j]
            < children.len()
}

/// Every id of `ids` names a node in range.
pub open spec fn ids_in_range(ids: Seq<usize>, n: int) -> bool {
    forall|j: int| 0 <= j < ids.len() ==> #[trigger] ids[j] < n
}

/// Breadth-first order from `queue`: take the front; a node seen before is
/// skipped, a new one is written and its children join the back.
pub open spec fn bfs_order(children: Seq<Seq<usize>>, seen: Seq<bool>, queue: Seq<usize>) -> Seq<
    usize,
>
    decreases count_unseen(seen), queue.len(),
{
    if queue.len() == 0 {
        Seq::empty()
    } else {
        let n = queue[0];
        if n >= seen.len() || seen[n as int] {
            bfs_order(children, seen, queue.drop_first())
        } else {
            proof {
                lemma_mark_seen(seen, n as int);
            }
            seq![n] + bfs_order(
                children,
                seen.update(n as int, true),
                queue.drop_first() + children[n as int],
            )
        }
    }
}

/// The child lists of a scene's nodes, as sequences.
pub open spec fn lists_view(children: Seq<Vec<usize>>) -> Seq<Seq<usize>> {
    children.map_values(|v: Vec<usize>| v@)
}

/// The order in which a writer emits the nodes reachable from `roots`.
pub open spec fn write_order_spec(children: Seq<Seq<usize>>, roots: Seq<usize>) -> Seq<usize> {
    bfs_order(children, Seq::new(children.len(), |i: int| false), roots)
}

/// Each node reachable from `roots` once, in breadth-first order: the
/// order in which the nodes of a scene become glTF nodes.
pub fn write_order(children: &Vec<Vec<usize>>, roots: &Vec<usize>) -> (r: Vec<usize>)
    requires
        children_in_range(lists_view(children@)),
        ids_in_range(roots@, children@.len() as int),
    ensures
        r@ == write_order_spec(lists_view(children@), roots@),
        r@.no_duplicates(),
        ids_in_range(r@, children@.len() as int),
        forall|j: int| 0 <= j < roots@.len() ==> r@.contains(#[trigger] roots@[j]),
        forall|k: int, j: int|
            0 <= k < r@.len() && 0 <= j < lists_view(children@)[r@[k] as int].len() ==> r@.contains(
                #[trigger] lists_view(children@)[r@[k] as int][j],
            ),
{
    let ghost ch = lists_view(children@);
    let n = children.len();
    let mut seen: Vec<bool> = Vec::new();
    while seen.len() < n
        invariant
            seen.len() <= n,
            forall|i: int| 0 <= i < seen.len() ==> !#[trigger] seen@[i],
        decreases n - seen.len(),
    {
        seen.push(false);
    }
    assert(seen@ =~= Seq::new(ch.len(), |i: int| false));
    let mut queue: Vec<usize> = roots.clone();
    let mut head: usize = 0;
    let mut ordered: Vec<usize> = Vec::new();
    assert(queue@.skip(0) =~= roots@);
    while head < queue.len()
        invariant
            ch == lists_view(children@),
            n == children@.len(),
            children_in_range(ch),
            ids_in_range(roots@, n as int),
            seen@.len() == n,
            head <= queue@.len(),
            ids_in_range(queue@, n as int),
            ordered@ + bfs_order(ch, seen@, queue@.skip(head as int)) == write_order_spec(ch, roots@),
            forall|i: int| 0 <= i < n ==> (#[trigger] seen@[i] <==> ordered@.contains(i as usize)),
            ordered@.no_duplicates(),
            ids_in_range(ordered@, n as int),
            forall|j: int|
                0 <= j < roots@.len() ==> ordered@.contains(#[trigger] roots@[j])
                    || queue@.skip(head as int).contains(roots@[j]),
            forall|k: int, j: int|
                0 <= k < ordered@.len() && 0 <= j < ch[ordered@[k] as int].len() ==> ordered@.contains(
                    #[trigger] ch[ordered@[k] as int][j],
                ) || queue@.skip(head as int).contains(ch[ordered@[k] as int][j]),
        decreases count_unseen(seen@), queue@.len() - head,
    {
        let ghost pending = queue@.skip(head as int);
        let ghost old_seen = seen@;
        let ghost old_ordered = ordered@;
        let ghost old_queue = queue@;
        let x = queue[head];
        assert(pending[0] == x);
        assert(pending.drop_first() =~= queue@.skip(head + 1));
        head = head + 1;
        if seen[x] {
            assert(ordered@.contains(x));
        } else {
            proof {
                lemma_mark_seen(seen@, x as int);
            }
            seen.set(x, true);
            ordered.push(x);
            let kids = &children[x];
            assert(kids@ == ch[x as int]);
            let mut j: usize = 0;
            while j < kids.len()
                invariant
                    ch == lists_view(children@),
                    n == children@.len(),
                    children_in_range(ch),
                    x < n,
                    kids@ == ch[x as int],
                    j <= kids@.len(),
                    head <= old_queue.len(),
                    queue@ == old_queue + kids@.take(j as int),
                    ids_in_range(old_queue, n as int),
                decreases kids@.len() - j,
            {
                assert(kids@.take(j + 1) =~= kids@.take(j as int).push(kids@[j as int]));
                queue.push(kids[j]);
                j = j + 1;
            }
            assert(kids@.take(j as int) =~= kids@);
            assert(queue@.skip(head as int) =~= pending.drop_first() + ch[x as int]);
            assert(ordered@ =~= old_ordered + seq![x]);
            assert(ordered@[old_ordered.len() as int] == x);
            assert(old_ordered + seq![x] + bfs_order(ch, seen@, queue@.skip(head as int))
                =~= old_ordered + bfs_order(ch, old_seen, pending));
            assert forall|i: int| 0 <= i < queue@.len() implies #[trigger] queue@[i] < n by {
                if i >= old_queue.len() {
                    assert(queue@[i] == ch[x as int][i - old_queue.len()]);
                }
            }
            assert forall|i: int| 0 <= i < n implies (#[trigger] seen@[i] <==> ordered@.contains(
                i as usize,
            )) by {
                if i == x {
                    assert(ordered@[old_ordered.len() as int] == x);
                } else {
                    if ordered@.contains(i as usize) {
                        let k = choose|k: int| 0 <= k < ordered@.len() && ordered@[k] == i as usize;
                        assert(k < old_ordered.len());
                        assert(old_ordered[k] == i as usize);
                    }
                    if old_ordered.contains(i as usize) {
                        let k = choose|k: int| 0 <= k < old_ordered.len() && old_ordered[k] == i as usize;
                        assert(ordered@[k] == i as usize);
                    }
                }
            }
            assert forall|c: usize| #[trigger] ch[x as int].contains(c) implies queue@.skip(
                head as int,
            ).contains(c) by {
                let t = choose|t: int| 0 <= t < ch[x as int].len() && ch[x as int][t] == c;
                assert(queue@.skip(head as int)[pending.len() - 1 + t] == c);
            }
        }
        assert(ordered@.contains(x));
        assert forall|v: usize| old_ordered.contains(v) implies #[trigger] ordered@.contains(v) by {
            let k = choose|k: int| 0 <= k < old_ordered.len() && old_ordered[k] == v;
            assert(ordered@[k] == v);
        }
        assert forall|v: usize| pending.contains(v) && v != x implies #[trigger] queue@.skip(
            head as int,
        ).contains(v) by {
            let k = choose|k: int| 0 <= k < pending.len() && pending[k] == v;
            assert(k > 0);
            assert(queue@.skip(head as int)[k - 1] == v);
        }
        assert forall|j: int| 0 <= j < roots@.len() implies ordered@.contains(#[trigger] roots@[j])
            || queue@.skip(head as int).contains(roots@[j]) by {
            let v = roots@[j];
            if old_ordered.contains(v) {
                assert(ordered@.contains(v));
            } else if v != x {
                assert(pending.contains(v));
                assert(queue@.skip(head as int).contains(v));
            }
        }
        assert forall|k: int, j: int|
            0 <= k < ordered@.len() && 0 <= j < ch[ordered@[k] as int].len() implies ordered@.contains(
                #[trigger] ch[ordered@[k] as int][j],
            ) || queue@.skip(head as int).contains(ch[ordered@[k] as int][j]) by {
            let v = ch[ordered@[k] as int][j];
            if k < old_ordered.len() {
                assert(ordered@[k] == old_ordered[k]);
                if old_ordered.contains(v) {
                    assert(ordered@.contains(v));
                } else if v != x {
                    assert(pending.contains(v));
                    assert(queue@.skip(head as int).contains(v));
                }
            } else {
                assert(ordered@[k] == x);
                assert(ch[x as int].contains(v));
            }
        }
    }
    ordered
}

/// How a scene's hierarchy is laid out as glTF nodes: `order[k]` is the
/// scene node written as glTF node `k`, `children[k]` the glTF indices of
/// its children, and `roots` the glTF indices of the scene roots.
pub struct NodeLayout {
    pub order: Vec<usize>,
    pub children: Vec<Vec<usize>>,
    pub roots: Vec<usize>,
}

/// `out` lists, by glTF index into `order`, exactly the ids of `ids`.
pub open spec fn points_back(order: Seq<usize>, out: Seq<usize>, ids: Seq<usize>) -> bool {
    &&& out.len() == ids.len()
    &&& forall|j: int|
        0 <= j < out.len() ==> #[trigger] out[j] < order.len() && order[out[j] as int] == ids[j]
}

/// The glTF index of scene node `id`, given `pos[order[t]] == t`.
fn index_of(order: &Vec<usize>, pos: &Vec<usize>, id: usize) -> (r: usize)
    requires
        pos@.len() > id,
        order@.contains(id),
        forall|t: int| 0 <= t < order@.len() ==> #[trigger] order@[t] < pos@.len() && pos@[order@[t] as int] == t,
    ensures
        r < order@.len(),
        order@[r as int] == id,
{
    let ghost t = choose|t: int| 0 <= t < order@.len() && order@[t] == id;
    assert(pos@[order@[t] as int] == t);
    pos[id]
}

/// Lays out the nodes reachable from `roots` as glTF nodes, breadth
/// first, each once; child and root references become glTF indices.
pub fn node_layout(children: &Vec<Vec<usize>>, roots: &Vec<usize>) -> (r: NodeLayout)
    requires
        children_in_range(lists_view(children@)),
        ids_in_range(roots@, children@.len() as int),
    ensures
        r.order@ == write_order_spec(lists_view(children@), roots@),
        r.order@.no_duplicates(),
        r.children@.len() == r.order@.len(),
        forall|k: int|
            0 <= k < r.order@.len() ==> points_back(
                r.order@,
                #[trigger] r.children@[k]@,
                lists_view(children@)[r.order@[k] as int],
            ),
        points_back(r.order@, r.roots@, roots@),
{
    let ghost ch = lists_view(children@);
    let order = write_order(children, roots);
    let n = children.len();
    let mut pos: Vec<usize> = Vec::new();
    while pos.len() < n
        invariant
            pos.len() <= n,
        decreases n - pos.len(),
    {
        pos.push(0);
    }
    let mut k: usize = 0;
    while k < order.len()
        invariant
            pos@.len() == n,
            k <= order@.len(),
            order@.no_duplicates(),
            ids_in_range(order@, n as int),
            forall|t: int| 0 <= t < k ==> #[trigger] pos@[order@[t] as int] == t,
        decreases order@.len() - k,
    {
        let id = order[k];
        pos.set(id, k);
        assert forall|t: int| 0 <= t < k + 1 implies #[trigger] pos@[order@[t] as int] == t by {
            if t < k {
                assert(order@[t] != order@[k as int]);
            }
        }
        k = k + 1;
    }
    assert forall|t: int| 0 <= t < order@.len() implies #[trigger] order@[t] < pos@.len() && pos@[order@[t] as int] == t by {
        assert(order@[t] < n);
    }
    let mut out_children: Vec<Vec<usize>> = Vec::new();
    let mut k: usize = 0;
    while k < order.len()
        invariant
            ch == lists_view(children@),
            n == children@.len(),
            pos@.len() == n,
            k <= order@.len(),
            out_children@.len() == k,
            ids_in_range(order@, n as int),
            forall|t: int| 0 <= t < order@.len() ==> #[trigger] order@[t] < pos@.len() && pos@[order@[t] as int] == t,
            forall|a: int, j: int|
                0 <= a < order@.len() && 0 <= j < ch[order@[a] as int].len() ==> order@.contains(
                    #[trigger] ch[order@[a] as int][j],
                ),
            children_in_range(ch),
            forall|a: int| 0 <= a < k ==> points_back(order@, #[trigger] out_children@[a]@, ch[order@[a] as int]),
        decreases order@.len() - k,
    {
        let kids = &children[order[k]];
        assert(kids@ == ch[order@[k as int] as int]);
        let mut mapped: Vec<usize> = Vec::new();
        let mut j: usize = 0;
        while j < kids.len()
            invariant
                ch == lists_view(children@),
                n == children@.len(),
                pos@.len() == n,
                k < order@.len(),
                kids@ == ch[order@[k as int] as int],
                j <= kids@.len(),
                mapped@.len() == j,
                ids_in_range(order@, n as int),
                forall|t: int| 0 <= t < order@.len() ==> #[trigger] order@[t] < pos@.len() && pos@[order@[t] as int] == t,
                forall|a: int, i: int|
                    0 <= a < order@.len() && 0 <= i < ch[order@[a] as int].len() ==> order@.contains(
                        #[trigger] ch[order@[a] as int][i],
                    ),
                children_in_range(ch),
                forall|i: int| 0 <= i < j ==> #[trigger] mapped@[i] < order@.len() && order@[mapped@[i] as int] == kids@[i],
            decreases kids@.len() - j,
        {
            let c = kids[j];
            assert(c == ch[order@[k as int] as int][j as int]);
            assert(order@.contains(c));
            assert(order@[k as int] < ch.len());
            assert(c < n);
            let g = index_of(&order, &pos, c);
            mapped.push(g);
            j = j + 1;
        }
        out_children.push(mapped);
        k = k + 1;
    }
    let mut out_roots: Vec<usize> = Vec::new();
    let mut j: usize = 0;
    while j < roots.len()
        invariant
            n == children@.len(),
            pos@.len() == n,
            j <= roots@.len(),
            out_roots@.len() == j,
            ids_in_range(roots@, n as int),
            forall|t: int| 0 <= t < order@.len() ==> #[trigger] order@[t] < pos@.len() && pos@[order@[t] as int] == t,
            forall|i: int| 0 <= i < roots@.len() ==> order@.contains(#[trigger] roots@[i]),
            forall|i: int| 0 <= i < j ==> #[trigger] out_roots@[i] < order@.len() && order@[out_roots@[i] as int] == roots@[i],
        decreases roots@.len() - j,
    {
        let r = roots[j];
        assert(order@.contains(roots@[j as int]));
        let g = index_of(&order, &pos, r);
        out_roots.push(g);
        j = j + 1;
    }
    NodeLayout { order, children: out_children, roots: out_roots }
}

/// The nodes a reader starts from: those of the default scene when it
/// names one in range, else those of the first scene, else every node.
pub open spec fn start_nodes_spec(scene: Option<usize>, scenes: Seq<Seq<usize>>, node_count: nat) -> Seq<
    usize,
> {
    let all = Seq::new(node_count, |i: int| i as usize);
    match scene {
        Some(si) => if si < scenes.len() {
            scenes[si as int]
        } else {
            all
        },
        None => if scenes.len() > 0 {
            scenes[0]
        } else {
            all
        },
    }
}

/// The glTF nodes that a reader takes as roots of the hierarchy.
pub fn start_nodes(scene: Option<usize>, scenes: &Vec<Vec<usize>>, node_count: usize) -> (r: Vec<usize>)
    ensures
        r@ == start_nodes_spec(scene, lists_view(scenes@), node_count as nat),
{
    let pick: Option<usize> = match scene {
        Some(si) => if si < scenes.len() {
            Some(si)
        } else {
            None
        },
        None => if scenes.len() > 0 {
            Some(0)
        } else {
            None
        },
    };
    match pick {
        Some(si) => scenes[si].clone(),
        None => {
            let mut all: Vec<usize> = Vec::new();
            let mut i: usize = 0;
            while i < node_count
                invariant
                    i <= node_count,
                    all@ == Seq::new(i as nat, |t: int| t as usize),
                decreases node_count - i,
            {
                all.push(i);
                i = i + 1;
                assert(all@ =~= Seq::new(i as nat, |t: int| t as usize));
            }
            all
        },
    }
}

/// `keep` holds every node in range that can be reached from it, and
/// `rank` puts each child of a node of `keep` below its parent: no chain of
/// child links from `keep` leads back to where it started.
pub open spec fn ranked(children: Seq<Seq<usize>>, rank: Seq<nat>, keep: Set<int>) -> bool {
    &&& rank.len() == children.len()
    &&& forall|i: int| #[trigger] keep.contains(i) ==> 0 <= i < children.len() && rank[i] < children.len()
    &&& forall|i: int, j: int|
        #![trigger keep.contains(i), children[i][j]]
        keep.contains(i) && 0 <= j < children[i].len() && children[i][j] < children.len() ==> {
            &&& keep.contains(children[i][j] as int)
            &&& rank[children[i][j] as int] < rank[i]
        }
}

/// No cycle of child links can be reached from the nodes `ids`.
pub open spec fn no_cycle_from(children: Seq<Seq<usize>>, ids: Seq<usize>) -> bool {
    exists|rank: Seq<nat>, keep: Set<int>|
        ranked(children, rank, keep) && forall|j: int|
            0 <= j < ids.len() && ids[j] < children.len() ==> keep.contains(#[trigger] ids[j] as int)
}

/// How many entries a breadth-first walk from `i` creates, looking `d`
/// levels deep (one for a node out of range).
pub open spec fn walk_size(children: Seq<Seq<usize>>, i: int, d: nat) -> nat
    decreases d, 0nat,
{
    if d == 0 || !(0 <= i < children.len()) {
        1
    } else {
        1 + walk_size_list(children, children[i], (d - 1) as nat)
    }
}

pub open spec fn walk_size_list(children: Seq<Seq<usize>>, list: Seq<usize>, d: nat) -> nat
    decreases d, list.len() + 1,
{
    if list.len() == 0 {
        0
    } else {
        walk_size(children, list[0] as int, d) + walk_size_list(children, list.drop_first(), d)
    }
}

/// Beyond a node's rank, looking deeper changes nothing.
proof fn lemma_walk_stable(
    children: Seq<Seq<usize>>,
    rank: Seq<nat>,
    keep: Set<int>,
    i: int,
    d1: nat,
    d2: nat,
)
    requires
        ranked(children, rank, keep),
        keep.contains(i),
        d1 > rank[i],
        d2 > rank[i],
    ensures
        walk_size(children, i, d1) == walk_size(children, i, d2),
    decreases rank[i], children[i].len() + 1,
{
    assert forall|j: int| 0 <= j < children[i].len() && children[i][j] < children.len() implies keep.contains(
        #[trigger] children[i][j] as int,
    ) && rank[children[i][j] as int] < rank[i] by {}
    lemma_walk_stable_list(children, rank, keep, children[i], (d1 - 1) as nat, (d2 - 1) as nat, rank[i]);
}

proof fn lemma_walk_stable_list(
    children: Seq<Seq<usize>>,
    rank: Seq<nat>,
    keep: Set<int>,
    list: Seq<usize>,
    d1: nat,
    d2: nat,
    b: nat,
)
    requires
        ranked(children, rank, keep),
        b <= d1,
        b <= d2,
        forall|j: int|
            0 <= j < list.len() && list[j] < children.len() ==> keep.contains(#[trigger] list[j] as int)
                && rank[list[j] as int] < b,
    ensures
        walk_size_list(children, list, d1) == walk_size_list(children, list, d2),
    decreases b, list.len(),
{
    if list.len() > 0 {
        let c = list[0] as int;
        if c < children.len() {
            assert(keep.contains(list[0] as int));
            lemma_walk_stable(children, rank, keep, c, d1, d2);
        }
        assert forall|j: int| 0 <= j < list.drop_first().len() && list.drop_first()[j] < children.len()
            implies keep.contains(#[trigger] list.drop_first()[j] as int) && rank[list.drop_first()[j] as int] < b by {
            assert(list.drop_first()[j] == list[j + 1]);
        }
        lemma_walk_stable_list(children, rank, keep, list.drop_first(), d1, d2, b);
    }
}

/// The weight of a pending list splits over its parts.
proof fn lemma_walk_list_append(children: Seq<Seq<usize>>, a: Seq<usize>, b: Seq<usize>, d: nat)
    ensures
        walk_size_list(children, a + b, d) == walk_size_list(children, a, d) + walk_size_list(children, b, d),
    decreases a.len(),
{
    if a.len() > 0 {
        assert((a + b).drop_first() =~= a.drop_first() + b);
        lemma_walk_list_append(children, a.drop_first(), b, d);
    } else {
        assert(a + b =~= b);
    }
}

/// Creating the front node of a walk leaves its children pending: the
/// total still to create drops by one, and no cycle comes into reach.
pub proof fn lemma_walk_step(children: Seq<Seq<usize>>, queue: Seq<usize>)
    requires
        no_cycle_from(children, queue),
        queue.len() > 0,
    ensures
        queue[0] < children.len() ==> walk_size_list(children, queue.drop_first() + children[queue[0] as int], children.len())
            < walk_size_list(children, queue, children.len()),
        queue[0] < children.len() ==> no_cycle_from(children, queue.drop_first() + children[queue[0] as int]),
        !(queue[0] < children.len()) ==> walk_size_list(children, queue.drop_first(), children.len())
            < walk_size_list(children, queue, children.len()),
        no_cycle_from(children, queue.drop_first()),
{
    let n = children.len();
    let x = queue[0] as int;
    let (rank, keep) = choose|rank: Seq<nat>, keep: Set<int>|
        ranked(children, rank, keep) && forall|j: int|
            0 <= j < queue.len() && queue[j] < children.len() ==> keep.contains(#[trigger] queue[j] as int);
    lemma_walk_list_append(children, queue.drop_first(), children[x], n);
    assert(walk_size_list(children, queue, n) == walk_size(children, x, n) + walk_size_list(
        children,
        queue.drop_first(),
        n,
    ));
    assert(walk_size(children, x, n) >= 1);
    let rest = queue.drop_first();
    assert forall|j: int| 0 <= j < rest.len() && rest[j] < n implies keep.contains(#[trigger] rest[j] as int) by {
        assert(rest[j] == queue[j + 1]);
    }
    if x < n {
        assert(keep.contains(queue[0] as int));
        assert(walk_size(children, x, n) == 1 + walk_size_list(children, children[x], (n - 1) as nat));
        assert forall|j: int| 0 <= j < children[x].len() && children[x][j] < n
            implies keep.contains(#[trigger] children[x][j] as int) && rank[children[x][j] as int] < rank[x] by {}
        assert(rank[x] < n);
        lemma_walk_stable_list(children, rank, keep, children[x], (n - 1) as nat, n, rank[x]);
        let q2 = rest + children[x];
        assert forall|j: int| 0 <= j < q2.len() && q2[j] < n implies keep.contains(#[trigger] q2[j] as int) by {
            if j < rest.len() {
                assert(q2[j] == rest[j]);
            } else {
                assert(q2[j] == children[x][j - rest.len()]);
            }
        }
    }
}

/// The node ids of a pending list of (node, parent entry) pairs.
pub open spec fn pending_ids(queue: Seq<(usize, Option<usize>)>) -> Seq<usize> {
    queue.map_values(|e: (usize, Option<usize>)| e.0)
}

/// The children of a node, pending under the entry numbered `parent`.
pub open spec fn under(kids: Seq<usize>, parent: nat) -> Seq<(usize, Option<usize>)> {
    kids.map_values(|c: usize| (c, Some(parent as usize)))
}

/// The entries a reader creates, breadth first from `queue`: each is a
/// node and the entry of its parent (`None` for a root). A node out of
/// range creates nothing; a node reached twice is created twice.
pub open spec fn read_plan(children: Seq<Seq<usize>>, queue: Seq<(usize, Option<usize>)>, next: nat) -> Seq<
    (usize, Option<usize>),
>
    decreases walk_size_list(children, pending_ids(queue), children.len()),
    when no_cycle_from(children, pending_ids(queue))
{
    if queue.len() == 0 {
        Seq::empty()
    } else {
        let x = queue[0].0;
        proof {
            lemma_walk_step(children, pending_ids(queue));
            assert(pending_ids(queue).drop_first() =~= pending_ids(queue.drop_first()));
            assert(pending_ids(queue.drop_first() + under(children[x as int], next)) =~= pending_ids(
                queue,
            ).drop_first() + children[x as int]);
        }
        if x >= children.len() {
            read_plan(children, queue.drop_first(), next)
        } else {
            seq![queue[0]] + read_plan(children, queue.drop_first() + under(children[x as int], next), next + 1)
        }
    }
}

/// The roots of a read, none with a parent.
pub open spec fn as_roots(roots: Seq<usize>) -> Seq<(usize, Option<usize>)> {
    roots.map_values(|r: usize| (r, None::<usize>))
}

/// The node entries a reader creates from `roots`, breadth first: each
/// entry is a glTF node and the entry of its parent. Every parent entry
/// comes earlier and has the node among its children.
pub fn read_plan_of(children: &Vec<Vec<usize>>, roots: &Vec<usize>) -> (r: Vec<(usize, Option<usize>)>)
    requires
        no_cycle_from(lists_view(children@), roots@),
    ensures
        r@ == read_plan(lists_view(children@), as_roots(roots@), 0),
        forall|k: int| 0 <= k < r@.len() ==> (#[trigger] r@[k]).0 < children@.len(),
        forall|k: int|
            0 <= k < r@.len() && (#[trigger] r@[k]).1 is Some ==> {
                let p = r@[k].1->0 as int;
                &&& p < k
                &&& lists_view(children@)[r@[p].0 as int].contains(r@[k].0)
            },
{
    let ghost ch = lists_view(children@);
    let n = children.len();
    let mut queue: Vec<(usize, Option<usize>)> = Vec::new();
    let mut j: usize = 0;
    while j < roots.len()
        invariant
            j <= roots@.len(),
            queue@ == as_roots(roots@).take(j as int),
        decreases roots@.len() - j,
    {
        queue.push((roots[j], None));
        j = j + 1;
        assert(queue@ =~= as_roots(roots@).take(j as int));
    }
    assert(queue@.skip(0) =~= as_roots(roots@));
    let mut head: usize = 0;
    let mut out: Vec<(usize, Option<usize>)> = Vec::new();
    while head < queue.len()
        invariant
            ch == lists_view(children@),
            n == children@.len(),
            no_cycle_from(ch, pending_ids(queue@.skip(head as int))),
            head <= queue@.len(),
            out@ + read_plan(ch, queue@.skip(head as int), out@.len()) == read_plan(ch, as_roots(roots@), 0),
            forall|k: int| 0 <= k < out@.len() ==> (#[trigger] out@[k]).0 < n,
            forall|k: int|
                0 <= k < out@.len() && (#[trigger] out@[k]).1 is Some ==> {
                    let p = out@[k].1->0 as int;
                    &&& p < k
                    &&& ch[out@[p].0 as int].contains(out@[k].0)
                },
            forall|k: int|
                head <= k < queue@.len() && (#[trigger] queue@[k]).1 is Some ==> {
                    let p = queue@[k].1->0 as int;
                    &&& p < out@.len()
                    &&& ch[out@[p].0 as int].contains(queue@[k].0)
                },
        decreases walk_size_list(ch, pending_ids(queue@.skip(head as int)), n as nat),
    {
        let ghost pending = queue@.skip(head as int);
        let ghost old_out = out@;
        let ghost old_queue = queue@;
        proof {
            lemma_walk_step(ch, pending_ids(pending));
            assert(pending_ids(pending).drop_first() =~= pending_ids(pending.drop_first()));
        }
        let (x, parent) = queue[head];
        assert(pending[0] == (x, parent));
        assert(pending.drop_first() =~= queue@.skip(head + 1));
        head = head + 1;
        if x < n {
            let here = out.len();
            out.push((x, parent));
            let kids = &children[x];
            assert(kids@ == ch[x as int]);
            let mut j: usize = 0;
            while j < kids.len()
                invariant
                    j <= kids@.len(),
                    kids@ == ch[x as int],
                    head <= old_queue.len(),
                    queue@ == old_queue + under(kids@, here as nat).take(j as int),
                decreases kids@.len() - j,
            {
                queue.push((kids[j], Some(here)));
                j = j + 1;
                assert(queue@ =~= old_queue + under(kids@, here as nat).take(j as int));
            }
            assert(under(kids@, here as nat).take(j as int) =~= under(kids@, here as nat));
            assert(queue@.skip(head as int) =~= pending.drop_first() + under(ch[x as int], here as nat));
            assert(pending_ids(pending.drop_first() + under(ch[x as int], here as nat)) =~= pending_ids(
                pending,
            ).drop_first() + ch[x as int]);
            assert(out@ =~= old_out + seq![(x, parent)]);
            assert(old_out + seq![(x, parent)] + read_plan(ch, queue@.skip(head as int), out@.len())
                =~= old_out + read_plan(ch, pending, old_out.len()));
            assert forall|k: int|
                head <= k < queue@.len() && (#[trigger] queue@[k]).1 is Some implies {
                    let p = queue@[k].1->0 as int;
                    &&& p < out@.len()
                    &&& ch[out@[p].0 as int].contains(queue@[k].0)
                } by {
                if k >= old_queue.len() {
                    let t = k - old_queue.len();
                    assert(queue@[k] == (kids@[t], Some(here)));
                    assert(out@[here as int] == (x, parent));
                    assert(ch[x as int][t] == kids@[t]);
                } else {
                    assert(queue@[k] == old_queue[k]);
                    let p = queue@[k].1->0 as int;
                    assert(out@[p] == old_out[p]);
                }
            }
            assert forall|k: int|
                0 <= k < out@.len() && (#[trigger] out@[k]).1 is Some implies {
                    let p = out@[k].1->0 as int;
                    &&& p < k
                    &&& ch[out@[p].0 as int].contains(out@[k].0)
                } by {
                if k < old_out.len() {
                    assert(out@[k] == old_out[k]);
                    let p = out@[k].1->0 as int;
                    assert(out@[p] == old_out[p]);
                } else {
                    assert(old_queue[head - 1] == (x, parent));
                    let p = parent->0 as int;
                    assert(out@[p] == old_out[p]);
                }
            }
        } else {
            assert(pending_ids(pending.drop_first()) == pending_ids(pending).drop_first());
        }
    }
    out
}

/// `keep` holds every in-range root and every in-range child of what it
/// holds, and nothing out of range.
pub open spec fn closed_from(children: Seq<Seq<usize>>, roots: Seq<usize>, keep: Set<int>) -> bool {
    &&& forall|j: int| 0 <= j < roots.len() && roots[j] < children.len() ==> keep.contains(#[trigger] roots[j] as int)
    &&& forall|i: int| #[trigger] keep.contains(i) ==> 0 <= i < children.len()
    &&& forall|i: int, j: int|
        #![trigger keep.contains(i), children[i][j]]
        keep.contains(i) && 0 <= j < children[i].len() && children[i][j] < children.len() ==> keep.contains(
            children[i][j] as int,
        )
}

/// Whether every in-range entry of `kids` is marked in `marks`.
fn all_marked(kids: &Vec<usize>, marks: &Vec<bool>) -> (r: bool)
    ensures
        r <==> forall|j: int| 0 <= j < kids@.len() && kids@[j] < marks@.len() ==> marks@[#[trigger] kids@[j] as int],
{
    let mut j: usize = 0;
    while j < kids.len()
        invariant
            j <= kids@.len(),
            forall|t: int| 0 <= t < j && kids@[t] < marks@.len() ==> marks@[#[trigger] kids@[t] as int],
        decreases kids@.len() - j,
    {
        let c = kids[j];
        if c < marks.len() && !marks[c] {
            return false;
        }
        j = j + 1;
    }
    true
}

/// The nodes reachable from the in-range roots through in-range children.
fn reachable(children: &Vec<Vec<usize>>, roots: &Vec<usize>) -> (r: Vec<bool>)
    ensures
        r@.len() == children@.len(),
        closed_from(lists_view(children@), roots@, Set::new(|i: int| 0 <= i < r@.len() && r@[i])),
        forall|keep: Set<int>, i: int|
            #![trigger keep.contains(i), r@[i]]
            closed_from(lists_view(children@), roots@, keep) && 0 <= i < r@.len() && r@[i] ==> keep.contains(i),
{
    let ghost ch = lists_view(children@);
    let n = children.len();
    let mut r: Vec<bool> = Vec::new();
    while r.len() < n
        invariant
            r@.len() <= n,
            forall|i: int| 0 <= i < r@.len() ==> !#[trigger] r@[i],
        decreases n - r@.len(),
    {
        r.push(false);
    }
    let mut j: usize = 0;
    while j < roots.len()
        invariant
            n == children@.len(),
            ch == lists_view(children@),
            r@.len() == n,
            j <= roots@.len(),
            forall|t: int| 0 <= t < j && roots@[t] < n ==> r@[#[trigger] roots@[t] as int],
            forall|keep: Set<int>, i: int|
                #![trigger keep.contains(i), r@[i]]
                closed_from(ch, roots@, keep) && 0 <= i < n && r@[i] ==> keep.contains(i),
        decreases roots@.len() - j,
    {
        let x = roots[j];
        if x < n {
            r.set(x, true);
            assert forall|keep: Set<int>, i: int|
                #![trigger keep.contains(i), r@[i]]
                closed_from(ch, roots@, keep) && 0 <= i < n && r@[i] implies keep.contains(i) by {
                if i == x {
                    assert(roots@[j as int] == x);
                }
            }
        }
        j = j + 1;
    }
    let mut changed = true;
    while changed
        invariant
            n == children@.len(),
            ch == lists_view(children@),
            r@.len() == n,
            forall|t: int| 0 <= t < roots@.len() && roots@[t] < n ==> r@[#[trigger] roots@[t] as int],
            forall|keep: Set<int>, i: int|
                #![trigger keep.contains(i), r@[i]]
                closed_from(ch, roots@, keep) && 0 <= i < n && r@[i] ==> keep.contains(i),
            !changed ==> forall|a: int, b: int|
                0 <= a < n && r@[a] && 0 <= b < ch[a].len() && ch[a][b] < n ==> r@[#[trigger] ch[a][b] as int],
        decreases count_unseen(r@) + (if changed { 1nat } else { 0nat }),
    {
        changed = false;
        let ghost start = r@;
        let mut i: usize = 0;
        while i < n
            invariant
                n == children@.len(),
                ch == lists_view(children@),
                r@.len() == n,
                i <= n,
                forall|t: int| 0 <= t < roots@.len() && roots@[t] < n ==> r@[#[trigger] roots@[t] as int],
                forall|keep: Set<int>, k: int|
                    #![trigger keep.contains(k), r@[k]]
                    closed_from(ch, roots@, keep) && 0 <= k < n && r@[k] ==> keep.contains(k),
                !changed ==> r@ == start,
                changed ==> count_unseen(r@) < count_unseen(start),
                !changed ==> forall|a: int, b: int|
                    0 <= a < i && r@[a] && 0 <= b < ch[a].len() && ch[a][b] < n ==> r@[#[trigger] ch[a][b] as int],
            decreases n - i,
        {
            if r[i] {
                let kids = &children[i];
                assert(kids@ == ch[i as int]);
                let mut j: usize = 0;
                while j < kids.len()
                    invariant
                        n == children@.len(),
                        ch == lists_view(children@),
                        r@.len() == n,
                        i < n,
                        r@[i as int],
                        kids@ == ch[i as int],
                        j <= kids@.len(),
                        forall|t: int| 0 <= t < roots@.len() && roots@[t] < n ==> r@[#[trigger] roots@[t] as int],
                        forall|keep: Set<int>, k: int|
                            #![trigger keep.contains(k), r@[k]]
                            closed_from(ch, roots@, keep) && 0 <= k < n && r@[k] ==> keep.contains(k),
                        !changed ==> r@ == start,
                        changed ==> count_unseen(r@) < count_unseen(start),
                        !changed ==> forall|a: int, b: int|
                            0 <= a < i && r@[a] && 0 <= b < ch[a].len() && ch[a][b] < n ==> r@[#[trigger] ch[a][b] as int],
                        !changed ==> forall|b: int| 0 <= b < j && kids@[b] < n ==> r@[#[trigger] kids@[b] as int],
                    decreases kids@.len() - j,
                {
                    let c = kids[j];
                    if c < n && !r[c] {
                        proof {
                            lemma_mark_seen(r@, c as int);
                        }
                        let ghost before = r@;
                        r.set(c, true);
                        assert forall|keep: Set<int>, k: int|
                            #![trigger keep.contains(k), r@[k]]
                            closed_from(ch, roots@, keep) && 0 <= k < n && r@[k] implies keep.contains(k) by {
                            if k == c {
                                assert(before[i as int]);
                                assert(keep.contains(i as int));
                                assert(ch[i as int][j as int] == c);
                            } else {
                                assert(before[k]);
                            }
                        }
                        changed = true;
                    }
                    j = j + 1;
                }
            }
            i = i + 1;
        }
    }
    let ghost keep0 = Set::new(|k: int| 0 <= k < r@.len() && r@[k]);
    assert forall|a: int, b: int|
        #![trigger keep0.contains(a), ch[a][b]]
        keep0.contains(a) && 0 <= b < ch[a].len() && ch[a][b] < ch.len() implies keep0.contains(ch[a][b] as int) by {
        assert(r@[ch[a][b] as int]);
    }
    r
}

proof fn lemma_count_unseen_le(seen: Seq<bool>)
    ensures
        count_unseen(seen) <= seen.len(),
    decreases seen.len(),
{
    if seen.len() > 0 {
        lemma_count_unseen_le(seen.drop_last());
    }
}

/// Where every member of `s` has an in-range child in `s`, no ranking can
/// put them all below `b`: following children down never ends.
proof fn lemma_no_descent(children: Seq<Seq<usize>>, rank: Seq<nat>, keep: Set<int>, s: Set<int>, b: nat)
    requires
        ranked(children, rank, keep),
        forall|i: int| #[trigger] s.contains(i) ==> keep.contains(i),
        forall|i: int|
            #[trigger] s.contains(i) ==> exists|j: int|
                0 <= j < children[i].len() && children[i][j] < children.len() && s.contains(
                    #[trigger] children[i][j] as int,
                ),
    ensures
        forall|i: int| #[trigger] s.contains(i) ==> rank[i] >= b,
    decreases b,
{
    if b > 0 {
        lemma_no_descent(children, rank, keep, s, (b - 1) as nat);
        assert forall|i: int| #[trigger] s.contains(i) implies rank[i] >= b by {
            let j = choose|j: int|
                0 <= j < children[i].len() && children[i][j] < children.len() && s.contains(
                    #[trigger] children[i][j] as int,
                );
            assert(keep.contains(i));
            assert(rank[children[i][j] as int] < rank[i]);
            assert(rank[children[i][j] as int] >= b - 1);
        }
    }
}

/// Whether no cycle of child links can be reached from `roots`: every
/// reachable node gets a rank above its children's, or some reachable
/// nodes each have a child among them.
pub fn cycle_free_from(children: &Vec<Vec<usize>>, roots: &Vec<usize>) -> (r: bool)
    ensures
        r == no_cycle_from(lists_view(children@), roots@),
{
    let ghost ch = lists_view(children@);
    let n = children.len();
    let reach = reachable(children, roots);
    let ghost reach_set = Set::new(|k: int| 0 <= k < reach@.len() && reach@[k]);
    let mut done: Vec<bool> = Vec::new();
    let mut rank: Vec<usize> = Vec::new();
    while done.len() < n
        invariant
            done@.len() == rank@.len(),
            done@.len() <= n,
            forall|i: int| 0 <= i < done@.len() ==> !#[trigger] done@[i],
        decreases n - done@.len(),
    {
        done.push(false);
        rank.push(0);
    }
    let mut t: usize = 0;
    let mut progress = true;
    proof {
        lemma_count_unseen_le(done@);
    }
    while progress
        invariant
            n == children@.len(),
            ch == lists_view(children@),
            reach@.len() == n,
            done@.len() == n,
            rank@.len() == n,
            t + count_unseen(done@) <= n,
            forall|i: int| 0 <= i < n && #[trigger] done@[i] ==> reach@[i] && rank@[i] < t,
            forall|i: int, j: int|
                #![trigger done@[i], ch[i][j]]
                0 <= i < n && done@[i] && 0 <= j < ch[i].len() && ch[i][j] < n ==> done@[ch[i][j] as int]
                    && rank@[ch[i][j] as int] < rank@[i],
            !progress ==> forall|i: int|
                0 <= i < n && reach@[i] && !done@[i] ==> exists|j: int|
                    0 <= j < ch[i].len() && ch[i][j] < n && !done@[#[trigger] ch[i][j] as int],
        decreases count_unseen(done@) + (if progress { 1nat } else { 0nat }),
    {
        progress = false;
        let snap = done.clone();
        let ghost rsnap = rank@;
        assert(snap@ == done@);
        let mut i: usize = 0;
        while i < n
            invariant
                n == children@.len(),
                ch == lists_view(children@),
                reach@.len() == n,
                done@.len() == n,
                rank@.len() == n,
                snap@.len() == n,
                rsnap.len() == n,
                i <= n,
                t + count_unseen(snap@) <= n,
                forall|k: int| 0 <= k < n && #[trigger] snap@[k] ==> reach@[k] && rsnap[k] < t,
                forall|k: int, j: int|
                    #![trigger snap@[k], ch[k][j]]
                    0 <= k < n && snap@[k] && 0 <= j < ch[k].len() && ch[k][j] < n ==> snap@[ch[k][j] as int]
                        && rsnap[ch[k][j] as int] < rsnap[k],
                forall|k: int| 0 <= k < n && #[trigger] snap@[k] ==> done@[k] && rank@[k] == rsnap[k],
                forall|k: int|
                    0 <= k < n && #[trigger] done@[k] && !snap@[k] ==> k < i && reach@[k] && rank@[k] == t && forall|j: int|
                        0 <= j < ch[k].len() && ch[k][j] < n ==> snap@[#[trigger] ch[k][j] as int],
                progress ==> count_unseen(done@) < count_unseen(snap@),
                !progress ==> done@ == snap@,
                !progress ==> forall|k: int|
                    0 <= k < i && reach@[k] && !snap@[k] ==> exists|j: int|
                        0 <= j < ch[k].len() && ch[k][j] < n && !snap@[#[trigger] ch[k][j] as int],
            decreases n - i,
        {
            if reach[i] && !snap[i] {
                let kids = &children[i];
                assert(kids@ == ch[i as int]);
                if all_marked(kids, &snap) {
                    proof {
                        lemma_mark_seen(snap@, i as int);
                        assert(!done@[i as int]);
                        lemma_mark_seen(done@, i as int);
                    }
                    done.set(i, true);
                    rank.set(i, t);
                    progress = true;
                } else {
                    proof {
                        let j = choose|j: int| !(0 <= j < kids@.len() && kids@[j] < snap@.len() ==> snap@[#[trigger] kids@[j] as int]);
                        assert(0 <= j < ch[i as int].len() && ch[i as int][j] < n && !snap@[ch[i as int][j] as int]);
                    }
                }
            }
            i = i + 1;
        }
        proof {
            assert forall|k: int, j: int|
                #![trigger done@[k], ch[k][j]]
                0 <= k < n && done@[k] && 0 <= j < ch[k].len() && ch[k][j] < n implies done@[ch[k][j] as int]
                    && rank@[ch[k][j] as int] < rank@[k] by {
                let c = ch[k][j] as int;
                if snap@[k] {
                    assert(snap@[c] && rsnap[c] < rsnap[k]);
                } else {
                    assert(snap@[c]);
                    assert(rsnap[c] < t);
                }
            }
        }
        if progress {
            t = t + 1;
        }
    }
    proof {
        lemma_count_unseen_le(done@);
    }
    let mut i: usize = 0;
    while i < n
        invariant
            n == children@.len(),
            ch == lists_view(children@),
            reach@.len() == n,
            done@.len() == n,
            rank@.len() == n,
            i <= n,
            t <= n,
            reach_set == Set::new(|k: int| 0 <= k < reach@.len() && reach@[k]),
            closed_from(ch, roots@, reach_set),
            forall|keep: Set<int>, k: int|
                #![trigger keep.contains(k), reach@[k]]
                closed_from(ch, roots@, keep) && 0 <= k < reach@.len() && reach@[k] ==> keep.contains(k),
            forall|k: int| 0 <= k < n && #[trigger] done@[k] ==> reach@[k] && rank@[k] < t,
            forall|k: int, j: int|
                #![trigger done@[k], ch[k][j]]
                0 <= k < n && done@[k] && 0 <= j < ch[k].len() && ch[k][j] < n ==> done@[ch[k][j] as int]
                    && rank@[ch[k][j] as int] < rank@[k],
            forall|k: int|
                0 <= k < n && reach@[k] && !done@[k] ==> exists|j: int|
                    0 <= j < ch[k].len() && ch[k][j] < n && !done@[#[trigger] ch[k][j] as int],
            forall|k: int| 0 <= k < i && #[trigger] reach@[k] ==> done@[k],
        decreases n - i,
    {
        if reach[i] && !done[i] {
            proof {
                let sset = Set::new(|k: int| 0 <= k < n && reach@[k] && !done@[k]);
                if no_cycle_from(ch, roots@) {
                    let (rk, keep) = choose|rk: Seq<nat>, keep: Set<int>|
                        ranked(ch, rk, keep) && forall|j: int|
                            0 <= j < roots@.len() && roots@[j] < ch.len() ==> keep.contains(#[trigger] roots@[j] as int);
                    assert(closed_from(ch, roots@, keep));
                    assert forall|k: int| #[trigger] sset.contains(k) implies keep.contains(k) by {
                        assert(0 <= k < n && reach@[k] && !done@[k]);
                        assert(closed_from(ch, roots@, keep));
                        assert(ch == lists_view(children@));
                        assert(0 <= k < reach@.len());
                        assert(reach@[k]);
                    }
                    assert forall|k: int| #[trigger] sset.contains(k) implies exists|j: int|
                        0 <= j < ch[k].len() && ch[k][j] < ch.len() && sset.contains(#[trigger] ch[k][j] as int) by {
                        assert(0 <= k < n && reach@[k] && !done@[k]);
                        let j = choose|j: int| 0 <= j < ch[k].len() && ch[k][j] < n && !done@[#[trigger] ch[k][j] as int];
                        assert(reach_set.contains(k));
                        assert(reach_set.contains(ch[k][j] as int));
                        assert(sset.contains(ch[k][j] as int));
                    }
                    lemma_no_descent(ch, rk, keep, sset, n as nat);
                    assert(sset.contains(i as int));
                    assert(keep.contains(i as int));
                    assert(false);
                }
            }
            return false;
        }
        i = i + 1;
    }
    proof {
        let rk = Seq::new(n as nat, |k: int| rank@[k] as nat);
        assert(ranked(ch, rk, reach_set)) by {
            assert forall|k: int| #[trigger] reach_set.contains(k) implies 0 <= k < ch.len() && rk[k] < ch.len() by {
                assert(done@[k]);
            }
            assert forall|k: int, j: int|
                #![trigger reach_set.contains(k), ch[k][j]]
                reach_set.contains(k) && 0 <= j < ch[k].len() && ch[k][j] < ch.len() implies {
                    &&& reach_set.contains(ch[k][j] as int)
                    &&& rk[ch[k][j] as int] < rk[k]
                } by {
                assert(done@[k]);
            }
        }
        assert forall|j: int| 0 <= j < roots@.len() && roots@[j] < ch.len() implies reach_set.contains(
            #[trigger] roots@[j] as int,
        ) by {}
    }
    true
}

/// The reader's plan for `roots`, or `None` when a cycle of child links
/// can be reached from them (where a reader would never finish).
pub fn read_plan_checked(children: &Vec<Vec<usize>>, roots: &Vec<usize>) -> (r: Option<Vec<(usize, Option<usize>)>>)
    ensures
        r is None <==> !no_cycle_from(lists_view(children@), roots@),
        r matches Some(p) ==> p@ == read_plan(lists_view(children@), as_roots(roots@), 0),
{
    if cycle_free_from(children, roots) {
        Some(read_plan_of(children, roots))
    } else {
        None
    }
}

} // verus!
