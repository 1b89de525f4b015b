//! What the traversal reaches: the nodes that it enters are the nodes that
//! can be reached from the root, each entered once and from a node that lists
//! it as a child.

use crate::content::skipped;
use crate::models::NodeView;
use crate::tree::{emits, emitted, entered, linearization, lemma_unvisited_decreases,
    lemma_unvisited_monotone, nodes_of, root_candidates, root_of, roots, sentinel, speaks,
    traversal, unvisited, walk, walk_all, Linearized, Visit};
use vstd::prelude::*;

verus! {

/// `to` is a node of the graph and a child of the node `from`.
pub open spec fn edge(m: Map<Seq<char>, NodeView>, from: Seq<char>, to: Seq<char>) -> bool {
    m.dom().contains(from) && m.dom().contains(to) && m[from].children.contains(to)
}

/// A list of nodes of the graph, each a child of the one before it.
pub open spec fn is_path(m: Map<Seq<char>, NodeView>, path: Seq<Seq<char>>) -> bool {
    &&& path.len() > 0
    &&& m.dom().contains(path[0])
    &&& forall|i: int| 0 <= i < path.len() - 1 ==> edge(m, #[trigger] path[i], path[i + 1])
}

/// `to` can be reached from `from` along child references through nodes of
/// the graph.
pub open spec fn reachable(m: Map<Seq<char>, NodeView>, from: Seq<char>, to: Seq<char>) -> bool {
    exists|path: Seq<Seq<char>>| is_path(m, path) && path[0] == from && path.last() == to
}

/// The nodes that can be reached from `root` and have a message that is not
/// skipped.
pub open spec fn contributing(m: Map<Seq<char>, NodeView>, root: Seq<char>) -> Set<Seq<char>> {
    Set::new(|key: Seq<char>| reachable(m, root, key) && speaks(m[key]))
}

/// The step records a parent that lists the step's node as a child.
pub open spec fn linked(m: Map<Seq<char>, NodeView>, visit: Visit) -> bool {
    visit.parent matches Some(parent) && edge(m, parent, visit.node)
}

/// The step at `at` records a parent that lists its node as a child, and
/// that is `outer` or the node of an earlier step.
pub open spec fn entered_from(
    m: Map<Seq<char>, NodeView>,
    steps: Seq<Visit>,
    at: int,
    outer: Option<Seq<char>>,
) -> bool {
    &&& linked(m, steps[at])
    &&& (steps[at].parent == outer || exists|before: int|
        0 <= before < at && Some(#[trigger] steps[before].node) == steps[at].parent)
}

/// The steps enter nodes of the graph that are not in `visited`, none twice,
/// and every child of a node that they enter is in `visited` or entered.
pub open spec fn well_walked(
    m: Map<Seq<char>, NodeView>,
    steps: Seq<Visit>,
    visited: Set<Seq<char>>,
) -> bool {
    let names = nodes_of(steps);
    &&& names.no_duplicates()
    &&& forall|i: int|
        0 <= i < names.len() ==> m.dom().contains(#[trigger] names[i]) && !visited.contains(
            names[i],
        )
    &&& forall|i: int, child: Seq<char>|
        0 <= i < names.len() && #[trigger] edge(m, names[i], child) ==> visited.contains(child)
            || names.contains(child)
}

proof fn lemma_extend_path(
    m: Map<Seq<char>, NodeView>,
    from: Seq<char>,
    via: Seq<char>,
    to: Seq<char>,
)
    requires
        edge(m, from, via),
        reachable(m, via, to),
    ensures
        reachable(m, from, to),
{
    let tail = choose|path: Seq<Seq<char>>| is_path(m, path) && path[0] == via && path.last() == to;
    let path = seq![from] + tail;
    assert forall|i: int| 0 <= i < path.len() - 1 implies edge(m, #[trigger] path[i], path[i + 1]) by {
        if i > 0 {
            assert(path[i] == tail[i - 1]);
            assert(path[i + 1] == tail[i]);
        }
    }
    assert(is_path(m, path) && path[0] == from && path.last() == to);
}

proof fn lemma_reaches_itself(m: Map<Seq<char>, NodeView>, id: Seq<char>)
    requires
        m.dom().contains(id),
    ensures
        reachable(m, id, id),
{
    let path = seq![id];
    assert(is_path(m, path) && path[0] == id && path.last() == id);
}

/// What holds of the steps of `walk`.
pub proof fn lemma_walk(
    m: Map<Seq<char>, NodeView>,
    id: Seq<char>,
    parent: Option<Seq<char>>,
    visited: Set<Seq<char>>,
)
    requires
        m.dom().finite(),
    ensures
        well_walked(m, walk(m, id, parent, visited), visited),
        m.dom().contains(id) && !visited.contains(id) ==> walk(m, id, parent, visited).len() > 0
            && walk(m, id, parent, visited)[0] == (Visit { node: id, parent }),
        forall|i: int|
            0 <= i < walk(m, id, parent, visited).len() ==> reachable(
                m,
                id,
                (#[trigger] walk(m, id, parent, visited)[i]).node,
            ),
        forall|i: int|
            1 <= i < walk(m, id, parent, visited).len() ==> #[trigger] entered_from(
                m,
                walk(m, id, parent, visited),
                i,
                None,
            ),
    decreases unvisited(m, visited), 0nat,
{
    let steps = walk(m, id, parent, visited);
    if m.dom().contains(id) && !visited.contains(id) {
        let head = Visit { node: id, parent };
        let ids = m[id].children;
        let inside = visited.insert(id);
        let below = walk_all(m, ids, id, inside);
        lemma_unvisited_decreases(m, visited, id);
        assert forall|j: int| 0 <= j < ids.len() && m.dom().contains(ids[j]) implies m[id].children.contains(#[trigger] ids[j]) by {}
        lemma_walk_all(m, ids, id, inside);
        assert(steps == seq![head] + below);
        let names = nodes_of(steps);
        let lower = nodes_of(below);
        assert(names =~= seq![id] + lower);
        assert forall|i: int, j: int| 0 <= i < j < names.len() implies names[i] != names[j] by {
            if i == 0 {
                assert(names[j] == lower[j - 1]);
                assert(!inside.contains(lower[j - 1]));
            } else {
                assert(names[i] == lower[i - 1]);
                assert(names[j] == lower[j - 1]);
            }
        }
        assert forall|i: int| 0 <= i < names.len() implies m.dom().contains(#[trigger] names[i])
            && !visited.contains(names[i]) by {
            if i > 0 {
                assert(names[i] == lower[i - 1]);
                assert(!inside.contains(lower[i - 1]));
            }
        }
        assert forall|i: int, child: Seq<char>|
            0 <= i < names.len() && #[trigger] edge(m, names[i], child) implies visited.contains(
            child,
        ) || names.contains(child) by {
            if i == 0 {
                let j = ids.index_of(child);
                assert(ids[j] == child);
                assert(inside.contains(child) || lower.contains(child));
            } else {
                assert(names[i] == lower[i - 1]);
                assert(edge(m, lower[i - 1], child));
                assert(inside.contains(child) || lower.contains(child));
            }
            if child == id {
                assert(names[0] == child);
            } else if lower.contains(child) {
                let k = lower.index_of(child);
                assert(names[k + 1] == child);
            }
        }
        assert forall|i: int| 0 <= i < steps.len() implies reachable(
            m,
            id,
            (#[trigger] steps[i]).node,
        ) by {
            if i == 0 {
                lemma_reaches_itself(m, id);
            } else {
                assert(steps[i] == below[i - 1]);
                let j = choose|j: int|
                    0 <= j < ids.len() && reachable(m, ids[j], below[i - 1].node);
                let tail = choose|path: Seq<Seq<char>>|
                    is_path(m, path) && path[0] == ids[j] && path.last() == below[i - 1].node;
                assert(ids.contains(ids[j]));
                lemma_extend_path(m, id, ids[j], below[i - 1].node);
            }
        }
        assert forall|i: int| 1 <= i < steps.len() implies #[trigger] entered_from(
            m,
            steps,
            i,
            None,
        ) by {
            assert(steps[i] == below[i - 1]);
            assert(entered_from(m, below, i - 1, Some(id)));
            if below[i - 1].parent == Some(id) {
                assert(Some(steps[0].node) == steps[i].parent);
            } else {
                let before = choose|before: int|
                    0 <= before < i - 1 && Some(#[trigger] below[before].node) == below[i
                        - 1].parent;
                assert(Some(steps[before + 1].node) == steps[i].parent);
            }
        }
    } else {
        assert(nodes_of(steps) =~= Seq::<Seq<char>>::empty());
    }
}

/// What holds of the steps of `walk_all`, where `ids` are children of
/// `parent`.
pub proof fn lemma_walk_all(
    m: Map<Seq<char>, NodeView>,
    ids: Seq<Seq<char>>,
    parent: Seq<char>,
    visited: Set<Seq<char>>,
)
    requires
        m.dom().finite(),
        m.dom().contains(parent),
        forall|j: int|
            0 <= j < ids.len() && m.dom().contains(ids[j]) ==> m[parent].children.contains(
                #[trigger] ids[j],
            ),
    ensures
        well_walked(m, walk_all(m, ids, parent, visited), visited),
        forall|j: int|
            0 <= j < ids.len() && m.dom().contains(#[trigger] ids[j]) ==> visited.contains(ids[j])
                || nodes_of(walk_all(m, ids, parent, visited)).contains(ids[j]),
        forall|i: int|
            0 <= i < walk_all(m, ids, parent, visited).len() ==> exists|j: int|
                0 <= j < ids.len() && reachable(
                    m,
                    ids[j],
                    (#[trigger] walk_all(m, ids, parent, visited)[i]).node,
                ),
        forall|i: int|
            0 <= i < walk_all(m, ids, parent, visited).len() ==> #[trigger] entered_from(
                m,
                walk_all(m, ids, parent, visited),
                i,
                Some(parent),
            ),
    decreases unvisited(m, visited), ids.len(),
{
    let steps = walk_all(m, ids, parent, visited);
    if ids.len() > 0 {
        let first = walk(m, ids[0], Some(parent), visited);
        let seen = visited.union(entered(first));
        let rest_ids = ids.drop_first();
        let rest = walk_all(m, rest_ids, parent, seen);
        lemma_unvisited_monotone(m, visited, seen);
        lemma_walk(m, ids[0], Some(parent), visited);
        assert forall|j: int|
            0 <= j < rest_ids.len() && m.dom().contains(rest_ids[j]) implies m[parent].children.contains(#[trigger] rest_ids[j]) by {
            assert(rest_ids[j] == ids[j + 1]);
        }
        lemma_walk_all(m, rest_ids, parent, seen);
        assert(steps == first + rest);
        let names = nodes_of(steps);
        let a = nodes_of(first);
        let b = nodes_of(rest);
        assert(names =~= a + b);
        assert forall|i: int, j: int| 0 <= i < j < names.len() implies names[i] != names[j] by {
            if j >= a.len() {
                assert(names[j] == b[j - a.len()]);
                assert(!seen.contains(b[j - a.len()]));
                if i < a.len() {
                    assert(a.contains(a[i]));
                } else {
                    assert(names[i] == b[i - a.len()]);
                }
            }
        }
        assert forall|i: int| 0 <= i < names.len() implies m.dom().contains(#[trigger] names[i])
            && !visited.contains(names[i]) by {
            if i >= a.len() {
                assert(names[i] == b[i - a.len()]);
                assert(!seen.contains(b[i - a.len()]));
            }
        }
        assert forall|i: int, child: Seq<char>|
            0 <= i < names.len() && #[trigger] edge(m, names[i], child) implies visited.contains(
            child,
        ) || names.contains(child) by {
            if i < a.len() {
                assert(edge(m, a[i], child));
                if a.contains(child) {
                    let k = a.index_of(child);
                    assert(names[k] == child);
                }
            } else {
                assert(names[i] == b[i - a.len()]);
                assert(edge(m, b[i - a.len()], child));
                if a.contains(child) {
                    let k = a.index_of(child);
                    assert(names[k] == child);
                } else if b.contains(child) {
                    let k = b.index_of(child);
                    assert(names[k + a.len()] == child);
                }
            }
        }
        assert forall|j: int|
            0 <= j < ids.len() && m.dom().contains(#[trigger] ids[j]) implies visited.contains(
            ids[j],
        ) || names.contains(ids[j]) by {
            if j == 0 {
                if !visited.contains(ids[0]) {
                    assert(first[0].node == ids[0]);
                    assert(names[0] == ids[0]);
                }
            } else {
                assert(rest_ids[j - 1] == ids[j]);
                assert(seen.contains(rest_ids[j - 1]) || b.contains(rest_ids[j - 1]));
                if a.contains(ids[j]) {
                    let k = a.index_of(ids[j]);
                    assert(names[k] == ids[j]);
                } else if b.contains(ids[j]) {
                    let k = b.index_of(ids[j]);
                    assert(names[k + a.len()] == ids[j]);
                }
            }
        }
        assert forall|i: int| 0 <= i < steps.len() implies exists|j: int|
            0 <= j < ids.len() && reachable(m, ids[j], (#[trigger] steps[i]).node) by {
            if i < first.len() {
                assert(steps[i] == first[i]);
                assert(reachable(m, ids[0], first[i].node));
            } else {
                assert(steps[i] == rest[i - first.len()]);
                let j = choose|j: int|
                    0 <= j < rest_ids.len() && reachable(m, rest_ids[j], rest[i - first.len()].node);
                assert(rest_ids[j] == ids[j + 1]);
                assert(reachable(m, ids[j + 1], steps[i].node));
            }
        }
        assert forall|i: int| 0 <= i < steps.len() implies #[trigger] entered_from(
            m,
            steps,
            i,
            Some(parent),
        ) by {
            if i < first.len() {
                assert(steps[i] == first[i]);
                if i == 0 {
                    assert(m.dom().contains(ids[0]) && !visited.contains(ids[0]));
                    assert(first[0] == (Visit { node: ids[0], parent: Some(parent) }));
                } else {
                    assert(entered_from(m, first, i, None));
                    let before = choose|before: int|
                        0 <= before < i && Some(#[trigger] first[before].node) == first[i].parent;
                    assert(Some(steps[before].node) == steps[i].parent);
                }
            } else {
                let k = i - first.len();
                assert(steps[i] == rest[k]);
                assert(entered_from(m, rest, k, Some(parent)));
                if rest[k].parent != Some(parent) {
                    let before = choose|before: int|
                        0 <= before < k && Some(#[trigger] rest[before].node) == rest[k].parent;
                    assert(Some(steps[before + first.len()].node) == steps[i].parent);
                }
            }
        }
    } else {
        assert(nodes_of(steps) =~= Seq::<Seq<char>>::empty());
    }
}

proof fn lemma_closed_holds_path(
    m: Map<Seq<char>, NodeView>,
    names: Seq<Seq<char>>,
    path: Seq<Seq<char>>,
)
    requires
        is_path(m, path),
        names.contains(path[0]),
        forall|i: int, child: Seq<char>|
            0 <= i < names.len() && #[trigger] edge(m, names[i], child) ==> names.contains(child),
    ensures
        names.contains(path.last()),
    decreases path.len(),
{
    if path.len() > 1 {
        let shorter = path.drop_last();
        assert forall|i: int| 0 <= i < shorter.len() - 1 implies edge(
            m,
            #[trigger] shorter[i],
            shorter[i + 1],
        ) by {
            assert(shorter[i] == path[i]);
            assert(shorter[i + 1] == path[i + 1]);
        }
        assert(is_path(m, shorter));
        lemma_closed_holds_path(m, names, shorter);
        let before = path[path.len() - 2];
        assert(shorter.last() == before);
        let k = names.index_of(before);
        assert(edge(m, path[path.len() - 2], path[path.len() - 2 + 1]));
        assert(edge(m, names[k], path.last()));
    }
}

/// The traversal enters every node that can be reached from the root, and no
/// other node.
pub proof fn lemma_traversal_enters_the_reachable(m: Map<Seq<char>, NodeView>, key: Seq<char>)
    requires
        m.dom().finite(),
        root_of(m) is Some,
    ensures
        entered(traversal(m)).contains(key) <==> reachable(m, root_of(m).unwrap(), key),
{
    let root = root_of(m).unwrap();
    let steps = traversal(m);
    let names = nodes_of(steps);
    lemma_walk(m, root, None, Set::empty());
    if names.contains(key) {
        let i = names.index_of(key);
        assert(steps[i].node == key);
    }
    if reachable(m, root, key) {
        let path = choose|path: Seq<Seq<char>>|
            is_path(m, path) && path[0] == root && path.last() == key;
        assert(steps[0].node == root);
        assert(names[0] == root);
        lemma_closed_holds_path(m, names, path);
    }
}

/// The traversal enters no node twice. Its first step enters the root and
/// records no parent; every later step records as its parent a node that an
/// earlier step entered and that lists the step's node as a child.
pub proof fn lemma_traversal_is_orderly(m: Map<Seq<char>, NodeView>)
    requires
        m.dom().finite(),
    ensures
        nodes_of(traversal(m)).no_duplicates(),
        traversal(m).len() > 0 ==> traversal(m)[0] == (Visit {
            node: root_of(m).unwrap(),
            parent: None,
        }),
        forall|i: int|
            1 <= i < traversal(m).len() ==> #[trigger] entered_from(m, traversal(m), i, None),
{
    match root_of(m) {
        Some(root) => {
            lemma_walk(m, root, None, Set::empty());
        },
        None => {
            assert(nodes_of(traversal(m)) =~= Seq::<Seq<char>>::empty());
        },
    }
}

proof fn lemma_filter_distinct(steps: Seq<Visit>, keep: spec_fn(Visit) -> bool)
    requires
        nodes_of(steps).no_duplicates(),
    ensures
        nodes_of(steps.filter(keep)).no_duplicates(),
        forall|name: Seq<char>|
            nodes_of(steps.filter(keep)).contains(name) <==> exists|i: int|
                0 <= i < steps.len() && #[trigger] steps[i].node == name && keep(steps[i]),
    decreases steps.len(),
{
    reveal(Seq::filter);
    let kept = steps.filter(keep);
    if steps.len() > 0 {
        let front = steps.drop_last();
        let last = steps.last();
        assert(nodes_of(front) =~= nodes_of(steps).drop_last());
        assert forall|i: int, j: int| 0 <= i < j < nodes_of(front).len() implies nodes_of(
            front,
        )[i] != nodes_of(front)[j] by {
            assert(nodes_of(front)[i] == nodes_of(steps)[i]);
            assert(nodes_of(front)[j] == nodes_of(steps)[j]);
        }
        lemma_filter_distinct(front, keep);
        let before = front.filter(keep);
        assert forall|name: Seq<char>| nodes_of(kept).contains(name) <==> exists|i: int|
            0 <= i < steps.len() && #[trigger] steps[i].node == name && keep(steps[i]) by {
            if nodes_of(kept).contains(name) {
                let k = nodes_of(kept).index_of(name);
                if k < before.len() {
                    assert(nodes_of(before)[k] == name);
                    assert(nodes_of(before).contains(name));
                    let i = choose|i: int|
                        0 <= i < front.len() && #[trigger] front[i].node == name && keep(front[i]);
                    assert(steps[i].node == name && keep(steps[i]));
                } else {
                    assert(steps[steps.len() - 1].node == name && keep(steps[steps.len() - 1]));
                }
            }
            if exists|i: int| 0 <= i < steps.len() && #[trigger] steps[i].node == name && keep(steps[i]) {
                let i = choose|i: int|
                    0 <= i < steps.len() && #[trigger] steps[i].node == name && keep(steps[i]);
                if i < front.len() {
                    assert(front[i].node == name && keep(front[i]));
                    assert(nodes_of(before).contains(name));
                    let k = nodes_of(before).index_of(name);
                    assert(nodes_of(kept)[k] == name);
                } else {
                    assert(nodes_of(kept)[kept.len() - 1] == name);
                }
            }
        }
        if keep(last) {
            assert(kept == before.push(last));
            assert forall|i: int, j: int| 0 <= i < j < nodes_of(kept).len() implies nodes_of(
                kept,
            )[i] != nodes_of(kept)[j] by {
                if j == kept.len() - 1 {
                    assert(nodes_of(before)[i] == nodes_of(kept)[i]);
                    assert(nodes_of(before).contains(nodes_of(kept)[i]));
                    let k = choose|k: int|
                        0 <= k < front.len() && #[trigger] front[k].node == nodes_of(kept)[i]
                            && keep(front[k]);
                    assert(nodes_of(steps)[k] == front[k].node);
                    assert(nodes_of(steps)[steps.len() - 1] == last.node);
                } else {
                    assert(nodes_of(before)[i] == nodes_of(kept)[i]);
                    assert(nodes_of(before)[j] == nodes_of(kept)[j]);
                }
            }
        }
    } else {
        assert(nodes_of(kept) =~= Seq::<Seq<char>>::empty());
    }
}

/// The linearization holds as many messages as there are nodes that can be
/// reached from the root and have a message that is not skipped. A node that
/// can be reached along several paths counts once.
pub proof fn lemma_linearization_counts_the_reachable(m: Map<Seq<char>, NodeView>)
    requires
        m.dom().finite(),
        root_of(m) is Some,
    ensures
        linearization(m).len() == contributing(m, root_of(m).unwrap()).len(),
{
    let root = root_of(m).unwrap();
    let steps = traversal(m);
    let keep = |visit: Visit| emits(m, visit);
    let kept = emitted(m, steps);
    lemma_walk(m, root, None, Set::empty());
    lemma_filter_distinct(steps, keep);
    let names = nodes_of(kept);
    assert forall|key: Seq<char>| names.to_set().contains(key) <==> contributing(m, root).contains(
        key,
    ) by {
        lemma_traversal_enters_the_reachable(m, key);
        if names.contains(key) {
            let i = choose|i: int|
                0 <= i < steps.len() && #[trigger] steps[i].node == key && keep(steps[i]);
            assert(nodes_of(steps)[i] == key);
            assert(nodes_of(steps).contains(key));
        }
        if contributing(m, root).contains(key) {
            assert(nodes_of(steps).contains(key));
            let i = nodes_of(steps).index_of(key);
            assert(steps[i].node == key && keep(steps[i]));
        }
    }
    assert(names.to_set() =~= contributing(m, root));
    names.unique_seq_to_set();
}

/// The messages of a linearization are numbered from 0 without a gap, and
/// none of them is skipped.
pub proof fn lemma_linearization_is_numbered(m: Map<Seq<char>, NodeView>, i: int)
    requires
        0 <= i < linearization(m).len(),
    ensures
        linearization(m)[i].order == i,
        !skipped(linearization(m)[i].message),
{
    let steps = traversal(m);
    let keep = |visit: Visit| emits(m, visit);
    steps.lemma_filter_pred(keep, i);
}

/// A graph in which every node names a parent other than the sentinel, and
/// which has no node under the sentinel key, has the empty linearization.
pub proof fn lemma_no_root_no_messages(m: Map<Seq<char>, NodeView>)
    requires
        forall|key: Seq<char>| m.dom().contains(key) ==> !roots(#[trigger] m[key]),
        !m.dom().contains(sentinel()),
    ensures
        root_of(m) is None,
        linearization(m) == Seq::<Linearized>::empty(),
{
    assert forall|id: Seq<char>| !root_candidates(m).contains(id) by {
        if root_candidates(m).contains(id) {
            let key = choose|key: Seq<char>|
                m.dom().contains(key) && roots(m[key]) && m[key].id == id;
            assert(!roots(m[key]));
        }
    }
    reveal(Seq::filter);
    assert(linearization(m) =~= Seq::<Linearized>::empty());
}

/// The message of the node `child` stands in the linearization at `at`, and
/// its parent there is a node that lists the child: `parent`, where no other
/// node lists the child.
pub open spec fn stands_under(
    m: Map<Seq<char>, NodeView>,
    at: int,
    child: Seq<char>,
    parent: Seq<char>,
) -> bool {
    let row = linearization(m)[at];
    &&& 0 <= at < linearization(m).len()
    &&& row.message == m[child].message.unwrap()
    &&& row.parent_id is Some
    &&& edge(m, row.parent_id.unwrap(), child)
    &&& (forall|other: Seq<char>| #[trigger] edge(m, other, child) ==> other == parent)
        ==> row.parent_id == Some(parent)
}

/// A node that the traversal enters hands its id to its children, whether
/// or not its own message is skipped: the message of a child that is a node
/// of the graph and not the root, unless it is skipped itself, stands in the
/// linearization, and its parent there is a node that lists the child. It is
/// `parent` where no other node lists the child.
pub proof fn lemma_children_keep_their_parent(
    m: Map<Seq<char>, NodeView>,
    parent: Seq<char>,
    child: Seq<char>,
)
    requires
        m.dom().finite(),
        entered(traversal(m)).contains(parent),
        edge(m, parent, child),
        root_of(m) != Some(child),
        speaks(m[child]),
    ensures
        exists|at: int| stands_under(m, at, child, parent),
{
    let steps = traversal(m);
    let names = nodes_of(steps);
    let root = root_of(m).unwrap();
    if root_of(m) is None {
        assert(names =~= Seq::<Seq<char>>::empty());
        assert(false);
    }
    lemma_walk(m, root, None, Set::empty());
    let p = names.index_of(parent);
    assert(edge(m, names[p], child));
    assert(names.contains(child));
    let c = names.index_of(child);
    assert(steps[c].node == child);
    assert(c != 0) by {
        if c == 0 {
            assert(m.dom().contains(names[0]));
            if m.dom().contains(root) {
                assert(steps[0].node == root);
            } else {
                assert(steps.len() == 0);
            }
        }
    }
    assert(entered_from(m, steps, c, None));
    let keep = |visit: Visit| emits(m, visit);
    let kept = emitted(m, steps);
    steps.lemma_filter_contains(keep, c);
    let i = kept.index_of(steps[c]);
    assert(kept[i] == steps[c]);
    let from = steps[c].parent.unwrap();
    assert(linearization(m)[i].message == m[child].message.unwrap());
    assert(linearization(m)[i].parent_id == Some(from));
    assert(edge(m, from, child));
    assert(stands_under(m, i, child, parent));
}

} // verus!
