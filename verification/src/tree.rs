//! From a conversation's graph to the ordered, parent-linked list of its
//! messages.

use crate::content::{should_skip_message, skipped};
use crate::models::{MappingNode, Message, MessageView, NodeMap, NodeView};
use crate::reach::lemma_linearization_is_numbered;
use crate::text::{is_least, least_of, lemma_least_of, lemma_precedes_irreflexive,
    lemma_precedes_transitive, precedes, text_eq, text_precedes};
use vstd::prelude::*;

verus! {

/// The parent reference, and the key, that mark the root of a conversation.
pub open spec fn sentinel() -> Seq<char> {
    "client-created-root"@
}

/// One step of a traversal: the node that is entered, and the node from
/// which it is entered.
pub struct Visit {
    pub node: Seq<char>,
    pub parent: Option<Seq<char>>,
}

/// A message of a linearization, as a value.
pub struct Linearized {
    pub id: Seq<char>,
    pub message: MessageView,
    pub parent_id: Option<Seq<char>>,
    pub order: nat,
}

/// A message of a linearization: its id, the message, the id of the node
/// from which its node was entered, and its place among the messages.
#[derive(Debug)]
pub struct LinearizedMessage<'a> {
    pub id: String,
    pub message: &'a Message,
    pub parent_id: Option<String>,
    pub order: usize,
}

impl<'a> View for LinearizedMessage<'a> {
    type V = Linearized;

    open spec fn view(&self) -> Linearized {
        Linearized {
            id: self.id@,
            message: self.message@,
            parent_id: match self.parent_id {
                Some(parent) => Some(parent@),
                None => None,
            },
            order: self.order as nat,
        }
    }
}

/// The values of a list of messages.
pub open spec fn views(messages: Seq<LinearizedMessage>) -> Seq<Linearized> {
    messages.map_values(|message: LinearizedMessage| message@)
}

/// A node that may stand at the root: it names no parent, or the sentinel.
pub open spec fn roots(node: NodeView) -> bool {
    node.parent matches Some(parent) ==> parent == sentinel()
}

/// The ids of the nodes that may stand at the root.
pub open spec fn root_candidates(m: Map<Seq<char>, NodeView>) -> Set<Seq<char>> {
    Set::new(
        |id: Seq<char>| exists|key: Seq<char>| m.dom().contains(key) && roots(m[key]) && m[key].id == id,
    )
}

/// The id at which the traversal starts: of the nodes that name no parent or
/// the sentinel, the id that comes first in lexicographic order; where there
/// is no such node, the id of the node under the sentinel key; else none.
pub open spec fn root_of(m: Map<Seq<char>, NodeView>) -> Option<Seq<char>> {
    if exists|id: Seq<char>| root_candidates(m).contains(id) {
        Some(least_of(root_candidates(m)))
    } else if m.dom().contains(sentinel()) {
        Some(m[sentinel()].id)
    } else {
        None
    }
}

/// The nodes of a list of steps, in the order of the steps.
pub open spec fn nodes_of(visits: Seq<Visit>) -> Seq<Seq<char>> {
    visits.map_values(|visit: Visit| visit.node)
}

/// The nodes of a list of steps.
pub open spec fn entered(visits: Seq<Visit>) -> Set<Seq<char>> {
    nodes_of(visits).to_set()
}

/// How many nodes of the graph are not in `visited`.
pub open spec fn unvisited(m: Map<Seq<char>, NodeView>, visited: Set<Seq<char>>) -> nat {
    m.dom().difference(visited).len()
}

/// The steps of a depth-first traversal that enters `id` from `parent` when
/// the nodes in `visited` have been entered before: none where `id` is no key
/// of the graph or has been entered; else `id` itself, then the steps from
/// each of its children in the order of its list, each with the nodes
/// entered so far.
pub open spec fn walk(
    m: Map<Seq<char>, NodeView>,
    id: Seq<char>,
    parent: Option<Seq<char>>,
    visited: Set<Seq<char>>,
) -> Seq<Visit>
    decreases unvisited(m, visited), 0nat,
{
    if m.dom().finite() && m.dom().contains(id) && !visited.contains(id) {
        proof {
            lemma_unvisited_decreases(m, visited, id);
        }
        seq![Visit { node: id, parent }] + walk_all(m, m[id].children, id, visited.insert(id))
    } else {
        Seq::empty()
    }
}

/// The steps of the traversals that enter each of `ids` in turn from
/// `parent`, each with the nodes entered so far.
pub open spec fn walk_all(
    m: Map<Seq<char>, NodeView>,
    ids: Seq<Seq<char>>,
    parent: Seq<char>,
    visited: Set<Seq<char>>,
) -> Seq<Visit>
    decreases unvisited(m, visited), ids.len(),
{
    if m.dom().finite() && ids.len() > 0 {
        let first = walk(m, ids[0], Some(parent), visited);
        proof {
            lemma_unvisited_monotone(m, visited, visited.union(entered(first)));
        }
        first + walk_all(m, ids.drop_first(), parent, visited.union(entered(first)))
    } else {
        Seq::empty()
    }
}

/// Entering a node of the graph that was not entered leaves fewer nodes.
pub proof fn lemma_unvisited_decreases(
    m: Map<Seq<char>, NodeView>,
    visited: Set<Seq<char>>,
    id: Seq<char>,
)
    requires
        m.dom().finite(),
        m.dom().contains(id),
        !visited.contains(id),
    ensures
        unvisited(m, visited.insert(id)) < unvisited(m, visited),
{
    assert(m.dom().difference(visited.insert(id)) =~= m.dom().difference(visited).remove(id));
}

/// The more nodes were entered, the fewer are left.
pub proof fn lemma_unvisited_monotone(
    m: Map<Seq<char>, NodeView>,
    visited: Set<Seq<char>>,
    more: Set<Seq<char>>,
)
    requires
        m.dom().finite(),
        visited.subset_of(more),
    ensures
        unvisited(m, more) <= unvisited(m, visited),
{
    vstd::set_lib::lemma_len_subset(m.dom().difference(more), m.dom().difference(visited));
}

/// The node has a message that belongs to a linearization: one that is not
/// skipped.
pub open spec fn speaks(node: NodeView) -> bool {
    node.message matches Some(message) && !skipped(message)
}

/// The step enters a node whose message belongs to the linearization.
pub open spec fn emits(m: Map<Seq<char>, NodeView>, visit: Visit) -> bool {
    speaks(m[visit.node])
}

/// The steps that contribute a message, in their order.
pub open spec fn emitted(m: Map<Seq<char>, NodeView>, visits: Seq<Visit>) -> Seq<Visit> {
    visits.filter(|visit: Visit| emits(m, visit))
}

/// The messages of the steps `kept`, numbered from `start`.
pub open spec fn numbered(m: Map<Seq<char>, NodeView>, kept: Seq<Visit>, start: nat) -> Seq<
    Linearized,
> {
    Seq::new(
        kept.len(),
        |i: int|
            Linearized {
                id: m[kept[i].node].message.unwrap().id,
                message: m[kept[i].node].message.unwrap(),
                parent_id: kept[i].parent,
                order: (start + i) as nat,
            },
    )
}

/// The steps of the traversal of the whole graph, from its root.
pub open spec fn traversal(m: Map<Seq<char>, NodeView>) -> Seq<Visit> {
    match root_of(m) {
        Some(root) => walk(m, root, None, Set::empty()),
        None => Seq::empty(),
    }
}

/// The linearization of a graph: the messages of the nodes that the traversal
/// enters, without those that are skipped, in the order in which the nodes are
/// entered and numbered from 0. The parent of each is the node from which its
/// node was entered, whether or not that node contributed a message.
pub open spec fn linearization(m: Map<Seq<char>, NodeView>) -> Seq<Linearized> {
    numbered(m, emitted(m, traversal(m)), 0)
}

/// The keys whose flag is set.
pub open spec fn marked(keys: Seq<Seq<char>>, flags: Seq<bool>) -> Set<Seq<char>> {
    Set::new(
        |key: Seq<char>|
            exists|i: int| 0 <= i < keys.len() && i < flags.len() && flags[i] && keys[i] == key,
    )
}

/// The text of an optional reference to a text.
pub open spec fn text_of(text: Option<&String>) -> Option<Seq<char>> {
    match text {
        Some(t) => Some(t@),
        None => None,
    }
}

proof fn lemma_entered_concat(a: Seq<Visit>, b: Seq<Visit>)
    ensures
        entered(a + b) == entered(a).union(entered(b)),
{
    assert(nodes_of(a + b) =~= nodes_of(a) + nodes_of(b));
    vstd::seq_lib::seq_to_set_distributes_over_add(nodes_of(a), nodes_of(b));
}

proof fn lemma_entered_one(visit: Visit)
    ensures
        entered(seq![visit]) == Set::<Seq<char>>::empty().insert(visit.node),
{
    let s = nodes_of(seq![visit]);
    assert(s[0] == visit.node);
    assert forall|x: Seq<char>| s.to_set().contains(x) == (x == visit.node) by {
        if x == visit.node {
            assert(s.contains(s[0]));
        }
    }
    assert(entered(seq![visit]) =~= Set::<Seq<char>>::empty().insert(visit.node));
}

proof fn lemma_entered_none()
    ensures
        entered(Seq::<Visit>::empty()) == Set::<Seq<char>>::empty(),
{
    assert(entered(Seq::<Visit>::empty()) =~= Set::<Seq<char>>::empty());
}

proof fn lemma_emitted_concat(m: Map<Seq<char>, NodeView>, a: Seq<Visit>, b: Seq<Visit>)
    ensures
        emitted(m, a + b) == emitted(m, a) + emitted(m, b),
{
    Seq::filter_distributes_over_add(a, b, |visit: Visit| emits(m, visit));
}

proof fn lemma_emitted_one(m: Map<Seq<char>, NodeView>, visit: Visit)
    ensures
        emitted(m, seq![visit]) == if emits(m, visit) {
            seq![visit]
        } else {
            Seq::<Visit>::empty()
        },
        emitted(m, Seq::<Visit>::empty()) == Seq::<Visit>::empty(),
{
    reveal(Seq::filter);
    let p = |visit: Visit| emits(m, visit);
    assert(seq![visit].drop_last() =~= Seq::<Visit>::empty());
    assert(Seq::<Visit>::empty().filter(p) =~= Seq::<Visit>::empty());
    assert(seq![visit].filter(p) =~= if emits(m, visit) {
        seq![visit]
    } else {
        Seq::<Visit>::empty()
    });
}

proof fn lemma_numbered_concat(
    m: Map<Seq<char>, NodeView>,
    a: Seq<Visit>,
    b: Seq<Visit>,
    start: nat,
)
    ensures
        numbered(m, a + b, start) == numbered(m, a, start) + numbered(m, b, start + a.len()),
{
    assert(numbered(m, a + b, start) =~= numbered(m, a, start) + numbered(m, b, start + a.len()));
}

proof fn lemma_walk_all_step(
    m: Map<Seq<char>, NodeView>,
    ids: Seq<Seq<char>>,
    at: int,
    parent: Seq<char>,
    visited: Set<Seq<char>>,
)
    requires
        m.dom().finite(),
        0 <= at < ids.len(),
    ensures
        walk_all(m, ids.skip(at), parent, visited) == walk(m, ids[at], Some(parent), visited)
            + walk_all(
            m,
            ids.skip(at + 1),
            parent,
            visited.union(entered(walk(m, ids[at], Some(parent), visited))),
        ),
{
    assert(ids.skip(at).drop_first() =~= ids.skip(at + 1));
    assert(ids.skip(at)[0] == ids[at]);
}

proof fn lemma_mark(keys: Seq<Seq<char>>, flags: Seq<bool>, at: int)
    requires
        0 <= at < keys.len(),
        flags.len() == keys.len(),
    ensures
        marked(keys, flags.update(at, true)) == marked(keys, flags).insert(keys[at]),
{
    let after = flags.update(at, true);
    assert forall|key: Seq<char>| marked(keys, after).contains(key) == marked(keys, flags).insert(
        keys[at],
    ).contains(key) by {
        if marked(keys, after).contains(key) {
            let i = choose|i: int| 0 <= i < keys.len() && i < after.len() && after[i] && keys[i] == key;
            if i != at {
                assert(flags[i]);
            }
        }
        if marked(keys, flags).contains(key) {
            let i = choose|i: int| 0 <= i < keys.len() && i < flags.len() && flags[i] && keys[i] == key;
            assert(after[i]);
        }
        if key == keys[at] {
            assert(after[at]);
        }
    }
    assert(marked(keys, after) =~= marked(keys, flags).insert(keys[at]));
}

/// Whether a node may stand at the root.
fn is_root_candidate(node: &MappingNode) -> (r: bool)
    ensures
        r == roots(node@),
{
    match &node.parent {
        Some(parent) => text_eq(parent.as_str(), "client-created-root"),
        None => true,
    }
}

/// The id at which the traversal of `mapping` starts, if there is one.
pub fn find_root<'a>(mapping: &'a NodeMap) -> (r: Option<&'a String>)
    ensures
        text_of(r) == root_of(mapping@),
{
    let n = mapping.len();
    let ghost m = mapping@;
    let ghost keys = mapping.keys();
    let ghost nodes = mapping.nodes();
    proof {
        mapping.lemma_entries();
    }
    let mut best: Option<usize> = None;
    let mut i: usize = 0;
    while i < n
        invariant
            n == keys.len(),
            keys == mapping.keys(),
            nodes == mapping.nodes(),
            nodes.len() == keys.len(),
            i <= n,
            match best {
                Some(b) => b < i && roots(nodes[b as int]@) && forall|k: int|
                    0 <= k < i && roots(nodes[k]@) ==> !precedes(
                        #[trigger] nodes[k].id@,
                        nodes[b as int].id@,
                    ),
                None => forall|k: int| 0 <= k < i ==> !roots(#[trigger] nodes[k]@),
            },
        decreases n - i,
    {
        let node = mapping.node_at(i);
        if is_root_candidate(node) {
            match best {
                Some(b) => {
                    let held = mapping.node_at(b);
                    if text_precedes(node.id.as_str(), held.id.as_str()) {
                        assert forall|k: int| 0 <= k < i + 1 && roots(nodes[k]@) implies !precedes(
                            #[trigger] nodes[k].id@,
                            node.id@,
                        ) by {
                            if k < i && precedes(nodes[k].id@, node.id@) {
                                lemma_precedes_transitive(nodes[k].id@, node.id@, held.id@);
                            }
                            if k == i {
                                lemma_precedes_irreflexive(node.id@);
                            }
                        }
                        best = Some(i);
                    }
                },
                None => {
                    proof {
                        lemma_precedes_irreflexive(node.id@);
                    }
                    best = Some(i);
                },
            }
        }
        i += 1;
    }
    match best {
        Some(b) => {
            let node = mapping.node_at(b);
            proof {
                let candidates = root_candidates(m);
                assert(m.dom().contains(keys[b as int]) && m[keys[b as int]] == nodes[b as int]@);
                assert(candidates.contains(node.id@));
                assert forall|y: Seq<char>| candidates.contains(y) implies !precedes(
                    y,
                    node.id@,
                ) by {
                    let key = choose|key: Seq<char>|
                        m.dom().contains(key) && roots(m[key]) && m[key].id == y;
                    assert(keys.to_set().contains(key));
                    let k = keys.index_of(key);
                    assert(m[keys[k]] == nodes[k]@);
                }
                assert(is_least(candidates, node.id@));
                lemma_least_of(candidates, node.id@);
            }
            Some(&node.id)
        },
        None => {
            proof {
                assert forall|id: Seq<char>| !root_candidates(m).contains(id) by {
                    if root_candidates(m).contains(id) {
                        let key = choose|key: Seq<char>|
                            m.dom().contains(key) && roots(m[key]) && m[key].id == id;
                        assert(keys.to_set().contains(key));
                        let k = keys.index_of(key);
                        assert(m[keys[k]] == nodes[k]@);
                    }
                }
            }
            let key = String::from_str("client-created-root");
            match mapping.get(&key) {
                Some(node) => Some(&node.id),
                None => None,
            }
        },
    }
}

/// A node whose children are being entered: its position in the mapping and
/// the position in its list of the child that comes next.
#[derive(Clone, Copy)]
struct Frame {
    at: usize,
    next: usize,
}

/// A node whose children are being entered, as a value.
pub struct Pending {
    pub node: Seq<char>,
    pub next: nat,
}

/// The values of a stack of frames.
spec fn pending(keys: Seq<Seq<char>>, frames: Seq<Frame>) -> Seq<Pending> {
    frames.map_values(|frame: Frame| Pending { node: keys[frame.at as int], next: frame.next as nat })
}

/// The children of a pending node that are still to be entered.
pub open spec fn left(m: Map<Seq<char>, NodeView>, top: Pending) -> Seq<Seq<char>> {
    m[top.node].children.skip(top.next as int)
}

/// The steps that are still to come when the nodes of `stack` are pending,
/// the last of them first, and the nodes in `visited` have been entered.
pub open spec fn remaining(
    m: Map<Seq<char>, NodeView>,
    stack: Seq<Pending>,
    visited: Set<Seq<char>>,
) -> Seq<Visit>
    decreases stack.len(),
{
    if stack.len() == 0 {
        Seq::empty()
    } else {
        let part = walk_all(m, left(m, stack.last()), stack.last().node, visited);
        part + remaining(m, stack.drop_last(), visited.union(entered(part)))
    }
}

/// How much is left to do on a stack: for every pending node one more than
/// the number of its children that are still to be entered.
pub open spec fn weight(m: Map<Seq<char>, NodeView>, stack: Seq<Pending>) -> nat
    decreases stack.len(),
{
    if stack.len() == 0 {
        0
    } else {
        weight(m, stack.drop_last()) + left(m, stack.last()).len() + 1
    }
}

proof fn lemma_pass_child(
    m: Map<Seq<char>, NodeView>,
    below: Seq<Pending>,
    top: Pending,
    visited: Set<Seq<char>>,
)
    requires
        m.dom().finite(),
        top.next < m[top.node].children.len(),
        !m.dom().contains(m[top.node].children[top.next as int]) || visited.contains(
            m[top.node].children[top.next as int],
        ),
    ensures
        remaining(m, below.push(top), visited) == remaining(
            m,
            below.push(Pending { node: top.node, next: top.next + 1 }),
            visited,
        ),
        weight(m, below.push(Pending { node: top.node, next: top.next + 1 })) < weight(
            m,
            below.push(top),
        ),
{
    let ids = m[top.node].children;
    let after = Pending { node: top.node, next: top.next + 1 };
    lemma_walk_all_step(m, ids, top.next as int, top.node, visited);
    lemma_entered_none();
    assert(visited.union(Set::<Seq<char>>::empty()) =~= visited);
    assert(below.push(top).drop_last() =~= below);
    assert(below.push(after).drop_last() =~= below);
    assert(below.push(top).last() == top);
    assert(below.push(after).last() == after);
    assert(Seq::<Visit>::empty() + walk_all(m, left(m, after), top.node, visited) =~= walk_all(
        m,
        left(m, after),
        top.node,
        visited,
    ));
}

proof fn lemma_enter_child(
    m: Map<Seq<char>, NodeView>,
    below: Seq<Pending>,
    top: Pending,
    visited: Set<Seq<char>>,
)
    requires
        m.dom().finite(),
        top.next < m[top.node].children.len(),
        m.dom().contains(m[top.node].children[top.next as int]),
        !visited.contains(m[top.node].children[top.next as int]),
    ensures
        ({
            let child = m[top.node].children[top.next as int];
            remaining(m, below.push(top), visited) == seq![
                Visit { node: child, parent: Some(top.node) },
            ] + remaining(
                m,
                below.push(Pending { node: top.node, next: top.next + 1 }).push(
                    Pending { node: child, next: 0 },
                ),
                visited.insert(child),
            )
        }),
{
    let ids = m[top.node].children;
    let child = ids[top.next as int];
    let after = Pending { node: top.node, next: top.next + 1 };
    let fresh = Pending { node: child, next: 0 };
    let head = Visit { node: child, parent: Some(top.node) };
    let inside = visited.insert(child);
    let a = walk_all(m, m[child].children, child, inside);
    let seen = inside.union(entered(a));
    let b = walk_all(m, left(m, after), top.node, seen);
    let entry = walk(m, child, Some(top.node), visited);
    lemma_walk_all_step(m, ids, top.next as int, top.node, visited);
    assert(entry == seq![head] + a);
    lemma_entered_concat(seq![head], a);
    lemma_entered_one(head);
    assert(visited.union(entered(entry)) =~= seen);
    let part = walk_all(m, left(m, top), top.node, visited);
    assert(part == entry + b);
    lemma_entered_concat(entry, b);
    assert(visited.union(entered(part)) =~= seen.union(entered(b)));
    assert(below.push(top).drop_last() =~= below);
    assert(below.push(top).last() == top);
    let upper = below.push(after).push(fresh);
    assert(upper.drop_last() =~= below.push(after));
    assert(upper.last() == fresh);
    assert(below.push(after).drop_last() =~= below);
    assert(below.push(after).last() == after);
    assert(left(m, fresh) =~= m[child].children);
    let rest = remaining(m, below, seen.union(entered(b)));
    assert(remaining(m, below.push(after), seen) == b + rest);
    assert(remaining(m, upper, inside) == a + (b + rest));
    assert(remaining(m, below.push(top), visited) == (entry + b) + rest);
    assert((seq![head] + a + b) + rest =~= seq![head] + (a + (b + rest)));
}

proof fn lemma_leave_node(
    m: Map<Seq<char>, NodeView>,
    below: Seq<Pending>,
    top: Pending,
    visited: Set<Seq<char>>,
)
    requires
        m.dom().finite(),
        top.next == m[top.node].children.len(),
    ensures
        remaining(m, below.push(top), visited) == remaining(m, below, visited),
        weight(m, below) < weight(m, below.push(top)),
{
    lemma_entered_none();
    assert(visited.union(Set::<Seq<char>>::empty()) =~= visited);
    assert(below.push(top).drop_last() =~= below);
    assert(below.push(top).last() == top);
    assert(Seq::<Visit>::empty() + remaining(m, below, visited) =~= remaining(m, below, visited));
}

/// Sets the flag of the node at `at` and appends its message to `messages`,
/// unless it has none or it is skipped.
fn enter<'a>(
    mapping: &'a NodeMap,
    at: usize,
    messages: &mut Vec<LinearizedMessage<'a>>,
    visited: &mut Vec<bool>,
    parent_id: Option<&String>,
)
    requires
        at < mapping.keys().len(),
        old(visited).len() == mapping.keys().len(),
    ensures
        final(visited)@ == old(visited)@.update(at as int, true),
        views(final(messages)@) == views(old(messages)@) + numbered(
            mapping@,
            emitted(
                mapping@,
                seq![Visit { node: mapping.keys()[at as int], parent: text_of(parent_id) }],
            ),
            old(messages).len() as nat,
        ),
{
    let n = mapping.len();
    let ghost base = messages@;
    let ghost head = Visit { node: mapping.keys()[at as int], parent: text_of(parent_id) };
    proof {
        mapping.lemma_entries();
        lemma_emitted_one(mapping@, head);
    }
    visited.set(at, true);
    let node = mapping.node_at(at);
    if let Some(message) = &node.message {
        if !should_skip_message(message) {
            let parent = match parent_id {
                Some(p) => Some(p.clone()),
                None => None,
            };
            let order = messages.len();
            messages.push(LinearizedMessage { id: message.id.clone(), message, parent_id: parent, order });
        }
    }
    proof {
        assert(views(messages@) =~= views(base) + numbered(
            mapping@,
            emitted(mapping@, seq![head]),
            base.len(),
        ));
    }
}

/// Enters `node_id` from `parent_id`, unless it is no key of the mapping or
/// its flag in `visited` is set: sets the flag, appends the node's message to
/// `messages` unless it has none or it is skipped, and enters the node's
/// children in the order of its list, each in the same way. The nodes whose
/// children are being entered are held on a stack, so that the depth of the
/// graph is no burden.
pub fn traverse_messages<'a>(
    mapping: &'a NodeMap,
    node_id: &String,
    messages: &mut Vec<LinearizedMessage<'a>>,
    visited: &mut Vec<bool>,
    parent_id: Option<&String>,
)
    requires
        old(visited).len() == mapping.keys().len(),
    ensures
        final(visited).len() == mapping.keys().len(),
        ({
            let before = marked(mapping.keys(), old(visited)@);
            let steps = walk(mapping@, node_id@, text_of(parent_id), before);
            &&& marked(mapping.keys(), final(visited)@) == before.union(entered(steps))
            &&& views(final(messages)@) == views(old(messages)@) + numbered(
                mapping@,
                emitted(mapping@, steps),
                old(messages).len() as nat,
            )
        }),
{
    let n = mapping.len();
    let ghost m = mapping@;
    let ghost keys = mapping.keys();
    let ghost nodes = mapping.nodes();
    let ghost before = marked(keys, visited@);
    let ghost steps = walk(m, node_id@, text_of(parent_id), before);
    let ghost base = messages@;
    proof {
        mapping.lemma_entries();
        lemma_entered_none();
        lemma_emitted_one(m, Visit { node: node_id@, parent: text_of(parent_id) });
        assert(numbered(m, Seq::<Visit>::empty(), base.len()) =~= Seq::<Linearized>::empty());
    }
    let at = match mapping.position(node_id) {
        Some(at) => at,
        None => {
            assert(before.union(entered(steps)) =~= before);
            assert(views(base) + Seq::<Linearized>::empty() =~= views(base));
            return ;
        },
    };
    if visited[at] {
        assert(before.contains(node_id@));
        assert(before.union(entered(steps)) =~= before);
        assert(views(base) + Seq::<Linearized>::empty() =~= views(base));
        return ;
    }
    assert(!before.contains(node_id@)) by {
        if before.contains(node_id@) {
            let i = choose|i: int|
                0 <= i < keys.len() && i < visited@.len() && visited@[i] && keys[i] == node_id@;
            assert(i == at);
        }
    }
    let ghost head = Visit { node: node_id@, parent: text_of(parent_id) };
    proof {
        lemma_mark(keys, visited@, at as int);
        lemma_entered_one(head);
    }
    enter(mapping, at, messages, visited, parent_id);
    let mut stack: Vec<Frame> = Vec::new();
    stack.push(Frame { at, next: 0 });
    let ghost mut done: Seq<Visit> = seq![head];
    proof {
        let first = Pending { node: node_id@, next: 0 };
        assert(pending(keys, stack@) =~= Seq::<Pending>::empty().push(first));
        assert(left(m, first) =~= m[node_id@].children);
        assert(Seq::<Pending>::empty().push(first).drop_last() =~= Seq::<Pending>::empty());
        assert(Seq::<Pending>::empty().push(first).last() == first);
        let inside = before.insert(node_id@);
        let below = walk_all(m, m[node_id@].children, node_id@, inside);
        assert(remaining(m, Seq::<Pending>::empty(), inside.union(entered(below)))
            =~= Seq::<Visit>::empty());
        assert(remaining(m, Seq::<Pending>::empty().push(first), inside) =~= below);
        assert(before.union(entered(done)) =~= before.insert(node_id@));
    }
    while stack.len() > 0
        invariant
            mapping.well_formed(),
            m == mapping@,
            keys == mapping.keys(),
            nodes == mapping.nodes(),
            nodes.len() == keys.len(),
            m.dom().finite(),
            visited.len() == keys.len(),
            before == marked(mapping.keys(), old(visited)@),
            steps == walk(m, node_id@, text_of(parent_id), before),
            base == old(messages)@,
            forall|j: int|
                0 <= j < stack.len() ==> (#[trigger] stack[j]).at < keys.len() && stack[j].next
                    <= nodes[stack[j].at as int].children.len(),
            steps == done + remaining(m, pending(keys, stack@), marked(keys, visited@)),
            marked(keys, visited@) == before.union(entered(done)),
            views(messages@) == views(base) + numbered(m, emitted(m, done), base.len()),
        decreases unvisited(m, marked(keys, visited@)), weight(m, pending(keys, stack@)),
    {
        proof {
            mapping.lemma_entries();
        }
        let last = stack.len() - 1;
        let frame = stack[last];
        let node = mapping.node_at(frame.at);
        let ghost now = marked(keys, visited@);
        let ghost lower = pending(keys, stack@).drop_last();
        let ghost top = Pending { node: keys[frame.at as int], next: frame.next as nat };
        proof {
            assert(pending(keys, stack@) =~= lower.push(top));
            assert(m[top.node] == node@);
            assert(node@.children.len() == node.children.len());
        }
        if frame.next < node.children.len() {
            let child = &node.children[frame.next];
            let ghost after = Pending { node: top.node, next: top.next + 1 };
            proof {
                assert(node@.children[frame.next as int] == child@);
            }
            stack.set(last, Frame { at: frame.at, next: frame.next + 1 });
            proof {
                assert(pending(keys, stack@) =~= lower.push(after));
            }
            let found = match mapping.position(child) {
                Some(at) => if visited[at] {
                    None
                } else {
                    Some(at)
                },
                None => None,
            };
            match found {
                Some(at) => {
                    let ghost entry = Visit { node: child@, parent: Some(top.node) };
                    proof {
                        assert(!now.contains(child@)) by {
                            if now.contains(child@) {
                                let i = choose|i: int|
                                    0 <= i < keys.len() && i < visited@.len() && visited@[i]
                                        && keys[i] == child@;
                                assert(i == at);
                            }
                        }
                        lemma_enter_child(m, lower, top, now);
                        lemma_mark(keys, visited@, at as int);
                        lemma_unvisited_decreases(m, now, child@);
                        lemma_entered_concat(done, seq![entry]);
                        lemma_entered_one(entry);
                        lemma_emitted_concat(m, done, seq![entry]);
                        lemma_numbered_concat(m, emitted(m, done), emitted(m, seq![entry]), base.len());
                    }
                    let ghost count = messages@.len();
                    enter(mapping, at, messages, visited, Some(mapping.key_at(frame.at)));
                    stack.push(Frame { at, next: 0 });
                    proof {
                        assert(count == base.len() + emitted(m, done).len());
                        assert(pending(keys, stack@) =~= lower.push(after).push(
                            Pending { node: child@, next: 0 },
                        ));
                        assert(before.union(entered(done + seq![entry])) =~= now.insert(child@));
                        assert(done + (seq![entry] + remaining(
                            m,
                            pending(keys, stack@),
                            now.insert(child@),
                        )) =~= (done + seq![entry]) + remaining(
                            m,
                            pending(keys, stack@),
                            now.insert(child@),
                        ));
                        done = done + seq![entry];
                    }
                },
                None => {
                    proof {
                        lemma_pass_child(m, lower, top, now);
                    }
                },
            }
        } else {
            proof {
                lemma_leave_node(m, lower, top, now);
            }
            stack.pop();
            proof {
                assert(pending(keys, stack@) =~= lower);
            }
        }
    }
    proof {
        assert(pending(keys, stack@) =~= Seq::<Pending>::empty());
        assert(done + Seq::<Visit>::empty() =~= done);
    }
}

/// The messages of a conversation in the order of its traversal, each with
/// the node from which its node was entered and its place in the list.
pub fn extract_messages_from_mapping<'a>(mapping: &'a NodeMap) -> (messages: Vec<
    LinearizedMessage<'a>,
>)
    ensures
        views(messages@) == linearization(mapping@),
        forall|i: int|
            0 <= i < messages.len() ==> (#[trigger] messages[i]).order == i && !skipped(
                messages[i].message@,
            ),
        root_of(mapping@) is None ==> messages.len() == 0,
{
    let mut messages: Vec<LinearizedMessage<'a>> = Vec::new();
    let n = mapping.len();
    let mut visited: Vec<bool> = Vec::with_capacity(n);
    let mut i: usize = 0;
    while i < n
        invariant
            i <= n,
            visited.len() == i,
            forall|k: int| 0 <= k < i ==> !visited@[k],
        decreases n - i,
    {
        visited.push(false);
        i += 1;
    }
    proof {
        assert(marked(mapping.keys(), visited@) =~= Set::<Seq<char>>::empty());
        lemma_emitted_one(mapping@, Visit { node: Seq::empty(), parent: None });
        assert(numbered(mapping@, Seq::<Visit>::empty(), 0) =~= Seq::<Linearized>::empty());
        assert(views(messages@) =~= Seq::<Linearized>::empty());
    }
    match find_root(mapping) {
        Some(root) => {
            traverse_messages(mapping, root, &mut messages, &mut visited, None);
            proof {
                assert(Seq::<Linearized>::empty() + linearization(mapping@) =~= linearization(
                    mapping@,
                ));
            }
        },
        None => {},
    }
    proof {
        assert forall|i: int| 0 <= i < messages.len() implies (#[trigger] messages[i]).order == i
            && !skipped(messages[i].message@) by {
            lemma_linearization_is_numbered(mapping@, i);
            assert(views(messages@)[i] == messages[i]@);
        }
    }
    messages
}

} // verus!
