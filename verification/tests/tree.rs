use importer::{
    extract_messages_from_mapping, find_root, traverse_messages, Author, Content, MappingNode,
    Message, Metadata, NodeMap, Part,
};

fn said(id: &str, role: &str, text: &str) -> Message {
    Message {
        id: id.to_string(),
        author: Author { role: role.to_string(), name: None },
        create_time: None,
        update_time: None,
        content: Content {
            content_type: "text".to_string(),
            parts: vec![Part::Text(text.to_string())],
            user_profile: None,
            user_instructions: None,
        },
        status: None,
        end_turn: None,
        metadata: None,
        recipient: None,
        channel: None,
    }
}

fn vertex(id: &str, parent: Option<&str>, children: &[&str], message: Option<Message>) -> MappingNode {
    MappingNode {
        id: id.to_string(),
        message,
        parent: parent.map(|p| p.to_string()),
        children: children.iter().map(|c| c.to_string()).collect(),
    }
}

fn graph_of(nodes: Vec<MappingNode>) -> NodeMap {
    let mut map = NodeMap::new();
    for node in nodes {
        map = map.with_node(node.id.clone(), node);
    }
    map
}

fn summary(map: &NodeMap) -> Vec<(String, Option<String>, usize)> {
    extract_messages_from_mapping(map)
        .into_iter()
        .map(|m| (m.id, m.parent_id, m.order))
        .collect()
}

fn row(id: &str, parent: Option<&str>, order: usize) -> (String, Option<String>, usize) {
    (id.to_string(), parent.map(|p| p.to_string()), order)
}

#[test]
fn two_messages_come_out_in_order() {
    let map = graph_of(vec![
        vertex("A", None, &["B"], Some(said("ma", "user", "hi"))),
        vertex("B", Some("A"), &[], Some(said("mb", "assistant", "hello"))),
    ]);
    let messages = extract_messages_from_mapping(&map);
    assert_eq!(messages.len(), 2);
    assert_eq!(messages[0].id, "ma");
    assert_eq!(messages[0].parent_id, None);
    assert_eq!(messages[0].order, 0);
    assert_eq!(messages[0].message, &said("ma", "user", "hi"));
    assert_eq!(messages[1].id, "mb");
    assert_eq!(messages[1].parent_id, Some("A".to_string()));
    assert_eq!(messages[1].order, 1);
    assert_eq!(messages[1].message, &said("mb", "assistant", "hello"));
}

#[test]
fn graph_without_root_yields_nothing() {
    let map = graph_of(vec![
        vertex("A", Some("B"), &["B"], Some(said("ma", "user", "hi"))),
        vertex("B", Some("A"), &["A"], Some(said("mb", "user", "ho"))),
    ]);
    assert!(find_root(&map).is_none());
    assert!(extract_messages_from_mapping(&map).is_empty());
    assert!(extract_messages_from_mapping(&NodeMap::new()).is_empty());
}

#[test]
fn node_that_names_the_sentinel_is_a_root() {
    let map = graph_of(vec![
        vertex("A", Some("client-created-root"), &["B"], Some(said("ma", "user", "hi"))),
        vertex("B", Some("A"), &[], Some(said("mb", "user", "ho"))),
    ]);
    assert_eq!(find_root(&map), Some(&"A".to_string()));
    assert_eq!(summary(&map), vec![row("ma", None, 0), row("mb", Some("A"), 1)]);
}

#[test]
fn node_under_the_sentinel_key_is_the_last_resort() {
    let mut map = graph_of(vec![vertex("A", Some("X"), &[], Some(said("ma", "user", "hi")))]);
    map = map.with_node(
        "client-created-root".to_string(),
        vertex("A", Some("elsewhere"), &[], None),
    );
    assert_eq!(find_root(&map), Some(&"A".to_string()));
    assert_eq!(summary(&map), vec![row("ma", None, 0)]);
}

#[test]
fn of_several_roots_the_first_id_in_order_is_taken() {
    let forward = graph_of(vec![
        vertex("b", None, &[], Some(said("mb", "user", "from b"))),
        vertex("a", None, &[], Some(said("ma", "user", "from a"))),
        vertex("c", Some("client-created-root"), &[], Some(said("mc", "user", "from c"))),
    ]);
    let backward = graph_of(vec![
        vertex("c", Some("client-created-root"), &[], Some(said("mc", "user", "from c"))),
        vertex("a", None, &[], Some(said("ma", "user", "from a"))),
        vertex("b", None, &[], Some(said("mb", "user", "from b"))),
    ]);
    assert_eq!(find_root(&forward), Some(&"a".to_string()));
    assert_eq!(find_root(&backward), Some(&"a".to_string()));
    assert_eq!(summary(&forward), vec![row("ma", None, 0)]);
    assert_eq!(summary(&backward), summary(&forward));
}

#[test]
fn order_of_insertion_does_not_matter() {
    let nodes = || {
        vec![
            vertex("r", None, &["x", "y"], None),
            vertex("x", Some("r"), &["z"], Some(said("mx", "user", "x"))),
            vertex("y", Some("r"), &[], Some(said("my", "assistant", "y"))),
            vertex("z", Some("x"), &[], Some(said("mz", "user", "z"))),
        ]
    };
    let mut reversed = nodes();
    reversed.reverse();
    let expected = vec![row("mx", Some("r"), 0), row("mz", Some("x"), 1), row("my", Some("r"), 2)];
    assert_eq!(summary(&graph_of(nodes())), expected);
    assert_eq!(summary(&graph_of(reversed)), expected);
}

#[test]
fn children_are_entered_in_the_order_of_the_list() {
    let map = graph_of(vec![
        vertex("r", None, &["c2", "c1"], Some(said("mr", "user", "r"))),
        vertex("c1", Some("r"), &[], Some(said("m1", "user", "1"))),
        vertex("c2", Some("r"), &[], Some(said("m2", "user", "2"))),
    ]);
    assert_eq!(
        summary(&map),
        vec![row("mr", None, 0), row("m2", Some("r"), 1), row("m1", Some("r"), 2)]
    );
}

#[test]
fn skipped_node_still_hands_its_id_to_its_children() {
    let hidden = Message {
        metadata: Some(Metadata {
            is_visually_hidden_from_conversation: Some(true),
            model_slug: None,
        }),
        ..said("mh", "system", "secret")
    };
    let map = graph_of(vec![
        vertex("r", None, &["blank"], Some(said("mr", "user", "r"))),
        vertex("blank", Some("r"), &["hid"], Some(said("mblank", "user", "  \n"))),
        vertex("hid", Some("blank"), &["bare"], Some(hidden)),
        vertex("bare", Some("hid"), &["leaf"], None),
        vertex("leaf", Some("bare"), &[], Some(said("mleaf", "user", "leaf"))),
        vertex("kid", Some("blank"), &[], Some(said("mkid", "user", "kid"))),
    ]);
    let map = map.with_node(
        "blank".to_string(),
        vertex("blank", Some("r"), &["hid", "kid"], Some(said("mblank", "user", "  \n"))),
    );
    assert_eq!(
        summary(&map),
        vec![row("mr", None, 0), row("mleaf", Some("bare"), 1), row("mkid", Some("blank"), 2)]
    );
}

#[test]
fn cycle_is_entered_once() {
    let map = graph_of(vec![
        vertex("a", None, &["b"], Some(said("ma", "user", "a"))),
        vertex("b", Some("a"), &["c"], Some(said("mb", "user", "b"))),
        vertex("c", Some("b"), &["a", "b", "c"], Some(said("mc", "user", "c"))),
    ]);
    assert_eq!(
        summary(&map),
        vec![row("ma", None, 0), row("mb", Some("a"), 1), row("mc", Some("b"), 2)]
    );
}

#[test]
fn shared_child_is_entered_once_from_the_first_parent() {
    let map = graph_of(vec![
        vertex("r", None, &["p", "q"], Some(said("mr", "user", "r"))),
        vertex("p", Some("r"), &["s"], Some(said("mp", "user", "p"))),
        vertex("q", Some("r"), &["s", "t"], Some(said("mq", "user", "q"))),
        vertex("s", Some("p"), &[], Some(said("ms", "user", "s"))),
        vertex("t", Some("q"), &[], Some(said("mt", "user", "t"))),
    ]);
    assert_eq!(
        summary(&map),
        vec![
            row("mr", None, 0),
            row("mp", Some("r"), 1),
            row("ms", Some("p"), 2),
            row("mq", Some("r"), 3),
            row("mt", Some("q"), 4),
        ]
    );
}

#[test]
fn child_that_is_missing_is_an_empty_subtree() {
    let map = graph_of(vec![
        vertex("r", None, &["gone", "here", "gone"], Some(said("mr", "user", "r"))),
        vertex("here", Some("r"), &["nowhere"], Some(said("mh", "user", "h"))),
    ]);
    assert_eq!(summary(&map), vec![row("mr", None, 0), row("mh", Some("r"), 1)]);
}

#[test]
fn unreachable_node_is_left_out() {
    let map = graph_of(vec![
        vertex("r", None, &["a"], Some(said("mr", "user", "r"))),
        vertex("a", Some("r"), &[], Some(said("ma", "user", "a"))),
        vertex("island", Some("nobody"), &["a"], Some(said("mi", "user", "i"))),
    ]);
    assert_eq!(summary(&map), vec![row("mr", None, 0), row("ma", Some("r"), 1)]);
}

#[test]
fn as_many_messages_as_reachable_nodes_that_speak() {
    let map = graph_of(vec![
        vertex("r", None, &["a", "b"], None),
        vertex("a", Some("r"), &["c"], Some(said("ma", "user", "a"))),
        vertex("b", Some("r"), &["c", "r"], Some(said("mb", "user", " "))),
        vertex("c", Some("a"), &["d"], Some(said("mc", "user", "c"))),
        vertex("d", Some("c"), &[], Some(said("md", "user", ""))),
        vertex("far", Some("none"), &[], Some(said("mf", "user", "far"))),
    ]);
    let messages = extract_messages_from_mapping(&map);
    assert_eq!(messages.len(), 2);
    for (i, message) in messages.iter().enumerate() {
        assert_eq!(message.order, i);
    }
}

#[test]
fn root_whose_id_is_no_key_yields_nothing() {
    let mut map = NodeMap::new();
    map = map.with_node("key".to_string(), vertex("other", None, &[], Some(said("m", "user", "x"))));
    assert_eq!(find_root(&map), Some(&"other".to_string()));
    assert!(extract_messages_from_mapping(&map).is_empty());
}

#[test]
fn traversal_goes_on_from_what_was_entered() {
    let map = graph_of(vec![
        vertex("a", None, &["b"], Some(said("ma", "user", "a"))),
        vertex("b", Some("a"), &[], Some(said("mb", "user", "b"))),
    ]);
    let mut messages = Vec::new();
    let mut visited = vec![false; map.len()];
    let b = "b".to_string();
    let a = "a".to_string();
    traverse_messages(&map, &b, &mut messages, &mut visited, Some(&a));
    traverse_messages(&map, &a, &mut messages, &mut visited, None);
    traverse_messages(&map, &a, &mut messages, &mut visited, None);
    let seen: Vec<(String, Option<String>, usize)> =
        messages.into_iter().map(|m| (m.id, m.parent_id, m.order)).collect();
    assert_eq!(seen, vec![row("mb", Some("a"), 0), row("ma", None, 1)]);
    assert_eq!(visited, vec![true, true]);
}

#[test]
fn map_holds_one_node_under_each_key() {
    let mut map = NodeMap::new();
    assert_eq!(map.len(), 0);
    map = map.with_node("k".to_string(), vertex("first", None, &[], None));
    map = map.with_node("l".to_string(), vertex("second", None, &[], None));
    map = map.with_node("k".to_string(), vertex("third", None, &[], None));
    assert_eq!(map.len(), 2);
    assert_eq!(map.get(&"k".to_string()).map(|n| n.id.as_str()), Some("third"));
    assert_eq!(map.get(&"l".to_string()).map(|n| n.id.as_str()), Some("second"));
    assert!(map.get(&"m".to_string()).is_none());
    assert_eq!(map.position(&"l".to_string()), Some(1));
    assert_eq!(map.key_at(0), "k");
    assert_eq!(map.node_at(1).id, "second");
}

#[test]
fn deep_chain_is_walked_to_its_end() {
    let depth = 10_000;
    let mut nodes = Vec::new();
    for i in 0..depth {
        let id = format!("n{}", i);
        let parent = if i == 0 { None } else { Some(format!("n{}", i - 1)) };
        let children = if i + 1 < depth { vec![format!("n{}", i + 1)] } else { vec![] };
        nodes.push(MappingNode {
            id: id.clone(),
            message: Some(said(&format!("m{}", i), "user", "x")),
            parent,
            children,
        });
    }
    let map = graph_of(nodes);
    let messages = extract_messages_from_mapping(&map);
    assert_eq!(messages.len(), depth);
    assert_eq!(messages[depth - 1].id, format!("m{}", depth - 1));
    assert_eq!(messages[depth - 1].parent_id, Some(format!("n{}", depth - 2)));
    assert_eq!(messages[depth - 1].order, depth - 1);
}
