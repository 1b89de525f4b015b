use importer::{
    find_conversation_id, Author, Content, Conversation, MappingNode, Message, NodeMap, Part,
    Timestamp,
};
use std::collections::hash_map::DefaultHasher;
use std::hash::{Hash, Hasher};

fn note(id: &str, role: &str, parts: Vec<Part>) -> Message {
    Message {
        id: id.to_string(),
        author: Author { role: role.to_string(), name: None },
        create_time: None,
        update_time: None,
        content: Content {
            content_type: "text".to_string(),
            parts,
            user_profile: None,
            user_instructions: None,
        },
        status: None,
        end_turn: None,
        metadata: None,
        recipient: None,
        channel: None,
    }
}

fn words(text: &str) -> Vec<Part> {
    vec![Part::Text(text.to_string())]
}

fn talk(title: &str, bits: u64, messages: Vec<(&str, Option<Message>)>) -> Conversation {
    let mut mapping = NodeMap::new();
    for (key, message) in messages {
        let node = MappingNode {
            id: key.to_string(),
            message,
            parent: None,
            children: vec![],
        };
        mapping = mapping.with_node(key.to_string(), node);
    }
    Conversation {
        title: title.to_string(),
        create_time: Timestamp { seconds: 0, bits },
        update_time: Timestamp { seconds: 0, bits: 0 },
        mapping,
        current_node: None,
        model_slug: None,
        is_archived: None,
    }
}

fn digest_by_the_standard_traits(title: &str, bits: u64) -> String {
    let mut hasher = DefaultHasher::new();
    title.to_string().hash(&mut hasher);
    bits.hash(&mut hasher);
    format!("conv_{:x}", hasher.finish())
}

#[test]
fn id_comes_from_the_message_that_can_name_the_conversation() {
    let conv = talk(
        "t",
        0,
        vec![
            ("n1", Some(note("sys", "system", words("rules")))),
            ("n2", Some(note("m-7", "user", words("hello")))),
            ("n3", None),
        ],
    );
    assert_eq!(find_conversation_id(&conv), "conv_m-7");
}

#[test]
fn of_several_naming_messages_the_first_id_in_order_is_taken() {
    let one = talk(
        "t",
        0,
        vec![
            ("n1", Some(note("m-b", "assistant", words("b")))),
            ("n2", Some(note("m-a", "user", words("a")))),
            ("n3", Some(note("m-c", "user", words("c")))),
        ],
    );
    let other = talk(
        "t",
        0,
        vec![
            ("n3", Some(note("m-c", "user", words("c")))),
            ("n2", Some(note("m-a", "user", words("a")))),
            ("n1", Some(note("m-b", "assistant", words("b")))),
        ],
    );
    assert_eq!(find_conversation_id(&one), "conv_m-a");
    assert_eq!(find_conversation_id(&other), "conv_m-a");
}

#[test]
fn message_must_start_with_text_that_is_not_empty() {
    let conv = talk(
        "t",
        0,
        vec![
            ("n1", Some(note("a", "user", words("")))),
            ("n2", Some(note("b", "user", vec![]))),
            ("n3", Some(note("c", "user", vec![Part::Other, Part::Text("x".to_string())]))),
            ("n4", Some(note("d", "tool", words("x")))),
            ("n5", Some(note("e", "assistant", vec![Part::Text(" ".to_string()), Part::Other]))),
        ],
    );
    assert_eq!(find_conversation_id(&conv), "conv_e");
}

#[test]
fn without_a_naming_message_the_id_is_a_digest() {
    let bits = 1700000000.5f64.to_bits();
    let conv = talk("My title", bits, vec![("n1", Some(note("a", "system", words("x"))))]);
    let id = find_conversation_id(&conv);
    assert_eq!(id, digest_by_the_standard_traits("My title", bits));
    assert_eq!(id, "conv_1913ce46519bb55f");
}

#[test]
fn digest_depends_on_title_and_time() {
    let zero = find_conversation_id(&talk("", 0, vec![]));
    assert_eq!(zero, digest_by_the_standard_traits("", 0));
    let titled = find_conversation_id(&talk("a", 0, vec![]));
    assert_eq!(titled, digest_by_the_standard_traits("a", 0));
    let timed = find_conversation_id(&talk("", 1, vec![]));
    assert_eq!(timed, digest_by_the_standard_traits("", 1));
    let accented = find_conversation_id(&talk("\u{e9}t\u{e9} \u{1F600}", u64::MAX, vec![]));
    assert_eq!(accented, digest_by_the_standard_traits("\u{e9}t\u{e9} \u{1F600}", u64::MAX));
    assert_ne!(zero, titled);
    assert_ne!(zero, timed);
    assert!(zero.starts_with("conv_"));
}

#[test]
fn id_is_the_same_every_time() {
    let conv = talk("again", 42, vec![("n", None)]);
    assert_eq!(find_conversation_id(&conv), find_conversation_id(&conv));
}
