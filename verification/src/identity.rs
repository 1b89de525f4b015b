//! The id under which a conversation is stored.

use crate::models::{Conversation, ConversationView, MappingNode, NodeView, Part, PartView};
use crate::text::{is_least, least_of, lemma_least_of, lemma_precedes_irreflexive,
    lemma_precedes_transitive, lower_hex, precedes, push_lower_hex, text_eq, text_precedes};
use std::collections::hash_map::DefaultHasher;
use std::hash::Hasher;
use vstd::prelude::*;
use vstd::std_specs::hash::DefaultHasherAdditionalSpecFns;
use vstd::string::StringSliceAdditionalSpecFns;

verus! {

/// What every conversation id starts with.
pub open spec fn id_prefix() -> Seq<char> {
    "conv_"@
}

/// A node whose message can name the conversation: a user or an assistant
/// wrote it, and its first part is a fragment of text that is not empty.
pub open spec fn names_conversation(node: NodeView) -> bool {
    &&& node.message matches Some(message)
    &&& (message.author.role == "user"@ || message.author.role == "assistant"@)
    &&& message.content.parts.len() > 0
    &&& message.content.parts[0] matches PartView::Text(text)
    &&& text.len() > 0
}

/// The ids of the messages that can name the conversation.
pub open spec fn naming_ids(m: Map<Seq<char>, NodeView>) -> Set<Seq<char>> {
    Set::new(
        |id: Seq<char>|
            exists|key: Seq<char>|
                m.dom().contains(key) && names_conversation(m[key]) && m[key].message.unwrap().id
                    == id,
    )
}

/// The eight bytes of `word`, the least significant first.
pub open spec fn word_bytes(word: u64) -> Seq<u8> {
    Seq::new(8, |i: int| ((word >> ((8 * i) as u64)) & 0xff) as u8)
}

/// The digest of a title and the bit pattern of a creation time: what the
/// standard hasher makes of the title's bytes, one byte 0xff and the eight
/// bytes of the bit pattern, written in this order.
pub open spec fn fallback_digest(title: Seq<char>, bits: u64) -> u64 {
    DefaultHasher::spec_finish(
        seq![vstd::utf8::encode_utf8(title), seq![0xffu8], word_bytes(bits)],
    )
}

/// The id of a conversation: the prefix and then, of the ids of the messages
/// that can name the conversation, the one that comes first in lexicographic
/// order; where there is no such message, the digest of the title and the
/// creation time in hexadecimal notation.
pub open spec fn conversation_id(conversation: ConversationView) -> Seq<char> {
    let ids = naming_ids(conversation.mapping);
    if exists|id: Seq<char>| ids.contains(id) {
        id_prefix() + least_of(ids)
    } else {
        id_prefix() + lower_hex(
            fallback_digest(conversation.title, conversation.create_time.bits) as nat,
        )
    }
}

/// The id of a conversation depends on its title, its creation time and the
/// nodes under their keys, and on nothing else: not on the order in which
/// the nodes are held.
pub proof fn lemma_id_ignores_order(a: Conversation, b: Conversation)
    requires
        a.title@ == b.title@,
        a.create_time.bits == b.create_time.bits,
        a.mapping@ == b.mapping@,
    ensures
        conversation_id(a@) == conversation_id(b@),
{
    assert(a@.mapping == b@.mapping);
    assert(a@.title == b@.title);
}

/// The eight bytes of `word`, the least significant first.
fn bytes_of_word(word: u64) -> (bytes: Vec<u8>)
    ensures
        bytes@ == word_bytes(word),
{
    let mut bytes: Vec<u8> = Vec::new();
    let mut i: u64 = 0;
    while i < 8
        invariant
            i <= 8,
            bytes.len() == i,
            forall|k: int| 0 <= k < i ==> bytes@[k] == word_bytes(word)[k],
        decreases 8 - i,
    {
        let shifted: u64 = (word >> (8 * i)) & 0xff;
        assert(shifted < 256) by (bit_vector)
            requires
                shifted == (word >> (8 * i)) & 0xff,
        ;
        bytes.push(shifted as u8);
        i += 1;
    }
    assert(bytes@ =~= word_bytes(word));
    bytes
}

/// The digest of a title and the bit pattern of a creation time.
fn digest(title: &str, bits: u64) -> (r: u64)
    ensures
        r == fallback_digest(title@, bits),
{
    let mut hasher = DefaultHasher::new();
    hasher.write(title.as_bytes());
    let mark: Vec<u8> = vec![0xffu8];
    hasher.write(mark.as_slice());
    let word = bytes_of_word(bits);
    hasher.write(word.as_slice());
    assert(mark@ =~= seq![0xffu8]);
    assert(hasher@ =~= seq![vstd::utf8::encode_utf8(title@), seq![0xffu8], word_bytes(bits)]);
    hasher.finish()
}

/// Whether a node's message can name the conversation.
fn can_name(node: &MappingNode) -> (r: bool)
    ensures
        r == names_conversation(node@),
{
    match &node.message {
        Some(message) => {
            let role = message.author.role.as_str();
            if !(text_eq(role, "user") || text_eq(role, "assistant")) {
                return false;
            }
            if message.content.parts.len() == 0 {
                return false;
            }
            match &message.content.parts[0] {
                Part::Text(text) => !text.as_str().is_empty(),
                _ => false,
            }
        },
        None => false,
    }
}

/// The id under which a conversation is stored.
pub fn find_conversation_id(conv: &Conversation) -> (id: String)
    ensures
        id@ == conversation_id(conv@),
{
    let mapping = &conv.mapping;
    let n = mapping.len();
    let ghost m = mapping@;
    assert(conv@.mapping == m && conv@.title == conv.title@);
    let ghost keys = mapping.keys();
    let ghost nodes = mapping.nodes();
    proof {
        mapping.lemma_entries();
    }
    let mut best: Option<usize> = None;
    let mut i: usize = 0;
    while i < n
        invariant
            n == keys.len(),
            keys == mapping.keys(),
            nodes == mapping.nodes(),
            nodes.len() == keys.len(),
            i <= n,
            match best {
                Some(b) => b < i && names_conversation(nodes[b as int]@) && forall|k: int|
                    0 <= k < i && names_conversation(nodes[k]@) ==> !precedes(
                        (#[trigger] nodes[k]@).message.unwrap().id,
                        nodes[b as int]@.message.unwrap().id,
                    ),
                None => forall|k: int| 0 <= k < i ==> !names_conversation(#[trigger] nodes[k]@),
            },
        decreases n - i,
    {
        let node = mapping.node_at(i);
        if can_name(node) {
            let id = match &node.message {
                Some(message) => &message.id,
                None => &node.id,
            };
            match best {
                Some(b) => {
                    let held = mapping.node_at(b);
                    let held_id = match &held.message {
                        Some(message) => &message.id,
                        None => &held.id,
                    };
                    if text_precedes(id.as_str(), held_id.as_str()) {
                        assert forall|k: int|
                            0 <= k < i + 1 && names_conversation(nodes[k]@) implies !precedes(
                            (#[trigger] nodes[k]@).message.unwrap().id,
                            id@,
                        ) by {
                            let other = nodes[k]@.message.unwrap().id;
                            if k < i && precedes(other, id@) {
                                lemma_precedes_transitive(other, id@, held_id@);
                            }
                            if k == i {
                                lemma_precedes_irreflexive(id@);
                            }
                        }
                        best = Some(i);
                    }
                },
                None => {
                    proof {
                        lemma_precedes_irreflexive(id@);
                    }
                    best = Some(i);
                },
            }
        }
        i += 1;
    }
    let mut id = String::from_str("conv_");
    match best {
        Some(b) => {
            let node = mapping.node_at(b);
            let least = match &node.message {
                Some(message) => &message.id,
                None => &node.id,
            };
            proof {
                let ids = naming_ids(m);
                assert(m.dom().contains(keys[b as int]) && m[keys[b as int]] == nodes[b as int]@);
                assert(ids.contains(least@));
                assert forall|y: Seq<char>| ids.contains(y) implies !precedes(y, least@) by {
                    let key = choose|key: Seq<char>|
                        m.dom().contains(key) && names_conversation(m[key])
                            && m[key].message.unwrap().id == y;
                    assert(keys.to_set().contains(key));
                    let k = keys.index_of(key);
                    assert(m[keys[k]] == nodes[k]@);
                }
                assert(is_least(ids, least@));
                lemma_least_of(ids, least@);
            }
            id.append(least.as_str());
        },
        None => {
            proof {
                assert forall|y: Seq<char>| !naming_ids(m).contains(y) by {
                    if naming_ids(m).contains(y) {
                        let key = choose|key: Seq<char>|
                            m.dom().contains(key) && names_conversation(m[key])
                                && m[key].message.unwrap().id == y;
                        assert(keys.to_set().contains(key));
                        let k = keys.index_of(key);
                        assert(m[keys[k]] == nodes[k]@);
                    }
                }
            }
            push_lower_hex(digest(conv.title.as_str(), conv.create_time.bits), &mut id);
        },
    }
    id
}

} // verus!
