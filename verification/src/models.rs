//! The conversation forest as the library holds it.

use vstd::prelude::*;

verus! {

/// A point in time as an export records it: a number of seconds since the
/// epoch, held as the whole seconds it truncates to and as the bit pattern of
/// the recorded number.
#[derive(Debug, Clone, Copy, PartialEq, Eq)]
pub struct Timestamp {
    pub seconds: i64,
    pub bits: u64,
}

/// Who wrote a message.
#[derive(Debug, Clone, PartialEq, Eq)]
pub struct Author {
    pub role: String,
    pub name: Option<String>,
}

/// A reference to a binary asset that is stored elsewhere in the archive.
#[derive(Debug, Clone, PartialEq, Eq)]
pub struct AssetPointer {
    pub asset_pointer: String,
    pub content_type: String,
    pub size_bytes: Option<i64>,
    pub width: Option<i32>,
    pub height: Option<i32>,
    /// The descriptor's free-form metadata, as JSON text.
    pub metadata: Option<String>,
}

/// One part of a message's content.
#[derive(Debug, Clone, PartialEq, Eq)]
pub enum Part {
    /// A fragment of plain text.
    Text(String),
    /// A structured part that describes an attachment.
    Attachment(AssetPointer),
    /// A part of any other shape.
    Other,
}

/// What a message says: a label and the parts in their order.
#[derive(Debug, Clone, PartialEq, Eq)]
pub struct Content {
    pub content_type: String,
    pub parts: Vec<Part>,
    pub user_profile: Option<String>,
    pub user_instructions: Option<String>,
}

/// What the library reads of a message's free-form metadata.
#[derive(Debug, Clone, PartialEq, Eq)]
pub struct Metadata {
    pub is_visually_hidden_from_conversation: Option<bool>,
    pub model_slug: Option<String>,
}

/// A message, owned by exactly one node.
#[derive(Debug, Clone, PartialEq, Eq)]
pub struct Message {
    pub id: String,
    pub author: Author,
    pub create_time: Option<Timestamp>,
    pub update_time: Option<Timestamp>,
    pub content: Content,
    pub status: Option<String>,
    pub end_turn: Option<bool>,
    pub metadata: Option<Metadata>,
    pub recipient: Option<String>,
    pub channel: Option<String>,
}

/// A vertex of a conversation's graph.
#[derive(Debug, Clone, PartialEq, Eq)]
pub struct MappingNode {
    pub id: String,
    pub message: Option<Message>,
    pub parent: Option<String>,
    pub children: Vec<String>,
}

/// One conversation of the export.
#[derive(Debug)]
pub struct Conversation {
    pub title: String,
    pub create_time: Timestamp,
    pub update_time: Timestamp,
    pub mapping: NodeMap,
    pub current_node: Option<String>,
    pub model_slug: Option<String>,
    pub is_archived: Option<bool>,
}

/// The nodes of a conversation by their keys. No key occurs twice.
#[derive(Debug)]
pub struct NodeMap {
    entries: Vec<(String, MappingNode)>,
}

/// The characters of an optional text.
pub open spec fn chars(text: Option<String>) -> Option<Seq<char>> {
    match text {
        Some(t) => Some(t@),
        None => None,
    }
}

/// An author, as a value.
pub struct AuthorView {
    pub role: Seq<char>,
    pub name: Option<Seq<char>>,
}

/// An attachment descriptor, as a value.
pub struct AssetView {
    pub asset_pointer: Seq<char>,
    pub content_type: Seq<char>,
    pub size_bytes: Option<i64>,
    pub width: Option<i32>,
    pub height: Option<i32>,
    pub metadata: Option<Seq<char>>,
}

/// A part of a message's content, as a value.
pub enum PartView {
    Text(Seq<char>),
    Attachment(AssetView),
    Other,
}

/// The content of a message, as a value.
pub struct ContentView {
    pub content_type: Seq<char>,
    pub parts: Seq<PartView>,
    pub user_profile: Option<Seq<char>>,
    pub user_instructions: Option<Seq<char>>,
}

/// What is read of a message's metadata, as a value.
pub struct MetadataView {
    pub is_visually_hidden_from_conversation: Option<bool>,
    pub model_slug: Option<Seq<char>>,
}

/// A message, as a value.
pub struct MessageView {
    pub id: Seq<char>,
    pub author: AuthorView,
    pub create_time: Option<Timestamp>,
    pub update_time: Option<Timestamp>,
    pub content: ContentView,
    pub status: Option<Seq<char>>,
    pub end_turn: Option<bool>,
    pub metadata: Option<MetadataView>,
    pub recipient: Option<Seq<char>>,
    pub channel: Option<Seq<char>>,
}

/// A vertex of a conversation's graph, as a value.
pub struct NodeView {
    pub id: Seq<char>,
    pub message: Option<MessageView>,
    pub parent: Option<Seq<char>>,
    pub children: Seq<Seq<char>>,
}

/// A conversation, as a value: its graph is the map from the keys to the
/// nodes.
pub struct ConversationView {
    pub title: Seq<char>,
    pub create_time: Timestamp,
    pub update_time: Timestamp,
    pub mapping: Map<Seq<char>, NodeView>,
    pub current_node: Option<Seq<char>>,
    pub model_slug: Option<Seq<char>>,
    pub is_archived: Option<bool>,
}

impl View for Author {
    type V = AuthorView;

    open spec fn view(&self) -> AuthorView {
        AuthorView { role: self.role@, name: chars(self.name) }
    }
}

impl View for AssetPointer {
    type V = AssetView;

    open spec fn view(&self) -> AssetView {
        AssetView {
            asset_pointer: self.asset_pointer@,
            content_type: self.content_type@,
            size_bytes: self.size_bytes,
            width: self.width,
            height: self.height,
            metadata: chars(self.metadata),
        }
    }
}

impl View for Part {
    type V = PartView;

    open spec fn view(&self) -> PartView {
        match self {
            Part::Text(text) => PartView::Text(text@),
            Part::Attachment(asset) => PartView::Attachment(asset@),
            Part::Other => PartView::Other,
        }
    }
}

impl View for Content {
    type V = ContentView;

    open spec fn view(&self) -> ContentView {
        ContentView {
            content_type: self.content_type@,
            parts: self.parts@.map_values(|part: Part| part@),
            user_profile: chars(self.user_profile),
            user_instructions: chars(self.user_instructions),
        }
    }
}

impl View for Metadata {
    type V = MetadataView;

    open spec fn view(&self) -> MetadataView {
        MetadataView {
            is_visually_hidden_from_conversation: self.is_visually_hidden_from_conversation,
            model_slug: chars(self.model_slug),
        }
    }
}

impl View for Message {
    type V = MessageView;

    open spec fn view(&self) -> MessageView {
        MessageView {
            id: self.id@,
            author: self.author@,
            create_time: self.create_time,
            update_time: self.update_time,
            content: self.content@,
            status: chars(self.status),
            end_turn: self.end_turn,
            metadata: match self.metadata {
                Some(metadata) => Some(metadata@),
                None => None,
            },
            recipient: chars(self.recipient),
            channel: chars(self.channel),
        }
    }
}

impl View for MappingNode {
    type V = NodeView;

    open spec fn view(&self) -> NodeView {
        NodeView {
            id: self.id@,
            message: match self.message {
                Some(message) => Some(message@),
                None => None,
            },
            parent: chars(self.parent),
            children: self.children@.map_values(|child: String| child@),
        }
    }
}

impl View for Conversation {
    type V = ConversationView;

    open spec fn view(&self) -> ConversationView {
        ConversationView {
            title: self.title@,
            create_time: self.create_time,
            update_time: self.update_time,
            mapping: self.mapping@,
            current_node: chars(self.current_node),
            model_slug: chars(self.model_slug),
            is_archived: self.is_archived,
        }
    }
}

impl View for NodeMap {
    type V = Map<Seq<char>, NodeView>;

    closed spec fn view(&self) -> Map<Seq<char>, NodeView> {
        Map::new(
            |key: Seq<char>| self.keys().contains(key),
            |key: Seq<char>| self.nodes()[self.keys().index_of(key)]@,
        )
    }
}

impl NodeMap {
    /// No key occurs twice. Every map that executable code holds is so.
    #[verifier::type_invariant]
    pub closed spec fn well_formed(self) -> bool {
        forall|i: int, j: int|
            0 <= i < j < self.entries@.len() ==> self.entries@[i].0@ != self.entries@[j].0@
    }

    /// The keys, in the order in which they were first inserted.
    pub closed spec fn keys(&self) -> Seq<Seq<char>> {
        self.entries@.map_values(|entry: (String, MappingNode)| entry.0@)
    }

    /// The nodes, each at the position of its key.
    pub closed spec fn nodes(&self) -> Seq<MappingNode> {
        self.entries@.map_values(|entry: (String, MappingNode)| entry.1)
    }

    /// How the map arises from the keys and the nodes.
    pub proof fn lemma_entries(&self)
        requires
            self.well_formed(),
        ensures
            self.keys().len() == self.nodes().len(),
            self.keys().no_duplicates(),
            self@.dom() == self.keys().to_set(),
            self@.dom().finite(),
            forall|i: int|
                0 <= i < self.keys().len() ==> self@.dom().contains(#[trigger] self.keys()[i])
                    && self@[self.keys()[i]] == self.nodes()[i]@,
    {
        broadcast use vstd::seq_lib::group_seq_properties;

        let keys = self.keys();
        assert(self@.dom() =~= keys.to_set());
        assert forall|i: int| 0 <= i < keys.len() implies self@.dom().contains(
            #[trigger] keys[i],
        ) && self@[keys[i]] == self.nodes()[i]@ by {
            assert(keys.contains(keys[i]));
            let j = keys.index_of(keys[i]);
            assert(keys[j] == keys[i]);
        }
    }

    /// A map without nodes.
    pub fn new() -> (map: NodeMap)
        ensures
            map@ == Map::<Seq<char>, NodeView>::empty(),
    {
        let map = NodeMap { entries: Vec::new() };
        assert(map@ =~= Map::<Seq<char>, NodeView>::empty());
        map
    }

    /// The number of nodes.
    pub fn len(&self) -> (n: usize)
        ensures
            self.well_formed(),
            n == self.keys().len(),
            n == self@.dom().len(),
    {
        proof {
            use_type_invariant(self);
            self.lemma_entries();
            self.keys().unique_seq_to_set();
        }
        self.entries.len()
    }

    /// The key at position `i`.
    pub fn key_at(&self, i: usize) -> (key: &String)
        requires
            i < self.keys().len(),
        ensures
            key@ == self.keys()[i as int],
    {
        &self.entries[i].0
    }

    /// The node at position `i`.
    pub fn node_at(&self, i: usize) -> (node: &MappingNode)
        requires
            i < self.keys().len(),
        ensures
            *node == self.nodes()[i as int],
    {
        &self.entries[i].1
    }

    /// The position of `key`, if the map holds it.
    pub fn position(&self, key: &String) -> (r: Option<usize>)
        ensures
            match r {
                Some(i) => i < self.keys().len() && self.keys()[i as int] == key@,
                None => !self@.dom().contains(key@),
            },
    {
        proof {
            use_type_invariant(self);
            self.lemma_entries();
        }
        let mut i: usize = 0;
        while i < self.entries.len()
            invariant
                i <= self.entries.len(),
                forall|k: int| 0 <= k < i ==> self.keys()[k] != key@,
            decreases self.entries.len() - i,
        {
            if self.entries[i].0 == *key {
                return Some(i);
            }
            i += 1;
        }
        None
    }

    /// The node under `key`, if the map holds it.
    pub fn get(&self, key: &String) -> (r: Option<&MappingNode>)
        ensures
            match r {
                Some(node) => self@.dom().contains(key@) && node@ == self@[key@],
                None => !self@.dom().contains(key@),
            },
    {
        proof {
            use_type_invariant(self);
            self.lemma_entries();
        }
        match self.position(key) {
            Some(i) => Some(self.node_at(i)),
            None => None,
        }
    }

    /// The map with `node` under `key`, in place of the node that was there,
    /// if any.
    pub fn with_node(self, key: String, node: MappingNode) -> (map: NodeMap)
        ensures
            map@ == self@.insert(key@, node@),
    {
        let found = self.position(&key);
        let ghost before = self;
        proof {
            use_type_invariant(&self);
            before.lemma_entries();
        }
        let mut entries = self.entries;
        match found {
            Some(i) => {
                entries.set(i, (key, node));
            },
            None => {
                assert forall|k: int| 0 <= k < entries@.len() implies entries@[k].0@ != key@ by {
                    assert(before.keys()[k] == entries@[k].0@);
                }
                entries.push((key, node));
            },
        }
        assert forall|a: int, b: int| 0 <= a < b < entries@.len() implies entries@[a].0@
            != entries@[b].0@ by {
            if a < before.keys().len() {
                assert(before.keys()[a] == entries@[a].0@);
            }
            if b < before.keys().len() {
                assert(before.keys()[b] == entries@[b].0@);
            }
        }
        let map = NodeMap { entries };
        proof {
            map.lemma_entries();
            assert forall|k: Seq<char>| map@.dom().contains(k) == before@.insert(
                key@,
                node@,
            ).dom().contains(k) by {
                if map@.dom().contains(k) {
                    let p = map.keys().index_of(k);
                    if p < before.keys().len() && k != key@ {
                        assert(before.keys()[p] == k);
                    }
                }
                if before@.dom().contains(k) {
                    let p = before.keys().index_of(k);
                    assert(map.keys()[p] == k);
                }
                if k == key@ {
                    match found {
                        Some(i) => {
                            assert(map.keys()[i as int] == k);
                        },
                        None => {
                            assert(map.keys()[before.keys().len() as int] == k);
                        },
                    }
                }
            }
            assert forall|k: Seq<char>| map@.dom().contains(k) implies map@[k] == before@.insert(
                key@,
                node@,
            )[k] by {
                let p = map.keys().index_of(k);
                assert(map@[map.keys()[p]] == map.nodes()[p]@);
                if k != key@ {
                    assert(before.keys()[p] == k);
                    assert(before@[before.keys()[p]] == before.nodes()[p]@);
                } else {
                    match found {
                        Some(i) => {
                            assert(map.keys()[i as int] == k);
                        },
                        None => {
                            assert(map.keys()[before.keys().len() as int] == k);
                        },
                    }
                }
            }
            assert(map@ =~= before@.insert(key@, node@));
        }
        map
    }
}

} // verus!
