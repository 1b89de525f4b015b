//! A model of the store that the records are written to: three tables, each
//! holding one record under each id.

use crate::import::{import_plan, AssetRowView, ConversationRowView, MessageRowView, UpsertView};
use crate::models::ConversationView;
use vstd::prelude::*;

verus! {

/// The tables of a store, each by the ids of its records.
pub struct Store {
    pub conversations: Map<Seq<char>, ConversationRowView>,
    pub messages: Map<Seq<char>, MessageRowView>,
    pub assets: Map<Seq<char>, AssetRowView>,
}

/// The store after `step` was written: the record stands in its table under
/// its id, in place of the record that stood there.
pub open spec fn write(store: Store, step: UpsertView) -> Store {
    match step {
        UpsertView::Conversation(row) => Store {
            conversations: store.conversations.insert(row.id, row),
            ..store
        },
        UpsertView::Message(row) => Store { messages: store.messages.insert(row.id, row), ..store },
        UpsertView::Asset(row) => Store { assets: store.assets.insert(row.id, row), ..store },
    }
}

/// The store after `steps` were written in their order.
pub open spec fn write_all(store: Store, steps: Seq<UpsertView>) -> Store
    decreases steps.len(),
{
    if steps.len() == 0 {
        store
    } else {
        write(write_all(store, steps.drop_last()), steps.last())
    }
}

/// The store without records.
pub open spec fn empty_store() -> Store {
    Store { conversations: Map::empty(), messages: Map::empty(), assets: Map::empty() }
}

/// The records of `over` on top of those of `under`.
pub open spec fn overlay(under: Store, over: Store) -> Store {
    Store {
        conversations: under.conversations.union_prefer_right(over.conversations),
        messages: under.messages.union_prefer_right(over.messages),
        assets: under.assets.union_prefer_right(over.assets),
    }
}

proof fn lemma_store_equal(a: Store, b: Store)
    requires
        a.conversations =~= b.conversations,
        a.messages =~= b.messages,
        a.assets =~= b.assets,
    ensures
        a == b,
{
}

proof fn lemma_write_all_overlays(store: Store, steps: Seq<UpsertView>)
    ensures
        write_all(store, steps) == overlay(store, write_all(empty_store(), steps)),
    decreases steps.len(),
{
    if steps.len() == 0 {
        lemma_store_equal(store, overlay(store, empty_store()));
    } else {
        lemma_write_all_overlays(store, steps.drop_last());
        let alone = write_all(empty_store(), steps.drop_last());
        lemma_store_equal(
            write(overlay(store, alone), steps.last()),
            overlay(store, write(alone, steps.last())),
        );
    }
}

/// Writing the same records a second time changes nothing.
pub proof fn lemma_second_write_changes_nothing(store: Store, steps: Seq<UpsertView>)
    ensures
        write_all(write_all(store, steps), steps) == write_all(store, steps),
{
    let alone = write_all(empty_store(), steps);
    lemma_write_all_overlays(store, steps);
    lemma_write_all_overlays(overlay(store, alone), steps);
    lemma_store_equal(overlay(overlay(store, alone), alone), overlay(store, alone));
}

/// An import that is run a second time on the same conversations and the
/// same archive leaves the store as the first run left it: every table holds
/// the same records, and so as many.
pub proof fn lemma_second_import_changes_nothing(
    store: Store,
    conversations: Seq<ConversationView>,
    bytes: Seq<u8>,
)
    ensures
        ({
            let steps = import_plan(conversations, bytes).steps;
            let once = write_all(store, steps);
            let twice = write_all(once, steps);
            &&& twice == once
            &&& twice.conversations.dom().len() == once.conversations.dom().len()
            &&& twice.messages.dom().len() == once.messages.dom().len()
            &&& twice.assets.dom().len() == once.assets.dom().len()
        }),
{
    lemma_second_write_changes_nothing(store, import_plan(conversations, bytes).steps);
}

} // verus!
