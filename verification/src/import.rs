//! From conversations and their archive to the records to be stored, in the
//! order in which they are to be written.

use crate::archive::{asset_id, extract_asset_id, extract_file_from_zip, resolution,
    ArchiveError, FileView};
use crate::content::{asset_views, attachments, attributed_model, copy_text,
    extract_content_and_assets, extract_model_slug, last_text};
use crate::identity::{conversation_id, find_conversation_id};
use crate::models::{chars, AssetPointer, AssetView, Conversation, ConversationView};
use crate::tree::{extract_messages_from_mapping, linearization, views, Linearized,
    LinearizedMessage};
use vstd::prelude::*;

verus! {

/// A conversation as it is stored, under its id.
#[derive(Debug, Clone, PartialEq, Eq)]
pub struct ConversationRow {
    pub id: String,
    pub title: String,
    pub create_time: i64,
    pub update_time: i64,
    pub model_slug: Option<String>,
    pub is_archived: bool,
}

/// A message as it is stored, under its id.
#[derive(Debug, Clone, PartialEq, Eq)]
pub struct MessageRow {
    pub id: String,
    pub conversation_id: String,
    pub parent_id: Option<String>,
    pub author_role: String,
    pub content_type: String,
    pub text_content: Option<String>,
    pub create_time: Option<i64>,
    pub model_slug: Option<String>,
    pub message_order: usize,
    pub has_assets: bool,
}

/// An attachment as it is stored, under its id.
#[derive(Debug, Clone, PartialEq, Eq)]
pub struct AssetRow {
    pub id: String,
    pub message_id: String,
    pub asset_pointer: String,
    pub content_type: String,
    pub size_bytes: Option<i64>,
    pub width: Option<i32>,
    pub height: Option<i32>,
    pub metadata: Option<String>,
    pub asset_order: usize,
    pub file_content: Vec<u8>,
    pub file_name: String,
    pub mime_type: String,
}

/// One record to be written, in place of the record of the same table that
/// has the same id.
#[derive(Debug, Clone, PartialEq, Eq)]
pub enum Upsert {
    Conversation(ConversationRow),
    Message(MessageRow),
    Asset(AssetRow),
}

/// What an import writes: the records in their order, the attachment
/// pointers for which the archive holds no file, and, where the archive
/// failed, the failure at which the records end.
#[derive(Debug, Clone, PartialEq, Eq)]
pub struct ImportPlan {
    pub steps: Vec<Upsert>,
    pub warnings: Vec<String>,
    pub failure: Option<ArchiveError>,
}

/// The record of a conversation, as a value.
pub struct ConversationRowView {
    pub id: Seq<char>,
    pub title: Seq<char>,
    pub create_time: i64,
    pub update_time: i64,
    pub model_slug: Option<Seq<char>>,
    pub is_archived: bool,
}

/// The record of a message, as a value.
pub struct MessageRowView {
    pub id: Seq<char>,
    pub conversation_id: Seq<char>,
    pub parent_id: Option<Seq<char>>,
    pub author_role: Seq<char>,
    pub content_type: Seq<char>,
    pub text_content: Option<Seq<char>>,
    pub create_time: Option<i64>,
    pub model_slug: Option<Seq<char>>,
    pub message_order: nat,
    pub has_assets: bool,
}

/// The record of an attachment, as a value.
pub struct AssetRowView {
    pub id: Seq<char>,
    pub message_id: Seq<char>,
    pub asset_pointer: Seq<char>,
    pub content_type: Seq<char>,
    pub size_bytes: Option<i64>,
    pub width: Option<i32>,
    pub height: Option<i32>,
    pub metadata: Option<Seq<char>>,
    pub asset_order: nat,
    pub file_content: Seq<u8>,
    pub file_name: Seq<char>,
    pub mime_type: Seq<char>,
}

/// One record to be written, as a value.
pub enum UpsertView {
    Conversation(ConversationRowView),
    Message(MessageRowView),
    Asset(AssetRowView),
}

/// What an import writes, as a value.
pub struct PlanView {
    pub steps: Seq<UpsertView>,
    pub warnings: Seq<Seq<char>>,
    pub failure: Option<ArchiveError>,
}

impl View for ConversationRow {
    type V = ConversationRowView;

    open spec fn view(&self) -> ConversationRowView {
        ConversationRowView {
            id: self.id@,
            title: self.title@,
            create_time: self.create_time,
            update_time: self.update_time,
            model_slug: chars(self.model_slug),
            is_archived: self.is_archived,
        }
    }
}

impl View for MessageRow {
    type V = MessageRowView;

    open spec fn view(&self) -> MessageRowView {
        MessageRowView {
            id: self.id@,
            conversation_id: self.conversation_id@,
            parent_id: chars(self.parent_id),
            author_role: self.author_role@,
            content_type: self.content_type@,
            text_content: chars(self.text_content),
            create_time: self.create_time,
            model_slug: chars(self.model_slug),
            message_order: self.message_order as nat,
            has_assets: self.has_assets,
        }
    }
}

impl View for AssetRow {
    type V = AssetRowView;

    open spec fn view(&self) -> AssetRowView {
        AssetRowView {
            id: self.id@,
            message_id: self.message_id@,
            asset_pointer: self.asset_pointer@,
            content_type: self.content_type@,
            size_bytes: self.size_bytes,
            width: self.width,
            height: self.height,
            metadata: chars(self.metadata),
            asset_order: self.asset_order as nat,
            file_content: self.file_content@,
            file_name: self.file_name@,
            mime_type: self.mime_type@,
        }
    }
}

impl View for Upsert {
    type V = UpsertView;

    open spec fn view(&self) -> UpsertView {
        match self {
            Upsert::Conversation(row) => UpsertView::Conversation(row@),
            Upsert::Message(row) => UpsertView::Message(row@),
            Upsert::Asset(row) => UpsertView::Asset(row@),
        }
    }
}

impl View for ImportPlan {
    type V = PlanView;

    open spec fn view(&self) -> PlanView {
        PlanView {
            steps: self.steps@.map_values(|step: Upsert| step@),
            warnings: self.warnings@.map_values(|warning: String| warning@),
            failure: self.failure,
        }
    }
}

/// The plan that writes nothing.
pub open spec fn nothing() -> PlanView {
    PlanView { steps: Seq::empty(), warnings: Seq::empty(), failure: None }
}

/// The plan that writes one record.
pub open spec fn one(step: UpsertView) -> PlanView {
    PlanView { steps: seq![step], warnings: Seq::empty(), failure: None }
}

/// The plan that ends at once with a failure.
pub open spec fn failed(error: ArchiveError) -> PlanView {
    PlanView { steps: Seq::empty(), warnings: Seq::empty(), failure: Some(error) }
}

/// `first`, and after it `second` unless `first` ended with a failure.
pub open spec fn then(first: PlanView, second: PlanView) -> PlanView {
    if first.failure is Some {
        first
    } else {
        PlanView {
            steps: first.steps + second.steps,
            warnings: first.warnings + second.warnings,
            failure: second.failure,
        }
    }
}

/// The record of a conversation.
pub open spec fn conversation_row(conversation: ConversationView) -> ConversationRowView {
    ConversationRowView {
        id: conversation_id(conversation),
        title: conversation.title,
        create_time: conversation.create_time.seconds,
        update_time: conversation.update_time.seconds,
        model_slug: conversation.model_slug,
        is_archived: conversation.is_archived == Some(true),
    }
}

/// The record of a message of the conversation's linearization.
pub open spec fn message_row(conversation: ConversationView, message: Linearized) -> MessageRowView {
    MessageRowView {
        id: message.id,
        conversation_id: conversation_id(conversation),
        parent_id: message.parent_id,
        author_role: message.message.author.role,
        content_type: message.message.content.content_type,
        text_content: last_text(message.message.content.parts),
        create_time: match message.message.create_time {
            Some(time) => Some(time.seconds),
            None => None,
        },
        model_slug: attributed_model(message.message, conversation.model_slug),
        message_order: message.order,
        has_assets: attachments(message.message.content.parts).len() > 0,
    }
}

/// The record of the attachment that stands at `order` among those of the
/// message `message_id`, with the file that its pointer resolved to.
pub open spec fn asset_row(
    message_id: Seq<char>,
    asset: AssetView,
    order: nat,
    file: FileView,
) -> AssetRowView {
    AssetRowView {
        id: asset_id(asset.asset_pointer),
        message_id,
        asset_pointer: asset.asset_pointer,
        content_type: asset.content_type,
        size_bytes: asset.size_bytes,
        width: asset.width,
        height: asset.height,
        metadata: asset.metadata,
        asset_order: order,
        file_content: file.content,
        file_name: file.file_name,
        mime_type: file.mime_type,
    }
}

/// What one attachment contributes: its record, with a warning where the
/// archive holds no file for it; or the failure of the archive.
pub open spec fn asset_plan(bytes: Seq<u8>, message_id: Seq<char>, asset: AssetView, order: nat) -> PlanView {
    match resolution(bytes, asset.asset_pointer) {
        Ok(file) => PlanView {
            steps: seq![UpsertView::Asset(asset_row(message_id, asset, order, file))],
            warnings: if file.matched {
                Seq::empty()
            } else {
                seq![asset.asset_pointer]
            },
            failure: None,
        },
        Err(error) => failed(error),
    }
}

/// What the attachments from `from` on contribute, in their order.
pub open spec fn assets_plan(
    bytes: Seq<u8>,
    message_id: Seq<char>,
    assets: Seq<AssetView>,
    from: nat,
) -> PlanView
    decreases assets.len() - from,
{
    if from >= assets.len() {
        nothing()
    } else {
        then(
            asset_plan(bytes, message_id, assets[from as int], from),
            assets_plan(bytes, message_id, assets, from + 1),
        )
    }
}

/// What one message contributes: its record, then its attachments.
pub open spec fn message_plan(bytes: Seq<u8>, conversation: ConversationView, message: Linearized) -> PlanView {
    then(
        one(UpsertView::Message(message_row(conversation, message))),
        assets_plan(bytes, message.id, attachments(message.message.content.parts), 0),
    )
}

/// What the messages from `from` on contribute, in their order.
pub open spec fn messages_plan(
    bytes: Seq<u8>,
    conversation: ConversationView,
    messages: Seq<Linearized>,
    from: nat,
) -> PlanView
    decreases messages.len() - from,
{
    if from >= messages.len() {
        nothing()
    } else {
        then(
            message_plan(bytes, conversation, messages[from as int]),
            messages_plan(bytes, conversation, messages, from + 1),
        )
    }
}

/// What one conversation contributes: its record, then the messages of its
/// linearization.
pub open spec fn conversation_plan(bytes: Seq<u8>, conversation: ConversationView) -> PlanView {
    then(
        one(UpsertView::Conversation(conversation_row(conversation))),
        messages_plan(bytes, conversation, linearization(conversation.mapping), 0),
    )
}

/// What the conversations from `from` on contribute, in their order.
pub open spec fn conversations_plan(
    bytes: Seq<u8>,
    conversations: Seq<ConversationView>,
    from: nat,
) -> PlanView
    decreases conversations.len() - from,
{
    if from >= conversations.len() {
        nothing()
    } else {
        then(
            conversation_plan(bytes, conversations[from as int]),
            conversations_plan(bytes, conversations, from + 1),
        )
    }
}

/// The plan of an import: every conversation in turn, each with its messages
/// in the order of its linearization, each message with its attachments in
/// the order of its parts. It ends at the first attachment on which the
/// archive fails.
pub open spec fn import_plan(conversations: Seq<ConversationView>, bytes: Seq<u8>) -> PlanView {
    conversations_plan(bytes, conversations, 0)
}

/// The values of a list of conversations.
pub open spec fn conversation_views(conversations: Seq<Conversation>) -> Seq<ConversationView> {
    conversations.map_values(|conversation: Conversation| conversation@)
}

/// The plan of an import is the plan of its first conversation and, after
/// it, the plan of the import of the others: conversations can be imported
/// one after another.
pub proof fn lemma_import_one_by_one(conversations: Seq<ConversationView>, bytes: Seq<u8>)
    requires
        conversations.len() > 0,
    ensures
        import_plan(conversations, bytes) == then(
            conversation_plan(bytes, conversations[0]),
            import_plan(conversations.drop_first(), bytes),
        ),
        import_plan(seq![conversations[0]], bytes) == conversation_plan(bytes, conversations[0]),
{
    lemma_plan_shifts(conversations, bytes, 1);
    let one = seq![conversations[0]];
    assert(conversations_plan(bytes, one, 1) == nothing());
    lemma_then_nothing(conversation_plan(bytes, conversations[0]));
}

proof fn lemma_plan_shifts(conversations: Seq<ConversationView>, bytes: Seq<u8>, from: nat)
    requires
        1 <= from <= conversations.len(),
    ensures
        conversations_plan(bytes, conversations, from) == conversations_plan(
            bytes,
            conversations.drop_first(),
            (from - 1) as nat,
        ),
    decreases conversations.len() - from,
{
    if from < conversations.len() {
        lemma_plan_shifts(conversations, bytes, from + 1);
        assert(conversations.drop_first()[from - 1] == conversations[from as int]);
    }
}

proof fn lemma_then_assoc(a: PlanView, b: PlanView, c: PlanView)
    ensures
        then(then(a, b), c) == then(a, then(b, c)),
{
    if a.failure is None && b.failure is None {
        assert((a.steps + b.steps) + c.steps =~= a.steps + (b.steps + c.steps));
        assert((a.warnings + b.warnings) + c.warnings =~= a.warnings + (b.warnings + c.warnings));
    }
}

proof fn lemma_then_nothing(a: PlanView)
    ensures
        then(a, nothing()) == a,
        then(nothing(), a) == a,
{
    assert(a.steps + Seq::<UpsertView>::empty() =~= a.steps);
    assert(a.warnings + Seq::<Seq<char>>::empty() =~= a.warnings);
    assert(Seq::<UpsertView>::empty() + a.steps =~= a.steps);
    assert(Seq::<Seq<char>>::empty() + a.warnings =~= a.warnings);
}

/// Appends to `plan` what the attachments of a message contribute.
fn plan_assets(archive: &[u8], message_id: &String, assets: &Vec<AssetPointer>, plan: &mut ImportPlan)
    requires
        old(plan).failure is None,
    ensures
        final(plan)@ == then(
            old(plan)@,
            assets_plan(archive@, message_id@, asset_views(assets@), 0),
        ),
{
    let ghost start = plan@;
    let ghost list = asset_views(assets@);
    let mut i: usize = 0;
    proof {
        lemma_then_nothing(start);
    }
    let ghost mut done = nothing();
    while i < assets.len()
        invariant
            i <= assets.len(),
            list == asset_views(assets@),
            start == old(plan)@,
            plan.failure is None,
            done.failure is None,
            plan@ == then(start, done),
            assets_plan(archive@, message_id@, list, 0) == then(
                done,
                assets_plan(archive@, message_id@, list, i as nat),
            ),
        decreases assets.len() - i,
    {
        let asset = &assets[i];
        let ghost this = asset_plan(archive@, message_id@, asset@, i as nat);
        let ghost rest = assets_plan(archive@, message_id@, list, (i + 1) as nat);
        assert(list[i as int] == asset@);
        proof {
            lemma_then_assoc(done, this, rest);
            lemma_then_assoc(start, done, this);
        }
        match extract_file_from_zip(archive, asset.asset_pointer.as_str()) {
            Ok(file) => {
                if !file.matched {
                    plan.warnings.push(asset.asset_pointer.clone());
                }
                let row = AssetRow {
                    id: extract_asset_id(asset.asset_pointer.as_str()),
                    message_id: message_id.clone(),
                    asset_pointer: asset.asset_pointer.clone(),
                    content_type: asset.content_type.clone(),
                    size_bytes: asset.size_bytes,
                    width: asset.width,
                    height: asset.height,
                    metadata: copy_text(&asset.metadata),
                    asset_order: i,
                    file_content: file.content,
                    file_name: file.file_name,
                    mime_type: file.mime_type,
                };
                plan.steps.push(Upsert::Asset(row));
                proof {
                    assert(plan@.steps =~= then(start, done).steps + this.steps);
                    assert(plan@.warnings =~= then(start, done).warnings + this.warnings);
                    done = then(done, this);
                }
            },
            Err(error) => {
                plan.failure = Some(error);
                proof {
                    assert(plan@.steps =~= then(start, done).steps + this.steps);
                    assert(plan@.warnings =~= then(start, done).warnings + this.warnings);
                    assert(then(this, rest) == this);
                }
                return ;
            },
        }
        i += 1;
    }
    proof {
        lemma_then_nothing(done);
    }
}

/// Appends to `plan` what the messages of a conversation contribute.
fn plan_messages(
    archive: &[u8],
    conv: &Conversation,
    conv_id: &String,
    messages: &Vec<LinearizedMessage>,
    plan: &mut ImportPlan,
)
    requires
        old(plan).failure is None,
        conv_id@ == conversation_id(conv@),
    ensures
        final(plan)@ == then(old(plan)@, messages_plan(archive@, conv@, views(messages@), 0)),
{
    let ghost start = plan@;
    let ghost list = views(messages@);
    let mut i: usize = 0;
    proof {
        lemma_then_nothing(start);
    }
    let ghost mut done = nothing();
    while i < messages.len()
        invariant
            i <= messages.len(),
            list == views(messages@),
            conv_id@ == conversation_id(conv@),
            start == old(plan)@,
            plan.failure is None,
            done.failure is None,
            plan@ == then(start, done),
            messages_plan(archive@, conv@, list, 0) == then(
                done,
                messages_plan(archive@, conv@, list, i as nat),
            ),
        decreases messages.len() - i,
    {
        let message = &messages[i];
        let ghost value = list[i as int];
        let ghost row_plan = one(UpsertView::Message(message_row(conv@, value)));
        let ghost this = message_plan(archive@, conv@, value);
        let ghost rest = messages_plan(archive@, conv@, list, (i + 1) as nat);
        let (text_content, assets) = extract_content_and_assets(&message.message.content);
        let row = MessageRow {
            id: message.id.clone(),
            conversation_id: conv_id.clone(),
            parent_id: copy_text(&message.parent_id),
            author_role: message.message.author.role.clone(),
            content_type: message.message.content.content_type.clone(),
            text_content,
            create_time: match message.message.create_time {
                Some(time) => Some(time.seconds),
                None => None,
            },
            model_slug: extract_model_slug(message.message, conv),
            message_order: message.order,
            has_assets: assets.len() > 0,
        };
        assert(value == message@);
        assert(row@ == message_row(conv@, value));
        plan.steps.push(Upsert::Message(row));
        proof {
            assert(plan@.steps =~= then(start, done).steps + row_plan.steps);
            assert(plan@.warnings =~= then(start, done).warnings + row_plan.warnings);
            assert(plan@ == then(then(start, done), row_plan));
        }
        plan_assets(archive, &message.id, &assets, plan);
        proof {
            let found = assets_plan(archive@, value.id, asset_views(assets@), 0);
            assert(this == then(row_plan, found));
            lemma_then_assoc(then(start, done), row_plan, found);
            lemma_then_assoc(start, done, this);
            lemma_then_assoc(done, this, rest);
            done = then(done, this);
        }
        if plan.failure.is_some() {
            proof {
                assert(then(done, rest) == done);
            }
            return ;
        }
        i += 1;
    }
    proof {
        lemma_then_nothing(done);
    }
}

/// Plans the import of conversations whose attachments lie in `archive`:
/// the records to be written, in their order.
pub fn import_conversations(conversations: &[Conversation], archive: &[u8]) -> (plan: ImportPlan)
    ensures
        plan@ == import_plan(conversation_views(conversations@), archive@),
{
    let mut plan = ImportPlan { steps: Vec::new(), warnings: Vec::new(), failure: None };
    let ghost list = conversation_views(conversations@);
    let ghost mut done = nothing();
    let mut i: usize = 0;
    proof {
        assert(plan@.steps =~= done.steps);
        assert(plan@.warnings =~= done.warnings);
        lemma_then_nothing(import_plan(list, archive@));
    }
    while i < conversations.len()
        invariant
            i <= conversations.len(),
            list == conversation_views(conversations@),
            plan.failure is None,
            done.failure is None,
            plan@ == done,
            import_plan(list, archive@) == then(
                done,
                conversations_plan(archive@, list, i as nat),
            ),
        decreases conversations.len() - i,
    {
        let conv = &conversations[i];
        let ghost row_plan = one(UpsertView::Conversation(conversation_row(conv@)));
        let ghost this = conversation_plan(archive@, conv@);
        let ghost rest = conversations_plan(archive@, list, (i + 1) as nat);
        assert(list[i as int] == conv@);
        let conv_id = find_conversation_id(conv);
        let row = ConversationRow {
            id: conv_id.clone(),
            title: conv.title.clone(),
            create_time: conv.create_time.seconds,
            update_time: conv.update_time.seconds,
            model_slug: copy_text(&conv.model_slug),
            is_archived: match conv.is_archived {
                Some(flag) => flag,
                None => false,
            },
        };
        assert(row@ == conversation_row(conv@));
        plan.steps.push(Upsert::Conversation(row));
        proof {
            assert(plan@.steps =~= done.steps + row_plan.steps);
            assert(plan@.warnings =~= done.warnings + row_plan.warnings);
            assert(plan@ == then(done, row_plan));
        }
        let messages = extract_messages_from_mapping(&conv.mapping);
        plan_messages(archive, conv, &conv_id, &messages, &mut plan);
        proof {
            let found = messages_plan(archive@, conv@, linearization(conv.mapping@), 0);
            assert(this == then(row_plan, found));
            lemma_then_assoc(done, row_plan, found);
            lemma_then_assoc(done, this, rest);
            done = then(done, this);
        }
        if plan.failure.is_some() {
            proof {
                assert(then(done, rest) == done);
            }
            return plan;
        }
        i += 1;
    }
    proof {
        lemma_then_nothing(done);
    }
    plan
}

} // verus!
