//! What becomes of the parts of a reply that could not be sent.

use crate::chat_adapter::delivery;
use crate::chat_adapter::delivery::{
    PROCESSING_ACK_MIN_INPUT_CHARS, ReplyDelivery, should_send_processing_ack,
};
use crate::rows;
use crate::task_store::chunk_queue;
use crate::task_store::store::{Stamp, StoreData, TaskStore};
use crate::task_store::tasks;
use crate::task_store::tasks::{FilterData, TaskOrder};
use crate::task_store::types::ChunkData;
use crate::text;
use crate::text::{blank, owned};
use vstd::prelude::*;

verus! {

/// How the delivery of a reply ended.
#[derive(Debug, Clone, Copy, PartialEq, Eq, Structural)]
pub enum DeliveryOutcome {
    /// All parts were sent.
    Sent,
    /// The parts that were not sent are stored for later.
    Stored,
    /// They could not be stored.
    Lost,
}

/// Stores the parts of a reply that were not sent. They take ids from `first_id` on.
pub fn finish_delivery(
    store: &mut TaskStore,
    delivery: &ReplyDelivery,
    user_id: &str,
    context_token: &str,
    first_id: i64,
    now: &str,
) -> (r: DeliveryOutcome)
    requires
        delivery.wf(),
    ensures
        ({
            let left = delivery::remaining(text::texts(delivery.chunks@), delivery.sent as int);
            if !delivery.failed {
                r == DeliveryOutcome::Sent && final(store)@ == old(store)@
            } else if first_id + left.len() > i64::MAX {
                r == DeliveryOutcome::Lost && final(store)@ == old(store)@
            } else {
                r == DeliveryOutcome::Stored && final(store)@ == (StoreData {
                    pending_chunks: old(store)@.pending_chunks + stored_parts(
                        left,
                        first_id as int,
                        user_id@,
                        context_token@,
                        now@,
                    ),
                    ..old(store)@
                })
            }
        }),
{
    if !delivery.failed {
        return DeliveryOutcome::Sent;
    }
    let left = delivery.unsent();
    proof {
        assert(delivery::part_data(left@).len() == left@.len());
        let parts = delivery::remaining(text::texts(delivery.chunks@), delivery.sent as int);
        assert(chunk_queue::chunk_rows(first_id as int, user_id@, context_token@, left@, now@) =~= stored_parts(
            parts,
            first_id as int,
            user_id@,
            context_token@,
            now@,
        )) by {
            assert forall|i: int| 0 <= i < left@.len() implies #[trigger] chunk_queue::chunk_rows(
                first_id as int,
                user_id@,
                context_token@,
                left@,
                now@,
            )[i] == stored_parts(parts, first_id as int, user_id@, context_token@, now@)[i] by {
                assert(delivery::part_data(left@)[i] == parts[i]);
            }
        }
    }
    match store.insert_pending_chunks(user_id, context_token, &left, first_id, now) {
        Ok(_) => DeliveryOutcome::Stored,
        Err(_) => DeliveryOutcome::Lost,
    }
}

/// The rows of parts that are kept for later.
pub open spec fn stored_parts(
    parts: Seq<(int, int, Seq<char>)>,
    first_id: int,
    user_id: Seq<char>,
    context_token: Seq<char>,
    now: Seq<char>,
) -> Seq<ChunkData> {
    Seq::new(
        parts.len(),
        |i: int|
            ChunkData {
                id: first_id + i,
                user_id,
                context_token,
                chunk_text: parts[i].2,
                chunk_index: parts[i].0,
                chunk_total: parts[i].1,
                created_at: now,
            },
    )
}

/// Whether a scheduled report needs no other try in its period: it was sent whole, or the
/// parts that were not sent are stored. Without a token nothing was sent, and it is tried
/// again.
pub fn push_finished(outcome: Option<DeliveryOutcome>) -> (r: bool)
    ensures
        r == (outcome == Some(DeliveryOutcome::Sent) || outcome == Some(DeliveryOutcome::Stored)),
{
    match outcome {
        Some(DeliveryOutcome::Sent) => true,
        Some(DeliveryOutcome::Stored) => true,
        Some(DeliveryOutcome::Lost) => false,
        None => false,
    }
}

/// Takes note of how sending a stored part again went: a part that was sent is deleted.
pub fn settle_resent(store: &mut TaskStore, id: i64, sent: bool)
    ensures
        final(store)@ == (if sent {
            StoreData {
                pending_chunks: rows::without(old(store)@.pending_chunks, chunk_queue::chunk_with_id(id as int)),
                ..old(store)@
            }
        } else {
            old(store)@
        }),
{
    if sent {
        let _ = store.delete_pending_chunk(id);
    }
}

/// What is done first with the text of a flushed session.
#[derive(Debug, Clone, Copy, PartialEq, Eq, Structural)]
pub enum ReplyPlan {
    /// A blank text is not answered.
    Skip,
    /// The agent answers.
    Answer,
    /// A note that the text is being processed is sent first.
    NoteThenAnswer,
}

pub fn plan_reply(merged_text: &str) -> (r: ReplyPlan)
    ensures
        r == (if text::is_blank(merged_text@) {
            ReplyPlan::Skip
        } else if text::trim(merged_text@).len() >= PROCESSING_ACK_MIN_INPUT_CHARS {
            ReplyPlan::NoteThenAnswer
        } else {
            ReplyPlan::Answer
        }),
{
    if blank(merged_text) {
        ReplyPlan::Skip
    } else if should_send_processing_ack(merged_text) {
        ReplyPlan::NoteThenAnswer
    } else {
        ReplyPlan::Answer
    }
}

/// The note that a text is being processed.
pub fn processing_note() -> (r: &'static str)
    ensures
        r@ == "收到，处理中，稍后给你完整回复。"@,
{
    "收到，处理中，稍后给你完整回复。"
}

/// The tasks that the executor may take up now, at most five.
pub fn tasks_to_enqueue(store: &TaskStore, now: &Stamp) -> (r: Vec<String>)
    ensures
        ({
            let rows = tasks::listing(
                store@,
                FilterData::Claimable(now@),
                TaskOrder::OldestFirst,
                5,
            );
            text::texts(r@) == Seq::new(rows.len(), |i: int| rows[i].0.id)
        }),
{
    let mut out: Vec<String> = Vec::new();
    let ghost rows = tasks::listing(store@, FilterData::Claimable(now@), TaskOrder::OldestFirst, 5);
    let ghost want = Seq::new(rows.len(), |i: int| rows[i].0.id);
    match store.list_claimable_tasks(5, now) {
        Ok(tasks) => {
            let mut i: usize = 0;
            while i < tasks.len()
                invariant
                    i <= tasks@.len(),
                    out@.len() == i,
                    tasks::claimable_list(tasks@, rows),
                    forall|k: int| 0 <= k < i ==> (#[trigger] out@[k])@ == rows[k].0.id,
                decreases tasks.len() - i,
            {
                proof {
                    assert(tasks::claimable_record(tasks@[i as int], rows[i as int].0, rows[i as int].1));
                }
                out.push(owned(tasks[i].task_id.as_str()));
                i = i + 1;
            }
            proof {
                assert(text::texts(out@) =~= want);
            }
        },
        Err(_) => {},
    }
    out
}

/// The parts that could not be sent are kept one by one and in order, each with its text, its
/// place and whom it is for.
pub proof fn lemma_parts_are_kept(
    parts: Seq<(int, int, Seq<char>)>,
    first_id: int,
    user_id: Seq<char>,
    context_token: Seq<char>,
    now: Seq<char>,
    i: int,
    j: int,
)
    requires
        0 <= i < j < parts.len(),
    ensures
        ({
            let rows = stored_parts(parts, first_id, user_id, context_token, now);
            &&& rows.len() == parts.len()
            &&& rows[i].chunk_index == parts[i].0 && rows[i].chunk_total == parts[i].1
            &&& rows[i].chunk_text == parts[i].2 && rows[j].chunk_text == parts[j].2
            &&& rows[j].id - rows[i].id == j - i
            &&& rows[i].user_id == user_id && rows[i].context_token == context_token
            &&& rows[i].created_at == now
        }),
{
}

} // verus!
