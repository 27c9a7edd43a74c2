//! Message parts that could not be sent yet.

use crate::ordering;
use crate::ordering::{KeyPart, Part, sort_rows};
use crate::rows;
use crate::task_store::store;
use crate::task_store::store::{StoreData, TaskStore};
use crate::task_store::types::{ChunkData, PendingChunkRecord, TaskStoreError};
use crate::text;
use crate::text::owned;
use vstd::prelude::*;

verus! {

/// A part to store: its index, how many parts there are, and its text.
pub open spec fn chunk_row(
    id: int,
    user_id: Seq<char>,
    context_token: Seq<char>,
    part: (usize, usize, String),
    now: Seq<char>,
) -> ChunkData {
    ChunkData {
        id,
        user_id,
        context_token,
        chunk_text: part.2@,
        chunk_index: part.0 as int,
        chunk_total: part.1 as int,
        created_at: now,
    }
}

/// The rows of the parts, with ids that count up from `first_id`.
pub open spec fn chunk_rows(
    first_id: int,
    user_id: Seq<char>,
    context_token: Seq<char>,
    parts: Seq<(usize, usize, String)>,
    now: Seq<char>,
) -> Seq<ChunkData> {
    Seq::new(
        parts.len(),
        |i: int| chunk_row(first_id + i, user_id, context_token, parts[i], now),
    )
}

pub open spec fn chunk_with_id(id: int) -> spec_fn(ChunkData) -> bool {
    |c: ChunkData| c.id == id
}

pub open spec fn chunk_keys(rows: Seq<ChunkData>) -> Seq<Seq<Part>> {
    Seq::new(rows.len(), |i: int| seq![Part::Text(rows[i].created_at)])
}

/// The oldest parts, at most `limit` of them.
pub open spec fn oldest_chunks(rows: Seq<ChunkData>, limit: int) -> Seq<ChunkData> {
    let order = ordering::sort_order(chunk_keys(rows));
    Seq::new(
        if limit < rows.len() {
            limit as nat
        } else {
            rows.len()
        },
        |i: int| rows[order[i]],
    )
}

/// Parts that were stored together are listed in the order of their indices: equal
/// times keep the order of the table.
pub proof fn lemma_chunks_in_order(rows: Seq<ChunkData>, i: int, j: int)
    requires
        0 <= i < j < rows.len(),
        forall|k: int| 0 <= k < rows.len() ==> (#[trigger] rows[k]).created_at == rows[0].created_at,
    ensures
        oldest_chunks(rows, rows.len() as int)[i] == rows[ordering::sort_order(chunk_keys(rows))[i]],
        ordering::sort_order(chunk_keys(rows))[i] < ordering::sort_order(chunk_keys(rows))[j],
{
    let keys = chunk_keys(rows);
    assert forall|a: int, b: int| 0 <= a < keys.len() && 0 <= b < keys.len() implies ordering::same_shape(
        #[trigger] keys[a],
        #[trigger] keys[b],
    ) by {}
    ordering::lemma_sort_order(keys);
    let order = ordering::sort_order(keys);
    assert(ordering::in_order(keys, order[i], order[j]));
    assert(rows[order[i]].created_at == rows[order[j]].created_at);
    assert(keys[order[i]] =~= keys[order[j]]);
    ordering::lemma_key_order(keys[order[i]], keys[order[j]], keys[order[i]]);
}

fn kept_chunks(rows: &Vec<PendingChunkRecord>, id: i64) -> (r: Vec<PendingChunkRecord>)
    ensures
        store::chunk_data(r@) == rows::without(store::chunk_data(rows@), chunk_with_id(id as int)),
{
    let ghost p = chunk_with_id(id as int);
    let ghost all = store::chunk_data(rows@);
    let mut out: Vec<PendingChunkRecord> = Vec::new();
    let mut i: usize = 0;
    proof {
        reveal(Seq::filter);
        assert(store::chunk_data(out@) =~= rows::without(all.take(0), p));
    }
    while i < rows.len()
        invariant
            i <= rows.len(),
            p == chunk_with_id(id as int),
            all == store::chunk_data(rows@),
            store::chunk_data(out@) == rows::without(all.take(i as int), p),
        decreases rows.len() - i,
    {
        let ghost before = out@;
        proof {
            reveal(Seq::filter);
            assert(all.take(i + 1).drop_last() =~= all.take(i as int));
            assert(all.take(i + 1).last() == rows@[i as int]@);
        }
        if rows[i].id != id {
            out.push(rows[i].copy());
            proof {
                assert(store::chunk_data(out@) =~= store::chunk_data(before).push(all[i as int]));
            }
        }
        i = i + 1;
    }
    proof {
        assert(all.take(i as int) =~= all);
    }
    out
}

impl TaskStore {
    /// Stores the parts that were not sent, with ids that count up from `first_id`.
    pub fn insert_pending_chunks(
        &mut self,
        user_id: &str,
        context_token: &str,
        chunks: &Vec<(usize, usize, String)>,
        first_id: i64,
        now: &str,
    ) -> (r: Result<(), TaskStoreError>)
        ensures
            match r {
                Ok(_) => first_id + chunks@.len() <= i64::MAX && final(self)@ == (StoreData {
                    pending_chunks: old(self)@.pending_chunks + chunk_rows(
                        first_id as int,
                        user_id@,
                        context_token@,
                        chunks@,
                        now@,
                    ),
                    ..old(self)@
                }),
                Err(TaskStoreError::Validation(e)) => first_id + chunks@.len() > i64::MAX
                    && final(self)@ == old(self)@ && e@ == "插入 pending chunk 失败"@,
                Err(_) => false,
            },
    {
        let ghost s = self@;
        let ghost added = chunk_rows(first_id as int, user_id@, context_token@, chunks@, now@);
        if first_id as i128 + chunks.len() as i128 > i64::MAX as i128 {
            return Err(TaskStoreError::Validation("插入 pending chunk 失败".to_string()));
        }
        let mut i: usize = 0;
        proof {
            assert(self@.pending_chunks =~= s.pending_chunks + added.take(0));
        }
        while i < chunks.len()
            invariant
                i <= chunks.len(),
                first_id + chunks@.len() <= i64::MAX,
                added == chunk_rows(first_id as int, user_id@, context_token@, chunks@, now@),
                self@ == (StoreData { pending_chunks: self@.pending_chunks, ..s }),
                self@.pending_chunks == s.pending_chunks + added.take(i as int),
            decreases chunks.len() - i,
        {
            let row = PendingChunkRecord {
                id: (first_id as i128 + i as i128) as i64,
                user_id: owned(user_id),
                context_token: owned(context_token),
                chunk_text: chunks[i].2.clone(),
                chunk_index: chunks[i].0,
                chunk_total: chunks[i].1,
                created_at: owned(now),
            };
            let ghost before = self@.pending_chunks;
            self.pending_chunks.push(row);
            i = i + 1;
            proof {
                assert(self@.pending_chunks =~= before.push(row@));
                assert(row@ == added[i - 1]);
                assert(self@.pending_chunks =~= s.pending_chunks + added.take(i as int));
            }
        }
        proof {
            assert(added.take(i as int) =~= added);
        }
        Ok(())
    }

    /// The oldest parts, at most `limit` of them.
    pub fn list_pending_chunks(&self, limit: usize) -> (r: Result<
        Vec<PendingChunkRecord>,
        TaskStoreError,
    >)
        ensures
            match r {
                Ok(v) => limit <= i64::MAX && store::chunk_data(v@) == oldest_chunks(
                    self@.pending_chunks,
                    limit as int,
                ),
                Err(TaskStoreError::Validation(e)) => limit > i64::MAX && e@
                    == "chunk limit 超出范围"@,
                Err(_) => false,
            },
    {
        if limit as u128 > i64::MAX as u128 {
            return Err(TaskStoreError::Validation("chunk limit 超出范围".to_string()));
        }
        let ghost rows = self@.pending_chunks;
        let mut keys: Vec<Vec<KeyPart>> = Vec::new();
        let mut i: usize = 0;
        while i < self.pending_chunks.len()
            invariant
                i <= self.pending_chunks.len(),
                rows == self@.pending_chunks,
                keys@.len() == i,
                forall|k: int|
                    0 <= k < i ==> ordering::key_view((#[trigger] keys@[k])@) == seq![
                        Part::Text(rows[k].created_at),
                    ],
            decreases self.pending_chunks.len() - i,
        {
            let mut key: Vec<KeyPart> = Vec::new();
            key.push(KeyPart::Text(self.pending_chunks[i].created_at.clone()));
            proof {
                assert(ordering::key_view(key@) =~= seq![Part::Text(rows[i as int].created_at)]);
            }
            keys.push(key);
            i = i + 1;
        }
        let order = sort_rows(&keys);
        proof {
            assert(ordering::keys_view(keys@) =~= chunk_keys(rows));
        }
        let n: usize = if limit < order.len() {
            limit
        } else {
            order.len()
        };
        let mut out: Vec<PendingChunkRecord> = Vec::new();
        let mut k: usize = 0;
        while k < n
            invariant
                k <= n <= order.len(),
                rows == self@.pending_chunks,
                order@.len() == self.pending_chunks@.len(),
                forall|i: int|
                    0 <= i < order@.len() ==> (#[trigger] order@[i]) < self.pending_chunks@.len(),
                ordering::indices(order@) == ordering::sort_order(chunk_keys(rows)),
                out@.len() == k,
                forall|i: int|
                    0 <= i < k ==> (#[trigger] out@[i])@ == rows[ordering::sort_order(chunk_keys(rows))[i]],
            decreases n - k,
        {
            proof {
                assert(ordering::indices(order@)[k as int] == order@[k as int]);
            }
            out.push(self.pending_chunks[order[k]].copy());
            k = k + 1;
        }
        proof {
            assert(store::chunk_data(out@) =~= oldest_chunks(rows, limit as int));
        }
        Ok(out)
    }

    /// Removes a part. Returns whether there was one.
    pub fn delete_pending_chunk(&mut self, id: i64) -> (r: bool)
        ensures
            final(self)@ == (StoreData {
                pending_chunks: rows::without(old(self)@.pending_chunks, chunk_with_id(id as int)),
                ..old(self)@
            }),
            r == exists|i: int|
                0 <= i < old(self)@.pending_chunks.len() && (
                #[trigger] old(self)@.pending_chunks[i]).id == id,
    {
        let mut known = false;
        let mut i: usize = 0;
        while i < self.pending_chunks.len()
            invariant
                i <= self.pending_chunks.len(),
                self@ == old(self)@,
                known == exists|k: int|
                    0 <= k < i && (#[trigger] self@.pending_chunks[k]).id == id,
            decreases self.pending_chunks.len() - i,
        {
            if self.pending_chunks[i].id == id {
                proof {
                    assert(self@.pending_chunks[i as int].id == id);
                }
                known = true;
            }
            i = i + 1;
        }
        self.pending_chunks = kept_chunks(&self.pending_chunks, id);
        known
    }
}

// ---------------------------------------------------------------------------
// Laws
// ---------------------------------------------------------------------------

/// The oldest parts come first, and parts of one moment come in the order in which they were
/// stored; a limit shows the first of them.
pub proof fn lemma_oldest_first(rows: Seq<ChunkData>, limit: int, i: int, j: int)
    requires
        0 <= limit,
        0 <= i < j < oldest_chunks(rows, limit).len(),
    ensures
        !text::text_before(
            oldest_chunks(rows, limit)[j].created_at,
            oldest_chunks(rows, limit)[i].created_at,
        ),
        oldest_chunks(rows, limit).len() <= limit,
        limit >= rows.len() ==> oldest_chunks(rows, limit).len() == rows.len(),
        exists|a: int, b: int|
            {
                &&& 0 <= a < rows.len() && 0 <= b < rows.len() && a != b
                &&& #[trigger] rows[a] == oldest_chunks(rows, limit)[i]
                &&& #[trigger] rows[b] == oldest_chunks(rows, limit)[j]
                &&& rows[a].created_at == rows[b].created_at ==> a < b
            },
{
    let keys = chunk_keys(rows);
    assert forall|a: int, b: int| 0 <= a < keys.len() && 0 <= b < keys.len() implies ordering::same_shape(
        #[trigger] keys[a],
        #[trigger] keys[b],
    ) by {}
    ordering::lemma_sort_order(keys);
    let order = ordering::sort_order(keys);
    assert(ordering::in_order(keys, order[i], order[j]));
    let a = order[i];
    let b = order[j];
    assert(keys[a] == seq![Part::Text(rows[a].created_at)]);
    assert(keys[b] == seq![Part::Text(rows[b].created_at)]);
    if text::text_before(rows[b].created_at, rows[a].created_at) {
        ordering::lemma_first_difference(keys[b], keys[a], 0);
    }
    if rows[a].created_at == rows[b].created_at {
        ordering::lemma_key_order(keys[a], keys[b], keys[a]);
    }
    assert(rows[a] == oldest_chunks(rows, limit)[i]);
    assert(rows[b] == oldest_chunks(rows, limit)[j]);
}

/// The parts of a reply are stored one by one, in order and under ids of their own, with
/// their texts and their places.
pub proof fn lemma_parts_are_stored(
    first_id: int,
    user_id: Seq<char>,
    context_token: Seq<char>,
    parts: Seq<(usize, usize, String)>,
    now: Seq<char>,
    i: int,
    j: int,
)
    requires
        0 <= i < j < parts.len(),
    ensures
        ({
            let rows = chunk_rows(first_id, user_id, context_token, parts, now);
            &&& rows.len() == parts.len()
            &&& rows[i].id < rows[j].id
            &&& rows[i].chunk_text == parts[i].2@ && rows[j].chunk_text == parts[j].2@
            &&& rows[i].chunk_index == parts[i].0 && rows[j].chunk_index == parts[j].0
            &&& rows[i].chunk_total == parts[i].1
            &&& rows[i].user_id == user_id && rows[j].user_id == user_id
            &&& rows[i].context_token == context_token && rows[i].created_at == now
        }),
{
}

} // verus!
