//! Asking a service for vectors only where none is kept.

use crate::ordering;
use crate::task_store::embedding_cache;
use crate::task_store::embedding_cache::{EmbeddingCache, copy_vector};
use crate::text;
use crate::text::{cat4, owned, usize_text};
use vstd::prelude::*;

verus! {

/// Counts how often a vector was kept already, and how often it had to be asked for.
#[derive(Debug, Clone)]
pub struct CachedEmbeddingProvider {
    pub model: String,
    pub hits: usize,
    pub misses: usize,
}

/// The places of the texts that have no vector.
pub open spec fn missing(kept: Seq<Option<Seq<u32>>>) -> Seq<int>
    decreases kept.len(),
{
    if kept.len() == 0 {
        Seq::empty()
    } else if kept.last() is None {
        missing(kept.drop_last()).push(kept.len() - 1)
    } else {
        missing(kept.drop_last())
    }
}

/// The vectors of a batch: those that are kept, and in the gaps the new ones in turn.
pub open spec fn merged(kept: Seq<Option<Seq<u32>>>, fresh: Seq<Vec<u32>>) -> Seq<Seq<u32>> {
    Seq::new(
        kept.len(),
        |i: int|
            match kept[i] {
                Some(v) => v,
                None => fresh[missing(kept.take(i)).len() as int]@,
            },
    )
}

pub open spec fn vectors(v: Seq<Vec<u32>>) -> Seq<Seq<u32>> {
    Seq::new(v.len(), |i: int| v[i]@)
}

proof fn lemma_missing_step(kept: Seq<Option<Seq<u32>>>, i: int)
    requires
        0 <= i < kept.len(),
    ensures
        missing(kept.take(i + 1)) == if kept[i] is None {
            missing(kept.take(i)).push(i)
        } else {
            missing(kept.take(i))
        },
{
    assert(kept.take(i + 1).drop_last() =~= kept.take(i));
}

/// The gaps come in order, each is a gap, and the number of gaps before one is its place
/// among the gaps.
proof fn lemma_missing(kept: Seq<Option<Seq<u32>>>, i: int)
    requires
        0 <= i <= kept.len(),
    ensures
        missing(kept.take(i)).len() <= i,
        forall|k: int|
            0 <= k < missing(kept.take(i)).len() ==> {
                let at = #[trigger] missing(kept.take(i))[k];
                0 <= at < i && kept[at] is None && missing(kept.take(at)).len() == k
            },
    decreases i,
{
    if i > 0 {
        lemma_missing(kept, i - 1);
        lemma_missing_step(kept, i - 1);
    } else {
        assert(kept.take(0).len() == 0);
    }
}

/// A text whose vector is kept gets that vector, and the others get the new ones in the
/// order in which they were asked for.
pub proof fn lemma_merged(kept: Seq<Option<Seq<u32>>>, fresh: Seq<Vec<u32>>)
    ensures
        merged(kept, fresh).len() == kept.len(),
        forall|i: int|
            0 <= i < kept.len() && kept[i] is Some ==> Some(#[trigger] merged(kept, fresh)[i])
                == kept[i],
        forall|k: int|
            0 <= k < missing(kept).len() ==> merged(kept, fresh)[#[trigger] missing(kept)[k]]
                == fresh[k]@,
{
    assert(kept.take(kept.len() as int) =~= kept);
    lemma_missing(kept, kept.len() as int);
}

/// The places of the texts that have no vector.
pub fn plan_batch(kept: &Vec<Option<Vec<u32>>>) -> (r: Vec<usize>)
    ensures
        ordering::indices(r@) == missing(embedding_cache::opt_vectors(kept@)),
        forall|k: int| 0 <= k < r@.len() ==> (#[trigger] r@[k]) < kept@.len(),
{
    let ghost c = embedding_cache::opt_vectors(kept@);
    let mut out: Vec<usize> = Vec::new();
    let mut i: usize = 0;
    proof {
        assert(ordering::indices(out@) =~= missing(c.take(0)));
    }
    while i < kept.len()
        invariant
            i <= kept.len(),
            c == embedding_cache::opt_vectors(kept@),
            ordering::indices(out@) == missing(c.take(i as int)),
            forall|k: int| 0 <= k < out@.len() ==> (#[trigger] out@[k]) < i,
        decreases kept.len() - i,
    {
        let ghost before = ordering::indices(out@);
        proof {
            lemma_missing_step(c, i as int);
        }
        if kept[i].is_none() {
            out.push(i);
            proof {
                assert(ordering::indices(out@) =~= before.push(i as int));
            }
        }
        i = i + 1;
    }
    proof {
        assert(c.take(i as int) =~= c);
    }
    out
}

/// The texts that have no vector, in order.
pub fn missing_texts(batch: &Vec<String>, kept: &Vec<Option<Vec<u32>>>) -> (r: Vec<String>)
    requires
        batch@.len() == kept@.len(),
    ensures
        text::texts(r@) == Seq::new(
            missing(embedding_cache::opt_vectors(kept@)).len(),
            |k: int| batch@[missing(embedding_cache::opt_vectors(kept@))[k]]@,
        ),
{
    let at = plan_batch(kept);
    let ghost m = missing(embedding_cache::opt_vectors(kept@));
    let mut out: Vec<String> = Vec::new();
    let mut i: usize = 0;
    while i < at.len()
        invariant
            i <= at.len(),
            batch@.len() == kept@.len(),
            forall|k: int| 0 <= k < at@.len() ==> (#[trigger] at@[k]) < kept@.len(),
            out@.len() == i,
            forall|k: int| 0 <= k < i ==> (#[trigger] out@[k])@ == batch@[at@[k] as int]@,
        decreases at.len() - i,
    {
        out.push(batch[at[i]].clone());
        i = i + 1;
    }
    proof {
        assert(m.len() == at@.len());
        assert forall|k: int| 0 <= k < at@.len() implies (#[trigger] out@[k])@ == batch@[m[k]]@ by {
            assert(ordering::indices(at@)[k] == at@[k]);
        }
        assert(text::texts(out@) =~= Seq::new(m.len(), |k: int| batch@[m[k]]@));
    }
    out
}

pub open spec fn mismatch_message(requested: int, returned: int) -> Seq<char> {
    "embed_documents batch size mismatch: requested="@ + text::decimal(requested as nat)
        + ", returned="@ + text::decimal(returned as nat)
}

impl CachedEmbeddingProvider {
    pub fn new(model_name: &str) -> (r: Self)
        ensures
            r.model@ == model_name@,
            r.hits == 0,
            r.misses == 0,
    {
        CachedEmbeddingProvider { model: owned(model_name), hits: 0, misses: 0 }
    }

    pub fn hit_count(&self) -> (r: usize)
        ensures
            r == self.hits,
    {
        self.hits
    }

    pub fn miss_count(&self) -> (r: usize)
        ensures
            r == self.misses,
    {
        self.misses
    }

    pub fn model_name(&self) -> (r: String)
        ensures
            r@ == self.model@,
    {
        self.model.clone()
    }

    /// Looks for a kept vector.
    pub fn query_cached(&mut self, cache: &EmbeddingCache, asked: &str) -> (r: Option<Vec<u32>>)
        ensures
            embedding_cache::opt_vector(r) == embedding_cache::kept_vector(
                cache@,
                embedding_cache::text_key(asked@),
                old(self).model@,
            ),
            final(self).model == old(self).model,
            final(self).misses == old(self).misses,
            final(self).hits == if r is Some {
                old(self).hits.wrapping_add(1)
            } else {
                old(self).hits
            },
    {
        let found = cache.get_embedding(asked, self.model.as_str());
        if found.is_some() {
            self.hits = self.hits.wrapping_add(1);
        }
        found
    }

    /// Keeps the vector that a service gave.
    pub fn query_embedded(
        &mut self,
        cache: &mut EmbeddingCache,
        asked: &str,
        vector: &Vec<u32>,
        now: &str,
    )
        ensures
            final(cache)@ == embedding_cache::vector_kept(
                old(cache)@,
                embedding_cache::text_key(asked@),
                old(self).model@,
                vector@,
                now@,
            ),
            final(self).model == old(self).model,
            final(self).hits == old(self).hits,
            final(self).misses == old(self).misses.wrapping_add(1),
    {
        cache.put_embedding(asked, self.model.as_str(), vector, now);
        self.misses = self.misses.wrapping_add(1);
    }

    /// Puts a batch together from the kept vectors and the new ones. There has to be a new
    /// one for each text that has none.
    pub fn batch_embedded(
        &mut self,
        kept: &Vec<Option<Vec<u32>>>,
        fresh: &Vec<Vec<u32>>,
    ) -> (r: Result<Vec<Vec<u32>>, String>)
        ensures
            final(self).model == old(self).model,
            ({
                let gaps = missing(embedding_cache::opt_vectors(kept@)).len();
                match r {
                    Ok(v) => {
                        &&& fresh@.len() == gaps
                        &&& vectors(v@) == merged(embedding_cache::opt_vectors(kept@), fresh@)
                        &&& final(self).hits == old(self).hits.wrapping_add(
                            (kept@.len() - gaps) as usize,
                        )
                        &&& final(self).misses == old(self).misses.wrapping_add(gaps as usize)
                    },
                    Err(e) => {
                        &&& fresh@.len() != gaps
                        &&& e@ == mismatch_message(gaps as int, fresh@.len() as int)
                        &&& *final(self) == *old(self)
                    },
                }
            }),
    {
        let ghost c = embedding_cache::opt_vectors(kept@);
        let at = plan_batch(kept);
        let gaps: usize = at.len();
        proof {
            assert(ordering::indices(at@).len() == at@.len());
            assert(c.take(c.len() as int) =~= c);
            lemma_missing(c, c.len() as int);
        }
        if fresh.len() != gaps {
            return Err(
                cat4(
                    "embed_documents batch size mismatch: requested=",
                    usize_text(gaps).as_str(),
                    ", returned=",
                    usize_text(fresh.len()).as_str(),
                ),
            );
        }
        self.hits = self.hits.wrapping_add(kept.len() - gaps);
        self.misses = self.misses.wrapping_add(gaps);
        let mut out: Vec<Vec<u32>> = Vec::new();
        let mut next: usize = 0;
        let mut i: usize = 0;
        while i < kept.len()
            invariant
                i <= kept.len(),
                c == embedding_cache::opt_vectors(kept@),
                next == missing(c.take(i as int)).len(),
                missing(c).len() == fresh.len(),
                out@.len() == i,
                forall|k: int| 0 <= k < i ==> (#[trigger] out@[k])@ == merged(c, fresh@)[k],
            decreases kept.len() - i,
        {
            proof {
                lemma_missing_step(c, i as int);
                lemma_missing_grows(c, i + 1);
            }
            match &kept[i] {
                Some(v) => {
                    out.push(copy_vector(v));
                },
                None => {
                    out.push(copy_vector(&fresh[next]));
                    next = next + 1;
                },
            }
            i = i + 1;
        }
        proof {
            assert(vectors(out@) =~= merged(c, fresh@));
        }
        Ok(out)
    }
}

proof fn lemma_missing_grows(kept: Seq<Option<Seq<u32>>>, i: int)
    requires
        0 <= i <= kept.len(),
    ensures
        missing(kept.take(i)).len() <= missing(kept).len(),
    decreases kept.len() - i,
{
    if i < kept.len() {
        lemma_missing_step(kept, i);
        lemma_missing_grows(kept, i + 1);
    } else {
        assert(kept.take(i) =~= kept);
    }
}

/// The places without a vector are those of the texts that have none, in order and once each.
pub proof fn lemma_places_without_a_vector(kept: Seq<Option<Seq<u32>>>)
    ensures
        forall|i: int|
            #![trigger missing(kept).contains(i)]
            missing(kept).contains(i) == (0 <= i < kept.len() && kept[i] is None),
        forall|a: int, b: int|
            0 <= a < b < missing(kept).len() ==> (#[trigger] missing(kept)[a]) < (
            #[trigger] missing(kept)[b]),
    decreases kept.len(),
{
    let m = missing(kept);
    if kept.len() > 0 {
        let init = kept.drop_last();
        let n = missing(init);
        lemma_places_without_a_vector(init);
        assert forall|a: int| 0 <= a < n.len() implies 0 <= #[trigger] n[a] < init.len() by {
            assert(n.contains(n[a]));
        }
        assert forall|i: int| #[trigger] m.contains(i) == (0 <= i < kept.len() && kept[i] is None) by {
            if n.contains(i) {
                let k = choose|k: int| 0 <= k < n.len() && n[k] == i;
                assert(m[k] == i);
            }
            if m.contains(i) {
                let k = choose|k: int| 0 <= k < m.len() && m[k] == i;
                if k < n.len() {
                    assert(n[k] == i);
                    assert(n.contains(i));
                }
            }
            if i == kept.len() - 1 && kept[i] is None {
                assert(m[m.len() - 1] == i);
            }
            if 0 <= i < init.len() {
                assert(init[i] == kept[i]);
                assert(n.contains(i) == (init[i] is None));
            }
        }
        assert forall|a: int, b: int| 0 <= a < b < m.len() implies (#[trigger] m[a]) < (
        #[trigger] m[b]) by {
            if b < n.len() {
                assert(m[a] == n[a] && m[b] == n[b]);
            } else {
                assert(m[a] == n[a]);
            }
        }
    }
}

} // verus!
