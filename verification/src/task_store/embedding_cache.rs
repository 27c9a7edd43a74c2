//! Vectors that were computed before, kept by the hash of the text and the model. The
//! components of a vector are held by their bit patterns.

use crate::rows;
use crate::text;
use crate::text::{owned, same};
use std::collections::hash_map::DefaultHasher;
use std::hash::{Hash, Hasher};
use vstd::prelude::*;
use vstd::std_specs::hash::DefaultHasherAdditionalSpecFns;

verus! {

#[derive(Debug, Clone, PartialEq, Eq)]
pub struct EmbeddingRow {
    pub text_hash: String,
    pub model_name: String,
    pub vector: Vec<u32>,
    pub dimension: u64,
    pub created_at: String,
}

pub struct EmbeddingData {
    pub text_hash: Seq<char>,
    pub model_name: Seq<char>,
    pub vector: Seq<u32>,
    pub dimension: int,
    pub created_at: Seq<char>,
}

impl View for EmbeddingRow {
    type V = EmbeddingData;

    open spec fn view(&self) -> EmbeddingData {
        EmbeddingData {
            text_hash: self.text_hash@,
            model_name: self.model_name@,
            vector: self.vector@,
            dimension: self.dimension as int,
            created_at: self.created_at@,
        }
    }
}

/// The kept vectors.
#[derive(Debug, Clone)]
pub struct EmbeddingCache {
    pub rows: Vec<EmbeddingRow>,
}

pub open spec fn embedding_data(rows: Seq<EmbeddingRow>) -> Seq<EmbeddingData> {
    Seq::new(rows.len(), |i: int| rows[i]@)
}

impl View for EmbeddingCache {
    type V = Seq<EmbeddingData>;

    open spec fn view(&self) -> Seq<EmbeddingData> {
        embedding_data(self.rows@)
    }
}

/// The row of a hash and a model.
pub open spec fn vector_of(hash: Seq<char>, model: Seq<char>) -> spec_fn(EmbeddingData) -> bool {
    |r: EmbeddingData| r.text_hash == hash && r.model_name == model
}

/// The rows of a model.
pub open spec fn of_model(model: Seq<char>) -> spec_fn(EmbeddingData) -> bool {
    |r: EmbeddingData| r.model_name == model
}

/// The bit pattern of a single-precision number that is finite: its exponent, the eight bits
/// below the sign, is not all ones.
pub open spec fn finite_bits(bits: u32) -> bool {
    bits as int / 0x80_0000 % 256 != 255
}

pub open spec fn all_finite(vector: Seq<u32>) -> bool {
    forall|i: int| 0 <= i < vector.len() ==> finite_bits(#[trigger] vector[i])
}

fn is_finite_vector(vector: &Vec<u32>) -> (r: bool)
    ensures
        r == all_finite(vector@),
{
    let mut i: usize = 0;
    while i < vector.len()
        invariant
            i <= vector@.len(),
            forall|k: int| 0 <= k < i ==> finite_bits(#[trigger] vector@[k]),
        decreases vector.len() - i,
    {
        if vector[i] / 0x80_0000 % 256 == 255 {
            proof {
                assert(!finite_bits(vector@[i as int]));
            }
            return false;
        }
        i = i + 1;
    }
    true
}

/// The kept vector of a text, if it has as many components as were written down, and all of
/// them are finite: there is no JSON text for others.
pub open spec fn kept_vector(rows: Seq<EmbeddingData>, hash: Seq<char>, model: Seq<char>) -> Option<
    Seq<u32>,
> {
    match rows::found(rows, vector_of(hash, model)) {
        Some(r) => if r.dimension == r.vector.len() && all_finite(r.vector) {
            Some(r.vector)
        } else {
            None
        },
        None => None,
    }
}

pub open spec fn opt_vector(v: Option<Vec<u32>>) -> Option<Seq<u32>> {
    match v {
        Some(x) => Some(x@),
        None => None,
    }
}

pub open spec fn opt_vectors(v: Seq<Option<Vec<u32>>>) -> Seq<Option<Seq<u32>>> {
    Seq::new(v.len(), |i: int| opt_vector(v[i]))
}

pub open spec fn new_row(hash: Seq<char>, model: Seq<char>, vector: Seq<u32>, now: Seq<char>) -> EmbeddingData {
    EmbeddingData {
        text_hash: hash,
        model_name: model,
        vector,
        dimension: vector.len() as int,
        created_at: now,
    }
}

/// The rows after a vector was kept.
pub open spec fn vector_kept(
    rows: Seq<EmbeddingData>,
    hash: Seq<char>,
    model: Seq<char>,
    vector: Seq<u32>,
    now: Seq<char>,
) -> Seq<EmbeddingData> {
    rows::put_row(rows, vector_of(hash, model), new_row(hash, model, vector, now))
}

/// The rows after the vectors of several texts were kept, one after the other.
pub open spec fn vectors_kept(
    rows: Seq<EmbeddingData>,
    hashes: Seq<Seq<char>>,
    model: Seq<char>,
    vectors: Seq<Vec<u32>>,
    now: Seq<char>,
) -> Seq<EmbeddingData>
    decreases hashes.len(),
{
    if hashes.len() == 0 {
        rows
    } else {
        vector_kept(
            vectors_kept(rows, hashes.drop_last(), model, vectors.drop_last(), now),
            hashes.last(),
            model,
            vectors.last()@,
            now,
        )
    }
}

/// A kept vector is given back for its text and its model where its components are finite,
/// and else none is. The vectors of other models, and
/// those of texts with another hash, do not change by it.
pub proof fn lemma_vector_round_trip(
    rows: Seq<EmbeddingData>,
    text: Seq<char>,
    model: Seq<char>,
    vector: Seq<u32>,
    now: Seq<char>,
    other_text: Seq<char>,
    other_model: Seq<char>,
)
    ensures
        ({
            let after = vector_kept(rows, text_key(text), model, vector, now);
            &&& kept_vector(after, text_key(text), model) == (if all_finite(vector) {
                Some(vector)
            } else {
                None
            })
            &&& text_key(other_text) != text_key(text) || other_model != model ==> kept_vector(
                after,
                text_key(other_text),
                other_model,
            ) == kept_vector(rows, text_key(other_text), other_model)
        }),
{
    let hash = text_key(text);
    let other_hash = text_key(other_text);
    let row = new_row(hash, model, vector, now);
    rows::lemma_put_found(rows, vector_of(hash, model), row);
    if other_hash != hash || other_model != model {
        rows::lemma_put_other(rows, vector_of(hash, model), row, vector_of(other_hash, other_model));
    }
}

/// A cleared model has no vectors left.
pub proof fn lemma_cleared_model(rows: Seq<EmbeddingData>, text: Seq<char>, model: Seq<char>)
    ensures
        kept_vector(rows::without(rows, of_model(model)), text_key(text), model) is None,
{
    let hash = text_key(text);
    let after = rows::without(rows, of_model(model));
    rows::lemma_without_found(rows, of_model(model));
    rows::lemma_first_where(after, of_model(model));
    assert forall|k: int| 0 <= k < after.len() implies !vector_of(hash, model)(
        #[trigger] after[k],
    ) by {
        assert(!of_model(model)(after[k]));
    }
    rows::lemma_first_none(after, vector_of(hash, model));
}

/// The models that have vectors.
pub open spec fn models(rows: Seq<EmbeddingData>) -> Set<Seq<char>> {
    Seq::new(rows.len(), |i: int| rows[i].model_name).to_set()
}

/// The bytes that hashing a text feeds to a hasher, write by write.
pub uninterp spec fn text_writes(text: Seq<char>) -> Seq<Seq<u8>>;

/// `std::hash::Hash::hash` of a text. Claimed: what the hasher is fed depends on the text
/// alone. Which bytes these are std leaves open.
#[verifier::external_body]
fn feed_text(text: &str, hasher: &mut DefaultHasher)
    ensures
        final(hasher)@ == old(hasher)@ + text_writes(text@),
{
    text.hash(hasher);
}

/// The number that a new `DefaultHasher` of std gives a text.
pub open spec fn default_hash_of(text: Seq<char>) -> u64 {
    DefaultHasher::spec_finish(text_writes(text))
}

fn default_hash(text: &str) -> (r: u64)
    ensures
        r == default_hash_of(text@),
{
    let mut hasher = DefaultHasher::new();
    feed_text(text, &mut hasher);
    proof {
        assert(Seq::<Seq<u8>>::empty() + text_writes(text@) =~= text_writes(text@));
    }
    hasher.finish()
}

/// The key under which the vector of a text is kept.
pub open spec fn text_key(text: Seq<char>) -> Seq<char> {
    hex_digits(default_hash_of(text) as nat, 16)
}

/// The keys of several texts.
pub open spec fn text_keys(texts: Seq<Seq<char>>) -> Seq<Seq<char>> {
    Seq::new(texts.len(), |i: int| text_key(texts[i]))
}

pub open spec fn hex_char(d: nat) -> char {
    if d < 10 {
        (48 + d) as char
    } else {
        (87 + d) as char
    }
}

/// The lowest `k` hexadecimal digits of a number.
pub open spec fn hex_digits(n: nat, k: nat) -> Seq<char>
    decreases k,
{
    if k == 0 {
        Seq::empty()
    } else {
        hex_digits(n / 16, (k - 1) as nat).push(hex_char(n % 16))
    }
}

fn push_hex(out: &mut String, n: u64, k: u8)
    ensures
        final(out)@ == old(out)@ + hex_digits(n as nat, k as nat),
    decreases k,
{
    let ghost before = out@;
    if k == 0 {
        proof {
            assert(before + hex_digits(n as nat, 0) =~= before);
        }
        return ;
    }
    push_hex(out, n / 16, k - 1);
    let d: u8 = (n % 16) as u8;
    let c: u8 = if d < 10 {
        48 + d
    } else {
        87 + d
    };
    out.push(c as char);
    proof {
        assert(out@ =~= before + hex_digits(n as nat, k as nat));
    }
}

/// The text of a hash: sixteen hexadecimal digits.
pub fn hash_text(n: u64) -> (r: String)
    ensures
        r@ == hex_digits(n as nat, 16),
{
    let mut out = String::new();
    push_hex(&mut out, n, 16);
    proof {
        assert(out@ =~= hex_digits(n as nat, 16));
    }
    out
}

/// The key under which the vectors of a text are kept.
pub fn text_hash(text: &str) -> (r: String)
    ensures
        r@ == text_key(text@),
{
    let n: u64 = default_hash(text);
    hash_text(n)
}

impl EmbeddingCache {
    pub fn new() -> (r: Self)
        ensures
            r@ == Seq::<EmbeddingData>::empty(),
    {
        EmbeddingCache { rows: Vec::new() }
    }

    fn position(&self, hash: &str, model_name: &str) -> (r: Option<usize>)
        ensures
            match r {
                Some(i) => i < self.rows@.len() && rows::first_where(
                    self@,
                    vector_of(hash@, model_name@),
                ) == Some(i as int),
                None => rows::first_where(self@, vector_of(hash@, model_name@)) is None,
            },
    {
        let ghost p = vector_of(hash@, model_name@);
        let mut i: usize = 0;
        while i < self.rows.len()
            invariant
                i <= self.rows.len(),
                p == vector_of(hash@, model_name@),
                forall|k: int| 0 <= k < i ==> !p(#[trigger] self@[k]),
            decreases self.rows.len() - i,
        {
            if same(self.rows[i].text_hash.as_str(), hash) && same(
                self.rows[i].model_name.as_str(),
                model_name,
            ) {
                proof {
                    rows::lemma_first_is(self@, p, i as int);
                }
                return Some(i);
            }
            i = i + 1;
        }
        proof {
            rows::lemma_first_none(self@, p);
        }
        None
    }

    /// The kept vector of a hash.
    pub fn get_hashed(&self, hash: &str, model_name: &str) -> (r: Option<Vec<u32>>)
        ensures
            opt_vector(r) == kept_vector(self@, hash@, model_name@),
    {
        match self.position(hash, model_name) {
            None => None,
            Some(i) => {
                let row = &self.rows[i];
                if row.dimension == row.vector.len() as u64 && is_finite_vector(&row.vector) {
                    Some(copy_vector(&row.vector))
                } else {
                    None
                }
            },
        }
    }

    /// Keeps the vector of a hash, in the place of an earlier one.
    pub fn put_hashed(&mut self, hash: &str, model_name: &str, vector: &Vec<u32>, now: &str)
        ensures
            final(self)@ == vector_kept(old(self)@, hash@, model_name@, vector@, now@),
    {
        let row = EmbeddingRow {
            text_hash: owned(hash),
            model_name: owned(model_name),
            vector: copy_vector(vector),
            dimension: vector.len() as u64,
            created_at: owned(now),
        };
        let ghost before = self@;
        proof {
            assert(row@ == new_row(hash@, model_name@, vector@, now@));
            rows::lemma_first_where(before, vector_of(hash@, model_name@));
        }
        match self.position(hash, model_name) {
            Some(i) => {
                self.rows.set(i, row);
                proof {
                    assert(self@ =~= before.update(i as int, row@));
                }
            },
            None => {
                self.rows.push(row);
                proof {
                    assert(self@ =~= before.push(row@));
                }
            },
        }
    }

    /// The kept vector of a text: that of its hash.
    pub fn get_embedding(&self, text: &str, model_name: &str) -> (r: Option<Vec<u32>>)
        ensures
            opt_vector(r) == kept_vector(self@, text_key(text@), model_name@),
    {
        let hash = text_hash(text);
        self.get_hashed(hash.as_str(), model_name)
    }

    /// Keeps the vector of a text under its hash.
    pub fn put_embedding(&mut self, text: &str, model_name: &str, vector: &Vec<u32>, now: &str)
        ensures
            final(self)@ == vector_kept(
                old(self)@,
                text_key(text@),
                model_name@,
                vector@,
                now@,
            ),
    {
        let hash = text_hash(text);
        self.put_hashed(hash.as_str(), model_name, vector, now)
    }

    /// The kept vectors of several texts, in their order.
    pub fn get_embeddings_batch(&self, batch: &Vec<String>, model_name: &str) -> (r: Vec<
        Option<Vec<u32>>,
    >)
        ensures
            r@.len() == batch@.len(),
            forall|i: int|
                0 <= i < r@.len() ==> opt_vector(#[trigger] r@[i]) == kept_vector(
                    self@,
                    text_key(batch@[i]@),
                    model_name@,
                ),
    {
        let mut out: Vec<Option<Vec<u32>>> = Vec::new();
        let mut i: usize = 0;
        while i < batch.len()
            invariant
                i <= batch.len(),
                out@.len() == i,
                forall|k: int|
                    0 <= k < i ==> opt_vector(#[trigger] out@[k]) == kept_vector(
                        self@,
                        text_key(batch@[k]@),
                        model_name@,
                    ),
            decreases batch.len() - i,
        {
            out.push(self.get_embedding(batch[i].as_str(), model_name));
            i = i + 1;
        }
        out
    }

    /// Keeps the vectors of several texts. Unless there is one for each, none is kept.
    pub fn put_embeddings_batch(
        &mut self,
        batch: &Vec<String>,
        model_name: &str,
        vectors: &Vec<Vec<u32>>,
        now: &str,
    )
        ensures
            batch@.len() != vectors@.len() ==> final(self)@ == old(self)@,
            batch@.len() == vectors@.len() ==> final(self)@ == vectors_kept(
                old(self)@,
                text_keys(text::texts(batch@)),
                model_name@,
                vectors@,
                now@,
            ),
    {
        if batch.len() != vectors.len() {
            return ;
        }
        let ghost hs = text_keys(text::texts(batch@));
        let mut i: usize = 0;
        while i < batch.len()
            invariant
                i <= batch.len(),
                batch.len() == vectors.len(),
                hs == text_keys(text::texts(batch@)),
                self@ == vectors_kept(
                    old(self)@,
                    hs.take(i as int),
                    model_name@,
                    vectors@.take(i as int),
                    now@,
                ),
            decreases batch.len() - i,
        {
            self.put_embedding(batch[i].as_str(), model_name, &vectors[i], now);
            proof {
                assert(hs.take(i + 1).drop_last() =~= hs.take(i as int));
                assert(vectors@.take(i + 1).drop_last() =~= vectors@.take(i as int));
            }
            i = i + 1;
        }
        proof {
            assert(hs.take(i as int) =~= hs);
            assert(vectors@.take(i as int) =~= vectors@);
        }
    }

    /// Removes the vectors of a model, and says how many there were.
    pub fn clear_embedding_cache(&mut self, model_name: &str) -> (r: usize)
        ensures
            final(self)@ == rows::without(old(self)@, of_model(model_name@)),
            r == old(self)@.len() - final(self)@.len(),
    {
        let ghost before = self@;
        let ghost keep = |x: EmbeddingData| !of_model(model_name@)(x);
        let mut out: Vec<EmbeddingRow> = Vec::new();
        let mut i: usize = 0;
        let mut gone: usize = 0;
        while i < self.rows.len()
            invariant
                i <= self.rows.len(),
                *self == *old(self),
                before == old(self)@,
                keep == (|x: EmbeddingData| !of_model(model_name@)(x)),
                embedding_data(out@) == before.take(i as int).filter(keep),
                gone + out@.len() == i,
            decreases self.rows.len() - i,
        {
            proof {
                reveal(Seq::filter);
                assert(before.take(i + 1).drop_last() =~= before.take(i as int));
                assert(before.take(i + 1).last() == self.rows@[i as int]@);
            }
            let ghost filtered = embedding_data(out@);
            if same(self.rows[i].model_name.as_str(), model_name) {
                gone = gone + 1;
            } else {
                out.push(self.rows[i].copy());
                proof {
                    assert(embedding_data(out@) =~= filtered.push(before[i as int]));
                }
            }
            i = i + 1;
        }
        proof {
            assert(before.take(i as int) =~= before);
        }
        self.rows = out;
        gone
    }

    /// How many vectors are kept, and of how many models.
    pub fn embedding_cache_stats(&self) -> (r: (usize, usize))
        ensures
            r.0 == self@.len(),
            r.1 == models(self@).len(),
    {
        let ghost names = Seq::new(self@.len(), |i: int| self@[i].model_name);
        let mut count: usize = 0;
        let mut i: usize = 0;
        proof {
            assert(names.take(0).to_set() =~= Set::<Seq<char>>::empty());
        }
        while i < self.rows.len()
            invariant
                i <= self.rows.len(),
                names == Seq::new(self@.len(), |k: int| self@[k].model_name),
                count == names.take(i as int).to_set().len(),
                count <= i,
            decreases self.rows.len() - i,
        {
            let ghost earlier = names.take(i as int);
            let mut known: bool = false;
            let mut j: usize = 0;
            while j < i
                invariant
                    j <= i < self.rows.len(),
                    names == Seq::new(self@.len(), |k: int| self@[k].model_name),
                    known == exists|k: int| 0 <= k < j && #[trigger] names[k] == names[i as int],
                decreases i - j,
            {
                if same(self.rows[j].model_name.as_str(), self.rows[i].model_name.as_str()) {
                    assert(names[j as int] == names[i as int]);
                    known = true;
                }
                j = j + 1;
            }
            proof {
                vstd::seq_lib::seq_to_set_is_finite(earlier);
                let longer = names.take(i + 1);
                assert(longer.to_set() =~= earlier.to_set().insert(names[i as int])) by {
                    assert forall|m: Seq<char>|
                        longer.to_set().contains(m) <==> earlier.to_set().insert(
                            names[i as int],
                        ).contains(m) by {
                        if longer.contains(m) {
                            let k = choose|k: int| 0 <= k < longer.len() && longer[k] == m;
                            if k < i {
                                assert(earlier[k] == m);
                            }
                        }
                        if earlier.contains(m) {
                            let k = choose|k: int| 0 <= k < earlier.len() && earlier[k] == m;
                            assert(longer[k] == m);
                        }
                        assert(longer[i as int] == names[i as int]);
                    }
                }
                if known {
                    let k = choose|k: int| 0 <= k < i && #[trigger] names[k] == names[i as int];
                    assert(earlier[k] == names[i as int]);
                    assert(earlier.to_set().insert(names[i as int]) =~= earlier.to_set());
                } else {
                    assert(!earlier.contains(names[i as int])) by {
                        if earlier.contains(names[i as int]) {
                            let k = choose|k: int|
                                0 <= k < earlier.len() && earlier[k] == names[i as int];
                            assert(names[k] == names[i as int]);
                        }
                    }
                }
            }
            if !known {
                count = count + 1;
            }
            i = i + 1;
        }
        proof {
            assert(names.take(i as int) =~= names);
        }
        (self.rows.len(), count)
    }
}

pub fn copy_vector(v: &Vec<u32>) -> (r: Vec<u32>)
    ensures
        r@ == v@,
{
    let mut out: Vec<u32> = Vec::new();
    let mut i: usize = 0;
    while i < v.len()
        invariant
            i <= v.len(),
            out@ == v@.take(i as int),
        decreases v.len() - i,
    {
        out.push(v[i]);
        proof {
            assert(v@.take(i + 1) =~= v@.take(i as int).push(v@[i as int]));
        }
        i = i + 1;
    }
    proof {
        assert(v@.take(i as int) =~= v@);
    }
    out
}

impl EmbeddingRow {
    pub fn copy(&self) -> (r: Self)
        ensures
            r@ == self@,
    {
        EmbeddingRow {
            text_hash: self.text_hash.clone(),
            model_name: self.model_name.clone(),
            vector: copy_vector(&self.vector),
            dimension: self.dimension,
            created_at: self.created_at.clone(),
        }
    }
}

// ---------------------------------------------------------------------------
// Laws
// ---------------------------------------------------------------------------

/// The digits of a number stand for it, so that two numbers have two texts.
pub proof fn lemma_hex_digits(n: nat, k: nat, bound: nat)
    requires
        bound == pow16(k),
        n < bound,
    ensures
        hex_digits(n, k).len() == k,
        text::all_digits(hex_digits(n, k), 16),
        text::digits_value(hex_digits(n, k), 16) == n,
    decreases k,
{
    let s = hex_digits(n, k);
    if k > 0 {
        let m = (k - 1) as nat;
        assert(n / 16 < pow16(m)) by (nonlinear_arith)
            requires
                n < pow16(m) * 16,
        ;
        lemma_hex_digits(n / 16, m, pow16(m));
        let init = hex_digits(n / 16, m);
        assert(s.drop_last() =~= init);
        assert(text::digit_value(hex_char(n % 16)) == n % 16);
        assert forall|i: int| 0 <= i < s.len() implies text::digit_value(#[trigger] s[i]) < 16 by {
            if i < init.len() {
                assert(s[i] == init[i]);
            }
        }
    }
}

/// The number of texts of `k` hexadecimal digits.
pub open spec fn pow16(k: nat) -> nat
    decreases k,
{
    if k == 0 {
        1
    } else {
        pow16((k - 1) as nat) * 16
    }
}

/// Of several vectors that are kept for one key, the last one is found.
pub proof fn lemma_last_vector_is_found(
    table: Seq<EmbeddingData>,
    hashes: Seq<Seq<char>>,
    model: Seq<char>,
    vectors: Seq<Vec<u32>>,
    now: Seq<char>,
    i: int,
)
    requires
        hashes.len() == vectors.len(),
        0 <= i < hashes.len(),
        forall|j: int| i < j < hashes.len() ==> #[trigger] hashes[j] != hashes[i],
        all_finite(vectors[i]@),
    ensures
        kept_vector(vectors_kept(table, hashes, model, vectors, now), hashes[i], model) == Some(
            vectors[i]@,
        ),
    decreases hashes.len(),
{
    let last = hashes.len() - 1;
    let before = vectors_kept(table, hashes.drop_last(), model, vectors.drop_last(), now);
    let row = new_row(hashes.last(), model, vectors.last()@, now);
    let p = vector_of(hashes.last(), model);
    if i == last {
        rows::lemma_put_found(before, p, row);
    } else {
        assert(hashes[last] != hashes[i]);
        assert forall|j: int| i < j < hashes.drop_last().len() implies
            #[trigger] hashes.drop_last()[j] != hashes.drop_last()[i] by {
            assert(hashes[j] != hashes[i]);
        }
        lemma_last_vector_is_found(
            table,
            hashes.drop_last(),
            model,
            vectors.drop_last(),
            now,
            i,
        );
        rows::lemma_put_other(before, p, row, vector_of(hashes[i], model));
    }
}

} // verus!
