//! The hybrid search engine: a uniquely-owned table of memory records
//! with key-based upsert, lookup, listing and deletion, hybrid recall
//! over a lexical and a semantic signal, and a bounded embedding cache
//! with least-recently-used eviction.
//!
//! Time is modeled by a logical clock: every mutation advances a
//! monotone sequence number, and "ordered by update time" means ordered
//! by that number. Vector components and scores are fixed-point integers
//! (see [`crate::SCALE`]).

use vstd::prelude::*;

verus! {

use crate::SCALE;
use vstd::string::StringExecFns;
use vstd::string::StringSliceAdditionalSpecFns;
use vstd::string::StrSliceExecFns;

/// The category of a memory record.
pub enum MemoryCategory {
    Core,
    Daily,
    Conversation,
    Custom(String),
}

/// Category equality, by variant and by the custom name's characters.
pub open spec fn same_category(a: MemoryCategory, b: MemoryCategory) -> bool {
    match (a, b) {
        (MemoryCategory::Core, MemoryCategory::Core) => true,
        (MemoryCategory::Daily, MemoryCategory::Daily) => true,
        (MemoryCategory::Conversation, MemoryCategory::Conversation) => true,
        (MemoryCategory::Custom(x), MemoryCategory::Custom(y)) => x@ == y@,
        _ => false,
    }
}

/// Category equality test.
pub fn cat_eq(a: &MemoryCategory, b: &MemoryCategory) -> (r: bool)
    ensures
        r == same_category(*a, *b),
{
    match (a, b) {
        (MemoryCategory::Core, MemoryCategory::Core) => true,
        (MemoryCategory::Daily, MemoryCategory::Daily) => true,
        (MemoryCategory::Conversation, MemoryCategory::Conversation) => true,
        (MemoryCategory::Custom(x), MemoryCategory::Custom(y)) => crate::text::str_eq(
            x.as_str(),
            y.as_str(),
        ),
        _ => false,
    }
}

/// A fresh category value equal to the given one.
pub fn copy_category(c: &MemoryCategory) -> (r: MemoryCategory)
    ensures
        same_category(*c, r),
{
    match c {
        MemoryCategory::Core => MemoryCategory::Core,
        MemoryCategory::Daily => MemoryCategory::Daily,
        MemoryCategory::Conversation => MemoryCategory::Conversation,
        MemoryCategory::Custom(s) => MemoryCategory::Custom(s.clone()),
    }
}

/// The stored name of a category.
pub open spec fn cat_str(c: MemoryCategory) -> Seq<char> {
    match c {
        MemoryCategory::Core => "core"@,
        MemoryCategory::Daily => "daily"@,
        MemoryCategory::Conversation => "conversation"@,
        MemoryCategory::Custom(s) => s@,
    }
}

/// Render a category as its stored name.
pub fn category_to_str(c: &MemoryCategory) -> (r: String)
    ensures
        r@ == cat_str(*c),
{
    match c {
        MemoryCategory::Core => String::from_str("core"),
        MemoryCategory::Daily => String::from_str("daily"),
        MemoryCategory::Conversation => String::from_str("conversation"),
        MemoryCategory::Custom(s) => s.clone(),
    }
}

/// What parsing a stored name must give: the three fixed names map to
/// their variants, anything else to a custom category of that name.
pub open spec fn parses_category(s: Seq<char>, c: MemoryCategory) -> bool {
    if s == "core"@ {
        c is Core
    } else if s == "daily"@ {
        c is Daily
    } else if s == "conversation"@ {
        c is Conversation
    } else {
        c matches MemoryCategory::Custom(n) && n@ == s
    }
}

/// Parse a stored name back into a category.
pub fn str_to_category(s: &str) -> (r: MemoryCategory)
    ensures
        parses_category(s@, r),
{
    if crate::text::str_eq(s, "core") {
        MemoryCategory::Core
    } else if crate::text::str_eq(s, "daily") {
        MemoryCategory::Daily
    } else if crate::text::str_eq(s, "conversation") {
        MemoryCategory::Conversation
    } else {
        MemoryCategory::Custom(s.to_owned())
    }
}

/// One stored memory record.
pub struct Record {
    pub id: String,
    pub key: String,
    pub content: String,
    pub category: MemoryCategory,
    pub embedding: Option<Vec<i32>>,
    pub created_seq: u64,
    pub updated_seq: u64,
}

/// A memory entry handed back to callers.
pub struct MemoryEntry {
    pub id: String,
    pub key: String,
    pub content: String,
    pub category: MemoryCategory,
    pub timestamp: u64,
    pub session_id: Option<String>,
    pub score: Option<u64>,
}

/// One cached embedding.
pub struct CacheEntry {
    pub hash: String,
    pub vector: Vec<i32>,
    pub created_seq: u64,
    pub accessed_seq: u64,
}

/// Index of the first record with `key`, or -1.
pub open spec fn find_key(rs: Seq<Record>, key: Seq<char>) -> int
    decreases rs.len(),
{
    if rs.len() == 0 {
        -1
    } else if rs[0].key@ == key {
        0
    } else {
        let r = find_key(rs.drop_first(), key);
        if r < 0 {
            -1
        } else {
            r + 1
        }
    }
}

pub proof fn lemma_find_key_props(rs: Seq<Record>, key: Seq<char>)
    ensures
        find_key(rs, key) == -1 <==> (forall|k: int|
            0 <= k < rs.len() ==> (#[trigger] rs[k]).key@ != key),
        find_key(rs, key) != -1 ==> 0 <= find_key(rs, key) < rs.len() && rs[find_key(
            rs,
            key,
        )].key@ == key && (forall|k: int|
            0 <= k < find_key(rs, key) ==> (#[trigger] rs[k]).key@ != key),
    decreases rs.len(),
{
    if rs.len() > 0 {
        lemma_find_key_props(rs.drop_first(), key);
        let t = rs.drop_first();
        assert(forall|k: int| 0 <= k < t.len() ==> (#[trigger] t[k]) == rs[k + 1]);
        if rs[0].key@ == key {
        } else {
            let r = find_key(t, key);
            if r < 0 {
                assert forall|k: int| 0 <= k < rs.len() implies (#[trigger] rs[k]).key@ != key by {
                    if k > 0 {
                        assert(t[k - 1] == rs[k]);
                    }
                }
            } else {
                assert(rs[r + 1].key@ == key);
                assert forall|k: int| 0 <= k < r + 1 implies (#[trigger] rs[k]).key@ != key by {
                    if k > 0 {
                        assert(t[k - 1] == rs[k]);
                    }
                }
            }
        }
    }
}

/// The first-index characterization: a position whose record carries
/// the key, with no earlier one, is what `find_key` returns.
pub proof fn lemma_find_key_is(rs: Seq<Record>, key: Seq<char>, i: int)
    requires
        0 <= i < rs.len(),
        rs[i].key@ == key,
        forall|k: int| 0 <= k < i ==> (#[trigger] rs[k]).key@ != key,
    ensures
        find_key(rs, key) == i,
{
    lemma_find_key_props(rs, key);
    let f = find_key(rs, key);
    if f == -1 {
        assert(rs[i].key@ != key);
    }
    if f < i {
        assert(rs[f].key@ != key);
    }
    if f > i {
        assert(rs[i].key@ != key);
    }
}

/// Upsert preserves identity: replacing the record at its key's
/// position with one carrying the same key leaves the key resolving to
/// that same position — so the id read back before and after a re-store
/// is the id of one and the same slot. This is the stability behind
/// storing a key twice and seeing one record with an unchanged id.
pub proof fn lemma_upsert_preserves_identity(rs: Seq<Record>, key: Seq<char>, r2: Record)
    requires
        find_key(rs, key) >= 0,
        r2.key@ == key,
    ensures
        find_key(rs.update(find_key(rs, key), r2), key) == find_key(rs, key),
{
    lemma_find_key_props(rs, key);
    let i = find_key(rs, key);
    let rs2 = rs.update(i, r2);
    assert(rs2[i].key@ == key);
    assert forall|k: int| 0 <= k < i implies (#[trigger] rs2[k]).key@ != key by {
        assert(rs2[k] == rs[k]);
    }
    lemma_find_key_is(rs2, key, i);
}

/// A fresh key appended to the table resolves to the new last slot.
pub proof fn lemma_insert_finds_new(rs: Seq<Record>, key: Seq<char>, r2: Record)
    requires
        find_key(rs, key) == -1,
        r2.key@ == key,
    ensures
        find_key(rs.push(r2), key) == rs.len(),
{
    lemma_find_key_props(rs, key);
    let rs2 = rs.push(r2);
    assert(rs2[rs.len() as int].key@ == key);
    assert forall|k: int| 0 <= k < rs.len() implies (#[trigger] rs2[k]).key@ != key by {
        assert(rs2[k] == rs[k]);
    }
    lemma_find_key_is(rs2, key, rs.len() as int);
}

/// A forgotten key stays gone: with unique keys, removing the record at
/// a key's position leaves no record carrying that key, so a lookup
/// after a delete finds nothing, and the count has gone down by one.
pub proof fn lemma_forget_removes(rs: Seq<Record>, key: Seq<char>)
    requires
        keys_unique(rs),
        find_key(rs, key) >= 0,
    ensures
        find_key(rs.remove(find_key(rs, key)), key) == -1,
        rs.remove(find_key(rs, key)).len() == rs.len() - 1,
{
    lemma_find_key_props(rs, key);
    let i = find_key(rs, key);
    let rs2 = rs.remove(i);
    assert forall|k: int| 0 <= k < rs2.len() implies (#[trigger] rs2[k]).key@ != key by {
        let k0 = if k < i {
            k
        } else {
            k + 1
        };
        assert(rs2[k] == rs[k0]);
        if k0 != i {
            if k0 < i {
                assert(rs[k0].key@ != rs[i].key@);
            } else {
                assert(rs[i].key@ != rs[k0].key@);
            }
        }
    }
    lemma_find_key_props(rs2, key);
}

/// Index of the first record with `id`, or -1.
pub open spec fn find_rec_id(rs: Seq<Record>, id: Seq<char>) -> int
    decreases rs.len(),
{
    if rs.len() == 0 {
        -1
    } else if rs[0].id@ == id {
        0
    } else {
        let r = find_rec_id(rs.drop_first(), id);
        if r < 0 {
            -1
        } else {
            r + 1
        }
    }
}

pub proof fn lemma_find_rec_id_props(rs: Seq<Record>, id: Seq<char>)
    ensures
        find_rec_id(rs, id) == -1 <==> (forall|k: int|
            0 <= k < rs.len() ==> (#[trigger] rs[k]).id@ != id),
        find_rec_id(rs, id) != -1 ==> 0 <= find_rec_id(rs, id) < rs.len() && rs[find_rec_id(
            rs,
            id,
        )].id@ == id && (forall|k: int|
            0 <= k < find_rec_id(rs, id) ==> (#[trigger] rs[k]).id@ != id),
    decreases rs.len(),
{
    if rs.len() > 0 {
        lemma_find_rec_id_props(rs.drop_first(), id);
        let t = rs.drop_first();
        assert(forall|k: int| 0 <= k < t.len() ==> (#[trigger] t[k]) == rs[k + 1]);
        if rs[0].id@ == id {
        } else {
            let r = find_rec_id(t, id);
            if r < 0 {
                assert forall|k: int| 0 <= k < rs.len() implies (#[trigger] rs[k]).id@ != id by {
                    if k > 0 {
                        assert(t[k - 1] == rs[k]);
                    }
                }
            } else {
                assert(rs[r + 1].id@ == id);
                assert forall|k: int| 0 <= k < r + 1 implies (#[trigger] rs[k]).id@ != id by {
                    if k > 0 {
                        assert(t[k - 1] == rs[k]);
                    }
                }
            }
        }
    }
}

/// Keys are unique across all records.
pub open spec fn keys_unique(rs: Seq<Record>) -> bool {
    forall|i: int, j: int|
        0 <= i < j < rs.len() ==> (#[trigger] rs[i]).key@ != (#[trigger] rs[j]).key@
}

/// Ids are unique across all records.
pub open spec fn ids_unique(rs: Seq<Record>) -> bool {
    forall|i: int, j: int|
        0 <= i < j < rs.len() ==> (#[trigger] rs[i]).id@ != (#[trigger] rs[j]).id@
}

/// With unique ids, resolving a record's own id finds exactly that
/// record: the hydration of ranked results is pinned to the records
/// the ranking named, one slot per id.
pub proof fn lemma_find_rec_id_self(rs: Seq<Record>, i: int)
    requires
        ids_unique(rs),
        0 <= i < rs.len(),
    ensures
        find_rec_id(rs, rs[i].id@) == i,
{
    lemma_find_rec_id_props(rs, rs[i].id@);
    let f = find_rec_id(rs, rs[i].id@);
    if f == -1 {
        assert(rs[i].id@ != rs[i].id@);
    }
    if 0 <= f < i {
        assert(rs[f].id@ == rs[i].id@);
        assert(rs[f].id@ != rs[i].id@);
    }
    if f > i {
        assert(rs[i].id@ != rs[i].id@);
    }
}

/// Why a store can fail.
#[derive(Debug, PartialEq, Eq, Structural)]
pub enum StoreError {
    /// The freshly drawn id already names a record. The insert is
    /// refused, as the table admits one record per id, rather than
    /// leaving two records under one identifier.
    DuplicateId,
}

/// Cache hashes are unique across all entries.
pub open spec fn hashes_unique(cs: Seq<CacheEntry>) -> bool {
    forall|i: int, j: int|
        0 <= i < j < cs.len() ==> (#[trigger] cs[i]).hash@ != (#[trigger] cs[j]).hash@
}

/// The clock after one tick; it saturates at the top instead of wrapping.
pub open spec fn next_clock(c: u64) -> u64 {
    if c == u64::MAX {
        c
    } else {
        (c + 1) as u64
    }
}

/// The hybrid search engine over an in-memory record table.
pub struct MemoryStore {
    pub records: Vec<Record>,
    pub cache: Vec<CacheEntry>,
    pub vector_weight: u64,
    pub keyword_weight: u64,
    pub cache_max: usize,
    pub dims: usize,
    pub clock: u64,
}

/// Relies on uuid's `Uuid::new_v4` and its `Display` rendering: a random
/// version-4 UUID in hyphenated form, which is always 36 characters.
/// Nothing is assumed about which value comes back.
#[verifier::external_body]
fn fresh_id() -> (r: String)
    ensures
        r@.len() == 36,
{
    uuid::Uuid::new_v4().to_string()
}

impl MemoryStore {
    /// Structural soundness: unique keys, unique ids, unique cache
    /// hashes, weights in the unit range, all sequence numbers at or
    /// below the clock, and the cache within its bound.
    pub open spec fn wf(self) -> bool {
        &&& keys_unique(self.records@)
        &&& ids_unique(self.records@)
        &&& hashes_unique(self.cache@)
        &&& self.vector_weight <= SCALE
        &&& self.keyword_weight <= SCALE
        &&& forall|i: int|
            0 <= i < self.records@.len() ==> (#[trigger] self.records@[i]).created_seq
                <= self.records@[i].updated_seq <= self.clock
        &&& forall|i: int|
            0 <= i < self.cache@.len() ==> (#[trigger] self.cache@[i]).created_seq
                <= self.cache@[i].accessed_seq <= self.clock
        &&& self.cache@.len() <= self.cache_max
        &&& forall|i: int|
            0 <= i < self.records@.len() ==> ((#[trigger] self.records@[i]).embedding matches Some(
                v,
            ) ==> v@.len() <= 0x1_0000_0000)
    }

    /// A fresh engine with the default weights (0.7 vector, 0.3 keyword),
    /// the default cache bound, and no embedder (dimension 0).
    pub fn new() -> (r: Self)
        ensures
            r.wf(),
            r.records@.len() == 0,
            r.cache@.len() == 0,
            r.vector_weight == 700_000u64,
            r.keyword_weight == 300_000u64,
            r.cache_max == 10_000usize,
            r.dims == 0,
    {
        Self::with_params(700_000, 300_000, 10_000, 0)
    }

    /// A fresh engine with explicit weights, cache bound and embedder
    /// dimension.
    pub fn with_params(vector_weight: u64, keyword_weight: u64, cache_max: usize, dims: usize) -> (r:
        Self)
        requires
            vector_weight <= SCALE,
            keyword_weight <= SCALE,
        ensures
            r.wf(),
            r.records@.len() == 0,
            r.cache@.len() == 0,
            r.vector_weight == vector_weight,
            r.keyword_weight == keyword_weight,
            r.cache_max == cache_max,
            r.dims == dims,
    {
        MemoryStore {
            records: Vec::new(),
            cache: Vec::new(),
            vector_weight,
            keyword_weight,
            cache_max,
            dims,
            clock: 0,
        }
    }

    /// The backend's name.
    pub fn name(&self) -> (r: &'static str)
        ensures
            r@ == "memory"@,
    {
        "memory"
    }

    /// The engine is healthy whenever it exists: the in-memory table
    /// cannot fail a probe.
    pub fn health_check(&self) -> (r: bool)
        ensures
            r == true,
    {
        true
    }

    /// Number of stored records.
    pub fn count(&self) -> (r: usize)
        ensures
            r == self.records@.len(),
    {
        self.records.len()
    }

    fn find_key_exec(&self, key: &str) -> (r: Option<usize>)
        ensures
            match r {
                Some(j) => j == find_key(self.records@, key@),
                None => find_key(self.records@, key@) == -1,
            },
    {
        let mut j: usize = 0;
        while j < self.records.len()
            invariant
                j <= self.records@.len(),
                forall|k: int| 0 <= k < j ==> (#[trigger] self.records@[k]).key@ != key@,
            decreases self.records@.len() - j,
        {
            if crate::text::str_eq(self.records[j].key.as_str(), key) {
                proof {
                    lemma_find_key_props(self.records@, key@);
                    let f = find_key(self.records@, key@);
                    if f >= 0 && f < j as int {
                        assert(self.records@[f].key@ != key@);
                    }
                    if f > j as int {
                        assert(self.records@[j as int].key@ != key@);
                    }
                }
                return Some(j);
            }
            j = j + 1;
        }
        proof {
            lemma_find_key_props(self.records@, key@);
        }
        None
    }

    /// Store a memory: an upsert keyed by `key`. An existing record keeps
    /// its id and creation time and gets new content, category, embedding
    /// and update time; a new record is appended with a fresh id, which
    /// is unique in the table — should the drawn id already name a
    /// record, the insert is refused with [`StoreError::DuplicateId`]
    /// and nothing changes, as a primary-key table would refuse it. The
    /// embedding is computed by the caller before this call, as the
    /// engine does no I/O of its own.
    pub fn store(
        &mut self,
        key: &str,
        content: &str,
        category: MemoryCategory,
        embedding: Option<Vec<i32>>,
    ) -> (r: Result<(), StoreError>)
        requires
            old(self).wf(),
            embedding matches Some(v) ==> v@.len() <= 0x1_0000_0000,
        ensures
            final(self).wf(),
            final(self).vector_weight == old(self).vector_weight,
            final(self).keyword_weight == old(self).keyword_weight,
            final(self).cache_max == old(self).cache_max,
            final(self).dims == old(self).dims,
            final(self).cache@ == old(self).cache@,
            r is Err ==> final(self).records@ == old(self).records@ && final(self).clock == old(
                self,
            ).clock && find_key(old(self).records@, key@) == -1,
            r is Ok ==> final(self).clock == next_clock(old(self).clock) && ({
                let i = find_key(old(self).records@, key@);
                let rs = final(self).records@;
                let old_rs = old(self).records@;
                if i >= 0 {
                    &&& rs.len() == old_rs.len()
                    &&& rs[i].id@ == old_rs[i].id@
                    &&& rs[i].key@ == old_rs[i].key@
                    &&& rs[i].created_seq == old_rs[i].created_seq
                    &&& rs[i].content@ == content@
                    &&& same_category(rs[i].category, category)
                    &&& rs[i].embedding == embedding
                    &&& rs[i].updated_seq == next_clock(old(self).clock)
                    &&& forall|j: int| 0 <= j < rs.len() && j != i ==> rs[j] == old_rs[j]
                } else {
                    &&& rs.len() == old_rs.len() + 1
                    &&& (forall|j: int| 0 <= j < old_rs.len() ==> rs[j] == old_rs[j])
                    &&& rs.last().id@.len() == 36
                    &&& (forall|j: int|
                        0 <= j < old_rs.len() ==> rs.last().id@ != (#[trigger] old_rs[j]).id@)
                    &&& rs.last().key@ == key@
                    &&& rs.last().content@ == content@
                    &&& same_category(rs.last().category, category)
                    &&& rs.last().embedding == embedding
                    &&& rs.last().created_seq == next_clock(old(self).clock)
                    &&& rs.last().updated_seq == next_clock(old(self).clock)
                }
            }),
    {
        proof {
            lemma_find_key_props(self.records@, key@);
        }
        match self.find_key_exec(key) {
            Some(j) => {
                let t: u64 = if self.clock < u64::MAX {
                    self.clock + 1
                } else {
                    self.clock
                };
                self.clock = t;
                let old_id: String = self.records[j].id.clone();
                let old_key: String = self.records[j].key.clone();
                let old_created: u64 = self.records[j].created_seq;
                let new_rec = Record {
                    id: old_id,
                    key: old_key,
                    content: content.to_owned(),
                    category: copy_category(&category),
                    embedding,
                    created_seq: old_created,
                    updated_seq: t,
                };
                self.records[j] = new_rec;
                proof {
                    let rs = self.records@;
                    let old_rs = old(self).records@;
                    assert(forall|k: int| 0 <= k < rs.len() && k != j ==> rs[k] == old_rs[k]);
                    assert forall|a: int, b: int| 0 <= a < b < rs.len() implies (
                    #[trigger] rs[a]).key@ != (#[trigger] rs[b]).key@ by {
                        assert(rs[a].key@ == old_rs[a].key@);
                        assert(rs[b].key@ == old_rs[b].key@);
                    }
                    assert forall|a: int, b: int| 0 <= a < b < rs.len() implies (
                    #[trigger] rs[a]).id@ != (#[trigger] rs[b]).id@ by {
                        assert(rs[a].id@ == old_rs[a].id@);
                        assert(rs[b].id@ == old_rs[b].id@);
                    }
                }
                Ok(())
            },
            None => {
                let id = fresh_id();
                match self.find_id_exec(&id) {
                    Some(_) => Err(StoreError::DuplicateId),
                    None => {
                        proof {
                            lemma_find_rec_id_props(self.records@, id@);
                        }
                        let t: u64 = if self.clock < u64::MAX {
                            self.clock + 1
                        } else {
                            self.clock
                        };
                        self.clock = t;
                        self.records.push(
                            Record {
                                id,
                                key: key.to_owned(),
                                content: content.to_owned(),
                                category,
                                embedding,
                                created_seq: t,
                                updated_seq: t,
                            },
                        );
                        proof {
                            let rs = self.records@;
                            let old_rs = old(self).records@;
                            assert forall|a: int, b: int| 0 <= a < b < rs.len() implies (
                            #[trigger] rs[a]).key@ != (#[trigger] rs[b]).key@ by {
                                if b == rs.len() - 1 {
                                    assert(rs[a] == old_rs[a]);
                                    assert(old_rs[a].key@ != key@);
                                } else {
                                    assert(rs[a] == old_rs[a] && rs[b] == old_rs[b]);
                                }
                            }
                            assert forall|a: int, b: int| 0 <= a < b < rs.len() implies (
                            #[trigger] rs[a]).id@ != (#[trigger] rs[b]).id@ by {
                                if b == rs.len() - 1 {
                                    assert(rs[a] == old_rs[a]);
                                    assert(old_rs[a].id@ != rs[b].id@);
                                } else {
                                    assert(rs[a] == old_rs[a] && rs[b] == old_rs[b]);
                                }
                            }
                        }
                        Ok(())
                    },
                }
            },
        }
    }

    /// Look a record up by key.
    pub fn get(&self, key: &str) -> (r: Option<MemoryEntry>)
        ensures
            ({
                let i = find_key(self.records@, key@);
                match r {
                    Some(e) => {
                        &&& i >= 0
                        &&& e.id@ == self.records@[i].id@
                        &&& e.key@ == self.records@[i].key@
                        &&& e.content@ == self.records@[i].content@
                        &&& same_category(self.records@[i].category, e.category)
                        &&& e.timestamp == self.records@[i].created_seq
                        &&& e.session_id is None
                        &&& e.score is None
                    },
                    None => i == -1,
                }
            }),
    {
        match self.find_key_exec(key) {
            Some(j) => {
                proof {
                    lemma_find_key_props(self.records@, key@);
                }
                let rec = &self.records[j];
                Some(
                    MemoryEntry {
                        id: rec.id.clone(),
                        key: rec.key.clone(),
                        content: rec.content.clone(),
                        category: copy_category(&rec.category),
                        timestamp: rec.created_seq,
                        session_id: None,
                        score: None,
                    },
                )
            },
            None => None,
        }
    }

    /// Forget a record by key: delete it and say whether one was there.
    pub fn forget(&mut self, key: &str) -> (r: bool)
        requires
            old(self).wf(),
        ensures
            final(self).wf(),
            final(self).cache@ == old(self).cache@,
            final(self).clock == old(self).clock,
            final(self).vector_weight == old(self).vector_weight,
            final(self).keyword_weight == old(self).keyword_weight,
            final(self).cache_max == old(self).cache_max,
            final(self).dims == old(self).dims,
            ({
                let i = find_key(old(self).records@, key@);
                if i >= 0 {
                    r == true && final(self).records@ == old(self).records@.remove(i)
                } else {
                    r == false && final(self).records@ == old(self).records@
                }
            }),
    {
        match self.find_key_exec(key) {
            Some(j) => {
                proof {
                    lemma_find_key_props(self.records@, key@);
                }
                self.records.remove(j);
                proof {
                    let rs = self.records@;
                    let old_rs = old(self).records@;
                    assert(forall|k: int|
                        0 <= k < rs.len() ==> rs[k] == (if k < j as int {
                            old_rs[k]
                        } else {
                            old_rs[k + 1]
                        }));
                    assert forall|a: int, b: int| 0 <= a < b < rs.len() implies (
                    #[trigger] rs[a]).key@ != (#[trigger] rs[b]).key@ by {
                        let a0 = if a < j as int {
                            a
                        } else {
                            a + 1
                        };
                        let b0 = if b < j as int {
                            b
                        } else {
                            b + 1
                        };
                        assert(rs[a] == old_rs[a0] && rs[b] == old_rs[b0]);
                    }
                }
                true
            },
            None => false,
        }
    }
}

// ---------------------------------------------------------------------------
// Scored pair lists and their stable descending sort.
// ---------------------------------------------------------------------------

/// A pair inserted behind every pair scoring at least as much.
pub open spec fn insert_pair(s: Seq<(Seq<char>, u64)>, e: (Seq<char>, u64)) -> Seq<(Seq<char>, u64)>
    decreases s.len(),
{
    if s.len() == 0 {
        seq![e]
    } else if s[0].1 >= e.1 {
        seq![s[0]] + insert_pair(s.drop_first(), e)
    } else {
        seq![e] + s
    }
}

/// Stable insertion sort of scored pairs, descending by score.
pub open spec fn sort_pairs(s: Seq<(Seq<char>, u64)>) -> Seq<(Seq<char>, u64)>
    decreases s.len(),
{
    if s.len() == 0 {
        Seq::empty()
    } else {
        insert_pair(sort_pairs(s.drop_last()), s.last())
    }
}

/// The first `limit` elements, or everything when shorter.
pub open spec fn take_to(s: Seq<(Seq<char>, u64)>, limit: int) -> Seq<(Seq<char>, u64)> {
    if s.len() <= limit {
        s
    } else {
        s.take(limit)
    }
}

proof fn lemma_insert_pair_at(s: Seq<(Seq<char>, u64)>, e: (Seq<char>, u64), pos: int)
    requires
        0 <= pos <= s.len(),
        forall|k: int| 0 <= k < pos ==> (#[trigger] s[k]).1 >= e.1,
        pos < s.len() ==> s[pos].1 < e.1,
    ensures
        insert_pair(s, e) == s.insert(pos, e),
    decreases pos,
{
    if pos == 0 {
        assert(insert_pair(s, e) =~~= s.insert(0, e));
    } else {
        assert(s[0].1 >= e.1);
        let t = s.drop_first();
        assert(forall|k: int| 0 <= k < t.len() ==> (#[trigger] t[k]) == s[k + 1]);
        assert forall|k: int| 0 <= k < pos - 1 implies (#[trigger] t[k]).1 >= e.1 by {
            assert(t[k] == s[k + 1]);
        }
        if pos - 1 < t.len() {
            assert(t[pos - 1] == s[pos]);
        }
        lemma_insert_pair_at(t, e, pos - 1);
        assert(insert_pair(s, e) =~~= s.insert(pos, e));
    }
}

proof fn lemma_insert_pair_bound(s: Seq<(Seq<char>, u64)>, e: (Seq<char>, u64), b: u64)
    requires
        forall|k: int| 0 <= k < s.len() ==> (#[trigger] s[k]).1 <= b,
        e.1 <= b,
    ensures
        forall|k: int| 0 <= k < insert_pair(s, e).len() ==> (#[trigger] insert_pair(s, e)[k]).1
            <= b,
    decreases s.len(),
{
    let r = insert_pair(s, e);
    if s.len() == 0 {
    } else if s[0].1 >= e.1 {
        let t = s.drop_first();
        assert(forall|k: int| 0 <= k < t.len() ==> (#[trigger] t[k]) == s[k + 1]);
        lemma_insert_pair_bound(t, e, b);
        assert forall|k: int| 0 <= k < r.len() implies (#[trigger] r[k]).1 <= b by {
            if k > 0 {
                assert(r[k] == insert_pair(t, e)[k - 1]);
            }
        }
    } else {
        assert forall|k: int| 0 <= k < r.len() implies (#[trigger] r[k]).1 <= b by {
            if k > 0 {
                assert(r[k] == s[k - 1]);
            }
        }
    }
}

/// A sorted pair list keeps any common score bound.
pub proof fn lemma_sort_pairs_bound(s: Seq<(Seq<char>, u64)>, b: u64)
    requires
        forall|k: int| 0 <= k < s.len() ==> (#[trigger] s[k]).1 <= b,
    ensures
        forall|k: int| 0 <= k < sort_pairs(s).len() ==> (#[trigger] sort_pairs(s)[k]).1 <= b,
    decreases s.len(),
{
    if s.len() > 0 {
        assert(forall|k: int|
            0 <= k < s.drop_last().len() ==> (#[trigger] s.drop_last()[k]).1 <= b);
        lemma_sort_pairs_bound(s.drop_last(), b);
        lemma_insert_pair_bound(sort_pairs(s.drop_last()), s.last(), b);
        assert(sort_pairs(s) == insert_pair(sort_pairs(s.drop_last()), s.last()));
    }
}

/// Stable descending sort of scored pairs.
fn sort_pairs_desc(v: Vec<(String, u64)>) -> (r: Vec<(String, u64)>)
    ensures
        crate::fusion::pairs(r@) == sort_pairs(crate::fusion::pairs(v@)),
        r@.len() == v@.len(),
{
    let ghost vp = crate::fusion::pairs(v@);
    let mut r: Vec<(String, u64)> = Vec::new();
    let mut i: usize = 0;
    while i < v.len()
        invariant
            i <= v@.len(),
            vp == crate::fusion::pairs(v@),
            r@.len() == i as int,
            crate::fusion::pairs(r@) == sort_pairs(vp.take(i as int)),
        decreases v@.len() - i,
    {
        let sc: u64 = v[i].1;
        let mut pos: usize = 0;
        while pos < r.len() && r[pos].1 >= sc
            invariant
                i < v@.len(),
                sc == v@[i as int].1,
                r@.len() <= v@.len(),
                pos <= r@.len(),
                forall|k: int| 0 <= k < pos ==> (#[trigger] crate::fusion::pairs(r@)[k]).1 >= sc,
            decreases r@.len() - pos,
        {
            proof {
                assert(crate::fusion::pairs(r@)[pos as int] == (r@[pos as int].0@, r@[
                pos as int].1));
            }
            pos = pos + 1;
        }
        let ghost prev = crate::fusion::pairs(r@);
        proof {
            if pos < r@.len() {
                assert(prev[pos as int] == (r@[pos as int].0@, r@[pos as int].1));
            }
            lemma_insert_pair_at(prev, (v@[i as int].0@, sc), pos as int);
            assert(vp.take(i + 1 as int).drop_last() =~~= vp.take(i as int));
            assert(vp.take(i + 1 as int).last() == vp[i as int]);
            assert(vp[i as int] == (v@[i as int].0@, v@[i as int].1));
        }
        let cid: String = v[i].0.clone();
        r.insert(pos, (cid, sc));
        proof {
            assert(crate::fusion::pairs(r@) =~~= prev.insert(pos as int, (v@[i as int].0@, sc)));
            assert(crate::fusion::pairs(r@) =~~= sort_pairs(vp.take(i + 1 as int)));
        }
        i = i + 1;
    }
    proof {
        assert(vp.take(vp.len() as int) =~~= vp);
    }
    r
}

// ---------------------------------------------------------------------------
// Keyword search.
// ---------------------------------------------------------------------------

/// A record matches a token when the token occurs among the
/// whitespace-separated tokens of its key or of its content.
pub open spec fn kw_match(rec: Record, tok: Seq<char>) -> bool {
    crate::text::tokens(rec.key@).contains(tok) || crate::text::tokens(rec.content@).contains(tok)
}

/// How many of the query tokens a record matches. This count is the
/// engine's lexical score, a deliberate integer stand-in for the
/// dropped full-text index's BM25 weighting, which is float-valued and
/// tied to that index's statistics: it is zero exactly when no query
/// token matches, grows with the number of matching terms, and — like
/// raw BM25 scores — is normalized per query by its maximum inside the
/// fusion, so only its relative order enters the ranking.
pub open spec fn kw_count(rec: Record, toks: Seq<Seq<char>>) -> int
    decreases toks.len(),
{
    if toks.len() == 0 {
        0
    } else {
        (if kw_match(rec, toks[0]) {
            1int
        } else {
            0int
        }) + kw_count(rec, toks.drop_first())
    }
}

/// The lexical scores: for each record matching at least one token, in
/// table order, its id and its match count.
pub open spec fn kw_scores(rs: Seq<Record>, toks: Seq<Seq<char>>) -> Seq<(Seq<char>, u64)>
    decreases rs.len(),
{
    if rs.len() == 0 {
        Seq::empty()
    } else {
        let pre = kw_scores(rs.drop_last(), toks);
        if kw_count(rs.last(), toks) > 0 {
            pre.push((rs.last().id@, kw_count(rs.last(), toks) as u64))
        } else {
            pre
        }
    }
}

fn token_list_contains(ts: &Vec<String>, tok: &str) -> (r: bool)
    ensures
        r == ts@.map_values(|t: String| t@).contains(tok@),
{
    let ghost tv = ts@.map_values(|t: String| t@);
    let mut k: usize = 0;
    while k < ts.len()
        invariant
            tv == ts@.map_values(|t: String| t@),
            k <= ts@.len(),
            forall|q: int| 0 <= q < k ==> (#[trigger] tv[q]) != tok@,
        decreases ts@.len() - k,
    {
        if crate::text::str_eq(ts[k].as_str(), tok) {
            proof {
                assert(tv[k as int] == tok@);
            }
            return true;
        }
        proof {
            assert(tv[k as int] == ts@[k as int]@);
        }
        k = k + 1;
    }
    proof {
        if tv.contains(tok@) {
            let w = choose|q: int| 0 <= q < tv.len() && tv[q] == tok@;
            assert(tv[w] != tok@);
        }
    }
    false
}

fn record_kw_count(rec: &Record, toks: &Vec<String>) -> (r: u64)
    ensures
        r == kw_count(*rec, toks@.map_values(|t: String| t@)),
        r <= toks@.len(),
{
    let ghost tv = toks@.map_values(|t: String| t@);
    let key_toks = crate::text::tokenize(rec.key.as_str());
    let content_toks = crate::text::tokenize(rec.content.as_str());
    let mut n: u64 = 0;
    let mut k: usize = 0;
    while k < toks.len()
        invariant
            tv == toks@.map_values(|t: String| t@),
            k <= toks@.len(),
            key_toks@.map_values(|t: String| t@) == crate::text::tokens(rec.key@),
            content_toks@.map_values(|t: String| t@) == crate::text::tokens(rec.content@),
            n == kw_count(*rec, tv.take(k as int)),
            n <= k,
        decreases toks@.len() - k,
    {
        proof {
            assert(tv.take(k + 1 as int).drop_last() =~~= tv.take(k as int));
            lemma_kw_count_push(*rec, tv.take(k as int), tv[k as int]);
            assert(tv.take(k + 1 as int) =~~= tv.take(k as int).push(tv[k as int]));
            assert(tv[k as int] == toks@[k as int]@);
        }
        let hit = token_list_contains(&key_toks, toks[k].as_str()) || token_list_contains(
            &content_toks,
            toks[k].as_str(),
        );
        if hit {
            n = n + 1;
        }
        k = k + 1;
    }
    proof {
        assert(tv.take(tv.len() as int) =~~= tv);
    }
    n
}

proof fn lemma_kw_count_push(rec: Record, toks: Seq<Seq<char>>, t: Seq<char>)
    ensures
        kw_count(rec, toks.push(t)) == kw_count(rec, toks) + (if kw_match(rec, t) {
            1int
        } else {
            0int
        }),
    decreases toks.len(),
{
    if toks.len() == 0 {
        assert(toks.push(t)[0] == t);
        assert(toks.push(t).drop_first() =~~= Seq::<Seq<char>>::empty());
        assert(kw_count(rec, Seq::<Seq<char>>::empty()) == 0);
        assert(kw_count(rec, toks) == 0);
        assert(kw_count(rec, toks.push(t)) == (if kw_match(rec, t) {
            1int
        } else {
            0int
        }) + kw_count(rec, toks.push(t).drop_first()));
    } else {
        assert(toks.push(t)[0] == toks[0]);
        assert(toks.push(t).drop_first() =~~= toks.drop_first().push(t));
        lemma_kw_count_push(rec, toks.drop_first(), t);
    }
}

/// Non-negativity of the match count.
proof fn lemma_kw_count_nonneg(rec: Record, toks: Seq<Seq<char>>)
    ensures
        0 <= kw_count(rec, toks) <= toks.len(),
    decreases toks.len(),
{
    if toks.len() > 0 {
        lemma_kw_count_nonneg(rec, toks.drop_first());
    }
}

impl MemoryStore {
    /// Lexical search: score every record by how many query tokens it
    /// matches, keep the matches, rank them descending (stably), and cut
    /// at `cap`.
    pub fn keyword_search(&self, toks: &Vec<String>, cap: usize) -> (r: Vec<(String, u64)>)
        ensures
            crate::fusion::pairs(r@) == take_to(
                sort_pairs(kw_scores(self.records@, toks@.map_values(|t: String| t@))),
                cap as int,
            ),
    {
        let ghost tv = toks@.map_values(|t: String| t@);
        let mut scored: Vec<(String, u64)> = Vec::new();
        let mut i: usize = 0;
        while i < self.records.len()
            invariant
                tv == toks@.map_values(|t: String| t@),
                i <= self.records@.len(),
                crate::fusion::pairs(scored@) == kw_scores(self.records@.take(i as int), tv),
            decreases self.records@.len() - i,
        {
            let c: u64 = record_kw_count(&self.records[i], toks);
            proof {
                assert(self.records@.take(i + 1 as int).drop_last() =~~= self.records@.take(
                    i as int,
                ));
                assert(self.records@.take(i + 1 as int).last() == self.records@[i as int]);
                lemma_kw_count_nonneg(self.records@[i as int], tv);
            }
            if c > 0 {
                let ghost prev = crate::fusion::pairs(scored@);
                scored.push((self.records[i].id.clone(), c));
                proof {
                    assert(crate::fusion::pairs(scored@) =~~= prev.push(
                        (self.records@[i as int].id@, c),
                    ));
                    assert(crate::fusion::pairs(scored@) =~~= kw_scores(
                        self.records@.take(i + 1 as int),
                        tv,
                    ));
                }
            }
            i = i + 1;
        }
        proof {
            assert(self.records@.take(self.records@.len() as int) =~~= self.records@);
        }
        let sorted = sort_pairs_desc(scored);
        let mut out = sorted;
        if out.len() > cap {
            let ghost pre = crate::fusion::pairs(out@);
            out.truncate(cap);
            proof {
                assert(crate::fusion::pairs(out@) =~~= pre.take(cap as int));
            }
        }
        out
    }

    /// Semantic search: score every embedded record by cosine similarity
    /// to the query vector, keep the strictly positive ones, rank them
    /// descending (stably), and cut at `cap`.
    pub fn vector_search(&self, q: &Vec<i32>, cap: usize) -> (r: Vec<(String, u64)>)
        requires
            self.wf(),
            q@.len() <= 0x1_0000_0000,
        ensures
            crate::fusion::pairs(r@) == take_to(
                sort_pairs(vec_scores(self.records@, q@)),
                cap as int,
            ),
            forall|k: int| 0 <= k < r@.len() ==> (#[trigger] r@[k]).1 <= SCALE,
    {
        let mut scored: Vec<(String, u64)> = Vec::new();
        let mut i: usize = 0;
        while i < self.records.len()
            invariant
                self.wf(),
                q@.len() <= 0x1_0000_0000,
                i <= self.records@.len(),
                crate::fusion::pairs(scored@) == vec_scores(self.records@.take(i as int), q@),
                forall|k: int| 0 <= k < scored@.len() ==> (#[trigger] scored@[k]).1 <= SCALE,
            decreases self.records@.len() - i,
        {
            proof {
                assert(self.records@.take(i + 1 as int).drop_last() =~~= self.records@.take(
                    i as int,
                ));
                assert(self.records@.take(i + 1 as int).last() == self.records@[i as int]);
            }
            match &self.records[i].embedding {
                Some(emb) => {
                    let sim: u64 = crate::vector::cosine_similarity(q, emb);
                    if sim > 0 {
                        let ghost prev = crate::fusion::pairs(scored@);
                        scored.push((self.records[i].id.clone(), sim));
                        proof {
                            assert(crate::fusion::pairs(scored@) =~~= prev.push(
                                (self.records@[i as int].id@, sim),
                            ));
                            assert(crate::fusion::pairs(scored@) =~~= vec_scores(
                                self.records@.take(i + 1 as int),
                                q@,
                            ));
                        }
                    }
                },
                None => {},
            }
            i = i + 1;
        }
        proof {
            assert(self.records@.take(self.records@.len() as int) =~~= self.records@);
            lemma_sort_pairs_bound(crate::fusion::pairs(scored@), SCALE);
        }
        let sorted = sort_pairs_desc(scored);
        let mut out = sorted;
        if out.len() > cap {
            let ghost pre = crate::fusion::pairs(out@);
            out.truncate(cap);
            proof {
                assert(crate::fusion::pairs(out@) =~~= pre.take(cap as int));
            }
        }
        proof {
            let sp = sort_pairs(vec_scores(self.records@, q@));
            assert forall|k: int| 0 <= k < out@.len() implies (#[trigger] out@[k]).1 <= SCALE by {
                assert(crate::fusion::pairs(out@)[k] == (out@[k].0@, out@[k].1));
                assert(crate::fusion::pairs(out@)[k] == take_to(sp, cap as int)[k]);
                if sp.len() <= cap as int {
                    assert(take_to(sp, cap as int)[k] == sp[k]);
                } else {
                    assert(take_to(sp, cap as int)[k] == sp[k]);
                }
            }
        }
        out
    }
}

/// The semantic scores: for each record holding an embedding whose
/// cosine similarity to the query is strictly positive, in table order,
/// its id and that similarity.
pub open spec fn vec_scores(rs: Seq<Record>, q: Seq<i32>) -> Seq<(Seq<char>, u64)>
    decreases rs.len(),
{
    if rs.len() == 0 {
        Seq::empty()
    } else {
        let pre = vec_scores(rs.drop_last(), q);
        match rs.last().embedding {
            Some(v) => {
                if crate::vector::cosine_spec(q, v@) > 0 {
                    pre.push((rs.last().id@, crate::vector::cosine_spec(q, v@)))
                } else {
                    pre
                }
            },
            None => pre,
        }
    }
}

// ---------------------------------------------------------------------------
// Hydration, listing, recall.
// ---------------------------------------------------------------------------

use crate::fusion::ScoredView;
use crate::fusion::ScoredResult;

/// Resolution of ranked entries against the table: for each entry whose
/// id resolves to a record (first match), in rank order, the record's
/// index and the entry's final score. Entries of unknown ids are skipped.
pub open spec fn hyd_views(rs: Seq<Record>, ms: Seq<ScoredView>) -> Seq<(int, u64)>
    decreases ms.len(),
{
    if ms.len() == 0 {
        Seq::empty()
    } else {
        let pre = hyd_views(rs, ms.drop_last());
        let i = find_rec_id(rs, ms.last().id);
        if i >= 0 {
            pre.push((i, ms.last().final_score))
        } else {
            pre
        }
    }
}

/// The entry a caller sees for a record found with a score.
pub open spec fn entry_scored(e: MemoryEntry, rec: Record, sc: u64) -> bool {
    &&& e.id@ == rec.id@
    &&& e.key@ == rec.key@
    &&& e.content@ == rec.content@
    &&& same_category(rec.category, e.category)
    &&& e.timestamp == rec.created_seq
    &&& e.session_id is None
    &&& e.score == Some(sc)
}

/// The entry a caller sees for a record found without a score.
pub open spec fn entry_plain(e: MemoryEntry, rec: Record) -> bool {
    &&& e.id@ == rec.id@
    &&& e.key@ == rec.key@
    &&& e.content@ == rec.content@
    &&& same_category(rec.category, e.category)
    &&& e.timestamp == rec.created_seq
    &&& e.session_id is None
    &&& e.score is None
}

/// Keyword results adopted unfused: each keeps its raw score as the
/// final score.
pub open spec fn kw_only_views(ks: Seq<(Seq<char>, u64)>) -> Seq<ScoredView> {
    ks.map_values(
        |p: (Seq<char>, u64)|
            ScoredView { id: p.0, vector_score: None, keyword_score: Some(p.1), final_score: p.1 },
    )
}

/// A record matches the fallback when any query token occurs as a
/// substring of its content or of its key.
pub open spec fn like_match(rec: Record, toks: Seq<Seq<char>>) -> bool {
    exists|k: int|
        0 <= k < toks.len() && (crate::text::contains_sub(rec.content@, #[trigger] toks[k])
            || crate::text::contains_sub(rec.key@, toks[k]))
}

/// The fallback candidates: id and update time of every matching record,
/// in table order.
pub open spec fn like_pairs(rs: Seq<Record>, toks: Seq<Seq<char>>) -> Seq<(Seq<char>, u64)>
    decreases rs.len(),
{
    if rs.len() == 0 {
        Seq::empty()
    } else {
        let pre = like_pairs(rs.drop_last(), toks);
        if like_match(rs.last(), toks) {
            pre.push((rs.last().id@, rs.last().updated_seq))
        } else {
            pre
        }
    }
}

/// Fallback candidates as ranked entries, each carrying the full score.
pub open spec fn like_views(ps: Seq<(Seq<char>, u64)>) -> Seq<ScoredView> {
    ps.map_values(
        |p: (Seq<char>, u64)|
            ScoredView { id: p.0, vector_score: None, keyword_score: None, final_score: SCALE },
    )
}

/// The whole recall, resolved to record indices and scores: lexical
/// search, semantic search when a query embedding exists, fusion (or
/// keyword-only adoption), hydration, the substring fallback when
/// hydration found nothing, and the final cut.
pub open spec fn recall_plan(
    rs: Seq<Record>,
    q: Seq<char>,
    qemb: Option<Seq<i32>>,
    vw: u64,
    kw: u64,
    limit: int,
) -> Seq<(int, u64)> {
    let toks = crate::text::tokens(q);
    let kws = take_to(sort_pairs(kw_scores(rs, toks)), 2 * limit);
    let vecs = match qemb {
        Some(e) => take_to(sort_pairs(vec_scores(rs, e)), 2 * limit),
        None => Seq::empty(),
    };
    let merged = if vecs.len() == 0 {
        kw_only_views(kws)
    } else {
        crate::fusion::merge_spec(vecs, kws, vw, kw, limit)
    };
    let hyd = hyd_views(rs, merged);
    let base = if hyd.len() == 0 {
        hyd_views(rs, like_views(take_to(sort_pairs(like_pairs(rs, toks)), limit)))
    } else {
        hyd
    };
    if base.len() <= limit {
        base
    } else {
        base.take(limit)
    }
}

impl MemoryStore {
    /// Build caller entries for ranked results, skipping unknown ids.
    fn hydrate(&self, merged: &Vec<ScoredResult>) -> (r: Vec<MemoryEntry>)
        ensures
            ({
                let plan = hyd_views(self.records@, crate::fusion::views(merged@));
                &&& r@.len() == plan.len()
                &&& forall|k: int|
                    0 <= k < plan.len() ==> 0 <= (#[trigger] plan[k]).0 < self.records@.len()
                        && entry_scored(r@[k], self.records@[plan[k].0], plan[k].1)
            }),
    {
        let ghost mv = crate::fusion::views(merged@);
        let mut r: Vec<MemoryEntry> = Vec::new();
        let mut i: usize = 0;
        while i < merged.len()
            invariant
                mv == crate::fusion::views(merged@),
                i <= merged@.len(),
                ({
                    let plan = hyd_views(self.records@, mv.take(i as int));
                    &&& r@.len() == plan.len()
                    &&& forall|k: int|
                        0 <= k < plan.len() ==> 0 <= (#[trigger] plan[k]).0 < self.records@.len()
                            && entry_scored(r@[k], self.records@[plan[k].0], plan[k].1)
                }),
            decreases merged@.len() - i,
        {
            proof {
                assert(mv.take(i + 1 as int).drop_last() =~~= mv.take(i as int));
                assert(mv.take(i + 1 as int).last() == mv[i as int]);
                assert(mv[i as int] == merged@[i as int]@);
            }
            match self.find_id_exec(&merged[i].id) {
                Some(j) => {
                    let rec = &self.records[j];
                    let sc: u64 = merged[i].final_score;
                    r.push(
                        MemoryEntry {
                            id: rec.id.clone(),
                            key: rec.key.clone(),
                            content: rec.content.clone(),
                            category: copy_category(&rec.category),
                            timestamp: rec.created_seq,
                            session_id: None,
                            score: Some(sc),
                        },
                    );
                    proof {
                        let plan = hyd_views(self.records@, mv.take(i + 1 as int));
                        assert(plan =~~= hyd_views(self.records@, mv.take(i as int)).push(
                            (j as int, sc),
                        ));
                    }
                },
                None => {
                    proof {
                        assert(hyd_views(self.records@, mv.take(i + 1 as int)) =~~= hyd_views(
                            self.records@,
                            mv.take(i as int),
                        ));
                    }
                },
            }
            i = i + 1;
        }
        proof {
            assert(mv.take(mv.len() as int) =~~= mv);
        }
        r
    }

    fn find_id_exec(&self, id: &String) -> (r: Option<usize>)
        ensures
            match r {
                Some(j) => j == find_rec_id(self.records@, id@) && j < self.records@.len(),
                None => find_rec_id(self.records@, id@) == -1,
            },
    {
        let mut j: usize = 0;
        while j < self.records.len()
            invariant
                j <= self.records@.len(),
                forall|k: int| 0 <= k < j ==> (#[trigger] self.records@[k]).id@ != id@,
            decreases self.records@.len() - j,
        {
            if crate::text::str_eq(self.records[j].id.as_str(), id.as_str()) {
                proof {
                    lemma_find_rec_id_props(self.records@, id@);
                    let f = find_rec_id(self.records@, id@);
                    if f >= 0 && f < j as int {
                        assert(self.records@[f].id@ != id@);
                    }
                    if f > j as int {
                        assert(self.records@[j as int].id@ != id@);
                    }
                }
                return Some(j);
            }
            j = j + 1;
        }
        proof {
            lemma_find_rec_id_props(self.records@, id@);
        }
        None
    }

    /// Recall the memories matching a free-form query. A blank query
    /// returns nothing. The query embedding, if any, is computed by the
    /// caller before this call (through the cache), so that no I/O
    /// happens while the table is borrowed.
    pub fn recall(&self, query: &str, query_embedding: Option<&Vec<i32>>, limit: usize) -> (r: Vec<
        MemoryEntry,
    >)
        requires
            self.wf(),
            limit <= usize::MAX / 2,
            query_embedding matches Some(v) ==> v@.len() <= 0x1_0000_0000,
        ensures
            crate::text::all_ws(query@) ==> r@.len() == 0,
            !crate::text::all_ws(query@) ==> ({
                let plan = recall_plan(
                    self.records@,
                    query@,
                    match query_embedding {
                        Some(v) => Some(v@),
                        None => None,
                    },
                    self.vector_weight,
                    self.keyword_weight,
                    limit as int,
                );
                &&& r@.len() == plan.len()
                &&& forall|k: int|
                    0 <= k < plan.len() ==> 0 <= (#[trigger] plan[k]).0 < self.records@.len()
                        && entry_scored(r@[k], self.records@[plan[k].0], plan[k].1)
            }),
    {
        if crate::text::is_blank(query) {
            return Vec::new();
        }
        let toks = crate::text::tokenize(query);
        let cap: usize = limit * 2;
        let keyword_results = self.keyword_search(&toks, cap);
        let vector_results: Vec<(String, u64)> = match query_embedding {
            Some(qe) => self.vector_search(qe, cap),
            None => Vec::new(),
        };
        let ghost tv = toks@.map_values(|t: String| t@);
        proof {
            assert(tv =~~= crate::text::tokens(query@));
        }
        let merged: Vec<ScoredResult> = if vector_results.len() == 0 {
            let mut m: Vec<ScoredResult> = Vec::new();
            let mut i: usize = 0;
            while i < keyword_results.len()
                invariant
                    i <= keyword_results@.len(),
                    m@.len() == i as int,
                    crate::fusion::views(m@) == kw_only_views(
                        crate::fusion::pairs(keyword_results@),
                    ).take(i as int),
                decreases keyword_results@.len() - i,
            {
                let sc: u64 = keyword_results[i].1;
                m.push(
                    ScoredResult {
                        id: keyword_results[i].0.clone(),
                        vector_score: None,
                        keyword_score: Some(sc),
                        final_score: sc,
                    },
                );
                proof {
                    assert(crate::fusion::pairs(keyword_results@)[i as int] == (keyword_results@[
                    i as int].0@, keyword_results@[i as int].1));
                    assert(crate::fusion::views(m@).len() == m@.len());
                    assert(crate::fusion::views(m@)[i as int] == m@[i as int]@);
                    assert(crate::fusion::views(m@) =~~= kw_only_views(
                        crate::fusion::pairs(keyword_results@),
                    ).take(i + 1 as int));
                }
                i = i + 1;
            }
            proof {
                let kv = kw_only_views(crate::fusion::pairs(keyword_results@));
                assert(kv.take(kv.len() as int) =~~= kv);
            }
            m
        } else {
            crate::fusion::hybrid_merge(
                &vector_results,
                &keyword_results,
                self.vector_weight,
                self.keyword_weight,
                limit,
            )
        };
        let hydrated = self.hydrate(&merged);
        let mut results = if hydrated.len() == 0 {
            let like = self.like_candidates(&toks, limit);
            self.hydrate(&like)
        } else {
            hydrated
        };
        if results.len() > limit {
            let ghost pre = results@;
            results.truncate(limit);
            proof {
                let plan = recall_plan(
                    self.records@,
                    query@,
                    match query_embedding {
                        Some(v) => Some(v@),
                        None => None,
                    },
                    self.vector_weight,
                    self.keyword_weight,
                    limit as int,
                );
                assert(results@ =~~= pre.take(limit as int));
            }
        }
        results
    }

    /// Fallback candidates: records with a substring hit, ranked by
    /// update time, as full-score entries.
    fn like_candidates(&self, toks: &Vec<String>, limit: usize) -> (r: Vec<ScoredResult>)
        ensures
            crate::fusion::views(r@) == like_views(
                take_to(
                    sort_pairs(like_pairs(self.records@, toks@.map_values(|t: String| t@))),
                    limit as int,
                ),
            ),
    {
        let ghost tv = toks@.map_values(|t: String| t@);
        let mut cand: Vec<(String, u64)> = Vec::new();
        let mut i: usize = 0;
        while i < self.records.len()
            invariant
                tv == toks@.map_values(|t: String| t@),
                i <= self.records@.len(),
                crate::fusion::pairs(cand@) == like_pairs(self.records@.take(i as int), tv),
            decreases self.records@.len() - i,
        {
            proof {
                assert(self.records@.take(i + 1 as int).drop_last() =~~= self.records@.take(
                    i as int,
                ));
                assert(self.records@.take(i + 1 as int).last() == self.records@[i as int]);
            }
            let rec = &self.records[i];
            let mut hit: bool = false;
            let mut k: usize = 0;
            while k < toks.len() && !hit
                invariant
                    tv == toks@.map_values(|t: String| t@),
                    i < self.records@.len(),
                    rec == &self.records[i as int],
                    k <= toks@.len(),
                    hit ==> like_match(self.records@[i as int], tv),
                    !hit ==> forall|q: int|
                        0 <= q < k ==> !(crate::text::contains_sub(
                            self.records@[i as int].content@,
                            #[trigger] tv[q],
                        ) || crate::text::contains_sub(self.records@[i as int].key@, tv[q])),
                decreases toks@.len() - k,
            {
                let c1 = crate::text::contains_substring(rec.content.as_str(), toks[k].as_str());
                let c2 = crate::text::contains_substring(rec.key.as_str(), toks[k].as_str());
                proof {
                    assert(tv[k as int] == toks@[k as int]@);
                }
                if c1 || c2 {
                    hit = true;
                }
                k = k + 1;
            }
            proof {
                if !hit {
                    assert(!like_match(self.records@[i as int], tv));
                }
            }
            if hit {
                let ghost prev = crate::fusion::pairs(cand@);
                cand.push((rec.id.clone(), rec.updated_seq));
                proof {
                    assert(crate::fusion::pairs(cand@) =~~= prev.push(
                        (self.records@[i as int].id@, self.records@[i as int].updated_seq),
                    ));
                    assert(crate::fusion::pairs(cand@) =~~= like_pairs(
                        self.records@.take(i + 1 as int),
                        tv,
                    ));
                }
            }
            i = i + 1;
        }
        proof {
            assert(self.records@.take(self.records@.len() as int) =~~= self.records@);
        }
        let sorted = sort_pairs_desc(cand);
        let mut cut = sorted;
        if cut.len() > limit {
            let ghost pre = crate::fusion::pairs(cut@);
            cut.truncate(limit);
            proof {
                assert(crate::fusion::pairs(cut@) =~~= pre.take(limit as int));
            }
        }
        let mut r: Vec<ScoredResult> = Vec::new();
        let mut i: usize = 0;
        while i < cut.len()
            invariant
                i <= cut@.len(),
                r@.len() == i as int,
                crate::fusion::views(r@) == like_views(crate::fusion::pairs(cut@)).take(i as int),
            decreases cut@.len() - i,
        {
            r.push(
                ScoredResult {
                    id: cut[i].0.clone(),
                    vector_score: None,
                    keyword_score: None,
                    final_score: SCALE,
                },
            );
            proof {
                assert(crate::fusion::pairs(cut@)[i as int] == (cut@[i as int].0@, cut@[
                i as int].1));
                assert(crate::fusion::views(r@).len() == r@.len());
                assert(crate::fusion::views(r@)[i as int] == r@[i as int]@);
                assert(crate::fusion::views(r@) =~~= like_views(crate::fusion::pairs(cut@)).take(
                    i + 1 as int,
                ));
            }
            i = i + 1;
        }
        proof {
            let lv = like_views(crate::fusion::pairs(cut@));
            assert(lv.take(lv.len() as int) =~~= lv);
        }
        r
    }

    /// List records, optionally filtered by category, ordered by update
    /// time, newest first.
    pub fn list(&self, category: Option<&MemoryCategory>) -> (r: Vec<MemoryEntry>)
        ensures
            ({
                let cat = match category {
                    Some(c) => Some(*c),
                    None => None,
                };
                let plan = hyd_views(
                    self.records@,
                    like_views(sort_pairs(list_pairs(self.records@, cat))),
                );
                &&& r@.len() == plan.len()
                &&& forall|k: int|
                    0 <= k < plan.len() ==> 0 <= (#[trigger] plan[k]).0 < self.records@.len()
                        && entry_plain(r@[k], self.records@[plan[k].0])
            }),
    {
        let ghost cat = match category {
            Some(c) => Some(*c),
            None => None,
        };
        let mut cand: Vec<(String, u64)> = Vec::new();
        let mut i: usize = 0;
        while i < self.records.len()
            invariant
                cat == (match category {
                    Some(c) => Some(*c),
                    None => None,
                }),
                i <= self.records@.len(),
                crate::fusion::pairs(cand@) == list_pairs(self.records@.take(i as int), cat),
            decreases self.records@.len() - i,
        {
            proof {
                assert(self.records@.take(i + 1 as int).drop_last() =~~= self.records@.take(
                    i as int,
                ));
                assert(self.records@.take(i + 1 as int).last() == self.records@[i as int]);
            }
            let rec = &self.records[i];
            let keep: bool = match category {
                Some(c) => cat_eq(c, &rec.category),
                None => true,
            };
            if keep {
                let ghost prev = crate::fusion::pairs(cand@);
                cand.push((rec.id.clone(), rec.updated_seq));
                proof {
                    assert(crate::fusion::pairs(cand@) =~~= prev.push(
                        (self.records@[i as int].id@, self.records@[i as int].updated_seq),
                    ));
                    assert(crate::fusion::pairs(cand@) =~~= list_pairs(
                        self.records@.take(i + 1 as int),
                        cat,
                    ));
                }
            }
            i = i + 1;
        }
        proof {
            assert(self.records@.take(self.records@.len() as int) =~~= self.records@);
        }
        let sorted = sort_pairs_desc(cand);
        let mut scored: Vec<ScoredResult> = Vec::new();
        let mut i: usize = 0;
        while i < sorted.len()
            invariant
                i <= sorted@.len(),
                scored@.len() == i as int,
                crate::fusion::views(scored@) == like_views(crate::fusion::pairs(sorted@)).take(
                    i as int,
                ),
            decreases sorted@.len() - i,
        {
            scored.push(
                ScoredResult {
                    id: sorted[i].0.clone(),
                    vector_score: None,
                    keyword_score: None,
                    final_score: SCALE,
                },
            );
            proof {
                assert(crate::fusion::pairs(sorted@)[i as int] == (sorted@[i as int].0@, sorted@[
                i as int].1));
                assert(crate::fusion::views(scored@).len() == scored@.len());
                assert(crate::fusion::views(scored@)[i as int] == scored@[i as int]@);
                assert(crate::fusion::views(scored@) =~~= like_views(
                    crate::fusion::pairs(sorted@),
                ).take(i + 1 as int));
            }
            i = i + 1;
        }
        proof {
            let lv = like_views(crate::fusion::pairs(sorted@));
            assert(lv.take(lv.len() as int) =~~= lv);
        }
        let with_scores = self.hydrate(&scored);
        let mut r: Vec<MemoryEntry> = Vec::new();
        let mut i: usize = 0;
        while i < with_scores.len()
            invariant
                i <= with_scores@.len(),
                r@.len() == i as int,
                ({
                    let plan = hyd_views(
                        self.records@,
                        crate::fusion::views(scored@),
                    );
                    &&& with_scores@.len() == plan.len()
                    &&& forall|k: int|
                        0 <= k < plan.len() ==> 0 <= (#[trigger] plan[k]).0 < self.records@.len()
                            && entry_scored(with_scores@[k], self.records@[plan[k].0], plan[k].1)
                }),
                ({
                    let plan = hyd_views(
                        self.records@,
                        crate::fusion::views(scored@),
                    );
                    forall|k: int|
                        0 <= k < i ==> 0 <= (#[trigger] plan[k]).0 < self.records@.len()
                            && entry_plain(r@[k], self.records@[plan[k].0])
                }),
            decreases with_scores@.len() - i,
        {
            let e = &with_scores[i];
            r.push(
                MemoryEntry {
                    id: e.id.clone(),
                    key: e.key.clone(),
                    content: e.content.clone(),
                    category: copy_category(&e.category),
                    timestamp: e.timestamp,
                    session_id: None,
                    score: None,
                },
            );
            proof {
                let plan = hyd_views(self.records@, crate::fusion::views(scored@));
                assert(entry_scored(with_scores@[i as int], self.records@[plan[i as int].0], plan[
                i as int].1));
            }
            i = i + 1;
        }
        r
    }
}

// ---------------------------------------------------------------------------
// The embedding cache.
// ---------------------------------------------------------------------------

/// Index of the first cache entry with `hash`, or -1.
pub open spec fn find_hash(cs: Seq<CacheEntry>, hash: Seq<char>) -> int
    decreases cs.len(),
{
    if cs.len() == 0 {
        -1
    } else if cs[0].hash@ == hash {
        0
    } else {
        let r = find_hash(cs.drop_first(), hash);
        if r < 0 {
            -1
        } else {
            r + 1
        }
    }
}

pub proof fn lemma_find_hash_props(cs: Seq<CacheEntry>, hash: Seq<char>)
    ensures
        find_hash(cs, hash) == -1 <==> (forall|k: int|
            0 <= k < cs.len() ==> (#[trigger] cs[k]).hash@ != hash),
        find_hash(cs, hash) != -1 ==> 0 <= find_hash(cs, hash) < cs.len() && cs[find_hash(
            cs,
            hash,
        )].hash@ == hash && (forall|k: int|
            0 <= k < find_hash(cs, hash) ==> (#[trigger] cs[k]).hash@ != hash),
    decreases cs.len(),
{
    if cs.len() > 0 {
        lemma_find_hash_props(cs.drop_first(), hash);
        let t = cs.drop_first();
        assert(forall|k: int| 0 <= k < t.len() ==> (#[trigger] t[k]) == cs[k + 1]);
        if cs[0].hash@ == hash {
        } else {
            let r = find_hash(t, hash);
            if r < 0 {
                assert forall|k: int| 0 <= k < cs.len() implies (#[trigger] cs[k]).hash@
                    != hash by {
                    if k > 0 {
                        assert(t[k - 1] == cs[k]);
                    }
                }
            } else {
                assert(cs[r + 1].hash@ == hash);
                assert forall|k: int| 0 <= k < r + 1 implies (#[trigger] cs[k]).hash@ != hash by {
                    if k > 0 {
                        assert(t[k - 1] == cs[k]);
                    }
                }
            }
        }
    }
}

/// Index of the first entry with the smallest access time: the eviction
/// victim.
pub open spec fn min_accessed_idx(cs: Seq<CacheEntry>) -> int
    decreases cs.len(),
{
    if cs.len() <= 1 {
        0
    } else {
        let m = min_accessed_idx(cs.drop_last());
        if cs.last().accessed_seq < cs[m].accessed_seq {
            cs.len() - 1
        } else {
            m
        }
    }
}

pub proof fn lemma_min_accessed_idx_range(cs: Seq<CacheEntry>)
    requires
        cs.len() > 0,
    ensures
        0 <= min_accessed_idx(cs) < cs.len(),
    decreases cs.len(),
{
    if cs.len() > 1 {
        lemma_min_accessed_idx_range(cs.drop_last());
    }
}

/// Oldest-first eviction until the bound holds.
pub open spec fn evict(cs: Seq<CacheEntry>, max: int) -> Seq<CacheEntry>
    decreases cs.len(),
    when 0 <= max
    via evict_decreases
{
    if cs.len() <= max {
        cs
    } else {
        evict(cs.remove(min_accessed_idx(cs)), max)
    }
}

#[via_fn]
proof fn evict_decreases(cs: Seq<CacheEntry>, max: int) {
    if cs.len() > max {
        lemma_min_accessed_idx_range(cs);
    }
}

/// Insert-or-replace by hash: a fresh entry with both times set to now.
pub open spec fn cache_upsert(
    cs: Seq<CacheEntry>,
    e: CacheEntry,
) -> Seq<CacheEntry> {
    let i = find_hash(cs, e.hash@);
    if i >= 0 {
        cs.update(i, e)
    } else {
        cs.push(e)
    }
}

impl MemoryStore {
    fn find_hash_exec(&self, hash: &str) -> (r: Option<usize>)
        ensures
            match r {
                Some(j) => j == find_hash(self.cache@, hash@) && j < self.cache@.len(),
                None => find_hash(self.cache@, hash@) == -1,
            },
    {
        let mut j: usize = 0;
        while j < self.cache.len()
            invariant
                j <= self.cache@.len(),
                forall|k: int| 0 <= k < j ==> (#[trigger] self.cache@[k]).hash@ != hash@,
            decreases self.cache@.len() - j,
        {
            if crate::text::str_eq(self.cache[j].hash.as_str(), hash) {
                proof {
                    lemma_find_hash_props(self.cache@, hash@);
                    let f = find_hash(self.cache@, hash@);
                    if f >= 0 && f < j as int {
                        assert(self.cache@[f].hash@ != hash@);
                    }
                    if f > j as int {
                        assert(self.cache@[j as int].hash@ != hash@);
                    }
                }
                return Some(j);
            }
            j = j + 1;
        }
        proof {
            lemma_find_hash_props(self.cache@, hash@);
        }
        None
    }

    /// Look a text's embedding up in the cache. With no embedder
    /// configured this answers immediately without touching the cache.
    /// A hit advances the entry's access time and returns the vector;
    /// a miss changes nothing, and the caller computes the embedding and
    /// stores it with [`MemoryStore::cache_insert`].
    pub fn cache_lookup(&mut self, text: &str) -> (r: Option<Vec<i32>>)
        requires
            old(self).wf(),
        ensures
            final(self).wf(),
            final(self).records@ == old(self).records@,
            final(self).vector_weight == old(self).vector_weight,
            final(self).keyword_weight == old(self).keyword_weight,
            final(self).cache_max == old(self).cache_max,
            final(self).dims == old(self).dims,
            old(self).dims == 0 ==> (r is None) && final(self).cache@ == old(self).cache@
                && final(self).clock == old(self).clock,
            old(self).dims != 0 ==> ({
                let h = crate::hash::content_hash_spec(text.spec_bytes());
                let i = find_hash(old(self).cache@, h);
                if i >= 0 {
                    &&& (r matches Some(v) && v@ == old(self).cache@[i].vector@)
                    &&& final(self).clock == next_clock(old(self).clock)
                    &&& final(self).cache@.len() == old(self).cache@.len()
                    &&& final(self).cache@[i].hash@ == old(self).cache@[i].hash@
                    &&& final(self).cache@[i].vector@ == old(self).cache@[i].vector@
                    &&& final(self).cache@[i].created_seq == old(self).cache@[i].created_seq
                    &&& final(self).cache@[i].accessed_seq == next_clock(old(self).clock)
                    &&& forall|j: int|
                        0 <= j < old(self).cache@.len() && j != i ==> final(self).cache@[j] == old(
                            self,
                        ).cache@[j]
                } else {
                    &&& r is None
                    &&& final(self).cache@ == old(self).cache@
                    &&& final(self).clock == old(self).clock
                }
            }),
    {
        if self.dims == 0 {
            return None;
        }
        let h = crate::hash::content_hash(text);
        match self.find_hash_exec(h.as_str()) {
            Some(j) => {
                let t: u64 = if self.clock < u64::MAX {
                    self.clock + 1
                } else {
                    self.clock
                };
                self.clock = t;
                let old_hash: String = self.cache[j].hash.clone();
                let old_vec: Vec<i32> = self.cache[j].vector.clone();
                let old_created: u64 = self.cache[j].created_seq;
                let out: Vec<i32> = old_vec.clone();
                self.cache[j] = CacheEntry {
                    hash: old_hash,
                    vector: old_vec,
                    created_seq: old_created,
                    accessed_seq: t,
                };
                proof {
                    let cs = self.cache@;
                    let old_cs = old(self).cache@;
                    assert(forall|k: int| 0 <= k < cs.len() && k != j ==> cs[k] == old_cs[k]);
                    assert forall|a: int, b: int| 0 <= a < b < cs.len() implies (
                    #[trigger] cs[a]).hash@ != (#[trigger] cs[b]).hash@ by {
                        assert(cs[a].hash@ == old_cs[a].hash@);
                        assert(cs[b].hash@ == old_cs[b].hash@);
                    }
                }
                Some(out)
            },
            None => None,
        }
    }

    /// Insert a freshly computed embedding under its text's content
    /// hash, replacing any previous entry, then evict oldest-accessed
    /// entries until the cache is inside its bound. The bound itself is
    /// part of [`MemoryStore::wf`]: after any insertion the cache holds
    /// at most `cache_max` rows.
    pub fn cache_insert(&mut self, text: &str, vector: &Vec<i32>)
        requires
            old(self).wf(),
        ensures
            final(self).wf(),
            final(self).records@ == old(self).records@,
            final(self).vector_weight == old(self).vector_weight,
            final(self).keyword_weight == old(self).keyword_weight,
            final(self).cache_max == old(self).cache_max,
            final(self).dims == old(self).dims,
            final(self).clock == next_clock(old(self).clock),
            final(self).cache@.len() <= old(self).cache_max,
            ({
                let h = crate::hash::content_hash_spec(text.spec_bytes());
                exists|e: CacheEntry|
                    e.hash@ == h && e.vector@ == vector@ && e.created_seq == next_clock(
                        old(self).clock,
                    ) && e.accessed_seq == next_clock(old(self).clock) && final(self).cache@
                        == evict(
                        #[trigger] cache_upsert(old(self).cache@, e),
                        old(self).cache_max as int,
                    )
            }),
    {
        let t: u64 = if self.clock < u64::MAX {
            self.clock + 1
        } else {
            self.clock
        };
        self.clock = t;
        let h = crate::hash::content_hash(text);
        let entry = CacheEntry {
            hash: h.clone(),
            vector: vector.clone(),
            created_seq: t,
            accessed_seq: t,
        };
        let ghost eg = entry;
        match self.find_hash_exec(h.as_str()) {
            Some(j) => {
                self.cache[j] = entry;
                proof {
                    let cs = self.cache@;
                    let old_cs = old(self).cache@;
                    lemma_find_hash_props(old_cs, eg.hash@);
                    assert(old_cs[j as int].hash@ == eg.hash@);
                    assert(cs == cache_upsert(old_cs, eg));
                    assert forall|a: int, b: int| 0 <= a < b < cs.len() implies (
                    #[trigger] cs[a]).hash@ != (#[trigger] cs[b]).hash@ by {
                        assert(cs[a].hash@ == old_cs[a].hash@);
                        assert(cs[b].hash@ == old_cs[b].hash@);
                    }
                }
            },
            None => {
                self.cache.push(entry);
                proof {
                    let cs = self.cache@;
                    let old_cs = old(self).cache@;
                    assert(cs == cache_upsert(old_cs, eg));
                    lemma_find_hash_props(old_cs, eg.hash@);
                    assert forall|a: int, b: int| 0 <= a < b < cs.len() implies (
                    #[trigger] cs[a]).hash@ != (#[trigger] cs[b]).hash@ by {
                        if b == cs.len() - 1 {
                            assert(cs[a] == old_cs[a]);
                            assert(old_cs[a].hash@ != eg.hash@);
                        } else {
                            assert(cs[a] == old_cs[a] && cs[b] == old_cs[b]);
                        }
                    }
                }
            },
        }
        let ghost upserted = self.cache@;
        while self.cache.len() > self.cache_max
            invariant
                old(self).wf(),
                self.records@ == old(self).records@,
                self.vector_weight == old(self).vector_weight,
                self.keyword_weight == old(self).keyword_weight,
                self.cache_max == old(self).cache_max,
                self.dims == old(self).dims,
                self.clock == next_clock(old(self).clock),
                hashes_unique(self.cache@),
                forall|i: int|
                    0 <= i < self.cache@.len() ==> (#[trigger] self.cache@[i]).created_seq
                        <= self.cache@[i].accessed_seq <= self.clock,
                evict(self.cache@, self.cache_max as int) == evict(
                    upserted,
                    self.cache_max as int,
                ),
            decreases self.cache@.len(),
        {
            let mut best: usize = 0;
            let mut i: usize = 1;
            while i < self.cache.len()
                invariant
                    self.cache@.len() > 0,
                    best < i <= self.cache@.len(),
                    best as int == min_accessed_idx(self.cache@.take(i as int)),
                decreases self.cache@.len() - i,
            {
                proof {
                    assert(self.cache@.take(i + 1 as int).drop_last() =~~= self.cache@.take(
                        i as int,
                    ));
                    assert(self.cache@.take(i + 1 as int).last() == self.cache@[i as int]);
                    lemma_min_accessed_idx_range(self.cache@.take(i as int));
                    assert(self.cache@.take(i as int)[best as int] == self.cache@[best as int]);
                    assert(self.cache@.take(i + 1 as int)[best as int] == self.cache@[
                    best as int]);
                }
                if self.cache[i].accessed_seq < self.cache[best].accessed_seq {
                    best = i;
                }
                i = i + 1;
            }
            proof {
                assert(self.cache@.take(self.cache@.len() as int) =~~= self.cache@);
                lemma_min_accessed_idx_range(self.cache@);
            }
            let ghost pre = self.cache@;
            self.cache.remove(best);
            proof {
                assert(evict(pre, self.cache_max as int) == evict(
                    pre.remove(min_accessed_idx(pre)),
                    self.cache_max as int,
                ));
                let cs = self.cache@;
                assert(forall|k: int|
                    0 <= k < cs.len() ==> cs[k] == (if k < best as int {
                        pre[k]
                    } else {
                        pre[k + 1]
                    }));
                assert forall|a: int, b: int| 0 <= a < b < cs.len() implies (
                #[trigger] cs[a]).hash@ != (#[trigger] cs[b]).hash@ by {
                    let a0 = if a < best as int {
                        a
                    } else {
                        a + 1
                    };
                    let b0 = if b < best as int {
                        b
                    } else {
                        b + 1
                    };
                    assert(cs[a] == pre[a0] && cs[b] == pre[b0]);
                }
            }
        }
        proof {
            assert(evict(self.cache@, self.cache_max as int) == self.cache@);
        }
    }
}

// ---------------------------------------------------------------------------
// The ranking law: recall hands results back in score order.
// ---------------------------------------------------------------------------

/// Scored pairs in non-increasing score order.
pub open spec fn pairs_sorted(s: Seq<(Seq<char>, u64)>) -> bool {
    forall|i: int, j: int| 0 <= i <= j < s.len() ==> (#[trigger] s[i]).1 >= (#[trigger] s[j]).1
}

/// Resolved plan entries in non-increasing score order.
pub open spec fn plan_sorted(s: Seq<(int, u64)>) -> bool {
    forall|i: int, j: int| 0 <= i <= j < s.len() ==> (#[trigger] s[i]).1 >= (#[trigger] s[j]).1
}

proof fn lemma_insert_pair_sorted(s: Seq<(Seq<char>, u64)>, e: (Seq<char>, u64), x: u64)
    requires
        pairs_sorted(s),
        forall|i: int| 0 <= i < s.len() ==> (#[trigger] s[i]).1 <= x,
        e.1 <= x,
    ensures
        pairs_sorted(insert_pair(s, e)),
        insert_pair(s, e).len() == s.len() + 1,
        forall|i: int| 0 <= i < insert_pair(s, e).len() ==> (#[trigger] insert_pair(s, e)[i]).1
            <= x,
    decreases s.len(),
{
    if s.len() == 0 {
    } else if s[0].1 >= e.1 {
        let t = s.drop_first();
        assert(forall|i: int, j: int|
            0 <= i <= j < t.len() ==> (#[trigger] t[i]).1 >= (#[trigger] t[j]).1);
        assert(forall|i: int| 0 <= i < t.len() ==> (#[trigger] t[i]).1 <= s[0].1);
        lemma_insert_pair_sorted(t, e, s[0].1);
        let r = insert_pair(s, e);
        assert(r == seq![s[0]] + insert_pair(t, e));
        assert forall|i: int, j: int| 0 <= i <= j < r.len() implies (#[trigger] r[i]).1 >= (
        #[trigger] r[j]).1 by {
            if i == 0 && j > 0 {
                assert(r[j] == insert_pair(t, e)[j - 1]);
                assert(insert_pair(t, e)[j - 1].1 <= s[0].1);
            } else if i > 0 {
                assert(r[i] == insert_pair(t, e)[i - 1]);
                assert(r[j] == insert_pair(t, e)[j - 1]);
            }
        }
        assert forall|i: int| 0 <= i < r.len() implies (#[trigger] r[i]).1 <= x by {
            if i > 0 {
                assert(r[i] == insert_pair(t, e)[i - 1]);
            }
        }
    } else {
    }
}

/// The pair sort really sorts.
pub proof fn lemma_sort_pairs_sorted(s: Seq<(Seq<char>, u64)>)
    ensures
        pairs_sorted(sort_pairs(s)),
    decreases s.len(),
{
    if s.len() > 0 {
        lemma_sort_pairs_sorted(s.drop_last());
        assert forall|i: int|
            0 <= i < sort_pairs(s.drop_last()).len() implies (#[trigger] sort_pairs(
            s.drop_last(),
        )[i]).1 <= u64::MAX by {}
        lemma_insert_pair_sorted(sort_pairs(s.drop_last()), s.last(), u64::MAX);
    }
}

proof fn lemma_hyd_views_low(rs: Seq<Record>, ms: Seq<crate::fusion::ScoredView>, x: u64)
    requires
        forall|i: int| 0 <= i < ms.len() ==> (#[trigger] ms[i]).final_score >= x,
    ensures
        forall|k: int| 0 <= k < hyd_views(rs, ms).len() ==> (#[trigger] hyd_views(rs, ms)[k]).1
            >= x,
    decreases ms.len(),
{
    if ms.len() > 0 {
        assert(forall|i: int|
            0 <= i < ms.drop_last().len() ==> (#[trigger] ms.drop_last()[i]).final_score >= x);
        lemma_hyd_views_low(rs, ms.drop_last(), x);
        let h = hyd_views(rs, ms);
        let pre = hyd_views(rs, ms.drop_last());
        assert forall|k: int| 0 <= k < h.len() implies (#[trigger] h[k]).1 >= x by {
            if k < pre.len() {
                assert(h[k] == pre[k]);
            }
        }
    }
}

/// Hydration keeps the ranking: entries resolved from a descending list
/// come out with descending scores.
pub proof fn lemma_hyd_views_sorted(rs: Seq<Record>, ms: Seq<crate::fusion::ScoredView>)
    requires
        crate::fusion::sorted_desc(ms),
    ensures
        plan_sorted(hyd_views(rs, ms)),
    decreases ms.len(),
{
    if ms.len() > 0 {
        let dl = ms.drop_last();
        assert(forall|i: int, j: int|
            0 <= i <= j < dl.len() ==> (#[trigger] dl[i]).final_score >= (
            #[trigger] dl[j]).final_score);
        lemma_hyd_views_sorted(rs, dl);
        assert(forall|i: int|
            0 <= i < dl.len() ==> (#[trigger] dl[i]).final_score >= ms.last().final_score);
        lemma_hyd_views_low(rs, dl, ms.last().final_score);
        let h = hyd_views(rs, ms);
        let pre = hyd_views(rs, dl);
        let f = find_rec_id(rs, ms.last().id);
        if f >= 0 {
            assert(h == pre.push((f, ms.last().final_score)));
            assert forall|i: int, j: int| 0 <= i <= j < h.len() implies (#[trigger] h[i]).1 >= (
            #[trigger] h[j]).1 by {
                if j < pre.len() {
                    assert(h[i] == pre[i] && h[j] == pre[j]);
                } else if i < pre.len() {
                    assert(h[i] == pre[i]);
                }
            }
        }
    }
}

/// Recall's ranking law: the resolved plan — and with it the result
/// list — carries non-increasing scores, whichever path produced it:
/// fused, keyword-only, or the substring fallback.
pub proof fn lemma_recall_plan_ranked(
    rs: Seq<Record>,
    q: Seq<char>,
    qemb: Option<Seq<i32>>,
    vw: u64,
    kw: u64,
    limit: int,
)
    requires
        0 <= limit,
    ensures
        plan_sorted(recall_plan(rs, q, qemb, vw, kw, limit)),
{
    let toks = crate::text::tokens(q);
    let kws = take_to(sort_pairs(kw_scores(rs, toks)), 2 * limit);
    let vecs = match qemb {
        Some(e) => take_to(sort_pairs(vec_scores(rs, e)), 2 * limit),
        None => Seq::<(Seq<char>, u64)>::empty(),
    };
    lemma_sort_pairs_sorted(kw_scores(rs, toks));
    let sorted_kws = sort_pairs(kw_scores(rs, toks));
    assert forall|i: int, j: int| 0 <= i <= j < kws.len() implies (#[trigger] kws[i]).1 >= (
    #[trigger] kws[j]).1 by {
        if sorted_kws.len() > 2 * limit {
            assert(kws[i] == sorted_kws[i] && kws[j] == sorted_kws[j]);
        }
    }
    let merged = if vecs.len() == 0 {
        kw_only_views(kws)
    } else {
        crate::fusion::merge_spec(vecs, kws, vw, kw, limit)
    };
    if vecs.len() == 0 {
        assert forall|i: int, j: int|
            0 <= i <= j < merged.len() implies (#[trigger] merged[i]).final_score >= (
        #[trigger] merged[j]).final_score by {
            assert(merged[i] == kw_only_views(kws)[i] && merged[j] == kw_only_views(kws)[j]);
            assert(merged[i].final_score == kws[i].1 && merged[j].final_score == kws[j].1);
        }
    } else {
        crate::fusion::lemma_merge_spec_sorted(vecs, kws, vw, kw, limit);
    }
    assert(crate::fusion::sorted_desc(merged));
    lemma_hyd_views_sorted(rs, merged);
    let hyd = hyd_views(rs, merged);
    let fallback_pairs = take_to(sort_pairs(like_pairs(rs, toks)), limit);
    let fb = like_views(fallback_pairs);
    assert forall|i: int, j: int| 0 <= i <= j < fb.len() implies (#[trigger] fb[i]).final_score
        >= (#[trigger] fb[j]).final_score by {
        assert(fb[i].final_score == crate::SCALE && fb[j].final_score == crate::SCALE);
    }
    lemma_hyd_views_sorted(rs, fb);
    let base = if hyd.len() == 0 {
        hyd_views(rs, fb)
    } else {
        hyd
    };
    let plan = recall_plan(rs, q, qemb, vw, kw, limit);
    assert forall|i: int, j: int| 0 <= i <= j < plan.len() implies (#[trigger] plan[i]).1 >= (
    #[trigger] plan[j]).1 by {
        if base.len() > limit {
            assert(plan[i] == base[i] && plan[j] == base[j]);
        }
    }
}

/// Listing candidates: id and update time of every record passing the
/// category filter, in table order.
pub open spec fn list_pairs(rs: Seq<Record>, cat: Option<MemoryCategory>) -> Seq<(Seq<char>, u64)>
    decreases rs.len(),
{
    if rs.len() == 0 {
        Seq::empty()
    } else {
        let pre = list_pairs(rs.drop_last(), cat);
        let keep = match cat {
            Some(c) => same_category(c, rs.last().category),
            None => true,
        };
        if keep {
            pre.push((rs.last().id@, rs.last().updated_seq))
        } else {
            pre
        }
    }
}

} // verus!
