//! Weighted hybrid score fusion: semantic (vector) results and lexical
//! (keyword) results are merged by id, keyword scores are normalized by
//! their per-query maximum, and each id gets the weighted sum of its two
//! sides as a final score. The output is the stable descending ranking by
//! final score, truncated to the caller's limit.

use vstd::prelude::*;

verus! {

use crate::SCALE;

/// A scored result for hybrid merging.
#[verifier::ext_equal]
pub struct ScoredResult {
    pub id: String,
    pub vector_score: Option<u64>,
    pub keyword_score: Option<u64>,
    pub final_score: u64,
}

/// The mathematical image of a [`ScoredResult`]: the id as a character
/// sequence, the two partial sides, and the fused score.
#[verifier::ext_equal]
pub ghost struct ScoredView {
    pub id: Seq<char>,
    pub vector_score: Option<u64>,
    pub keyword_score: Option<u64>,
    pub final_score: u64,
}

impl View for ScoredResult {
    type V = ScoredView;

    open spec fn view(&self) -> ScoredView {
        ScoredView {
            id: self.id@,
            vector_score: self.vector_score,
            keyword_score: self.keyword_score,
            final_score: self.final_score,
        }
    }
}

/// Views of a result sequence.
pub open spec fn views(s: Seq<ScoredResult>) -> Seq<ScoredView> {
    s.map_values(|sr: ScoredResult| sr@)
}

/// Views of an (id, score) pair sequence.
pub open spec fn pairs(s: Seq<(String, u64)>) -> Seq<(Seq<char>, u64)> {
    s.map_values(|p: (String, u64)| (p.0@, p.1))
}

/// Index of the first entry carrying `id`, or -1 when there is none.
pub open spec fn find_id(s: Seq<ScoredView>, id: Seq<char>) -> int
    decreases s.len(),
{
    if s.len() == 0 {
        -1
    } else if s[0].id == id {
        0
    } else {
        let r = find_id(s.drop_first(), id);
        if r < 0 {
            -1
        } else {
            r + 1
        }
    }
}

pub proof fn lemma_find_id_props(s: Seq<ScoredView>, id: Seq<char>)
    ensures
        find_id(s, id) == -1 <==> (forall|k: int| 0 <= k < s.len() ==> (#[trigger] s[k]).id != id),
        find_id(s, id) != -1 ==> 0 <= find_id(s, id) < s.len() && s[find_id(s, id)].id == id
            && (forall|k: int| 0 <= k < find_id(s, id) ==> (#[trigger] s[k]).id != id),
    decreases s.len(),
{
    if s.len() > 0 {
        lemma_find_id_props(s.drop_first(), id);
        let t = s.drop_first();
        assert(forall|k: int| 0 <= k < t.len() ==> (#[trigger] t[k]) == s[k + 1]);
        if s[0].id == id {
        } else {
            let r = find_id(t, id);
            if r < 0 {
                assert(forall|k: int| 0 <= k < s.len() ==> (#[trigger] s[k]).id != id) by {
                    assert forall|k: int| 0 <= k < s.len() implies (#[trigger] s[k]).id != id by {
                        if k > 0 {
                            assert(t[k - 1] == s[k]);
                        }
                    }
                }
            } else {
                assert(s[r + 1].id == id);
                assert forall|k: int| 0 <= k < r + 1 implies (#[trigger] s[k]).id != id by {
                    if k > 0 {
                        assert(t[k - 1] == s[k]);
                    }
                }
            }
        }
    }
}

/// Merge in one semantic result: the entry with its id gets the vector
/// side set, or a fresh entry is appended.
pub open spec fn upsert_vector(acc: Seq<ScoredView>, id: Seq<char>, sc: u64) -> Seq<ScoredView> {
    let i = find_id(acc, id);
    if i >= 0 {
        acc.update(
            i,
            ScoredView {
                id: acc[i].id,
                vector_score: Some(sc),
                keyword_score: acc[i].keyword_score,
                final_score: acc[i].final_score,
            },
        )
    } else {
        acc.push(ScoredView { id: id, vector_score: Some(sc), keyword_score: None, final_score: 0 })
    }
}

/// Merge in one lexical result, by the same rule on the keyword side.
pub open spec fn upsert_keyword(acc: Seq<ScoredView>, id: Seq<char>, sc: u64) -> Seq<ScoredView> {
    let i = find_id(acc, id);
    if i >= 0 {
        acc.update(
            i,
            ScoredView {
                id: acc[i].id,
                vector_score: acc[i].vector_score,
                keyword_score: Some(sc),
                final_score: acc[i].final_score,
            },
        )
    } else {
        acc.push(ScoredView { id: id, vector_score: None, keyword_score: Some(sc), final_score: 0 })
    }
}

/// All semantic results merged, left to right.
pub open spec fn apply_vector(acc: Seq<ScoredView>, vs: Seq<(Seq<char>, u64)>) -> Seq<ScoredView>
    decreases vs.len(),
{
    if vs.len() == 0 {
        acc
    } else {
        apply_vector(upsert_vector(acc, vs[0].0, vs[0].1), vs.drop_first())
    }
}

/// All lexical results merged, left to right.
pub open spec fn apply_keyword(acc: Seq<ScoredView>, ks: Seq<(Seq<char>, u64)>) -> Seq<ScoredView>
    decreases ks.len(),
{
    if ks.len() == 0 {
        acc
    } else {
        apply_keyword(upsert_keyword(acc, ks[0].0, ks[0].1), ks.drop_first())
    }
}

/// The largest keyword score of a query's lexical results.
pub open spec fn max_kw(ks: Seq<(Seq<char>, u64)>) -> u64
    decreases ks.len(),
{
    if ks.len() == 0 {
        0
    } else {
        let m = max_kw(ks.drop_last());
        if ks.last().1 > m {
            ks.last().1
        } else {
            m
        }
    }
}

pub proof fn lemma_max_kw_ge(ks: Seq<(Seq<char>, u64)>, i: int)
    requires
        0 <= i < ks.len(),
    ensures
        ks[i].1 <= max_kw(ks),
    decreases ks.len(),
{
    if i < ks.len() - 1 {
        lemma_max_kw_ge(ks.drop_last(), i);
    }
}

/// One keyword score normalized by the per-query maximum. A zero maximum
/// means every score is zero, and zero is returned directly.
pub open spec fn norm_one(sc: u64, m: u64) -> u64 {
    if m == 0 {
        0u64
    } else {
        ((sc * SCALE) / (m as int)) as u64
    }
}

/// All keyword scores normalized by their common maximum.
pub open spec fn normalize(ks: Seq<(Seq<char>, u64)>) -> Seq<(Seq<char>, u64)> {
    ks.map_values(|p: (Seq<char>, u64)| (p.0, norm_one(p.1, max_kw(ks))))
}

/// The score of an absent side.
pub open spec fn or_zero(sc: Option<u64>) -> u64 {
    match sc {
        Some(v) => v,
        None => 0,
    }
}

/// The fused score: the weighted sum of the two sides, in fixed point.
pub open spec fn final_of(e: ScoredView, vw: u64, kw: u64) -> u64 {
    ((vw * or_zero(e.vector_score) + kw * or_zero(e.keyword_score)) / (SCALE as int)) as u64
}

/// Every entry rescored with its fused final score.
pub open spec fn assign_final(s: Seq<ScoredView>, vw: u64, kw: u64) -> Seq<ScoredView> {
    s.map_values(
        |e: ScoredView|
            ScoredView {
                id: e.id,
                vector_score: e.vector_score,
                keyword_score: e.keyword_score,
                final_score: final_of(e, vw, kw),
            },
    )
}

/// `e` inserted behind every entry scoring at least as much: a stable
/// descending insertion.
pub open spec fn insert_desc(s: Seq<ScoredView>, e: ScoredView) -> Seq<ScoredView>
    decreases s.len(),
{
    if s.len() == 0 {
        seq![e]
    } else if s[0].final_score >= e.final_score {
        seq![s[0]] + insert_desc(s.drop_first(), e)
    } else {
        seq![e] + s
    }
}

/// Stable insertion sort, descending by final score.
pub open spec fn sort_desc(s: Seq<ScoredView>) -> Seq<ScoredView>
    decreases s.len(),
{
    if s.len() == 0 {
        Seq::empty()
    } else {
        insert_desc(sort_desc(s.drop_last()), s.last())
    }
}

/// Descending order by final score.
pub open spec fn sorted_desc(s: Seq<ScoredView>) -> bool {
    forall|i: int, j: int|
        0 <= i <= j < s.len() ==> (#[trigger] s[i]).final_score >= (#[trigger] s[j]).final_score
}

/// The whole fusion, as a function of the two result lists, the weights
/// and the limit.
pub open spec fn merge_spec(
    vs: Seq<(Seq<char>, u64)>,
    ks: Seq<(Seq<char>, u64)>,
    vw: u64,
    kw: u64,
    limit: int,
) -> Seq<ScoredView> {
    let merged = apply_keyword(apply_vector(Seq::empty(), vs), normalize(ks));
    let ranked = sort_desc(assign_final(merged, vw, kw));
    if ranked.len() <= limit {
        ranked
    } else {
        ranked.take(limit)
    }
}

// ---------------------------------------------------------------------------
// Executable fusion.
// ---------------------------------------------------------------------------

/// Both partial sides of every entry stay inside the fixed-point unit range.
pub open spec fn bounded(s: Seq<ScoredView>) -> bool {
    forall|i: int|
        0 <= i < s.len() ==> or_zero((#[trigger] s[i]).vector_score) <= SCALE && or_zero(
            s[i].keyword_score,
        ) <= SCALE
}

proof fn lemma_apply_vector_push(acc: Seq<ScoredView>, vs: Seq<(Seq<char>, u64)>, p: (Seq<char>, u64))
    ensures
        apply_vector(acc, vs.push(p)) == upsert_vector(apply_vector(acc, vs), p.0, p.1),
    decreases vs.len(),
{
    if vs.len() == 0 {
        assert(vs.push(p)[0] == p);
        assert(vs.push(p).drop_first() =~~= Seq::<(Seq<char>, u64)>::empty());
        assert(apply_vector(acc, vs.push(p)) == apply_vector(
            upsert_vector(acc, p.0, p.1),
            Seq::<(Seq<char>, u64)>::empty(),
        ));
        assert(apply_vector(upsert_vector(acc, p.0, p.1), Seq::<(Seq<char>, u64)>::empty())
            == upsert_vector(acc, p.0, p.1));
    } else {
        assert(vs.push(p)[0] == vs[0]);
        assert(vs.push(p).drop_first() =~~= vs.drop_first().push(p));
        lemma_apply_vector_push(upsert_vector(acc, vs[0].0, vs[0].1), vs.drop_first(), p);
    }
}

proof fn lemma_apply_keyword_push(
    acc: Seq<ScoredView>,
    ks: Seq<(Seq<char>, u64)>,
    p: (Seq<char>, u64),
)
    ensures
        apply_keyword(acc, ks.push(p)) == upsert_keyword(apply_keyword(acc, ks), p.0, p.1),
    decreases ks.len(),
{
    if ks.len() == 0 {
        assert(ks.push(p)[0] == p);
        assert(ks.push(p).drop_first() =~~= Seq::<(Seq<char>, u64)>::empty());
        assert(apply_keyword(acc, ks.push(p)) == apply_keyword(
            upsert_keyword(acc, p.0, p.1),
            Seq::<(Seq<char>, u64)>::empty(),
        ));
        assert(apply_keyword(upsert_keyword(acc, p.0, p.1), Seq::<(Seq<char>, u64)>::empty())
            == upsert_keyword(acc, p.0, p.1));
    } else {
        assert(ks.push(p)[0] == ks[0]);
        assert(ks.push(p).drop_first() =~~= ks.drop_first().push(p));
        lemma_apply_keyword_push(upsert_keyword(acc, ks[0].0, ks[0].1), ks.drop_first(), p);
    }
}

/// Index of the first entry with `id`, as the spec function gives it.
fn find_entry(entries: &Vec<ScoredResult>, id: &String) -> (r: Option<usize>)
    ensures
        match r {
            Some(j) => j == find_id(views(entries@), id@),
            None => find_id(views(entries@), id@) == -1,
        },
{
    let mut j: usize = 0;
    while j < entries.len()
        invariant
            j <= entries@.len(),
            views(entries@).len() == entries@.len(),
            forall|k: int| 0 <= k < j ==> (#[trigger] views(entries@)[k]).id != id@,
        decreases entries.len() - j,
    {
        if entries[j].id == *id {
            proof {
                lemma_find_id_props(views(entries@), id@);
                let s = views(entries@);
                let f = find_id(s, id@);
                assert(s[j as int].id == id@);
                if f < j as int && f >= 0 {
                    assert(s[f].id != id@);
                }
                if f > j as int {
                    assert(s[j as int].id != id@);
                }
            }
            return Some(j);
        }
        j = j + 1;
    }
    proof {
        lemma_find_id_props(views(entries@), id@);
    }
    None
}

/// Merge the semantic side into the accumulated entries.
fn merge_vector_side(entries: &mut Vec<ScoredResult>, vs: &Vec<(String, u64)>)
    requires
        bounded(views(old(entries)@)),
        forall|i: int| 0 <= i < vs@.len() ==> (#[trigger] vs@[i]).1 <= SCALE,
    ensures
        views(final(entries)@) == apply_vector(views(old(entries)@), pairs(vs@)),
        bounded(views(final(entries)@)),
{
    let mut i: usize = 0;
    while i < vs.len()
        invariant
            i <= vs@.len(),
            forall|k: int| 0 <= k < vs@.len() ==> (#[trigger] vs@[k]).1 <= SCALE,
            views(entries@) == apply_vector(views(old(entries)@), pairs(vs@).take(i as int)),
            bounded(views(entries@)),
        decreases vs.len() - i,
    {
        let id: &String = &vs[i].0;
        let sc: u64 = vs[i].1;
        proof {
            assert(pairs(vs@).take(i + 1 as int) =~~= pairs(vs@).take(i as int).push(
                (id@, sc),
            ));
            lemma_apply_vector_push(views(old(entries)@), pairs(vs@).take(i as int), (id@, sc));
            lemma_find_id_props(views(entries@), id@);
        }
        match find_entry(entries, id) {
            Some(j) => {
                let new_id: String = entries[j].id.clone();
                let ks: Option<u64> = entries[j].keyword_score;
                let fs: u64 = entries[j].final_score;
                entries[j] = ScoredResult {
                    id: new_id,
                    vector_score: Some(sc),
                    keyword_score: ks,
                    final_score: fs,
                };
                proof {
                    assert(views(entries@) =~~= apply_vector(
                        views(old(entries)@),
                        pairs(vs@).take(i + 1 as int),
                    ));
                }
            },
            None => {
                entries.push(
                    ScoredResult {
                        id: id.clone(),
                        vector_score: Some(sc),
                        keyword_score: None,
                        final_score: 0,
                    },
                );
                proof {
                    assert(views(entries@) =~~= apply_vector(
                        views(old(entries)@),
                        pairs(vs@).take(i + 1 as int),
                    ));
                }
            },
        }
        i = i + 1;
    }
    proof {
        assert(pairs(vs@).take(vs@.len() as int) =~~= pairs(vs@));
    }
}

/// Merge the lexical side, already normalized, into the accumulated entries.
fn merge_keyword_side(entries: &mut Vec<ScoredResult>, ks: &Vec<(String, u64)>)
    requires
        bounded(views(old(entries)@)),
        forall|i: int| 0 <= i < ks@.len() ==> (#[trigger] ks@[i]).1 <= SCALE,
    ensures
        views(final(entries)@) == apply_keyword(views(old(entries)@), pairs(ks@)),
        bounded(views(final(entries)@)),
{
    let ghost nks = pairs(ks@);
    let mut i: usize = 0;
    while i < ks.len()
        invariant
            i <= ks@.len(),
            nks == pairs(ks@),
            forall|k: int| 0 <= k < ks@.len() ==> (#[trigger] ks@[k]).1 <= SCALE,
            views(entries@) == apply_keyword(views(old(entries)@), nks.take(i as int)),
            bounded(views(entries@)),
        decreases ks.len() - i,
    {
        let id: &String = &ks[i].0;
        let sc: u64 = ks[i].1;
        proof {
            assert(nks.take(i + 1 as int) =~~= nks.take(i as int).push((id@, sc)));
            lemma_apply_keyword_push(views(old(entries)@), nks.take(i as int), (id@, sc));
            lemma_find_id_props(views(entries@), id@);
        }
        match find_entry(entries, id) {
            Some(j) => {
                let new_id: String = entries[j].id.clone();
                let vsc: Option<u64> = entries[j].vector_score;
                let fs: u64 = entries[j].final_score;
                entries[j] = ScoredResult {
                    id: new_id,
                    vector_score: vsc,
                    keyword_score: Some(sc),
                    final_score: fs,
                };
                proof {
                    assert(views(entries@) =~~= apply_keyword(
                        views(old(entries)@),
                        nks.take(i + 1 as int),
                    ));
                }
            },
            None => {
                entries.push(
                    ScoredResult {
                        id: id.clone(),
                        vector_score: None,
                        keyword_score: Some(sc),
                        final_score: 0,
                    },
                );
                proof {
                    assert(views(entries@) =~~= apply_keyword(
                        views(old(entries)@),
                        nks.take(i + 1 as int),
                    ));
                }
            },
        }
        i = i + 1;
    }
    proof {
        assert(nks.take(nks.len() as int) =~~= nks);
    }
}

proof fn lemma_norm_le(sc: u64, m: u64)
    requires
        sc <= m,
    ensures
        norm_one(sc, m) <= SCALE,
        m != 0 ==> 0 <= (sc * SCALE) / (m as int) <= SCALE,
{
    if m != 0 {
        assert(sc * SCALE <= m * SCALE) by (nonlinear_arith)
            requires
                sc <= m,
                SCALE >= 0,
        ;
        vstd::arithmetic::div_mod::lemma_div_is_ordered(
            sc * SCALE as int,
            m * SCALE as int,
            m as int,
        );
        vstd::arithmetic::div_mod::lemma_div_multiples_vanish(SCALE as int, m as int);
        assert(m * SCALE as int == (m as int) * (SCALE as int)) by (nonlinear_arith);
        assert((m as int) * (SCALE as int) == (SCALE as int) * (m as int)) by (nonlinear_arith);
    }
}

/// Normalize keyword scores by their per-query maximum.
fn normalize_keywords(ks: &Vec<(String, u64)>) -> (r: Vec<(String, u64)>)
    ensures
        pairs(r@) == normalize(pairs(ks@)),
        forall|i: int| 0 <= i < r@.len() ==> (#[trigger] r@[i]).1 <= SCALE,
{
    let ghost kp = pairs(ks@);
    let mut mx: u64 = 0;
    let mut i: usize = 0;
    while i < ks.len()
        invariant
            i <= ks@.len(),
            kp == pairs(ks@),
            mx == max_kw(kp.take(i as int)),
        decreases ks.len() - i,
    {
        proof {
            assert(kp.take(i + 1 as int).drop_last() =~~= kp.take(i as int));
            assert(kp.take(i + 1 as int).last() == kp[i as int]);
        }
        if ks[i].1 > mx {
            mx = ks[i].1;
        }
        i = i + 1;
    }
    proof {
        assert(kp.take(kp.len() as int) =~~= kp);
    }
    let mut r: Vec<(String, u64)> = Vec::new();
    let mut i: usize = 0;
    while i < ks.len()
        invariant
            i <= ks@.len(),
            kp == pairs(ks@),
            mx == max_kw(kp),
            pairs(r@) == normalize(kp).take(i as int),
            forall|k: int| 0 <= k < r@.len() ==> (#[trigger] r@[k]).1 <= SCALE,
        decreases ks.len() - i,
    {
        let sc: u64 = ks[i].1;
        proof {
            lemma_max_kw_ge(kp, i as int);
            lemma_norm_le(sc, mx);
            assert((sc as u128) * (1_000_000 as u128) < u128::MAX) by (nonlinear_arith)
                requires
                    sc <= 0xffff_ffff_ffff_ffffu128,
            ;
        }
        let ns: u64 = if mx == 0 {
            0
        } else {
            (((sc as u128) * (SCALE as u128)) / (mx as u128)) as u64
        };
        proof {
            assert(ns == norm_one(sc, mx));
        }
        let cid: String = ks[i].0.clone();
        proof {
            assert(cid@ == ks@[i as int].0@);
        }
        let ghost oldr = r@;
        r.push((cid, ns));
        proof {
            assert(r@ == oldr.push((cid, ns)));
            assert(oldr.len() == pairs(oldr).len());
            assert(r@[i as int].0@ == ks@[i as int].0@);
            assert(kp[i as int] == (ks@[i as int].0@, ks@[i as int].1));
            assert(normalize(kp)[i as int] == (kp[i as int].0, norm_one(kp[i as int].1, max_kw(kp))));
            assert(pairs(r@)[i as int] == (r@[i as int].0@, r@[i as int].1));
            assert(pairs(r@) =~~= normalize(kp).take(i + 1 as int));
        }
        i = i + 1;
    }
    proof {
        assert(normalize(kp).take(normalize(kp).len() as int) =~~= normalize(kp));
    }
    r
}

/// Rescore every entry with its fused final score.
fn compute_finals(entries: Vec<ScoredResult>, vw: u64, kw: u64) -> (r: Vec<ScoredResult>)
    requires
        vw <= SCALE,
        kw <= SCALE,
        bounded(views(entries@)),
    ensures
        views(r@) == assign_final(views(entries@), vw, kw),
{
    let mut r: Vec<ScoredResult> = Vec::new();
    let mut i: usize = 0;
    while i < entries.len()
        invariant
            i <= entries@.len(),
            vw <= SCALE,
            kw <= SCALE,
            bounded(views(entries@)),
            r@.len() == i as int,
            views(r@) == assign_final(views(entries@), vw, kw).take(i as int),
        decreases entries.len() - i,
    {
        let e = &entries[i];
        let vs0: u64 = match e.vector_score {
            Some(v) => v,
            None => 0,
        };
        let ks0: u64 = match e.keyword_score {
            Some(v) => v,
            None => 0,
        };
        proof {
            assert(or_zero(views(entries@)[i as int].vector_score) <= SCALE);
            assert(or_zero(views(entries@)[i as int].keyword_score) <= SCALE);
            assert(vw * vs0 <= SCALE * SCALE && kw * ks0 <= SCALE * SCALE) by (nonlinear_arith)
                requires
                    vw <= SCALE,
                    kw <= SCALE,
                    vs0 <= SCALE,
                    ks0 <= SCALE,
            ;
        }
        let fs: u64 = (vw * vs0 + kw * ks0) / SCALE;
        let new_id: String = e.id.clone();
        r.push(
            ScoredResult {
                id: new_id,
                vector_score: e.vector_score,
                keyword_score: e.keyword_score,
                final_score: fs,
            },
        );
        proof {
            assert(views(entries@)[i as int] == entries@[i as int]@);
            assert(fs == final_of(entries@[i as int]@, vw, kw));
            assert(r@.len() == i + 1);
            assert(views(r@).len() == r@.len());
            assert(views(r@)[i as int] == r@[i as int]@);
            assert(r@[i as int]@.id == entries@[i as int]@.id);
            assert(views(r@) =~~= assign_final(views(entries@), vw, kw).take(i + 1 as int));
        }
        i = i + 1;
    }
    proof {
        let a = assign_final(views(entries@), vw, kw);
        assert(a.take(a.len() as int) =~~= a);
    }
    r
}

proof fn lemma_insert_desc_at(s: Seq<ScoredView>, e: ScoredView, pos: int)
    requires
        0 <= pos <= s.len(),
        forall|k: int| 0 <= k < pos ==> (#[trigger] s[k]).final_score >= e.final_score,
        pos < s.len() ==> s[pos].final_score < e.final_score,
    ensures
        insert_desc(s, e) == s.insert(pos, e),
    decreases pos,
{
    if pos == 0 {
        if s.len() == 0 {
            assert(insert_desc(s, e) =~~= s.insert(0, e));
        } else {
            assert(insert_desc(s, e) =~~= s.insert(0, e));
        }
    } else {
        assert(s[0].final_score >= e.final_score);
        let t = s.drop_first();
        assert(forall|k: int| 0 <= k < pos - 1 ==> (#[trigger] t[k]) == s[k + 1]);
        assert(pos - 1 < t.len() ==> t[pos - 1] == s[pos]);
        lemma_insert_desc_at(t, e, pos - 1);
        assert(insert_desc(s, e) =~~= s.insert(pos, e));
    }
}

/// Stable descending insertion sort by final score.
fn rank_desc(entries: Vec<ScoredResult>) -> (r: Vec<ScoredResult>)
    ensures
        views(r@) == sort_desc(views(entries@)),
{
    let mut r: Vec<ScoredResult> = Vec::new();
    let mut i: usize = 0;
    while i < entries.len()
        invariant
            i <= entries@.len(),
            r@.len() == i as int,
            views(r@) == sort_desc(views(entries@).take(i as int)),
        decreases entries.len() - i,
    {
        let e = &entries[i];
        let mut pos: usize = 0;
        while pos < r.len() && r[pos].final_score >= e.final_score
            invariant
                i < entries@.len(),
                e == &entries[i as int],
                views(r@) == sort_desc(views(entries@).take(i as int)),
                pos <= r@.len(),
                forall|k: int|
                    0 <= k < pos ==> (#[trigger] views(r@)[k]).final_score >= e@.final_score,
            decreases r.len() - pos,
        {
            proof {
                assert(views(r@)[pos as int] == r@[pos as int]@);
            }
            pos = pos + 1;
        }
        let ghost prev = views(r@);
        proof {
            if pos < r@.len() {
                assert(prev[pos as int] == r@[pos as int]@);
            }
            lemma_insert_desc_at(prev, e@, pos as int);
            assert(views(entries@).take(i + 1 as int).drop_last() =~~= views(entries@).take(
                i as int,
            ));
            assert(views(entries@).take(i + 1 as int).last() == views(entries@)[i as int]);
            assert(views(entries@)[i as int] == entries@[i as int]@);
        }
        let cloned = ScoredResult {
            id: e.id.clone(),
            vector_score: e.vector_score,
            keyword_score: e.keyword_score,
            final_score: e.final_score,
        };
        proof {
            assert(cloned@ == e@);
        }
        r.insert(pos, cloned);
        proof {
            assert(views(r@) =~~= prev.insert(pos as int, e@));
            assert(views(r@) =~~= insert_desc(prev, e@));
            assert(views(r@) =~~= sort_desc(views(entries@).take(i + 1 as int)));
        }
        i = i + 1;
    }
    proof {
        assert(views(entries@).take(entries@.len() as int) =~~= views(entries@));
    }
    r
}

/// Hybrid merge: combine vector and keyword results with weighted fusion.
/// The output is exactly [`merge_spec`] of the inputs: merged by id,
/// keyword side normalized, rescored, ranked descending, truncated.
pub fn hybrid_merge(
    vector_results: &Vec<(String, u64)>,
    keyword_results: &Vec<(String, u64)>,
    vector_weight: u64,
    keyword_weight: u64,
    limit: usize,
) -> (r: Vec<ScoredResult>)
    requires
        vector_weight <= SCALE,
        keyword_weight <= SCALE,
        forall|i: int| 0 <= i < vector_results@.len() ==> (#[trigger] vector_results@[i]).1 <= SCALE,
    ensures
        views(r@) == merge_spec(
            pairs(vector_results@),
            pairs(keyword_results@),
            vector_weight,
            keyword_weight,
            limit as int,
        ),
        r@.len() <= limit,
{
    let mut entries: Vec<ScoredResult> = Vec::new();
    proof {
        assert(views(entries@) =~~= Seq::<ScoredView>::empty());
    }
    merge_vector_side(&mut entries, vector_results);
    let normalized = normalize_keywords(keyword_results);
    merge_keyword_side(&mut entries, &normalized);
    let scored = compute_finals(entries, vector_weight, keyword_weight);
    let ranked = rank_desc(scored);
    let ghost full_ranked = sort_desc(
        assign_final(
            apply_keyword(
                apply_vector(Seq::empty(), pairs(vector_results@)),
                normalize(pairs(keyword_results@)),
            ),
            vector_weight,
            keyword_weight,
        ),
    );
    proof {
        assert(views(ranked@) == full_ranked);
        assert(views(ranked@).len() == ranked@.len());
    }
    let mut out = ranked;
    if out.len() > limit {
        let ghost pre = views(out@);
        out.truncate(limit);
        proof {
            assert(views(out@) =~~= pre.take(limit as int));
        }
    }
    out
}

// ---------------------------------------------------------------------------
// Laws of the fusion.
// ---------------------------------------------------------------------------

/// Fusion monotonicity: an entry that dominates another on both the
/// vector side and the keyword side also dominates it in the fused final
/// score, whatever the weights.
pub proof fn lemma_fusion_monotonicity(a: ScoredView, b: ScoredView, vw: u64, kw: u64)
    requires
        vw <= SCALE,
        kw <= SCALE,
        or_zero(a.vector_score) <= SCALE,
        or_zero(a.keyword_score) <= SCALE,
        or_zero(b.vector_score) <= or_zero(a.vector_score),
        or_zero(b.keyword_score) <= or_zero(a.keyword_score),
    ensures
        final_of(a, vw, kw) >= final_of(b, vw, kw),
{
    let va = or_zero(a.vector_score);
    let ka = or_zero(a.keyword_score);
    let vb = or_zero(b.vector_score);
    let kb = or_zero(b.keyword_score);
    assert(vw * vb <= vw * va && kw * kb <= kw * ka) by (nonlinear_arith)
        requires
            vb <= va,
            kb <= ka,
    ;
    vstd::arithmetic::div_mod::lemma_div_is_ordered(
        vw * vb + kw * kb,
        vw * va + kw * ka,
        SCALE as int,
    );
    assert(vw * va <= SCALE * SCALE && kw * ka <= SCALE * SCALE) by (nonlinear_arith)
        requires
            vw <= SCALE,
            kw <= SCALE,
            va <= SCALE,
            ka <= SCALE,
    ;
    vstd::arithmetic::div_mod::lemma_div_is_ordered(
        vw * va + kw * ka,
        SCALE * SCALE + SCALE * SCALE,
        SCALE as int,
    );
    assert((1_000_000 * 1_000_000 + 1_000_000 * 1_000_000) / 1_000_000 == 2_000_000);
}

/// An entry whose vector side is absent, scored by the keyword side alone.
pub open spec fn keyword_only(e: ScoredView, kw: u64) -> bool {
    &&& e.vector_score is None
    &&& e.final_score == ((kw * or_zero(e.keyword_score)) / (SCALE as int)) as u64
}

proof fn lemma_apply_keyword_no_vector(acc: Seq<ScoredView>, ks: Seq<(Seq<char>, u64)>)
    requires
        forall|i: int| 0 <= i < acc.len() ==> (#[trigger] acc[i]).vector_score is None,
    ensures
        forall|i: int|
            0 <= i < apply_keyword(acc, ks).len() ==> (#[trigger] apply_keyword(acc, ks)[i]).vector_score is None,
    decreases ks.len(),
{
    if ks.len() > 0 {
        let up = upsert_keyword(acc, ks[0].0, ks[0].1);
        lemma_find_id_props(acc, ks[0].0);
        assert forall|i: int| 0 <= i < up.len() implies (#[trigger] up[i]).vector_score is None by {
            let f = find_id(acc, ks[0].0);
            if f >= 0 {
                assert(up == acc.update(
                    f,
                    ScoredView {
                        id: acc[f].id,
                        vector_score: acc[f].vector_score,
                        keyword_score: Some(ks[0].1),
                        final_score: acc[f].final_score,
                    },
                ));
                assert(acc[i].vector_score is None);
            } else {
                if i < acc.len() {
                    assert(up[i] == acc[i]);
                }
            }
        }
        lemma_apply_keyword_no_vector(up, ks.drop_first());
    }
}

proof fn lemma_insert_desc_keyword_only(s: Seq<ScoredView>, e: ScoredView, kw: u64)
    requires
        forall|i: int| 0 <= i < s.len() ==> keyword_only(#[trigger] s[i], kw),
        keyword_only(e, kw),
    ensures
        forall|i: int| 0 <= i < insert_desc(s, e).len() ==> keyword_only(
            #[trigger] insert_desc(s, e)[i],
            kw,
        ),
    decreases s.len(),
{
    let r = insert_desc(s, e);
    if s.len() == 0 {
        assert(r[0] == e);
    } else if s[0].final_score >= e.final_score {
        let t = s.drop_first();
        assert(forall|i: int| 0 <= i < t.len() ==> keyword_only(#[trigger] t[i], kw));
        lemma_insert_desc_keyword_only(t, e, kw);
        assert(r == seq![s[0]] + insert_desc(t, e));
        assert forall|i: int| 0 <= i < r.len() implies keyword_only(#[trigger] r[i], kw) by {
            if i > 0 {
                assert(r[i] == insert_desc(t, e)[i - 1]);
            }
        }
    } else {
        assert(r == seq![e] + s);
        assert forall|i: int| 0 <= i < r.len() implies keyword_only(#[trigger] r[i], kw) by {
            if i > 0 {
                assert(r[i] == s[i - 1]);
            }
        }
    }
}

proof fn lemma_sort_desc_keyword_only(s: Seq<ScoredView>, kw: u64)
    requires
        forall|i: int| 0 <= i < s.len() ==> keyword_only(#[trigger] s[i], kw),
    ensures
        forall|i: int| 0 <= i < sort_desc(s).len() ==> keyword_only(#[trigger] sort_desc(s)[i], kw),
    decreases s.len(),
{
    if s.len() > 0 {
        assert(forall|i: int|
            0 <= i < s.drop_last().len() ==> keyword_only(#[trigger] s.drop_last()[i], kw));
        lemma_sort_desc_keyword_only(s.drop_last(), kw);
        lemma_insert_desc_keyword_only(sort_desc(s.drop_last()), s.last(), kw);
        assert(sort_desc(s) == insert_desc(sort_desc(s.drop_last()), s.last()));
    }
}

/// Fusion degradation: with an empty vector side the fusion is a
/// keyword-only ranking. The vector weight is irrelevant — the outcome
/// equals the fusion with a zero vector weight — and every produced entry
/// has no vector side and carries exactly the weighted normalized keyword
/// score.
pub proof fn lemma_fusion_degradation(ks: Seq<(Seq<char>, u64)>, vw: u64, kw: u64, limit: int)
    requires
        0 <= limit,
    ensures
        merge_spec(Seq::empty(), ks, vw, kw, limit) == merge_spec(Seq::empty(), ks, 0, kw, limit),
        forall|i: int|
            0 <= i < merge_spec(Seq::empty(), ks, vw, kw, limit).len() ==> keyword_only(
                #[trigger] merge_spec(Seq::empty(), ks, vw, kw, limit)[i],
                kw,
            ),
{
    let merged = apply_keyword(apply_vector(Seq::empty(), Seq::empty()), normalize(ks));
    assert(apply_vector(Seq::<ScoredView>::empty(), Seq::<(Seq<char>, u64)>::empty())
        == Seq::<ScoredView>::empty());
    lemma_apply_keyword_no_vector(Seq::empty(), normalize(ks));
    assert forall|i: int| 0 <= i < assign_final(merged, vw, kw).len() implies keyword_only(
        #[trigger] assign_final(merged, vw, kw)[i],
        kw,
    ) by {
        assert(merged[i].vector_score is None);
        assert(or_zero(merged[i].vector_score) == 0);
        assert(vw * 0 == 0) by (nonlinear_arith);
    }
    assert(assign_final(merged, vw, kw) =~~= assign_final(merged, 0, kw));
    lemma_sort_desc_keyword_only(assign_final(merged, vw, kw), kw);
    let ranked = sort_desc(assign_final(merged, vw, kw));
    let out = merge_spec(Seq::empty(), ks, vw, kw, limit);
    assert forall|i: int| 0 <= i < out.len() implies keyword_only(#[trigger] out[i], kw) by {
        if ranked.len() > limit {
            assert(out[i] == ranked[i]);
        }
    }
}

proof fn lemma_insert_desc_sorted(s: Seq<ScoredView>, e: ScoredView, x: u64)
    requires
        sorted_desc(s),
        forall|i: int| 0 <= i < s.len() ==> (#[trigger] s[i]).final_score <= x,
        e.final_score <= x,
    ensures
        sorted_desc(insert_desc(s, e)),
        insert_desc(s, e).len() == s.len() + 1,
        forall|i: int|
            0 <= i < insert_desc(s, e).len() ==> (#[trigger] insert_desc(s, e)[i]).final_score <= x,
    decreases s.len(),
{
    if s.len() == 0 {
    } else if s[0].final_score >= e.final_score {
        let t = s.drop_first();
        assert(forall|i: int, j: int|
            0 <= i <= j < t.len() ==> (#[trigger] t[i]).final_score >= (#[trigger] t[j]).final_score);
        assert(forall|i: int| 0 <= i < t.len() ==> (#[trigger] t[i]).final_score
            <= s[0].final_score);
        lemma_insert_desc_sorted(t, e, s[0].final_score);
        let r = insert_desc(s, e);
        assert(r == seq![s[0]] + insert_desc(t, e));
        assert forall|i: int, j: int| 0 <= i <= j < r.len() implies (#[trigger] r[i]).final_score
            >= (#[trigger] r[j]).final_score by {
            if i == 0 && j > 0 {
                assert(r[j] == insert_desc(t, e)[j - 1]);
                assert(insert_desc(t, e)[j - 1].final_score <= s[0].final_score);
            } else if i > 0 {
                assert(r[i] == insert_desc(t, e)[i - 1]);
                assert(r[j] == insert_desc(t, e)[j - 1]);
            }
        }
        assert forall|i: int| 0 <= i < r.len() implies (#[trigger] r[i]).final_score <= x by {
            if i > 0 {
                assert(r[i] == insert_desc(t, e)[i - 1]);
            }
        }
    } else {
    }
}

/// The fusion's output is ordered by descending final score.
pub proof fn lemma_sort_desc_sorted(s: Seq<ScoredView>)
    ensures
        sorted_desc(sort_desc(s)),
        sort_desc(s).len() == s.len(),
    decreases s.len(),
{
    if s.len() > 0 {
        lemma_sort_desc_sorted(s.drop_last());
        lemma_insert_desc_sorted(sort_desc(s.drop_last()), s.last(), u64::MAX);
    }
}

/// A truncated ranking is still ordered.
pub proof fn lemma_merge_spec_sorted(
    vs: Seq<(Seq<char>, u64)>,
    ks: Seq<(Seq<char>, u64)>,
    vw: u64,
    kw: u64,
    limit: int,
)
    requires
        0 <= limit,
    ensures
        sorted_desc(merge_spec(vs, ks, vw, kw, limit)),
{
    let merged = apply_keyword(apply_vector(Seq::empty(), vs), normalize(ks));
    lemma_sort_desc_sorted(assign_final(merged, vw, kw));
    let ranked = sort_desc(assign_final(merged, vw, kw));
    if ranked.len() > limit {
        let t = ranked.take(limit);
        assert forall|i: int, j: int| 0 <= i <= j < t.len() implies (#[trigger] t[i]).final_score
            >= (#[trigger] t[j]).final_score by {
            assert(t[i] == ranked[i] && t[j] == ranked[j]);
        }
    }
}

} // verus!
