use vstd::prelude::*;

use crate::index::TermIndex;
use crate::query::effective_limit;
use crate::query::flex_admits_exec;
use crate::query::flex_geq;
use crate::query::flex_qualifies;
use crate::query::flex_score;
use crate::query::flex_score_exec;
use crate::query::lower_all;
use crate::query::lowered_all;
use crate::query::strict_qualifies;
use crate::query::strict_qualifies_exec;
use crate::query::FlexibleQuery;
use crate::query::StrictQuery;
use crate::query::SCORE_FLOOR;
use crate::record::{Record, RecordModel};
use crate::text::lower_of;
use crate::text::to_lower;

verus! {

/// The record's kind carries term `t` in the kind index: the kind verbatim,
/// never the empty string.
pub open spec fn kind_has_term(r: RecordModel, t: Seq<char>) -> bool {
    t.len() > 0 && r.kind == t
}

/// Some element of `fields` lowercases to `t`.
pub open spec fn lowered_mem(fields: Seq<Seq<char>>, t: Seq<char>) -> bool {
    exists|i: int| 0 <= i < fields.len() && lower_of(#[trigger] fields[i]) == t
}

/// The field list carries term `t` in a lowercased index: some element
/// lowercases to `t`, and the empty term is never indexed.
pub open spec fn field_has_term(fields: Seq<Seq<char>>, t: Seq<char>) -> bool {
    t.len() > 0 && lowered_mem(fields, t)
}

/// Identifiers in the list are non-empty and pairwise distinct.
pub open spec fn ids_ok(rs: Seq<RecordModel>) -> bool {
    &&& forall|k: int| 0 <= k < rs.len() ==> (#[trigger] rs[k]).id.len() > 0
    &&& forall|k1: int, k2: int|
        0 <= k1 < k2 < rs.len() ==> (#[trigger] rs[k1]).id != (#[trigger] rs[k2]).id
}

/// Some record in the list bears the identifier.
pub open spec fn has_id(rs: Seq<RecordModel>, id: Seq<char>) -> bool {
    exists|k: int| 0 <= k < rs.len() && (#[trigger] rs[k]).id == id
}

/// The position of the record bearing the identifier.
pub open spec fn id_at(rs: Seq<RecordModel>, id: Seq<char>) -> int {
    choose|k: int| 0 <= k < rs.len() && (#[trigger] rs[k]).id == id
}

/// The record list as a map from identifier to record.
pub open spec fn seq_store(rs: Seq<RecordModel>) -> Map<Seq<char>, RecordModel> {
    Map::new(|id: Seq<char>| has_id(rs, id), |id: Seq<char>| rs[id_at(rs, id)])
}

/// One add-or-replace step on the abstract store: a record with an empty
/// identifier is rejected and changes nothing; any other record is stored
/// under its identifier, displacing a previous record with the same one.
pub open spec fn store_add(m: Map<Seq<char>, RecordModel>, r: RecordModel) -> Map<
    Seq<char>,
    RecordModel,
> {
    if r.id.len() > 0 {
        m.insert(r.id, r)
    } else {
        m
    }
}

/// A whole batch of add-or-replace steps, first record first.
pub open spec fn store_add_all(m: Map<Seq<char>, RecordModel>, rs: Seq<RecordModel>) -> Map<
    Seq<char>,
    RecordModel,
>
    decreases rs.len(),
{
    if rs.len() == 0 {
        m
    } else {
        store_add_all(store_add(m, rs[0]), rs.drop_first())
    }
}

/// How many records of the batch are stored: those with an identifier.
pub open spec fn count_valid(rs: Seq<RecordModel>) -> nat
    decreases rs.len(),
{
    if rs.len() == 0 {
        0nat
    } else {
        count_valid(rs.drop_first()) + if rs[0].id.len() > 0 {
            1nat
        } else {
            0nat
        }
    }
}

/// The search engine: the authoritative entry store and its four inverted
/// indices, kept in lock-step by the mutation protocol.
pub struct MetadataIndex {
    pub(crate) entries: Vec<Record>,
    pub(crate) kinds: TermIndex,
    pub(crate) subjects: TermIndex,
    pub(crate) keywords: TermIndex,
    pub(crate) tags: TermIndex,
}

impl MetadataIndex {
    /// The stored records, in storage order.
    pub closed spec fn models(self) -> Seq<RecordModel> {
        self.entries.deep_view()
    }

    /// The abstract state: the map from identifier to stored record. Every
    /// observable behaviour of the engine is a function of this map.
    pub open spec fn store(self) -> Map<Seq<char>, RecordModel> {
        seq_store(self.models())
    }

    /// The engine invariant. Identifiers are non-empty and unique; each
    /// inverted index is structurally well-formed and its buckets hold
    /// exactly the identifiers of the stored records carrying the term:
    /// the kind index keyed by the kind verbatim, the other three keyed by
    /// the lowercased elements of the respective field.
    pub closed spec fn inv(self) -> bool {
        &&& ids_ok(self.models())
        &&& self.kinds.wf()
        &&& self.subjects.wf()
        &&& self.keywords.wf()
        &&& self.tags.wf()
        &&& forall|t: Seq<char>, x: Seq<char>|
            #[trigger] self.kinds.has(t, x) <==> (self.store().contains_key(x) && kind_has_term(
                self.store()[x],
                t,
            ))
        &&& forall|t: Seq<char>, x: Seq<char>|
            #[trigger] self.subjects.has(t, x) <==> (self.store().contains_key(x)
                && field_has_term(self.store()[x].subjects, t))
        &&& forall|t: Seq<char>, x: Seq<char>|
            #[trigger] self.keywords.has(t, x) <==> (self.store().contains_key(x)
                && field_has_term(self.store()[x].keywords, t))
        &&& forall|t: Seq<char>, x: Seq<char>|
            #[trigger] self.tags.has(t, x) <==> (self.store().contains_key(x) && field_has_term(
                self.store()[x].tags,
                t,
            ))
    }

    /// A fresh, empty engine.
    pub fn new() -> (r: MetadataIndex)
        ensures
            r.inv(),
            r.store() == Map::<Seq<char>, RecordModel>::empty(),
    {
        let r = MetadataIndex {
            entries: Vec::new(),
            kinds: TermIndex::new(),
            subjects: TermIndex::new(),
            keywords: TermIndex::new(),
            tags: TermIndex::new(),
        };
        proof {
            assert(r.store() =~= Map::<Seq<char>, RecordModel>::empty());
        }
        r
    }

    /// Inserts the record, or fully replaces the stored record with the same
    /// identifier, keeping all four indices consistent. A record with an
    /// empty identifier is skipped and the engine is unchanged.
    pub fn add_or_replace(&mut self, r: Record) -> (ok: bool)
        requires
            old(self).inv(),
        ensures
            final(self).inv(),
            ok == (r@.id.len() > 0),
            final(self).store() == store_add(old(self).store(), r@),
    {
        if r.id.as_str().is_empty() {
            proof {
                assert(self.store() =~= store_add(old(self).store(), r@));
            }
            return false;
        }
        let pos = find_by_id(&self.entries, &r.id);
        let ghost m0 = self.store();
        let ghost mid_map: Map<Seq<char>, RecordModel> = if pos is Some {
            m0.remove(r@.id)
        } else {
            m0
        };
        match pos {
            Some(i) => {
                let ghost models0 = self.models();
                let old_rec = self.entries.remove(i);
                proof {
                    assert(old_rec@ == models0[i as int]);
                    assert(old_rec@.id == r@.id);
                    lemma_store_remove(models0, i as int);
                    assert(self.models() == models0.remove(i as int));
                }
                self.kinds.remove(&old_rec.kind, &old_rec.id);
                remove_lowered(&mut self.subjects, &old_rec.subjects, &old_rec.id);
                remove_lowered(&mut self.keywords, &old_rec.keywords, &old_rec.id);
                remove_lowered(&mut self.tags, &old_rec.tags, &old_rec.id);
                proof {
                    let o = old(self);
                    let orec = old_rec@;
                    let id = r@.id;
                    assert forall|t: Seq<char>, x: Seq<char>|
                        #[trigger] self.kinds.has(t, x) <==> (mid_map.contains_key(x)
                            && kind_has_term(mid_map[x], t)) by {
                        if x == id {
                            if o.kinds.has(t, x) {
                                assert(kind_has_term(m0[x], t));
                                assert(m0[x] == orec);
                            }
                            assert(!self.kinds.has(t, x));
                        }
                    }
                    assert forall|t: Seq<char>, x: Seq<char>|
                        #[trigger] self.subjects.has(t, x) <==> (mid_map.contains_key(x)
                            && field_has_term(mid_map[x].subjects, t)) by {
                        if x == id {
                            if o.subjects.has(t, x) {
                                assert(field_has_term(m0[x].subjects, t));
                                assert(m0[x] == orec);
                            }
                            assert(!self.subjects.has(t, x));
                        }
                    }
                    assert forall|t: Seq<char>, x: Seq<char>|
                        #[trigger] self.keywords.has(t, x) <==> (mid_map.contains_key(x)
                            && field_has_term(mid_map[x].keywords, t)) by {
                        if x == id {
                            if o.keywords.has(t, x) {
                                assert(field_has_term(m0[x].keywords, t));
                                assert(m0[x] == orec);
                            }
                            assert(!self.keywords.has(t, x));
                        }
                    }
                    assert forall|t: Seq<char>, x: Seq<char>|
                        #[trigger] self.tags.has(t, x) <==> (mid_map.contains_key(x)
                            && field_has_term(mid_map[x].tags, t)) by {
                        if x == id {
                            if o.tags.has(t, x) {
                                assert(field_has_term(m0[x].tags, t));
                                assert(m0[x] == orec);
                            }
                            assert(!self.tags.has(t, x));
                        }
                    }
                }
            },
            None => {
                proof {
                    assert(!has_id(self.models(), r@.id));
                }
            },
        }
        let ghost models_mid = self.models();
        let ghost pre = *self;
        self.kinds.insert(r.kind.clone(), r.id.clone());
        insert_lowered(&mut self.subjects, &r.subjects, &r.id);
        insert_lowered(&mut self.keywords, &r.keywords, &r.id);
        insert_lowered(&mut self.tags, &r.tags, &r.id);
        let ghost rm = r@;
        self.entries.push(r);
        proof {
            let id = rm.id;
            assert(self.models() == models_mid.push(rm));
            assert(!has_id(models_mid, id));
            assert(seq_store(models_mid) =~= mid_map);
            lemma_store_push(models_mid, rm);
            assert(self.store() == mid_map.insert(id, rm));
            assert(self.store() =~= store_add(m0, rm));
            let m1 = self.store();
            assert(m1.contains_key(id) && m1[id] == rm);
            assert forall|t: Seq<char>, x: Seq<char>|
                #[trigger] self.kinds.has(t, x) <==> (m1.contains_key(x) && kind_has_term(
                    m1[x],
                    t,
                )) by {
                if x == id {
                    assert(self.kinds.has(t, x) <==> (pre.kinds.has(t, x) || (rm.kind.len() > 0
                        && t == rm.kind && x == id)));
                    assert(!pre.kinds.has(t, x));
                } else {
                    assert(self.kinds.has(t, x) <==> pre.kinds.has(t, x));
                }
            }
            assert forall|t: Seq<char>, x: Seq<char>|
                #[trigger] self.subjects.has(t, x) <==> (m1.contains_key(x) && field_has_term(
                    m1[x].subjects,
                    t,
                )) by {
                if x == id {
                    assert(!pre.subjects.has(t, x));
                } else {
                    assert(self.subjects.has(t, x) <==> pre.subjects.has(t, x));
                }
            }
            assert forall|t: Seq<char>, x: Seq<char>|
                #[trigger] self.keywords.has(t, x) <==> (m1.contains_key(x) && field_has_term(
                    m1[x].keywords,
                    t,
                )) by {
                if x == id {
                    assert(!pre.keywords.has(t, x));
                } else {
                    assert(self.keywords.has(t, x) <==> pre.keywords.has(t, x));
                }
            }
            assert forall|t: Seq<char>, x: Seq<char>|
                #[trigger] self.tags.has(t, x) <==> (m1.contains_key(x) && field_has_term(
                    m1[x].tags,
                    t,
                )) by {
                if x == id {
                    assert(!pre.tags.has(t, x));
                } else {
                    assert(self.tags.has(t, x) <==> pre.tags.has(t, x));
                }
            }
        }
        true
    }
}



/// The distinct kind terms of the stored records.
pub open spec fn kind_term_set(m: Map<Seq<char>, RecordModel>) -> Set<Seq<char>> {
    Set::new(
        |t: Seq<char>|
            exists|x: Seq<char>| #[trigger] m.contains_key(x) && kind_has_term(m[x], t),
    )
}

/// The distinct lowercased subject terms of the stored records.
pub open spec fn subject_term_set(m: Map<Seq<char>, RecordModel>) -> Set<Seq<char>> {
    Set::new(
        |t: Seq<char>|
            exists|x: Seq<char>| #[trigger] m.contains_key(x) && field_has_term(m[x].subjects, t),
    )
}

/// The distinct lowercased keyword terms of the stored records.
pub open spec fn keyword_term_set(m: Map<Seq<char>, RecordModel>) -> Set<Seq<char>> {
    Set::new(
        |t: Seq<char>|
            exists|x: Seq<char>| #[trigger] m.contains_key(x) && field_has_term(m[x].keywords, t),
    )
}

/// The distinct lowercased tag terms of the stored records.
pub open spec fn tag_term_set(m: Map<Seq<char>, RecordModel>) -> Set<Seq<char>> {
    Set::new(
        |t: Seq<char>|
            exists|x: Seq<char>| #[trigger] m.contains_key(x) && field_has_term(m[x].tags, t),
    )
}

/// The identifiers of the stored records whose kind is `t` (for non-empty
/// `t`): the kind bucket of the store.
pub open spec fn kind_bucket(m: Map<Seq<char>, RecordModel>, t: Seq<char>) -> Set<Seq<char>> {
    Set::new(|x: Seq<char>| m.contains_key(x) && kind_has_term(m[x], t))
}

/// The distribution list names term `t`.
pub open spec fn dist_has_key(d: Seq<(String, usize)>, t: Seq<char>) -> bool {
    exists|i: int| 0 <= i < d.len() && (#[trigger] d[i]).0@ == t
}

/// The read-only aggregate the engine reports: the record count, the number
/// of distinct terms each index holds, and the size of every kind bucket.
pub struct Stats {
    pub total: usize,
    pub types_indexed: usize,
    pub subjects_indexed: usize,
    pub keywords_indexed: usize,
    pub tags_indexed: usize,
    pub types_dist: Vec<(String, usize)>,
}

/// Ranking keys compare by score first, then by timestamp, both descending.
pub open spec fn pair_geq(a0: u32, a1: u64, b0: u32, b1: u64) -> bool {
    a0 > b0 || (a0 == b0 && a1 >= b1)
}

/// The identifier list holds `x`.
pub open spec fn ids_contain(s: Seq<String>, x: Seq<char>) -> bool {
    exists|i: int| 0 <= i < s.len() && (#[trigger] s[i])@ == x
}

/// The ranked hit list holds an entry for identifier `x`.
pub open spec fn hits_contain(hs: Seq<(u32, u64, String)>, x: Seq<char>) -> bool {
    exists|a: int| 0 <= a < hs.len() && (#[trigger] hs[a]).2@ == x
}

/// A ranked hit list is sorted: higher keys first.
pub open spec fn hits_sorted(hs: Seq<(u32, u64, String)>) -> bool {
    forall|a: int, b: int|
        0 <= a < b < hs.len() ==> pair_geq(
            (#[trigger] hs[a]).0,
            hs[a].1,
            (#[trigger] hs[b]).0,
            hs[b].1,
        )
}

/// Places the item at its rank, keeping the list sorted.
fn insert_ranked(hits: &mut Vec<(u32, u64, String)>, item: (u32, u64, String))
    requires
        hits_sorted(old(hits)@),
    ensures
        hits_sorted(final(hits)@),
        exists|p: int| 0 <= p <= old(hits)@.len() && final(hits)@ == old(hits)@.insert(p, item),
{
    let n = hits.len();
    let mut p: usize = 0;
    while p < n && (hits[p].0 > item.0 || (hits[p].0 == item.0 && hits[p].1 >= item.1))
        invariant
            n == hits@.len(),
            hits@ == old(hits)@,
            0 <= p <= n,
            forall|a: int| 0 <= a < p ==> pair_geq((#[trigger] hits@[a]).0, hits@[a].1, item.0, item.1),
        decreases n - p,
    {
        p = p + 1;
    }
    let ghost before = hits@;
    let ghost pp = p as int;
    hits.insert(p, item);
    proof {
        before.insert_ensures(pp, item);
        assert forall|a: int, b: int|
            0 <= a < b < hits@.len() implies pair_geq(
            (#[trigger] hits@[a]).0,
            hits@[a].1,
            (#[trigger] hits@[b]).0,
            hits@[b].1,
        ) by {
            if a < pp {
                assert(hits@[a] == before[a]);
            } else if a == pp {
                assert(hits@[a] == item);
            } else {
                assert(hits@[a] == before[a - 1]);
            }
            if b < pp {
                assert(hits@[b] == before[b]);
            } else if b == pp {
                assert(hits@[b] == item);
            } else {
                assert(hits@[b] == before[b - 1]);
            }
            if a == pp && b > pp {
                assert(pp < before.len());
                assert(!pair_geq(before[pp].0, before[pp].1, item.0, item.1));
                if b - 1 > pp {
                    assert(pair_geq(before[pp].0, before[pp].1, before[b - 1].0, before[b - 1].1));
                }
            }
        }
    }
}

/// The record at position `k` is the one the store maps its identifier to.
pub proof fn lemma_store_lookup(rs: Seq<RecordModel>, k: int)
    requires
        ids_ok(rs),
        0 <= k < rs.len(),
    ensures
        seq_store(rs).contains_key(rs[k].id),
        seq_store(rs)[rs[k].id] == rs[k],
{
    assert(has_id(rs, rs[k].id));
    let k2 = id_at(rs, rs[k].id);
    assert(0 <= k2 < rs.len() && rs[k2].id == rs[k].id);
    assert(k2 == k);
}

impl MetadataIndex {
    /// The fuzzy ranked search. Every stored record is scored independently;
    /// those passing the hard filters with a score of at least 2.0 are
    /// ranked by score, ties broken by the more recent timestamp, and the
    /// ranked identifiers are returned, truncated to the limit: whenever a
    /// qualifying record is left out, the result is full and everything in
    /// it ranks at least as high.
    pub fn search_flexible(&self, q: &FlexibleQuery) -> (res: Vec<String>)
        requires
            self.inv(),
        ensures
            res@.len() <= effective_limit(q@.limit),
            forall|i: int|
                0 <= i < res@.len() ==> self.store().contains_key((#[trigger] res@[i])@)
                    && flex_qualifies(q@, self.store()[res@[i]@]),
            forall|i: int, j: int| 0 <= i < j < res@.len() ==> (#[trigger] res@[i])@ != (#[trigger] res@[j])@,
            forall|i: int, j: int|
                0 <= i < j < res@.len() ==> flex_geq(
                    q@,
                    self.store()[(#[trigger] res@[i])@],
                    self.store()[(#[trigger] res@[j])@],
                ),
            forall|x: Seq<char>|
                #[trigger] self.store().contains_key(x) && flex_qualifies(q@, self.store()[x])
                    && !ids_contain(res@, x) ==> res@.len() == effective_limit(q@.limit) && (forall|
                    i: int,
                |
                    0 <= i < res@.len() ==> flex_geq(q@, self.store()[(#[trigger] res@[i])@], self.store()[x])),
    {
        let ghost m = self.store();
        let qs_lc: Vec<String> = match &q.subjects {
            Some(v) => lower_all(v),
            None => Vec::new(),
        };
        proof {
            assert(qs_lc.deep_view() =~= lowered_all(q@.subjects));
        }
        let mut hits: Vec<(u32, u64, String)> = Vec::new();
        let n = self.entries.len();
        let mut k: usize = 0;
        while k < n
            invariant
                self.inv(),
                m == self.store(),
                n == self.entries@.len(),
                qs_lc.deep_view() == lowered_all(q@.subjects),
                0 <= k <= n,
                hits_sorted(hits@),
                forall|a: int|
                    0 <= a < hits@.len() ==> m.contains_key((#[trigger] hits@[a]).2@)
                        && flex_qualifies(q@, m[hits@[a].2@]) && hits@[a].0 == flex_score(
                        q@,
                        m[hits@[a].2@],
                    ) && hits@[a].1 == m[hits@[a].2@].created_at,
                forall|a: int, b: int|
                    0 <= a < b < hits@.len() ==> (#[trigger] hits@[a]).2@ != (#[trigger] hits@[b]).2@,
                forall|x: Seq<char>|
                    #[trigger] hits_contain(hits@, x) <==> (exists|kk: int|
                        0 <= kk < k && (#[trigger] self.models()[kk]).id == x && flex_qualifies(
                            q@,
                            self.models()[kk],
                        )),
            decreases n - k,
        {
            let ghost kk = k as int;
            let ghost models = self.models();
            let e = &self.entries[k];
            proof {
                assert(e@ == models[kk]);
                lemma_store_lookup(models, kk);
            }
            let mut stored = false;
            if flex_admits_exec(q, e) {
                let sc = flex_score_exec(q, &qs_lc, e);
                if sc >= SCORE_FLOOR {
                    stored = true;
                    proof {
                        assert(flex_qualifies(q@, e@));
                        assert forall|a: int| 0 <= a < hits@.len() implies (#[trigger] hits@[a]).2@
                            != models[kk].id by {
                            assert(hits_contain(hits@, hits@[a].2@));
                            let k0 = choose|k0: int|
                                0 <= k0 < k && (#[trigger] models[k0]).id == hits@[a].2@
                                    && flex_qualifies(q@, models[k0]);
                            assert(models[k0].id != models[kk].id);
                        }
                    }
                    let ghost before = hits@;
                    let item = (sc, e.created_at, e.id.clone());
                    let ghost itemg = item;
                    insert_ranked(&mut hits, item);
                    proof {
                        let p = choose|p: int|
                            0 <= p <= before.len() && hits@ == before.insert(p, itemg);
                        before.insert_ensures(p, itemg);
                        assert forall|a: int|
                            0 <= a < hits@.len() implies m.contains_key((#[trigger] hits@[a]).2@)
                            && flex_qualifies(q@, m[hits@[a].2@]) && hits@[a].0 == flex_score(
                            q@,
                            m[hits@[a].2@],
                        ) && hits@[a].1 == m[hits@[a].2@].created_at by {
                            if a < p {
                                assert(hits@[a] == before[a]);
                            } else if a == p {
                                assert(hits@[a] == itemg);
                                assert(m[itemg.2@] == e@);
                            } else {
                                assert(hits@[a] == before[a - 1]);
                            }
                        }
                        assert forall|a: int, b: int|
                            0 <= a < b < hits@.len() implies (#[trigger] hits@[a]).2@ != (
                        #[trigger] hits@[b]).2@ by {
                            let ghost aa: int = if a < p {
                                a
                            } else {
                                a - 1
                            };
                            let ghost bb: int = if b < p {
                                b
                            } else {
                                b - 1
                            };
                            if a == p {
                                assert(hits@[b] == before[bb]);
                                assert(before[bb].2@ != models[kk].id);
                            } else if b == p {
                                assert(hits@[a] == before[aa]);
                                assert(before[aa].2@ != models[kk].id);
                            } else {
                                assert(hits@[a] == before[aa] && hits@[b] == before[bb]);
                            }
                        }
                        assert forall|x: Seq<char>|
                            #[trigger] hits_contain(hits@, x) <==> (exists|k0: int|
                                0 <= k0 < kk + 1 && (#[trigger] models[k0]).id == x
                                    && flex_qualifies(q@, models[k0])) by {
                            if hits_contain(hits@, x) {
                                let a = choose|a: int|
                                    0 <= a < hits@.len() && (#[trigger] hits@[a]).2@ == x;
                                if a == p {
                                    assert(models[kk].id == x);
                                } else {
                                    let ghost aa: int = if a < p {
                                        a
                                    } else {
                                        a - 1
                                    };
                                    assert(hits@[a] == before[aa]);
                                    assert(hits_contain(before, x));
                                }
                            }
                            if exists|k0: int|
                                0 <= k0 < kk + 1 && (#[trigger] models[k0]).id == x
                                    && flex_qualifies(q@, models[k0]) {
                                let k0 = choose|k0: int|
                                    0 <= k0 < kk + 1 && (#[trigger] models[k0]).id == x
                                        && flex_qualifies(q@, models[k0]);
                                if k0 < kk {
                                    assert(hits_contain(before, x));
                                    let a = choose|a: int|
                                        0 <= a < before.len() && (#[trigger] before[a]).2@ == x;
                                    let ghost an: int = if a < p {
                                        a
                                    } else {
                                        a + 1
                                    };
                                    assert(hits@[an] == before[a]);
                                    assert(hits_contain(hits@, x));
                                } else {
                                    assert(hits@[p] == itemg);
                                    assert(hits_contain(hits@, x));
                                }
                            }
                        }
                    }
                } else {
                    proof {
                        assert(!flex_qualifies(q@, e@));
                    }
                }
            } else {
                proof {
                    assert(!flex_qualifies(q@, e@));
                }
            }
            proof {
                if !stored {
                    assert forall|x: Seq<char>|
                        #[trigger] hits_contain(hits@, x) <==> (exists|k0: int|
                            0 <= k0 < kk + 1 && (#[trigger] models[k0]).id == x && flex_qualifies(
                                q@,
                                models[k0],
                            )) by {
                        if exists|k0: int|
                            0 <= k0 < kk + 1 && (#[trigger] models[k0]).id == x && flex_qualifies(
                                q@,
                                models[k0],
                            ) {
                            let k0 = choose|k0: int|
                                0 <= k0 < kk + 1 && (#[trigger] models[k0]).id == x
                                    && flex_qualifies(q@, models[k0]);
                            if k0 == kk {
                                assert(!flex_qualifies(q@, models[kk]));
                                assert(false);
                            }
                        }
                    }
                }
            }
            k = k + 1;
        }
        let limit: usize = match q.limit {
            Some(l) => l,
            None => 100,
        };
        let mut res: Vec<String> = Vec::new();
        let mut t: usize = 0;
        let nh = hits.len();
        while t < nh && t < limit
            invariant
                nh == hits@.len(),
                0 <= t <= nh,
                t <= limit,
                res@.len() == t,
                forall|i: int| 0 <= i < t ==> #[trigger] res@[i] == hits@[i].2,
            decreases nh - t,
        {
            res.push(hits[t].2.clone());
            t = t + 1;
        }
        proof {
            let models = self.models();
            assert(limit as int == effective_limit(q@.limit));
            assert forall|i: int|
                0 <= i < res@.len() implies self.store().contains_key((#[trigger] res@[i])@)
                && flex_qualifies(q@, self.store()[res@[i]@]) by {
                assert(res@[i] == hits@[i].2);
            }
            assert forall|x: Seq<char>|
                #[trigger] self.store().contains_key(x) && flex_qualifies(q@, self.store()[x])
                    && !ids_contain(res@, x) implies res@.len() == effective_limit(q@.limit) && (
            forall|i: int|
                0 <= i < res@.len() ==> flex_geq(
                    q@,
                    self.store()[(#[trigger] res@[i])@],
                    self.store()[x],
                )) by {
                let kx = id_at(models, x);
                assert(0 <= kx < models.len() && models[kx].id == x);
                lemma_store_lookup(models, kx);
                assert(m[x] == models[kx]);
                assert(hits_contain(hits@, x));
                let a = choose|a: int| 0 <= a < hits@.len() && (#[trigger] hits@[a]).2@ == x;
                if a < t {
                    assert(res@[a] == hits@[a].2);
                    assert(ids_contain(res@, x));
                }
                assert(a >= t);
                assert(t < nh);
                assert(t == limit);
                assert forall|i: int|
                    0 <= i < res@.len() implies flex_geq(
                    q@,
                    self.store()[(#[trigger] res@[i])@],
                    self.store()[x],
                ) by {
                    assert(res@[i] == hits@[i].2);
                    assert(pair_geq(hits@[i].0, hits@[i].1, hits@[a].0, hits@[a].1));
                    assert(m[hits@[a].2@] == m[x]);
                }
            }
        }
        res
    }

    /// The strict boolean filter search. A record is retained only when it
    /// passes every supplied filter; the retained identifiers are returned
    /// ordered by timestamp descending, truncated to the limit: whenever a
    /// qualifying record is left out, the result is full and everything in
    /// it is at least as recent.
    pub fn search_strict(&self, q: &StrictQuery) -> (res: Vec<String>)
        requires
            self.inv(),
        ensures
            res@.len() <= effective_limit(q@.limit),
            forall|i: int|
                0 <= i < res@.len() ==> self.store().contains_key((#[trigger] res@[i])@)
                    && strict_qualifies(q@, self.store()[res@[i]@]),
            forall|i: int, j: int| 0 <= i < j < res@.len() ==> (#[trigger] res@[i])@ != (#[trigger] res@[j])@,
            forall|i: int, j: int|
                0 <= i < j < res@.len() ==> self.store()[(#[trigger] res@[i])@].created_at
                    >= self.store()[(#[trigger] res@[j])@].created_at,
            forall|x: Seq<char>|
                #[trigger] self.store().contains_key(x) && strict_qualifies(q@, self.store()[x])
                    && !ids_contain(res@, x) ==> res@.len() == effective_limit(q@.limit) && (forall|
                    i: int,
                |
                    0 <= i < res@.len() ==> self.store()[(#[trigger] res@[i])@].created_at
                        >= self.store()[x].created_at),
    {
        let ghost m = self.store();
        let mut hits: Vec<(u32, u64, String)> = Vec::new();
        let n = self.entries.len();
        let mut k: usize = 0;
        while k < n
            invariant
                self.inv(),
                m == self.store(),
                n == self.entries@.len(),
                0 <= k <= n,
                hits_sorted(hits@),
                forall|a: int|
                    0 <= a < hits@.len() ==> m.contains_key((#[trigger] hits@[a]).2@)
                        && strict_qualifies(q@, m[hits@[a].2@]) && hits@[a].0 == 0 && hits@[a].1
                        == m[hits@[a].2@].created_at,
                forall|a: int, b: int|
                    0 <= a < b < hits@.len() ==> (#[trigger] hits@[a]).2@ != (#[trigger] hits@[b]).2@,
                forall|x: Seq<char>|
                    #[trigger] hits_contain(hits@, x) <==> (exists|kk: int|
                        0 <= kk < k && (#[trigger] self.models()[kk]).id == x && strict_qualifies(
                            q@,
                            self.models()[kk],
                        )),
            decreases n - k,
        {
            let ghost kk = k as int;
            let ghost models = self.models();
            let e = &self.entries[k];
            proof {
                assert(e@ == models[kk]);
                lemma_store_lookup(models, kk);
            }
            let mut stored = false;
            if strict_qualifies_exec(q, e) {
                stored = true;
                proof {
                    assert forall|a: int| 0 <= a < hits@.len() implies (#[trigger] hits@[a]).2@
                        != models[kk].id by {
                        assert(hits_contain(hits@, hits@[a].2@));
                        let k0 = choose|k0: int|
                            0 <= k0 < k && (#[trigger] models[k0]).id == hits@[a].2@
                                && strict_qualifies(q@, models[k0]);
                        assert(models[k0].id != models[kk].id);
                    }
                }
                let ghost before = hits@;
                let item = (0u32, e.created_at, e.id.clone());
                let ghost itemg = item;
                insert_ranked(&mut hits, item);
                proof {
                    let p = choose|p: int|
                        0 <= p <= before.len() && hits@ == before.insert(p, itemg);
                    before.insert_ensures(p, itemg);
                    assert forall|a: int|
                        0 <= a < hits@.len() implies m.contains_key((#[trigger] hits@[a]).2@)
                        && strict_qualifies(q@, m[hits@[a].2@]) && hits@[a].0 == 0 && hits@[a].1
                        == m[hits@[a].2@].created_at by {
                        if a < p {
                            assert(hits@[a] == before[a]);
                        } else if a == p {
                            assert(hits@[a] == itemg);
                            assert(m[itemg.2@] == e@);
                        } else {
                            assert(hits@[a] == before[a - 1]);
                        }
                    }
                    assert forall|a: int, b: int|
                        0 <= a < b < hits@.len() implies (#[trigger] hits@[a]).2@ != (
                    #[trigger] hits@[b]).2@ by {
                        let ghost aa: int = if a < p {
                            a
                        } else {
                            a - 1
                        };
                        let ghost bb: int = if b < p {
                            b
                        } else {
                            b - 1
                        };
                        if a == p {
                            assert(hits@[b] == before[bb]);
                            assert(before[bb].2@ != models[kk].id);
                        } else if b == p {
                            assert(hits@[a] == before[aa]);
                            assert(before[aa].2@ != models[kk].id);
                        } else {
                            assert(hits@[a] == before[aa] && hits@[b] == before[bb]);
                        }
                    }
                    assert forall|x: Seq<char>|
                        #[trigger] hits_contain(hits@, x) <==> (exists|k0: int|
                            0 <= k0 < kk + 1 && (#[trigger] models[k0]).id == x
                                && strict_qualifies(q@, models[k0])) by {
                        if hits_contain(hits@, x) {
                            let a = choose|a: int|
                                0 <= a < hits@.len() && (#[trigger] hits@[a]).2@ == x;
                            if a == p {
                                assert(models[kk].id == x);
                            } else {
                                let ghost aa: int = if a < p {
                                    a
                                } else {
                                    a - 1
                                };
                                assert(hits@[a] == before[aa]);
                                assert(hits_contain(before, x));
                            }
                        }
                        if exists|k0: int|
                            0 <= k0 < kk + 1 && (#[trigger] models[k0]).id == x
                                && strict_qualifies(q@, models[k0]) {
                            let k0 = choose|k0: int|
                                0 <= k0 < kk + 1 && (#[trigger] models[k0]).id == x
                                    && strict_qualifies(q@, models[k0]);
                            if k0 < kk {
                                assert(hits_contain(before, x));
                                let a = choose|a: int|
                                    0 <= a < before.len() && (#[trigger] before[a]).2@ == x;
                                let ghost an: int = if a < p {
                                    a
                                } else {
                                    a + 1
                                };
                                assert(hits@[an] == before[a]);
                                assert(hits_contain(hits@, x));
                            } else {
                                assert(hits@[p] == itemg);
                                assert(hits_contain(hits@, x));
                            }
                        }
                    }
                }
            }
            proof {
                if !stored {
                    assert forall|x: Seq<char>|
                        #[trigger] hits_contain(hits@, x) <==> (exists|k0: int|
                            0 <= k0 < kk + 1 && (#[trigger] models[k0]).id == x
                                && strict_qualifies(q@, models[k0])) by {
                        if exists|k0: int|
                            0 <= k0 < kk + 1 && (#[trigger] models[k0]).id == x
                                && strict_qualifies(q@, models[k0]) {
                            let k0 = choose|k0: int|
                                0 <= k0 < kk + 1 && (#[trigger] models[k0]).id == x
                                    && strict_qualifies(q@, models[k0]);
                            if k0 == kk {
                                assert(!strict_qualifies(q@, models[kk]));
                                assert(false);
                            }
                        }
                    }
                }
            }
            k = k + 1;
        }
        let limit: usize = match q.limit {
            Some(l) => l,
            None => 100,
        };
        let mut res: Vec<String> = Vec::new();
        let mut t: usize = 0;
        let nh = hits.len();
        while t < nh && t < limit
            invariant
                nh == hits@.len(),
                0 <= t <= nh,
                t <= limit,
                res@.len() == t,
                forall|i: int| 0 <= i < t ==> #[trigger] res@[i] == hits@[i].2,
            decreases nh - t,
        {
            res.push(hits[t].2.clone());
            t = t + 1;
        }
        proof {
            let models = self.models();
            assert(limit as int == effective_limit(q@.limit));
            assert forall|i: int|
                0 <= i < res@.len() implies self.store().contains_key((#[trigger] res@[i])@)
                && strict_qualifies(q@, self.store()[res@[i]@]) by {
                assert(res@[i] == hits@[i].2);
            }
            assert forall|x: Seq<char>|
                #[trigger] self.store().contains_key(x) && strict_qualifies(q@, self.store()[x])
                    && !ids_contain(res@, x) implies res@.len() == effective_limit(q@.limit) && (
            forall|i: int|
                0 <= i < res@.len() ==> self.store()[(#[trigger] res@[i])@].created_at
                    >= self.store()[x].created_at) by {
                let kx = id_at(models, x);
                assert(0 <= kx < models.len() && models[kx].id == x);
                lemma_store_lookup(models, kx);
                assert(m[x] == models[kx]);
                assert(hits_contain(hits@, x));
                let a = choose|a: int| 0 <= a < hits@.len() && (#[trigger] hits@[a]).2@ == x;
                if a < t {
                    assert(res@[a] == hits@[a].2);
                    assert(ids_contain(res@, x));
                }
                assert(a >= t);
                assert(t < nh);
                assert(t == limit);
                assert forall|i: int|
                    0 <= i < res@.len() implies self.store()[(#[trigger] res@[i])@].created_at
                    >= self.store()[x].created_at by {
                    assert(res@[i] == hits@[i].2);
                    assert(pair_geq(hits@[i].0, hits@[i].1, hits@[a].0, hits@[a].1));
                    assert(m[hits@[a].2@] == m[x]);
                }
            }
        }
        res
    }


    /// The read-only aggregate over the store: total record count, distinct
    /// indexed terms per index, and the distribution of kind bucket sizes.
    pub fn stats(&self) -> (s: Stats)
        requires
            self.inv(),
        ensures
            s.total == self.store().len(),
            s.types_indexed == kind_term_set(self.store()).len(),
            s.subjects_indexed == subject_term_set(self.store()).len(),
            s.keywords_indexed == keyword_term_set(self.store()).len(),
            s.tags_indexed == tag_term_set(self.store()).len(),
            forall|i: int|
                0 <= i < s.types_dist@.len() ==> kind_term_set(self.store()).contains(
                    (#[trigger] s.types_dist@[i]).0@,
                ) && s.types_dist@[i].1 == kind_bucket(self.store(), s.types_dist@[i].0@).len(),
            forall|i: int, j: int|
                0 <= i < j < s.types_dist@.len() ==> (#[trigger] s.types_dist@[i]).0@ != (
                #[trigger] s.types_dist@[j]).0@,
            forall|t: Seq<char>|
                #[trigger] kind_term_set(self.store()).contains(t) ==> dist_has_key(
                    s.types_dist@,
                    t,
                ),
    {
        let ghost m = self.store();
        proof {
            lemma_store_len(self.models());
            assert forall|t: Seq<char>| #[trigger] self.kinds.term_set().contains(t)
                <==> kind_term_set(m).contains(t) by {
                if self.kinds.has_term(t) {
                    let i = choose|i: int|
                        0 <= i < self.kinds.num_terms() && #[trigger] self.kinds.term_at(i) == t;
                    assert(self.kinds.bucket_at(i).len() > 0);
                    let x = self.kinds.bucket_at(i)[0];
                    assert(crate::index::bucket_contains(self.kinds.bucket_at(i), x));
                    assert(self.kinds.has(t, x));
                }
                if kind_term_set(m).contains(t) {
                    let x = choose|x: Seq<char>| #[trigger] m.contains_key(x) && kind_has_term(m[x], t);
                    assert(self.kinds.has(t, x));
                    let i = choose|i: int|
                        0 <= i < self.kinds.num_terms() && #[trigger] self.kinds.term_at(i) == t
                            && crate::index::bucket_contains(self.kinds.bucket_at(i), x);
                    assert(self.kinds.has_term(t));
                }
            }
            assert(self.kinds.term_set() =~= kind_term_set(m));
            self.kinds.lemma_term_set_len();
            assert forall|t: Seq<char>| #[trigger] self.subjects.term_set().contains(t)
                <==> subject_term_set(m).contains(t) by {
                if self.subjects.has_term(t) {
                    let i = choose|i: int|
                        0 <= i < self.subjects.num_terms() && #[trigger] self.subjects.term_at(i)
                            == t;
                    assert(self.subjects.bucket_at(i).len() > 0);
                    let x = self.subjects.bucket_at(i)[0];
                    assert(crate::index::bucket_contains(self.subjects.bucket_at(i), x));
                    assert(self.subjects.has(t, x));
                }
                if subject_term_set(m).contains(t) {
                    let x = choose|x: Seq<char>| #[trigger] m.contains_key(x) && field_has_term(
                        m[x].subjects,
                        t,
                    );
                    assert(self.subjects.has(t, x));
                    let i = choose|i: int|
                        0 <= i < self.subjects.num_terms() && #[trigger] self.subjects.term_at(i)
                            == t && crate::index::bucket_contains(self.subjects.bucket_at(i), x);
                    assert(self.subjects.has_term(t));
                }
            }
            assert(self.subjects.term_set() =~= subject_term_set(m));
            self.subjects.lemma_term_set_len();
            assert forall|t: Seq<char>| #[trigger] self.keywords.term_set().contains(t)
                <==> keyword_term_set(m).contains(t) by {
                if self.keywords.has_term(t) {
                    let i = choose|i: int|
                        0 <= i < self.keywords.num_terms() && #[trigger] self.keywords.term_at(i)
                            == t;
                    assert(self.keywords.bucket_at(i).len() > 0);
                    let x = self.keywords.bucket_at(i)[0];
                    assert(crate::index::bucket_contains(self.keywords.bucket_at(i), x));
                    assert(self.keywords.has(t, x));
                }
                if keyword_term_set(m).contains(t) {
                    let x = choose|x: Seq<char>| #[trigger] m.contains_key(x) && field_has_term(
                        m[x].keywords,
                        t,
                    );
                    assert(self.keywords.has(t, x));
                    let i = choose|i: int|
                        0 <= i < self.keywords.num_terms() && #[trigger] self.keywords.term_at(i)
                            == t && crate::index::bucket_contains(self.keywords.bucket_at(i), x);
                    assert(self.keywords.has_term(t));
                }
            }
            assert(self.keywords.term_set() =~= keyword_term_set(m));
            self.keywords.lemma_term_set_len();
            assert forall|t: Seq<char>| #[trigger] self.tags.term_set().contains(t)
                <==> tag_term_set(m).contains(t) by {
                if self.tags.has_term(t) {
                    let i = choose|i: int|
                        0 <= i < self.tags.num_terms() && #[trigger] self.tags.term_at(i) == t;
                    assert(self.tags.bucket_at(i).len() > 0);
                    let x = self.tags.bucket_at(i)[0];
                    assert(crate::index::bucket_contains(self.tags.bucket_at(i), x));
                    assert(self.tags.has(t, x));
                }
                if tag_term_set(m).contains(t) {
                    let x = choose|x: Seq<char>| #[trigger] m.contains_key(x) && field_has_term(
                        m[x].tags,
                        t,
                    );
                    assert(self.tags.has(t, x));
                    let i = choose|i: int|
                        0 <= i < self.tags.num_terms() && #[trigger] self.tags.term_at(i) == t
                            && crate::index::bucket_contains(self.tags.bucket_at(i), x);
                    assert(self.tags.has_term(t));
                }
            }
            assert(self.tags.term_set() =~= tag_term_set(m));
            self.tags.lemma_term_set_len();
        }
        let total = self.entries.len();
        let types_indexed = self.kinds.term_count();
        let subjects_indexed = self.subjects.term_count();
        let keywords_indexed = self.keywords.term_count();
        let tags_indexed = self.tags.term_count();
        let types_dist = self.kinds.dist();
        proof {
            assert forall|i: int|
                0 <= i < types_dist@.len() implies kind_term_set(m).contains(
                (#[trigger] types_dist@[i]).0@,
            ) && types_dist@[i].1 == kind_bucket(m, types_dist@[i].0@).len() by {
                let t = types_dist@[i].0@;
                assert(t == self.kinds.term_at(i));
                assert(self.kinds.has_term(t));
                assert(self.kinds.term_set().contains(t));
                self.kinds.lemma_bucket_len(i);
                assert forall|x: Seq<char>| #[trigger] self.kinds.id_set(t).contains(x)
                    <==> kind_bucket(m, t).contains(x) by {}
                assert(self.kinds.id_set(t) =~= kind_bucket(m, t));
            }
            assert forall|t: Seq<char>| #[trigger] kind_term_set(m).contains(t) implies dist_has_key(
                types_dist@,
                t,
            ) by {
                assert(self.kinds.term_set().contains(t));
                let i = choose|i: int|
                    0 <= i < self.kinds.num_terms() && #[trigger] self.kinds.term_at(i) == t;
                assert(types_dist@[i].0@ == t);
            }
        }
        Stats { total, types_indexed, subjects_indexed, keywords_indexed, tags_indexed, types_dist }
    }

    /// Applies the mutation protocol to each record independently, first
    /// record first. A record without an identifier is silently skipped;
    /// the returned count is the number of records that were stored.
    pub fn batch_add(&mut self, records: Vec<Record>) -> (count: usize)
        requires
            old(self).inv(),
        ensures
            final(self).inv(),
            final(self).store() == store_add_all(old(self).store(), records.deep_view()),
            count == count_valid(records.deep_view()),
    {
        let ghost rd = records.deep_view();
        let ghost m0 = self.store();
        let n = records.len();
        let mut count: usize = 0;
        let mut k: usize = 0;
        proof {
            assert(rd.skip(0) =~= rd);
        }
        while k < n
            invariant
                n == records@.len(),
                rd == records.deep_view(),
                0 <= k <= n,
                count <= k,
                self.inv(),
                store_add_all(m0, rd) == store_add_all(self.store(), rd.skip(k as int)),
                count_valid(rd) == count + count_valid(rd.skip(k as int)),
            decreases n - k,
        {
            let ghost cur = self.store();
            let ghost kk = k as int;
            let r = records[k].duplicate();
            let ok = self.add_or_replace(r);
            if ok {
                count = count + 1;
            }
            proof {
                assert(rd.skip(kk)[0] == rd[kk]);
                assert(rd.skip(kk).drop_first() =~= rd.skip(kk + 1));
                assert(r@ == rd[kk]);
                assert(self.store() == store_add(cur, rd[kk]));
                assert(store_add_all(cur, rd.skip(kk)) == store_add_all(
                    store_add(cur, rd[kk]),
                    rd.skip(kk + 1),
                ));
            }
            k = k + 1;
        }
        proof {
            assert(rd.skip(n as int) =~= Seq::<RecordModel>::empty());
        }
        count
    }

    /// The stored record with this identifier, if any.
    pub fn get(&self, id: &String) -> (r: Option<&Record>)
        requires
            self.inv(),
        ensures
            match r {
                Some(rec) => self.store().contains_key(id@) && rec@ == self.store()[id@],
                None => !self.store().contains_key(id@),
            },
    {
        let pos = find_by_id(&self.entries, id);
        match pos {
            Some(i) => {
                proof {
                    lemma_store_lookup(self.models(), i as int);
                }
                Some(&self.entries[i])
            },
            None => {
                proof {
                    if self.store().contains_key(id@) {
                        let k = id_at(self.models(), id@);
                        assert(self.models()[k].id == id@);
                    }
                }
                None
            },
        }
    }

    /// The number of stored records.
    pub fn len(&self) -> (n: usize)
        requires
            self.inv(),
        ensures
            n == self.store().len(),
    {
        proof {
            lemma_store_len(self.models());
        }
        self.entries.len()
    }

    /// A fresh copy of every stored record; the copies enumerate the store
    /// exactly, so replaying them through the mutation protocol rebuilds an
    /// engine with the same abstract state.
    pub fn snapshot(&self) -> (list: Vec<Record>)
        requires
            self.inv(),
        ensures
            ids_ok(list.deep_view()),
            list.deep_view().len() == self.store().len(),
            forall|i: int|
                0 <= i < list.deep_view().len() ==> self.store().contains_key(
                    (#[trigger] list.deep_view()[i]).id,
                ) && self.store()[list.deep_view()[i].id] == list.deep_view()[i],
            forall|x: Seq<char>|
                #[trigger] self.store().contains_key(x) ==> has_id(list.deep_view(), x),
    {
        let ghost models = self.models();
        let n = self.entries.len();
        let mut list: Vec<Record> = Vec::new();
        let mut k: usize = 0;
        while k < n
            invariant
                self.inv(),
                models == self.models(),
                n == self.entries@.len(),
                0 <= k <= n,
                list.deep_view() =~= models.subrange(0, k as int),
            decreases n - k,
        {
            let ghost prev = list.deep_view();
            let copy = self.entries[k].duplicate();
            list.push(copy);
            proof {
                assert(list.deep_view() =~= prev.push(models[k as int]));
                assert(list.deep_view() =~= models.subrange(0, k as int + 1));
            }
            k = k + 1;
        }
        proof {
            assert(models.subrange(0, n as int) =~= models);
            assert(list.deep_view() == models);
            lemma_store_len(models);
            assert forall|i: int| 0 <= i < models.len() implies self.store().contains_key(
                (#[trigger] models[i]).id,
            ) && self.store()[models[i].id] == models[i] by {
                lemma_store_lookup(models, i);
            }
        }
        list
    }

    /// An engine rebuilt by replaying a record list through the mutation
    /// protocol, as loading a persisted snapshot does.
    pub fn from_records(records: Vec<Record>) -> (r: MetadataIndex)
        ensures
            r.inv(),
            r.store() == store_add_all(
                Map::<Seq<char>, RecordModel>::empty(),
                records.deep_view(),
            ),
    {
        let mut r = MetadataIndex::new();
        r.batch_add(records);
        r
    }
}

/// A store built from records with distinct identifiers has one entry per
/// record.
pub proof fn lemma_store_len(rs: Seq<RecordModel>)
    requires
        ids_ok(rs),
    ensures
        seq_store(rs).dom().finite(),
        seq_store(rs).len() == rs.len(),
    decreases rs.len(),
{
    if rs.len() == 0 {
        assert(seq_store(rs).dom() =~= Set::<Seq<char>>::empty());
    } else {
        let rr = rs.drop_last();
        let last = rs.last();
        assert(rs =~= rr.push(last));
        assert forall|k: int| 0 <= k < rr.len() implies (#[trigger] rr[k]).id != last.id by {
            assert(rr[k] == rs[k]);
            assert(rs[k].id != rs[rs.len() - 1].id);
        }
        if has_id(rr, last.id) {
            let k = choose|k: int| 0 <= k < rr.len() && (#[trigger] rr[k]).id == last.id;
            assert(false);
        }
        lemma_store_len(rr);
        lemma_store_push(rr, last);
        assert(seq_store(rs) == seq_store(rr).insert(last.id, last));
        assert(seq_store(rs).dom() =~= seq_store(rr).dom().insert(last.id));
        vstd::set::axiom_set_insert_len(seq_store(rr).dom(), last.id);
    }
}


/// The position of the record bearing the identifier, if any.
fn find_by_id(v: &Vec<Record>, id: &String) -> (r: Option<usize>)
    ensures
        match r {
            Some(i) => 0 <= i < v@.len() && v.deep_view()[i as int].id == id@,
            None => !has_id(v.deep_view(), id@),
        },
{
    let n = v.len();
    let mut i: usize = 0;
    while i < n
        invariant
            n == v@.len(),
            0 <= i <= n,
            forall|k: int| 0 <= k < i ==> (#[trigger] v.deep_view()[k]).id != id@,
        decreases n - i,
    {
        if v[i].id == *id {
            assert(v.deep_view()[i as int].id == id@);
            return Some(i);
        }
        i = i + 1;
    }
    None
}

/// Adds `id` to every bucket keyed by the lowercase of an element of
/// `fields`.
fn insert_lowered(idx: &mut TermIndex, fields: &Vec<String>, id: &String)
    requires
        old(idx).wf(),
    ensures
        final(idx).wf(),
        forall|t: Seq<char>, x: Seq<char>|
            final(idx).has(t, x) <==> (old(idx).has(t, x) || (x == id@ && field_has_term(
                fields.deep_view(),
                t,
            ))),
{
    let n = fields.len();
    let ghost fd = fields.deep_view();
    let mut j: usize = 0;
    while j < n
        invariant
            n == fields@.len(),
            fd == fields.deep_view(),
            0 <= j <= n,
            idx.wf(),
            forall|t: Seq<char>, x: Seq<char>|
                #[trigger] idx.has(t, x) <==> (old(idx).has(t, x) || (x == id@ && t.len() > 0
                    && exists|i: int| 0 <= i < j && lower_of(#[trigger] fd[i]) == t)),
        decreases n - j,
    {
        let lc = to_lower(fields[j].as_str());
        let ghost before = *idx;
        idx.insert(lc, id.clone());
        proof {
            assert(lc@ == lower_of(fd[j as int]));
            assert forall|t: Seq<char>, x: Seq<char>|
                #[trigger] idx.has(t, x) <==> (old(idx).has(t, x) || (x == id@ && t.len() > 0
                    && exists|i: int|
                    0 <= i < j + 1 && lower_of(#[trigger] fd[i]) == t)) by {
                if idx.has(t, x) {
                    if !before.has(t, x) {
                        assert(t == lc@ && x == id@ && t.len() > 0);
                        assert(lower_of(fd[j as int]) == t);
                    }
                }
                if x == id@ && t.len() > 0 && exists|i: int|
                    0 <= i < j + 1 && lower_of(#[trigger] fd[i]) == t {
                    let i = choose|i: int| 0 <= i < j + 1 && lower_of(#[trigger] fd[i]) == t;
                    if i < j {
                        assert(before.has(t, x));
                        assert(idx.has(t, x));
                    } else {
                        assert(t == lc@);
                        assert(idx.has(t, x));
                    }
                }
            }
        }
        j = j + 1;
    }
    proof {
        assert forall|t: Seq<char>, x: Seq<char>|
            #[trigger] idx.has(t, x) <==> (old(idx).has(t, x) || (x == id@ && field_has_term(
                fd,
                t,
            ))) by {
            assert(idx.has(t, x) <==> (old(idx).has(t, x) || (x == id@ && t.len() > 0 && exists|
                i: int,
            | 0 <= i < n && lower_of(#[trigger] fd[i]) == t)));
        }
    }
}

/// Deletes `id` from every bucket keyed by the lowercase of an element of
/// `fields`.
fn remove_lowered(idx: &mut TermIndex, fields: &Vec<String>, id: &String)
    requires
        old(idx).wf(),
    ensures
        final(idx).wf(),
        forall|t: Seq<char>, x: Seq<char>|
            final(idx).has(t, x) <==> (old(idx).has(t, x) && !(x == id@ && lowered_mem(
                fields.deep_view(),
                t,
            ))),
{
    let n = fields.len();
    let ghost fd = fields.deep_view();
    let mut j: usize = 0;
    while j < n
        invariant
            n == fields@.len(),
            fd == fields.deep_view(),
            0 <= j <= n,
            idx.wf(),
            forall|t: Seq<char>, x: Seq<char>|
                #[trigger] idx.has(t, x) <==> (old(idx).has(t, x) && !(x == id@ && exists|i: int|
                    0 <= i < j && lower_of(#[trigger] fd[i]) == t)),
        decreases n - j,
    {
        let lc = to_lower(fields[j].as_str());
        let ghost before = *idx;
        idx.remove(&lc, id);
        proof {
            assert(lc@ == lower_of(fd[j as int]));
            assert forall|t: Seq<char>, x: Seq<char>|
                #[trigger] idx.has(t, x) <==> (old(idx).has(t, x) && !(x == id@ && exists|i: int|
                    0 <= i < j + 1 && lower_of(#[trigger] fd[i]) == t)) by {
                if idx.has(t, x) {
                    assert(before.has(t, x) && !(t == lc@ && x == id@));
                    if x == id@ {
                        assert(!(exists|i: int| 0 <= i < j && lower_of(#[trigger] fd[i]) == t));
                        if exists|i: int| 0 <= i < j + 1 && lower_of(#[trigger] fd[i]) == t {
                            let i = choose|i: int|
                                0 <= i < j + 1 && lower_of(#[trigger] fd[i]) == t;
                            assert(i == j);
                            assert(t == lc@);
                            assert(false);
                        }
                    }
                }
                if old(idx).has(t, x) && !(x == id@ && exists|i: int|
                    0 <= i < j + 1 && lower_of(#[trigger] fd[i]) == t) {
                    if x == id@ {
                        assert(!(exists|i: int| 0 <= i < j && lower_of(#[trigger] fd[i]) == t));
                        assert(lower_of(fd[j as int]) != t);
                        assert(before.has(t, x));
                        assert(!(t == lc@ && x == id@));
                        assert(idx.has(t, x));
                    } else {
                        assert(before.has(t, x));
                        assert(idx.has(t, x));
                    }
                }
            }
        }
        j = j + 1;
    }
}

/// Removing the record at `i` removes exactly its identifier from the store.
pub proof fn lemma_store_remove(rs: Seq<RecordModel>, i: int)
    requires
        ids_ok(rs),
        0 <= i < rs.len(),
    ensures
        seq_store(rs.remove(i)) == seq_store(rs).remove(rs[i].id),
        ids_ok(rs.remove(i)),
        !has_id(rs.remove(i), rs[i].id),
{
    let rr = rs.remove(i);
    assert forall|k: int| 0 <= k < rr.len() implies (#[trigger] rr[k]).id != rs[i].id by {
        if k < i {
            assert(rr[k] == rs[k]);
        } else {
            assert(rr[k] == rs[k + 1]);
        }
    }
    assert(!has_id(rr, rs[i].id));
    assert forall|x: Seq<char>| true implies #[trigger] has_id(rr, x) == (has_id(rs, x) && x
        != rs[i].id) by {
        if has_id(rr, x) {
            let k = choose|k: int| 0 <= k < rr.len() && (#[trigger] rr[k]).id == x;
            if k < i {
                assert(rs[k].id == x);
            } else {
                assert(rs[k + 1].id == x);
            }
            assert(has_id(rs, x));
        }
        if has_id(rs, x) && x != rs[i].id {
            let k = choose|k: int| 0 <= k < rs.len() && (#[trigger] rs[k]).id == x;
            if k < i {
                assert(rr[k] == rs[k]);
                assert(rr[k].id == x);
            } else {
                assert(k > i);
                assert(rr[k - 1] == rs[k]);
                assert(rr[k - 1].id == x);
            }
            assert(has_id(rr, x));
        }
    }
    assert forall|x: Seq<char>| #[trigger] has_id(rr, x) implies seq_store(rr)[x] == seq_store(
        rs,
    )[x] by {
        let k1 = id_at(rr, x);
        assert(0 <= k1 < rr.len() && rr[k1].id == x);
        let k2 = id_at(rs, x);
        assert(0 <= k2 < rs.len() && rs[k2].id == x);
        let ghost ko: int = if k1 < i {
            k1
        } else {
            k1 + 1
        };
        assert(rs[ko] == rr[k1]);
        assert(rs[ko].id == x && rs[k2].id == x);
        assert(ko == k2);
    }
    assert(seq_store(rs.remove(i)) =~= seq_store(rs).remove(rs[i].id));
}

/// Appending a record with a fresh identifier inserts exactly that record
/// into the store.
pub proof fn lemma_store_push(rs: Seq<RecordModel>, r: RecordModel)
    requires
        ids_ok(rs),
        !has_id(rs, r.id),
        r.id.len() > 0,
    ensures
        seq_store(rs.push(r)) == seq_store(rs).insert(r.id, r),
        ids_ok(rs.push(r)),
{
    let rp = rs.push(r);
    let n = rs.len() as int;
    assert(rp[n] == r);
    assert forall|k1: int, k2: int| 0 <= k1 < k2 < rp.len() implies (#[trigger] rp[k1]).id != (
    #[trigger] rp[k2]).id by {
        if k2 == n {
            assert(rp[k1] == rs[k1]);
            if rs[k1].id == r.id {
                assert(has_id(rs, r.id));
            }
        } else {
            assert(rp[k1] == rs[k1] && rp[k2] == rs[k2]);
        }
    }
    assert forall|k: int| 0 <= k < rp.len() implies (#[trigger] rp[k]).id.len() > 0 by {
        if k < n {
            assert(rp[k] == rs[k]);
        }
    }
    assert forall|x: Seq<char>| true implies #[trigger] has_id(rp, x) == (has_id(rs, x) || x
        == r.id) by {
        if has_id(rp, x) {
            let k = choose|k: int| 0 <= k < rp.len() && (#[trigger] rp[k]).id == x;
            if k < n {
                assert(rs[k].id == x);
                assert(has_id(rs, x));
            } else {
                assert(x == r.id);
            }
        }
        if has_id(rs, x) {
            let k = choose|k: int| 0 <= k < rs.len() && (#[trigger] rs[k]).id == x;
            assert(rp[k].id == x);
            assert(has_id(rp, x));
        }
        if x == r.id {
            assert(rp[n].id == x);
            assert(has_id(rp, x));
        }
    }
    assert forall|x: Seq<char>| #[trigger] has_id(rp, x) implies seq_store(rp)[x] == (if x == r.id {
        r
    } else {
        seq_store(rs)[x]
    }) by {
        let k1 = id_at(rp, x);
        assert(0 <= k1 < rp.len() && rp[k1].id == x);
        if x == r.id {
            if k1 < n {
                assert(rs[k1].id == x);
                assert(has_id(rs, r.id));
                assert(false);
            }
            assert(rp[k1] == r);
        } else {
            assert(k1 < n);
            assert(rp[k1] == rs[k1]);
            let k2 = id_at(rs, x);
            assert(0 <= k2 < rs.len() && rs[k2].id == x);
            assert(k1 == k2);
        }
    }
    assert(seq_store(rp) =~= seq_store(rs).insert(r.id, r));
}

} // verus!
