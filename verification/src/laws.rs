use vstd::prelude::*;

use crate::engine::has_id;
use crate::engine::id_at;
use crate::engine::ids_ok;
use crate::engine::kind_bucket;
use crate::engine::seq_store;
use crate::engine::store_add;
use crate::engine::store_add_all;
use crate::record::RecordModel;

verus! {

/// Idempotent re-insertion: adding the same record twice leaves the store
/// exactly as adding it once does, so the total count is unchanged. (The
/// engine invariant separately keeps every index bucket free of duplicate
/// identifiers, so re-insertion leaves each bucket holding the identifier
/// once.)
pub proof fn lemma_reinsert_idempotent(m: Map<Seq<char>, RecordModel>, r: RecordModel)
    ensures
        store_add(store_add(m, r), r) == store_add(m, r),
        store_add(store_add(m, r), r).len() == store_add(m, r).len(),
{
    if r.id.len() > 0 {
        assert(m.insert(r.id, r).insert(r.id, r) =~= m.insert(r.id, r));
    }
}

/// Replace consistency: adding record `a` and then record `b` with the same
/// identifier stores only `b`; the identifier sits in the bucket of `b`'s
/// kind and, when the kinds differ, is absent from the bucket of `a`'s
/// kind.
pub proof fn lemma_replace_consistency(
    m: Map<Seq<char>, RecordModel>,
    a: RecordModel,
    b: RecordModel,
)
    requires
        a.id == b.id,
        b.id.len() > 0,
    ensures
        store_add(store_add(m, a), b) == store_add(m, b),
        store_add(store_add(m, a), b)[b.id] == b,
        b.kind.len() > 0 ==> kind_bucket(store_add(store_add(m, a), b), b.kind).contains(b.id),
        a.kind != b.kind ==> !kind_bucket(store_add(store_add(m, a), b), a.kind).contains(b.id),
{
    if a.id.len() > 0 {
        assert(m.insert(a.id, a).insert(b.id, b) =~= m.insert(b.id, b));
    }
}

/// Replaying records with distinct identifiers on top of any store lays
/// their map over it.
proof fn lemma_add_all_distinct(acc: Map<Seq<char>, RecordModel>, rs: Seq<RecordModel>)
    requires
        ids_ok(rs),
    ensures
        store_add_all(acc, rs) == acc.union_prefer_right(seq_store(rs)),
    decreases rs.len(),
{
    if rs.len() == 0 {
        assert forall|x: Seq<char>| !(#[trigger] seq_store(rs).contains_key(x)) by {
            if has_id(rs, x) {
                let k = choose|k: int| 0 <= k < rs.len() && (#[trigger] rs[k]).id == x;
            }
        }
        assert(store_add_all(acc, rs) =~= acc.union_prefer_right(seq_store(rs)));
    } else {
        let h = rs[0];
        let dft = rs.drop_first();
        assert forall|k1: int, k2: int|
            0 <= k1 < k2 < dft.len() implies (#[trigger] dft[k1]).id != (#[trigger] dft[k2]).id by {
            assert(dft[k1] == rs[k1 + 1] && dft[k2] == rs[k2 + 1]);
        }
        assert forall|k: int| 0 <= k < dft.len() implies (#[trigger] dft[k]).id.len() > 0 by {
            assert(dft[k] == rs[k + 1]);
        }
        lemma_add_all_distinct(acc.insert(h.id, h), dft);
        assert forall|x: Seq<char>| true implies #[trigger] has_id(dft, x) == (has_id(rs, x) && x
            != h.id) by {
            if has_id(dft, x) {
                let k = choose|k: int| 0 <= k < dft.len() && (#[trigger] dft[k]).id == x;
                assert(rs[k + 1].id == x);
                assert(has_id(rs, x));
                assert(rs[0].id != rs[k + 1].id);
            }
            if has_id(rs, x) && x != h.id {
                let k = choose|k: int| 0 <= k < rs.len() && (#[trigger] rs[k]).id == x;
                assert(k > 0);
                assert(dft[k - 1].id == x);
                assert(has_id(dft, x));
            }
        }
        assert forall|x: Seq<char>| #[trigger] has_id(dft, x) implies seq_store(dft)[x]
            == seq_store(rs)[x] by {
            let k1 = id_at(dft, x);
            assert(0 <= k1 < dft.len() && dft[k1].id == x);
            let k2 = id_at(rs, x);
            assert(0 <= k2 < rs.len() && rs[k2].id == x);
            assert(rs[k1 + 1].id == x);
            assert(k2 == k1 + 1);
            assert(seq_store(rs)[x] == rs[k2]);
        }
        if has_id(rs, h.id) {
            assert(rs[id_at(rs, h.id)].id == h.id);
            assert(id_at(rs, h.id) == 0);
            assert(seq_store(rs)[h.id] == h);
        }
        assert(has_id(rs, h.id));
        assert(store_add_all(acc, rs) == store_add_all(acc.insert(h.id, h), dft));
        assert(store_add_all(acc.insert(h.id, h), dft) =~= acc.union_prefer_right(seq_store(rs)));
    }
}

/// Round-trip persistence: replaying a snapshot that enumerates a store
/// into an empty engine rebuilds exactly that store, record for record.
pub proof fn lemma_snapshot_replay(m: Map<Seq<char>, RecordModel>, rs: Seq<RecordModel>)
    requires
        ids_ok(rs),
        forall|i: int|
            0 <= i < rs.len() ==> m.contains_key((#[trigger] rs[i]).id) && m[rs[i].id] == rs[i],
        forall|x: Seq<char>| #[trigger] m.contains_key(x) ==> has_id(rs, x),
    ensures
        store_add_all(Map::<Seq<char>, RecordModel>::empty(), rs) == m,
{
    assert forall|x: Seq<char>| #[trigger] has_id(rs, x) implies m.contains_key(x)
        && seq_store(rs)[x] == m[x] by {
        let k = id_at(rs, x);
        assert(0 <= k < rs.len() && rs[k].id == x);
        assert(m.contains_key(rs[k].id) && m[rs[k].id] == rs[k]);
    }
    assert(seq_store(rs) =~= m);
    lemma_add_all_distinct(Map::<Seq<char>, RecordModel>::empty(), rs);
    assert(Map::<Seq<char>, RecordModel>::empty().union_prefer_right(seq_store(rs)) =~= m);
}

} // verus!
