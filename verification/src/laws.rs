use vstd::prelude::*;

use crate::seq_facts::{lemma_filter_retains, lemma_remove_keeps_others};
use crate::store::{Assoc, PasteV, StoreV};

verus! {

broadcast use vstd::seq_lib::group_filter_ensures;

// ----- witnesses carry table membership between equal tables -----

/// A paste present in one store is present in any store with the same rows.
pub proof fn lemma_has_paste_transfer(s: StoreV, s2: StoreV, x: u64)
    requires
        s.has_paste(x),
        s2.pastes == s.pastes,
    ensures
        s2.has_paste(x),
{
    let k = choose|k: int| 0 <= k < s.pastes.len() && (#[trigger] s.pastes[k]).id == x;
    assert((#[trigger] s2.pastes[k]).id == x);
}

/// A tag present in one store is present in any store with the same rows.
pub proof fn lemma_has_tag_transfer(s: StoreV, s2: StoreV, x: u64)
    requires
        s.has_tag(x),
        s2.tags == s.tags,
    ensures
        s2.has_tag(x),
{
    let k = choose|k: int| 0 <= k < s.tags.len() && (#[trigger] s.tags[k]).id == x;
    assert((#[trigger] s2.tags[k]).id == x);
}

/// Under `wf` each paste id denotes exactly one row, so the row found at any
/// index is the row `paste_index` selects.
pub proof fn lemma_paste_row(s: StoreV, i: int)
    requires
        s.wf(),
        0 <= i < s.pastes.len(),
    ensures
        s.has_paste(s.pastes[i].id),
        s.paste_index(s.pastes[i].id) == i,
        s.paste_at(s.pastes[i].id) == s.pastes[i],
{
    let id = s.pastes[i].id;
    assert(s.has_paste(id));
    let k = s.paste_index(id);
    assert(0 <= k < s.pastes.len() && s.pastes[k].id == id);
    if k < i {
        assert(false);
    } else if i < k {
        assert(false);
    }
}

// ----- facts about single association rows -----

/// Under `wf` each association pair occurs in exactly one row, so the row
/// found at any index is the row `assoc_index` selects, and `seq_of` reads
/// that row's rank.
pub proof fn lemma_seq_of_row(s: StoreV, i: int)
    requires
        s.wf(),
        0 <= i < s.assocs.len(),
    ensures
        s.attached(s.assocs[i].paste_id, s.assocs[i].tag_id),
        s.assoc_index(s.assocs[i].paste_id, s.assocs[i].tag_id) == i,
        s.seq_of(s.assocs[i].paste_id, s.assocs[i].tag_id) == s.assocs[i].seq_id,
{
    let a = s.assocs[i];
    assert(s.attached(a.paste_id, a.tag_id));
    let k = s.assoc_index(a.paste_id, a.tag_id);
    assert(0 <= k < s.assocs.len() && s.assocs[k].paste_id == a.paste_id && s.assocs[k].tag_id
        == a.tag_id);
    if k < i {
        assert(false);
    } else if i < k {
        assert(false);
    }
}

/// The largest rank in use for a paste exists whenever the paste has any
/// association row, and it is unique.
pub proof fn lemma_max_seq_exists(s: StoreV, p: u64)
    requires
        s.has_assoc_row(p),
    ensures
        s.is_max_seq(p, s.max_seq(p)),
        forall|m: u64| s.is_max_seq(p, m) ==> m == s.max_seq(p),
{
    let m = max_seq_of_prefix(s.assocs, p, s.assocs.len() as int);
    assert(s.is_max_seq(p, m));
    assert forall|m2: u64| s.is_max_seq(p, m2) implies m2 == s.max_seq(p) by {
        let mm = s.max_seq(p);
        assert(s.is_max_seq(p, mm));
        let i2 = choose|i: int|
            0 <= i < s.assocs.len() && (#[trigger] s.assocs[i]).paste_id == p
                && s.assocs[i].seq_id == m2;
        let im = choose|i: int|
            0 <= i < s.assocs.len() && (#[trigger] s.assocs[i]).paste_id == p
                && s.assocs[i].seq_id == mm;
        assert(m2 <= mm && mm <= m2);
    }
}

/// The largest rank among the first `n` association rows of paste `p`.
proof fn max_seq_of_prefix(assocs: Seq<Assoc>, p: u64, n: int) -> (m: u64)
    requires
        0 <= n <= assocs.len(),
        exists|i: int| 0 <= i < n && (#[trigger] assocs[i]).paste_id == p,
    ensures
        exists|i: int|
            0 <= i < n && (#[trigger] assocs[i]).paste_id == p && assocs[i].seq_id == m,
        forall|i: int|
            0 <= i < n && (#[trigger] assocs[i]).paste_id == p ==> assocs[i].seq_id <= m,
    decreases n,
{
    let last = assocs[n - 1];
    if last.paste_id == p {
        if exists|i: int| 0 <= i < n - 1 && (#[trigger] assocs[i]).paste_id == p {
            let m0 = max_seq_of_prefix(assocs, p, n - 1);
            if last.seq_id > m0 {
                last.seq_id
            } else {
                m0
            }
        } else {
            last.seq_id
        }
    } else {
        let w = choose|i: int| 0 <= i < n && (#[trigger] assocs[i]).paste_id == p;
        assert(0 <= w < n - 1);
        max_seq_of_prefix(assocs, p, n - 1)
    }
}

// ----- filtering the association table keeps it coherent -----

/// Rows surviving a filter come from the original table and still satisfy
/// pairwise pair-uniqueness and per-paste rank-uniqueness.
pub proof fn lemma_assoc_filter_props(s: StoreV, pred: spec_fn(Assoc) -> bool)
    requires
        s.wf(),
    ensures
        forall|i: int|
            0 <= i < s.assocs.filter(pred).len() ==> s.assocs.contains(
                #[trigger] s.assocs.filter(pred)[i],
            ),
        forall|i: int, j: int|
            0 <= i < j < s.assocs.filter(pred).len() ==> !((#[trigger] s.assocs.filter(
                pred,
            )[i]).paste_id == (#[trigger] s.assocs.filter(pred)[j]).paste_id && s.assocs.filter(
                pred,
            )[i].tag_id == s.assocs.filter(pred)[j].tag_id),
        forall|i: int, j: int|
            0 <= i < j < s.assocs.filter(pred).len() && (#[trigger] s.assocs.filter(
                pred,
            )[i]).paste_id == (#[trigger] s.assocs.filter(pred)[j]).paste_id ==> s.assocs.filter(
                pred,
            )[i].seq_id != s.assocs.filter(pred)[j].seq_id,
{
    let f = s.assocs.filter(pred);
    assert(s.assocs.no_duplicates()) by {
        assert forall|i: int, j: int|
            0 <= i < s.assocs.len() && 0 <= j < s.assocs.len() && i != j implies s.assocs[i]
            != s.assocs[j] by {
            if i < j {
                assert(!(s.assocs[i].paste_id == s.assocs[j].paste_id && s.assocs[i].tag_id
                    == s.assocs[j].tag_id));
            } else {
                assert(!(s.assocs[j].paste_id == s.assocs[i].paste_id && s.assocs[j].tag_id
                    == s.assocs[i].tag_id));
            }
        }
    }
    lemma_filter_retains(s.assocs, pred);
    assert(f.no_duplicates());
    assert forall|i: int, j: int| 0 <= i < j < f.len() implies !((#[trigger] f[i]).paste_id == (
    #[trigger] f[j]).paste_id && f[i].tag_id == f[j].tag_id) by {
        assert(f[i] != f[j]);
        assert(s.assocs.contains(f[i]));
        assert(s.assocs.contains(f[j]));
        let ia = choose|k: int| 0 <= k < s.assocs.len() && s.assocs[k] == f[i];
        let ib = choose|k: int| 0 <= k < s.assocs.len() && s.assocs[k] == f[j];
        assert(ia != ib);
    }
    assert forall|i: int, j: int|
        0 <= i < j < f.len() && (#[trigger] f[i]).paste_id == (#[trigger] f[j]).paste_id implies
        f[i].seq_id != f[j].seq_id by {
        assert(f[i] != f[j]);
        assert(s.assocs.contains(f[i]));
        assert(s.assocs.contains(f[j]));
        let ia = choose|k: int| 0 <= k < s.assocs.len() && s.assocs[k] == f[i];
        let ib = choose|k: int| 0 <= k < s.assocs.len() && s.assocs[k] == f[j];
        assert(ia != ib);
    }
}

// ----- well-formedness is preserved by every transition -----

pub proof fn lemma_paste_added_wf(s: StoreV, value: Seq<u8>, now: u64)
    requires
        s.wf(),
        value.len() > 0,
        s.next_paste_id < u64::MAX,
    ensures
        s.with_paste_added(value, now).wf(),
{
    let s2 = s.with_paste_added(value, now);
    assert forall|i: int| 0 <= i < s2.assocs.len() implies s2.has_paste(
        (#[trigger] s2.assocs[i]).paste_id,
    ) && s2.has_tag(s2.assocs[i].tag_id) by {
        assert(s.has_paste(s.assocs[i].paste_id));
        let k = choose|k: int|
            0 <= k < s.pastes.len() && (#[trigger] s.pastes[k]).id == s.assocs[i].paste_id;
        assert((#[trigger] s2.pastes[k]).id == s2.assocs[i].paste_id);
        lemma_has_tag_transfer(s, s2, s.assocs[i].tag_id);
    }
}

pub proof fn lemma_touched_wf(s: StoreV, id: u64, now: u64)
    requires
        s.wf(),
        s.has_paste(id),
    ensures
        s.with_touched(id, now).wf(),
{
    let s2 = s.with_touched(id, now);
    let pi = s.paste_index(id);
    assert(0 <= pi < s.pastes.len() && s.pastes[pi].id == id);
    assert forall|k: int| 0 <= k < s2.pastes.len() implies (#[trigger] s2.pastes[k]).id
        == s.pastes[k].id && s2.pastes[k].value == s.pastes[k].value by {
        if k == pi {
            assert(s2.pastes[k] == (PasteV { last_used_at: now, ..s.paste_at(id) }));
        }
    }
    assert forall|i: int| 0 <= i < s2.assocs.len() implies s2.has_paste(
        (#[trigger] s2.assocs[i]).paste_id,
    ) && s2.has_tag(s2.assocs[i].tag_id) by {
        assert(s.has_paste(s.assocs[i].paste_id));
        let k = choose|k: int|
            0 <= k < s.pastes.len() && (#[trigger] s.pastes[k]).id == s.assocs[i].paste_id;
        assert((#[trigger] s2.pastes[k]).id == s2.assocs[i].paste_id);
        lemma_has_tag_transfer(s, s2, s.assocs[i].tag_id);
    }
}

pub proof fn lemma_paste_removed_wf(s: StoreV, id: u64)
    requires
        s.wf(),
        s.has_paste(id),
    ensures
        s.with_paste_removed(id).wf(),
{
    let s2 = s.with_paste_removed(id);
    let pi = s.paste_index(id);
    assert(0 <= pi < s.pastes.len() && s.pastes[pi].id == id);
    lemma_remove_keeps_others(s.pastes, pi);
    let pred = |a: Assoc| a.paste_id != id;
    lemma_assoc_filter_props(s, pred);
    assert forall|i: int| 0 <= i < s2.assocs.len() implies s2.has_paste(
        (#[trigger] s2.assocs[i]).paste_id,
    ) && s2.has_tag(s2.assocs[i].tag_id) by {
        let a = s2.assocs[i];
        assert(s.assocs.contains(a));
        let k = choose|k: int| 0 <= k < s.assocs.len() && s.assocs[k] == a;
        assert(s.has_paste(a.paste_id));
        assert(s.has_tag(a.tag_id));
        assert(pred(a));
        let w = choose|w: int|
            0 <= w < s.pastes.len() && (#[trigger] s.pastes[w]).id == a.paste_id;
        assert(w != pi);
        assert(s2.pastes.contains(s.pastes[w]));
        let w2 = choose|w2: int| 0 <= w2 < s2.pastes.len() && s2.pastes[w2] == s.pastes[w];
        assert((#[trigger] s2.pastes[w2]).id == a.paste_id);
        lemma_has_tag_transfer(s, s2, a.tag_id);
    }
}

pub proof fn lemma_tag_added_wf(s: StoreV, name: Seq<char>, now: u64)
    requires
        s.wf(),
        name.len() > 0,
        !s.has_tag_name(name),
        s.next_tag_id < u64::MAX,
    ensures
        s.with_tag_added(name, now).wf(),
{
    let s2 = s.with_tag_added(name, now);
    assert forall|i: int| 0 <= i < s2.assocs.len() implies s2.has_paste(
        (#[trigger] s2.assocs[i]).paste_id,
    ) && s2.has_tag(s2.assocs[i].tag_id) by {
        assert(s.has_tag(s.assocs[i].tag_id));
        let k = choose|k: int|
            0 <= k < s.tags.len() && (#[trigger] s.tags[k]).id == s.assocs[i].tag_id;
        assert((#[trigger] s2.tags[k]).id == s2.assocs[i].tag_id);
        lemma_has_paste_transfer(s, s2, s.assocs[i].paste_id);
    }
}

pub proof fn lemma_tag_removed_wf(s: StoreV, id: u64)
    requires
        s.wf(),
        s.has_tag(id),
    ensures
        s.with_tag_removed(id).wf(),
{
    let s2 = s.with_tag_removed(id);
    let ti = s.tag_index(id);
    assert(0 <= ti < s.tags.len() && s.tags[ti].id == id);
    lemma_remove_keeps_others(s.tags, ti);
    let pred = |a: Assoc| a.tag_id != id;
    lemma_assoc_filter_props(s, pred);
    assert forall|i: int| 0 <= i < s2.assocs.len() implies s2.has_paste(
        (#[trigger] s2.assocs[i]).paste_id,
    ) && s2.has_tag(s2.assocs[i].tag_id) by {
        let a = s2.assocs[i];
        assert(s.assocs.contains(a));
        let k = choose|k: int| 0 <= k < s.assocs.len() && s.assocs[k] == a;
        assert(s.has_paste(a.paste_id));
        assert(s.has_tag(a.tag_id));
        assert(pred(a));
        let w = choose|w: int| 0 <= w < s.tags.len() && (#[trigger] s.tags[w]).id == a.tag_id;
        assert(w != ti);
        assert(s2.tags.contains(s.tags[w]));
        let w2 = choose|w2: int| 0 <= w2 < s2.tags.len() && s2.tags[w2] == s.tags[w];
        assert((#[trigger] s2.tags[w2]).id == a.tag_id);
        lemma_has_paste_transfer(s, s2, a.paste_id);
    }
}

pub proof fn lemma_attached_wf(s: StoreV, p: u64, t: u64)
    requires
        s.wf(),
        s.has_paste(p),
        s.has_tag(t),
        !s.attached(p, t),
        s.seq_headroom(p),
    ensures
        s.with_attached(p, t).wf(),
{
    let s2 = s.with_attached(p, t);
    let n = s.assocs.len() as int;
    if s.has_assoc_row(p) {
        lemma_max_seq_exists(s, p);
    }
    assert forall|i: int, j: int| 0 <= i < j < s2.assocs.len() implies !((
    #[trigger] s2.assocs[i]).paste_id == (#[trigger] s2.assocs[j]).paste_id && s2.assocs[i].tag_id
        == s2.assocs[j].tag_id) by {
        if j == n {
            if s2.assocs[i].paste_id == p && s2.assocs[i].tag_id == t {
                assert(s.attached(p, t));
            }
        }
    }
    assert forall|i: int, j: int|
        0 <= i < j < s2.assocs.len() && (#[trigger] s2.assocs[i]).paste_id == (
    #[trigger] s2.assocs[j]).paste_id implies s2.assocs[i].seq_id != s2.assocs[j].seq_id by {
        if j == n && s2.assocs[i].paste_id == p {
            assert(s.has_assoc_row(p));
            assert(s.is_max_seq(p, s.max_seq(p)));
            assert(s.assocs[i].seq_id <= s.max_seq(p));
            assert(s.max_seq(p) < u64::MAX);
        }
    }
    assert forall|i: int| 0 <= i < s2.assocs.len() implies s2.has_paste(
        (#[trigger] s2.assocs[i]).paste_id,
    ) && s2.has_tag(s2.assocs[i].tag_id) by {
        if i < n {
            lemma_has_paste_transfer(s, s2, s.assocs[i].paste_id);
            lemma_has_tag_transfer(s, s2, s.assocs[i].tag_id);
        } else {
            assert(s2.assocs[i].paste_id == p && s2.assocs[i].tag_id == t);
            lemma_has_paste_transfer(s, s2, p);
            lemma_has_tag_transfer(s, s2, t);
        }
    }
}

pub proof fn lemma_detached_wf(s: StoreV, p: u64, t: u64)
    requires
        s.wf(),
    ensures
        s.with_detached(p, t).wf(),
{
    let s2 = s.with_detached(p, t);
    let pred = |a: Assoc| !(a.paste_id == p && a.tag_id == t);
    lemma_assoc_filter_props(s, pred);
    assert forall|i: int| 0 <= i < s2.assocs.len() implies s2.has_paste(
        (#[trigger] s2.assocs[i]).paste_id,
    ) && s2.has_tag(s2.assocs[i].tag_id) by {
        let a = s2.assocs[i];
        assert(s.assocs.contains(a));
        let k = choose|k: int| 0 <= k < s.assocs.len() && s.assocs[k] == a;
        assert(s.has_paste(a.paste_id));
        assert(s.has_tag(a.tag_id));
        lemma_has_paste_transfer(s, s2, a.paste_id);
        lemma_has_tag_transfer(s, s2, a.tag_id);
    }
}

pub proof fn lemma_reordered_wf(s: StoreV, p: u64, ids: Seq<u64>)
    requires
        s.wf(),
        s.has_paste(p),
        s.reorder_valid(p, ids),
        ids.len() <= u64::MAX,
    ensures
        s.with_reordered(p, ids).wf(),
{
    let s2 = s.with_reordered(p, ids);
    let pred = |a: Assoc| a.paste_id != p;
    let f = s.assocs.filter(pred);
    let block = Seq::new(ids.len(), |k: int| Assoc { paste_id: p, tag_id: ids[k], seq_id: k as u64 });
    lemma_assoc_filter_props(s, pred);
    assert(s2.assocs == f + block);
    assert forall|i: int, j: int| 0 <= i < j < s2.assocs.len() implies !((
    #[trigger] s2.assocs[i]).paste_id == (#[trigger] s2.assocs[j]).paste_id && s2.assocs[i].tag_id
        == s2.assocs[j].tag_id) by {
        if i < f.len() && j < f.len() {
        } else if i < f.len() && j >= f.len() {
            assert(pred(f[i]));
            assert(s2.assocs[j].paste_id == p);
        } else {
            let ki = i - f.len();
            let kj = j - f.len();
            assert(s2.assocs[i].tag_id == ids[ki]);
            assert(s2.assocs[j].tag_id == ids[kj]);
            assert(ids[ki] != ids[kj]);
        }
    }
    assert forall|i: int, j: int|
        0 <= i < j < s2.assocs.len() && (#[trigger] s2.assocs[i]).paste_id == (
    #[trigger] s2.assocs[j]).paste_id implies s2.assocs[i].seq_id != s2.assocs[j].seq_id by {
        if i < f.len() && j >= f.len() {
            assert(pred(f[i]));
        } else if i >= f.len() && j >= f.len() {
            let ki = i - f.len();
            let kj = j - f.len();
            assert(s2.assocs[i].seq_id == ki as u64);
            assert(s2.assocs[j].seq_id == kj as u64);
        }
    }
    assert forall|i: int| 0 <= i < s2.assocs.len() implies s2.has_paste(
        (#[trigger] s2.assocs[i]).paste_id,
    ) && s2.has_tag(s2.assocs[i].tag_id) by {
        if i < f.len() {
            let a = s2.assocs[i];
            assert(a == f[i]);
            assert(s.assocs.contains(a));
            let k = choose|k: int| 0 <= k < s.assocs.len() && s.assocs[k] == a;
            assert(s.has_paste(a.paste_id));
            assert(s.has_tag(a.tag_id));
            lemma_has_paste_transfer(s, s2, a.paste_id);
            lemma_has_tag_transfer(s, s2, a.tag_id);
        } else {
            let k = i - f.len();
            assert(s2.assocs[i].tag_id == ids[k]);
            assert(s.attached(p, ids[k]));
            let w = choose|w: int|
                0 <= w < s.assocs.len() && (#[trigger] s.assocs[w]).paste_id == p
                    && s.assocs[w].tag_id == ids[k];
            assert(s.has_tag(s.assocs[w].tag_id));
            lemma_has_paste_transfer(s, s2, p);
            lemma_has_tag_transfer(s, s2, ids[k]);
        }
    }
}

// ----- the store's laws -----

/// Law: a freshly created paste reads back exactly as written — its content
/// is the given bytes and its creation and last-use times are both the
/// creation instant. Together with `get`'s contract: `create(v)` then
/// `get(id)` returns a paste with `value == v` and `created_at ==
/// last_used_at`.
pub proof fn lemma_create_then_get(s: StoreV, value: Seq<u8>, now: u64)
    requires
        s.wf(),
        value.len() > 0,
        s.next_paste_id < u64::MAX,
    ensures
        ({
            let s2 = s.with_paste_added(value, now);
            &&& s2.wf()
            &&& s2.has_paste(s.next_paste_id)
            &&& s2.paste_at(s.next_paste_id) == (PasteV {
                id: s.next_paste_id,
                value,
                created_at: now,
                last_used_at: now,
            })
        }),
{
    lemma_paste_added_wf(s, value, now);
    let s2 = s.with_paste_added(value, now);
    let id = s.next_paste_id;
    let n = s.pastes.len() as int;
    assert(s2.pastes[n].id == id);
    assert(s2.has_paste(id));
    let k = s2.paste_index(id);
    assert(0 <= k < s2.pastes.len() && s2.pastes[k].id == id);
    if k < n {
        assert(s.pastes[k].id < s.next_paste_id);
        assert(false);
    }
}

/// Law: after a successful attach the pair is present — which is exactly the
/// condition under which a second identical `attach` call reports
/// `ConflictError` and, by `attach`'s contract, leaves the store unchanged —
/// and no other pair appears or disappears.
pub proof fn lemma_attach_then_conflict(s: StoreV, p: u64, t: u64)
    requires
        s.wf(),
        s.has_paste(p),
        s.has_tag(t),
        !s.attached(p, t),
        s.seq_headroom(p),
    ensures
        s.with_attached(p, t).wf(),
        s.with_attached(p, t).attached(p, t),
        forall|q: u64, u: u64|
            s.with_attached(p, t).attached(q, u) <==> (s.attached(q, u) || (q == p && u == t)),
{
    lemma_attached_wf(s, p, t);
    let s2 = s.with_attached(p, t);
    let n = s.assocs.len() as int;
    assert(s2.assocs[n].paste_id == p && s2.assocs[n].tag_id == t);
    assert(s2.attached(p, t));
    assert forall|q: u64, u: u64| s2.attached(q, u) implies (s.attached(q, u) || (q == p && u
        == t)) by {
        let i = choose|i: int|
            0 <= i < s2.assocs.len() && (#[trigger] s2.assocs[i]).paste_id == q
                && s2.assocs[i].tag_id == u;
        if i < n {
            assert(s.assocs[i].paste_id == q && s.assocs[i].tag_id == u);
        }
    }
    assert forall|q: u64, u: u64| s.attached(q, u) implies s2.attached(q, u) by {
        let i = choose|i: int|
            0 <= i < s.assocs.len() && (#[trigger] s.assocs[i]).paste_id == q
                && s.assocs[i].tag_id == u;
        assert((#[trigger] s2.assocs[i]).paste_id == q && s2.assocs[i].tag_id == u);
    }
}

/// Law: tags are appended in attachment order. Any witness of paste `p`'s
/// tag order extends, after an attach, by exactly the new tag at the end.
pub proof fn lemma_attach_appends(s: StoreV, p: u64, t: u64, ids: Seq<u64>)
    requires
        s.wf(),
        s.has_paste(p),
        s.has_tag(t),
        !s.attached(p, t),
        s.seq_headroom(p),
        s.is_tag_order(p, ids),
    ensures
        s.with_attached(p, t).wf(),
        s.with_attached(p, t).is_tag_order(p, ids.push(t)),
{
    lemma_attached_wf(s, p, t);
    lemma_attach_then_conflict(s, p, t);
    let s2 = s.with_attached(p, t);
    let n = s.assocs.len() as int;
    let ids2 = ids.push(t);
    if s.has_assoc_row(p) {
        lemma_max_seq_exists(s, p);
    }
    // ranks of previously attached pairs are untouched
    assert forall|q: u64, u: u64| s.attached(q, u) implies s2.attached(q, u) && s2.seq_of(q, u)
        == s.seq_of(q, u) by {
        let i = s.assoc_index(q, u);
        assert(0 <= i < s.assocs.len() && s.assocs[i].paste_id == q && s.assocs[i].tag_id == u);
        lemma_seq_of_row(s, i);
        assert(s2.assocs[i] == s.assocs[i]);
        lemma_seq_of_row(s2, i);
    }
    // the new pair carries a rank beyond every existing rank of this paste
    lemma_seq_of_row(s2, n);
    assert(s2.seq_of(p, t) == s.next_seq(p));
    assert forall|k: int| 0 <= k < ids.len() implies s.seq_of(p, #[trigger] ids[k])
        < s.next_seq(p) by {
        let i = s.assoc_index(p, ids[k]);
        assert(0 <= i < s.assocs.len() && s.assocs[i].paste_id == p && s.assocs[i].tag_id
            == ids[k]);
        lemma_seq_of_row(s, i);
        assert(s.has_assoc_row(p));
        assert(s.assocs[i].seq_id <= s.max_seq(p));
        assert(s.max_seq(p) < u64::MAX);
    }
    // elementhood in the extended order
    assert forall|k: int| 0 <= k < ids2.len() implies s2.attached(p, #[trigger] ids2[k]) by {
        if k < ids.len() {
            assert(ids2[k] == ids[k]);
            assert(s.attached(p, ids[k]));
        } else {
            assert(ids2[k] == t);
        }
    }
    // completeness of the extended order
    assert forall|u: u64| #[trigger] s2.attached(p, u) implies ids2.contains(u) by {
        if s.attached(p, u) {
            assert(ids.contains(u));
            let k = choose|k: int| 0 <= k < ids.len() && ids[k] == u;
            assert(ids2[k] == u);
        } else {
            assert(u == t);
            assert(ids2[ids.len() as int] == t);
        }
    }
    // the order stays strictly ascending in rank
    assert forall|k1: int, k2: int| 0 <= k1 < k2 < ids2.len() implies s2.seq_of(
        p,
        #[trigger] ids2[k1],
    ) < s2.seq_of(p, #[trigger] ids2[k2]) by {
        if k2 < ids.len() {
            assert(ids2[k1] == ids[k1] && ids2[k2] == ids[k2]);
            assert(s.attached(p, ids[k1]) && s.attached(p, ids[k2]));
        } else {
            assert(ids2[k2] == t);
            assert(ids2[k1] == ids[k1]);
            assert(s.attached(p, ids[k1]));
            assert(s.seq_of(p, ids[k1]) < s.next_seq(p));
        }
    }
}

/// Law: `reorder` makes the given sequence the paste's tag order: listing
/// after a valid reorder yields exactly the requested ids in the requested
/// order, and no other paste or table changes.
pub proof fn lemma_reorder_sets_order(s: StoreV, p: u64, ids: Seq<u64>)
    requires
        s.wf(),
        s.has_paste(p),
        s.reorder_valid(p, ids),
        ids.len() <= u64::MAX,
    ensures
        s.with_reordered(p, ids).wf(),
        s.with_reordered(p, ids).is_tag_order(p, ids),
        s.with_reordered(p, ids).pastes == s.pastes,
        s.with_reordered(p, ids).tags == s.tags,
{
    lemma_reordered_wf(s, p, ids);
    let s2 = s.with_reordered(p, ids);
    let pred = |a: Assoc| a.paste_id != p;
    let f = s.assocs.filter(pred);
    let n = f.len() as int;
    assert forall|k: int| 0 <= k < ids.len() implies s2.attached(p, #[trigger] ids[k])
        && s2.seq_of(p, ids[k]) == k as u64 by {
        assert(s2.assocs[n + k].paste_id == p && s2.assocs[n + k].tag_id == ids[k]
            && s2.assocs[n + k].seq_id == k as u64);
        lemma_seq_of_row(s2, n + k);
    }
    assert forall|u: u64| #[trigger] s2.attached(p, u) implies ids.contains(u) by {
        let i = choose|i: int|
            0 <= i < s2.assocs.len() && (#[trigger] s2.assocs[i]).paste_id == p
                && s2.assocs[i].tag_id == u;
        if i < n {
            assert(pred(f[i]));
            assert(false);
        } else {
            assert(ids[i - n] == u);
        }
    }
    assert forall|k1: int, k2: int| 0 <= k1 < k2 < ids.len() implies s2.seq_of(
        p,
        #[trigger] ids[k1],
    ) < s2.seq_of(p, #[trigger] ids[k2]) by {
        assert(s2.seq_of(p, ids[k1]) == k1 as u64);
        assert(s2.seq_of(p, ids[k2]) == k2 as u64);
    }
}

/// Law: deleting a paste removes every association row that references it,
/// leaves every other pair with its rank, and keeps the tag table whole; the
/// paste itself is gone, so a later `get` or `list_for_paste` on its id
/// reports `NotFoundError` by their contracts.
pub proof fn lemma_delete_paste_cascades(s: StoreV, id: u64)
    requires
        s.wf(),
        s.has_paste(id),
    ensures
        ({
            let s2 = s.with_paste_removed(id);
            &&& s2.wf()
            &&& !s2.has_paste(id)
            &&& forall|i: int| 0 <= i < s2.assocs.len() ==> (#[trigger] s2.assocs[i]).paste_id != id
            &&& forall|q: u64, u: u64| s2.attached(q, u) <==> (s.attached(q, u) && q != id)
            &&& forall|q: u64, u: u64| s2.attached(q, u) ==> s2.seq_of(q, u) == s.seq_of(q, u)
            &&& s2.tags == s.tags
        }),
{
    lemma_paste_removed_wf(s, id);
    let s2 = s.with_paste_removed(id);
    let pi = s.paste_index(id);
    let pred = |a: Assoc| a.paste_id != id;
    lemma_assoc_filter_props(s, pred);
    assert(0 <= pi < s.pastes.len() && s.pastes[pi].id == id);
    assert forall|j: int| 0 <= j < s2.pastes.len() implies (#[trigger] s2.pastes[j]).id != id by {
        if j < pi {
            assert(s2.pastes[j] == s.pastes[j]);
        } else {
            assert(s2.pastes[j] == s.pastes[j + 1]);
        }
    }
    assert forall|q: u64, u: u64| s2.attached(q, u) implies (s.attached(q, u) && q != id)
        && s2.seq_of(q, u) == s.seq_of(q, u) by {
        let i = s2.assoc_index(q, u);
        assert(0 <= i < s2.assocs.len() && s2.assocs[i].paste_id == q && s2.assocs[i].tag_id == u);
        lemma_seq_of_row(s2, i);
        let a = s2.assocs[i];
        assert(pred(a));
        assert(s.assocs.contains(a));
        let k = choose|k: int| 0 <= k < s.assocs.len() && s.assocs[k] == a;
        lemma_seq_of_row(s, k);
    }
    assert forall|q: u64, u: u64| s.attached(q, u) && q != id implies s2.attached(q, u) by {
        let i = s.assoc_index(q, u);
        assert(0 <= i < s.assocs.len() && s.assocs[i].paste_id == q && s.assocs[i].tag_id == u);
        assert(pred(s.assocs[i]));
        assert(s.assocs.filter(pred).contains(s.assocs[i]));
        let k = choose|k: int| 0 <= k < s2.assocs.len() && s2.assocs[k] == s.assocs[i];
        assert((#[trigger] s2.assocs[k]).paste_id == q && s2.assocs[k].tag_id == u);
    }
}

/// Law: deleting a tag removes it from every paste's tag list and nothing
/// else: every surviving pair keeps its rank (so the relative order of the
/// remaining tags of every paste is unchanged), and the paste table itself
/// is untouched.
pub proof fn lemma_delete_tag_cascades(s: StoreV, id: u64)
    requires
        s.wf(),
        s.has_tag(id),
    ensures
        ({
            let s2 = s.with_tag_removed(id);
            &&& s2.wf()
            &&& !s2.has_tag(id)
            &&& forall|i: int| 0 <= i < s2.assocs.len() ==> (#[trigger] s2.assocs[i]).tag_id != id
            &&& forall|q: u64, u: u64| s2.attached(q, u) <==> (s.attached(q, u) && u != id)
            &&& forall|q: u64, u: u64| s2.attached(q, u) ==> s2.seq_of(q, u) == s.seq_of(q, u)
            &&& s2.pastes == s.pastes
        }),
{
    lemma_tag_removed_wf(s, id);
    let s2 = s.with_tag_removed(id);
    let ti = s.tag_index(id);
    let pred = |a: Assoc| a.tag_id != id;
    lemma_assoc_filter_props(s, pred);
    assert(0 <= ti < s.tags.len() && s.tags[ti].id == id);
    assert forall|j: int| 0 <= j < s2.tags.len() implies (#[trigger] s2.tags[j]).id != id by {
        if j < ti {
            assert(s2.tags[j] == s.tags[j]);
        } else {
            assert(s2.tags[j] == s.tags[j + 1]);
        }
    }
    assert forall|q: u64, u: u64| s2.attached(q, u) implies (s.attached(q, u) && u != id)
        && s2.seq_of(q, u) == s.seq_of(q, u) by {
        let i = s2.assoc_index(q, u);
        assert(0 <= i < s2.assocs.len() && s2.assocs[i].paste_id == q && s2.assocs[i].tag_id == u);
        lemma_seq_of_row(s2, i);
        let a = s2.assocs[i];
        assert(pred(a));
        assert(s.assocs.contains(a));
        let k = choose|k: int| 0 <= k < s.assocs.len() && s.assocs[k] == a;
        lemma_seq_of_row(s, k);
    }
    assert forall|q: u64, u: u64| s.attached(q, u) && u != id implies s2.attached(q, u) by {
        let i = s.assoc_index(q, u);
        assert(0 <= i < s.assocs.len() && s.assocs[i].paste_id == q && s.assocs[i].tag_id == u);
        assert(pred(s.assocs[i]));
        assert(s.assocs.filter(pred).contains(s.assocs[i]));
        let k = choose|k: int| 0 <= k < s2.assocs.len() && s2.assocs[k] == s.assocs[i];
        assert((#[trigger] s2.assocs[k]).paste_id == q && s2.assocs[k].tag_id == u);
    }
}

/// Law: under `wf` a name denotes at most one tag row, so two lookups of the
/// same name — in particular two racing `get_or_create` callers, of whom the
/// store's uniqueness constraint lets only one insert — always yield the
/// same id.
pub proof fn lemma_tag_names_unique(s: StoreV, i: int, j: int)
    requires
        s.wf(),
        0 <= i < s.tags.len(),
        0 <= j < s.tags.len(),
        s.tags[i].name == s.tags[j].name,
    ensures
        i == j,
        s.tags[i].id == s.tags[j].id,
{
    if i < j {
        assert(false);
    } else if j < i {
        assert(false);
    }
}

/// Law: once a name is created, it resolves: after `get_or_create` inserts a
/// new name, the name is present and resolves to the id that call returned,
/// so a second call with the same name returns the same id and changes
/// nothing, by `get_or_create`'s contract.
pub proof fn lemma_get_or_create_settles(s: StoreV, name: Seq<char>, now: u64)
    requires
        s.wf(),
        name.len() > 0,
        !s.has_tag_name(name),
        s.next_tag_id < u64::MAX,
    ensures
        ({
            let s2 = s.with_tag_added(name, now);
            &&& s2.wf()
            &&& s2.has_tag_name(name)
            &&& s2.tag_id_of_name(name) == s.next_tag_id
        }),
{
    lemma_tag_added_wf(s, name, now);
    let s2 = s.with_tag_added(name, now);
    let n = s.tags.len() as int;
    assert(s2.tags[n].name == name);
    assert(s2.has_tag_name(name));
    let k = s2.tag_name_index(name);
    assert(0 <= k < s2.tags.len() && s2.tags[k].name == name);
    if k < n {
        assert(s.tags[k].name == name);
        assert(s.has_tag_name(name));
        assert(false);
    }
}

/// Law: the migration runner is idempotent: running the same list against an
/// already-migrated store changes nothing, and since the runner accepts a
/// list exactly when its versions ascend — independent of the store's state —
/// the second run reports no error either.
pub proof fn lemma_migrations_idempotent(s: StoreV, versions: Seq<u64>)
    ensures
        s.with_schema(versions).with_schema(versions) == s.with_schema(versions),
{
}


/// Two attached tags of one paste with the same rank are the same tag.
proof fn lemma_rank_identifies(s: StoreV, p: u64, t1: u64, t2: u64)
    requires
        s.wf(),
        s.attached(p, t1),
        s.attached(p, t2),
        s.seq_of(p, t1) == s.seq_of(p, t2),
    ensures
        t1 == t2,
{
    let i1 = s.assoc_index(p, t1);
    let i2 = s.assoc_index(p, t2);
    assert(0 <= i1 < s.assocs.len() && s.assocs[i1].paste_id == p && s.assocs[i1].tag_id == t1);
    assert(0 <= i2 < s.assocs.len() && s.assocs[i2].paste_id == p && s.assocs[i2].tag_id == t2);
    if i1 < i2 {
        assert(false);
    } else if i2 < i1 {
        assert(false);
    }
}

/// Any two witnesses of a paste's tag order agree on their common prefix.
proof fn lemma_tag_order_prefix(s: StoreV, p: u64, ids1: Seq<u64>, ids2: Seq<u64>, k: int)
    requires
        s.wf(),
        s.is_tag_order(p, ids1),
        s.is_tag_order(p, ids2),
        0 <= k <= ids1.len(),
        k <= ids2.len(),
    ensures
        forall|j: int| 0 <= j < k ==> ids1[j] == ids2[j],
    decreases k,
{
    if k > 0 {
        lemma_tag_order_prefix(s, p, ids1, ids2, k - 1);
        let x = ids1[k - 1];
        let y = ids2[k - 1];
        assert(s.attached(p, x));
        assert(s.attached(p, y));
        assert(ids2.contains(x));
        let m = choose|m: int| 0 <= m < ids2.len() && ids2[m] == x;
        if m < k - 1 {
            assert(ids1[m] == x);
            assert(s.seq_of(p, ids1[m]) < s.seq_of(p, ids1[k - 1]));
            assert(false);
        }
        assert(ids1.contains(y));
        let m2 = choose|m2: int| 0 <= m2 < ids1.len() && ids1[m2] == y;
        if m2 < k - 1 {
            assert(ids2[m2] == y);
            assert(s.seq_of(p, ids2[m2]) < s.seq_of(p, ids2[k - 1]));
            assert(false);
        }
        if m > k - 1 {
            assert(s.seq_of(p, ids2[k - 1]) < s.seq_of(p, ids2[m]));
        }
        if m2 > k - 1 {
            assert(s.seq_of(p, ids1[k - 1]) < s.seq_of(p, ids1[m2]));
        }
        assert(s.seq_of(p, x) == s.seq_of(p, y));
        lemma_rank_identifies(s, p, x, y);
    }
}

/// Law: a paste's ascending tag order is unique: any two sequences satisfying
/// `is_tag_order` are equal, so `list_for_paste` has exactly one possible
/// result for a given store.
pub proof fn lemma_tag_order_unique(s: StoreV, p: u64, ids1: Seq<u64>, ids2: Seq<u64>)
    requires
        s.wf(),
        s.is_tag_order(p, ids1),
        s.is_tag_order(p, ids2),
    ensures
        ids1 == ids2,
{
    let n1 = ids1.len() as int;
    let n2 = ids2.len() as int;
    let k: int = if n1 <= n2 {
        n1
    } else {
        n2
    };
    lemma_tag_order_prefix(s, p, ids1, ids2, k);
    if n1 < n2 {
        let y = ids2[n1];
        assert(s.attached(p, y));
        assert(ids1.contains(y));
        let m = choose|m: int| 0 <= m < n1 && ids1[m] == y;
        assert(ids2[m] == y);
        assert(s.seq_of(p, ids2[m]) < s.seq_of(p, ids2[n1]));
        assert(false);
    } else if n2 < n1 {
        let y = ids1[n2];
        assert(s.attached(p, y));
        assert(ids2.contains(y));
        let m = choose|m: int| 0 <= m < n2 && ids2[m] == y;
        assert(ids1[m] == y);
        assert(s.seq_of(p, ids1[m]) < s.seq_of(p, ids1[n2]));
        assert(false);
    }
    assert(ids1 =~= ids2);
}


/// Filtering a sequence that ascends strictly in rank leaves a sequence that
/// still ascends strictly in rank.
proof fn lemma_filter_keeps_ascending(s: StoreV, p: u64, o: Seq<u64>, pred: spec_fn(u64) -> bool)
    requires
        forall|k1: int, k2: int|
            0 <= k1 < k2 < o.len() ==> s.seq_of(p, #[trigger] o[k1]) < s.seq_of(
                p,
                #[trigger] o[k2],
            ),
    ensures
        forall|k1: int, k2: int|
            0 <= k1 < k2 < o.filter(pred).len() ==> s.seq_of(
                p,
                #[trigger] o.filter(pred)[k1],
            ) < s.seq_of(p, #[trigger] o.filter(pred)[k2]),
    decreases o.len(),
{
    reveal(Seq::filter);
    if o.len() > 0 {
        let d = o.drop_last();
        let x = o.last();
        assert forall|k1: int, k2: int|
            0 <= k1 < k2 < d.len() implies s.seq_of(p, #[trigger] d[k1]) < s.seq_of(
            p,
            #[trigger] d[k2],
        ) by {
            assert(o[k1] == d[k1] && o[k2] == d[k2]);
        }
        lemma_filter_keeps_ascending(s, p, d, pred);
        crate::seq_facts::lemma_filter_retains(d, pred);
        let df = d.filter(pred);
        if pred(x) {
            assert(o.filter(pred) == df.push(x));
            assert forall|k1: int, k2: int|
                0 <= k1 < k2 < o.filter(pred).len() implies s.seq_of(
                p,
                #[trigger] o.filter(pred)[k1],
            ) < s.seq_of(p, #[trigger] o.filter(pred)[k2]) by {
                if k2 == df.len() {
                    assert(o.filter(pred)[k1] == df[k1]);
                    assert(d.contains(df[k1]));
                    let i = choose|i: int| 0 <= i < d.len() && d[i] == df[k1];
                    assert(o[i] == df[k1]);
                    assert(o[o.len() - 1] == x);
                    assert(s.seq_of(p, o[i]) < s.seq_of(p, x));
                }
            }
        } else {
            assert(o.filter(pred) == df);
        }
    }
}

/// Law: deleting a tag filters exactly that tag out of every paste's tag
/// list: any witness order for a paste becomes the same order with the
/// deleted tag removed.
pub proof fn lemma_delete_tag_keeps_order(s: StoreV, id: u64, p: u64, o: Seq<u64>)
    requires
        s.wf(),
        s.has_tag(id),
        s.is_tag_order(p, o),
    ensures
        s.with_tag_removed(id).is_tag_order(p, o.filter(|u: u64| u != id)),
{
    lemma_delete_tag_cascades(s, id);
    let s2 = s.with_tag_removed(id);
    let pred = |u: u64| u != id;
    let f = o.filter(pred);
    crate::seq_facts::lemma_filter_retains(o, pred);
    // every listed survivor is still attached, with its old rank
    assert forall|k: int| 0 <= k < f.len() implies s2.attached(p, #[trigger] f[k]) by {
        assert(o.contains(f[k]));
        let i = choose|i: int| 0 <= i < o.len() && o[i] == f[k];
        assert(s.attached(p, o[i]));
        assert(pred(f[k]));
    }
    // every surviving attachment is listed
    assert forall|u: u64| #[trigger] s2.attached(p, u) implies f.contains(u) by {
        assert(s.attached(p, u) && u != id);
        assert(o.contains(u));
        let i = choose|i: int| 0 <= i < o.len() && o[i] == u;
        assert(pred(o[i]));
        assert(f.contains(o[i]));
    }
    // ranks are unchanged, so the relative order is unchanged
    assert forall|k1: int, k2: int|
        0 <= k1 < k2 < o.len() implies s.seq_of(p, #[trigger] o[k1]) < s.seq_of(
        p,
        #[trigger] o[k2],
    ) by {
        assert(s.attached(p, o[k1]) && s.attached(p, o[k2]));
    }
    lemma_filter_keeps_ascending(s, p, o, pred);
    assert forall|k1: int, k2: int| 0 <= k1 < k2 < f.len() implies s2.seq_of(
        p,
        #[trigger] f[k1],
    ) < s2.seq_of(p, #[trigger] f[k2]) by {
        assert(s2.attached(p, f[k1]) && s2.attached(p, f[k2]));
        assert(s2.seq_of(p, f[k1]) == s.seq_of(p, f[k1]));
        assert(s2.seq_of(p, f[k2]) == s.seq_of(p, f[k2]));
    }
}


} // verus!
