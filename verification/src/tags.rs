use vstd::prelude::*;

use crate::errors::StoreError;
use crate::laws;
use crate::store::{filter_assocs, Assoc, AssocSel, Store, Tag};
use vstd::pervasive::unreached;

verus! {

/// The ids of a row of tags, in row order.
pub open spec fn tag_ids(v: Seq<Tag>) -> Seq<u64> {
    v.map_values(|t: Tag| t.id)
}

/// `s` lies strictly beyond the last emitted rank.
pub open spec fn above(last: Option<u64>, s: u64) -> bool {
    match last {
        None => true,
        Some(l) => s > l,
    }
}

/// `s` lies at or before the last emitted rank.
pub open spec fn at_or_below(last: Option<u64>, s: u64) -> bool {
    match last {
        None => false,
        Some(l) => s <= l,
    }
}

/// The last emitted rank as an integer, `-1` before anything was emitted.
pub open spec fn last_rank(last: Option<u64>) -> int {
    match last {
        None => -1,
        Some(l) => l as int,
    }
}

fn above_exec(last: Option<u64>, s: u64) -> (r: bool)
    ensures
        r == above(last, s),
{
    match last {
        None => true,
        Some(l) => s > l,
    }
}

impl Store {
    /// Return the tag id for `name`, creating the tag when the name is new.
    /// An empty name is rejected. Name lookup is case-sensitive and exact.
    pub fn get_or_create(&mut self, name: String, now: u64) -> (r: Result<u64, StoreError>)
        requires
            old(self)@.wf(),
            old(self)@.migrated(),
            old(self)@.next_tag_id < u64::MAX,
        ensures
            final(self)@.wf(),
            name@.len() == 0 ==> r == Err::<u64, StoreError>(StoreError::ValidationError)
                && final(self)@ == old(self)@,
            name@.len() > 0 && old(self)@.has_tag_name(name@) ==> r == Ok::<u64, StoreError>(
                old(self)@.tag_id_of_name(name@),
            ) && final(self)@ == old(self)@,
            name@.len() > 0 && !old(self)@.has_tag_name(name@) ==> r == Ok::<u64, StoreError>(
                old(self)@.next_tag_id,
            ) && final(self)@ == old(self)@.with_tag_added(name@, now),
    {
        if name.as_str().is_empty() {
            return Err(StoreError::ValidationError);
        }
        match self.find_tag_by_name(&name) {
            Some(i) => Ok(self.tags[i].id),
            None => {
                let ghost pre = self@;
                let ghost nv = name@;
                let id = self.next_tag_id;
                self.next_tag_id = self.next_tag_id + 1;
                self.tags.push(Tag { id, name, created_at: now });
                proof {
                    let target = pre.with_tag_added(nv, now);
                    assert(self@.tags =~= target.tags);
                    assert(self@ =~= target);
                    laws::lemma_tag_added_wf(pre, nv, now);
                }
                Ok(id)
            },
        }
    }

    /// Remove tag `id` and, by cascade, every association row referencing it,
    /// without touching any paste. Deleting a missing id fails.
    pub fn delete_tag(&mut self, id: u64) -> (r: Result<(), StoreError>)
        requires
            old(self)@.wf(),
            old(self)@.migrated(),
        ensures
            final(self)@.wf(),
            !old(self)@.has_tag(id) ==> r == Err::<(), StoreError>(StoreError::NotFoundError)
                && final(self)@ == old(self)@,
            old(self)@.has_tag(id) ==> r == Ok::<(), StoreError>(()) && final(self)@ == old(self)@.with_tag_removed(id),
    {
        match self.find_tag(id) {
            None => Err(StoreError::NotFoundError),
            Some(i) => {
                let ghost pre = self@;
                let _removed = self.tags.remove(i);
                let kept = filter_assocs(&self.assocs, AssocSel::ByTag(id));
                self.assocs = kept;
                proof {
                    let target = pre.with_tag_removed(id);
                    assert(self@.tags =~= target.tags);
                    assert((|a: Assoc| AssocSel::ByTag(id).keeps(a)) =~= (|a: Assoc| a.tag_id
                        != id));
                    assert(self@.assocs =~= target.assocs);
                    assert(self@ =~= target);
                    laws::lemma_tag_removed_wf(pre, id);
                }
                Ok(())
            },
        }
    }

    /// The association row of `p` with the smallest rank strictly beyond
    /// `last`, if any.
    fn scan_min_above(&self, p: u64, last: Option<u64>) -> (r: Option<usize>)
        requires
            self@.wf(),
        ensures
            match r {
                Some(i) => {
                    &&& i < self@.assocs.len()
                    &&& self@.assocs[i as int].paste_id == p
                    &&& above(last, self@.assocs[i as int].seq_id)
                    &&& forall|j: int|
                        0 <= j < self@.assocs.len() && (#[trigger] self@.assocs[j]).paste_id == p
                            && above(last, self@.assocs[j].seq_id)
                            ==> self@.assocs[i as int].seq_id <= self@.assocs[j].seq_id
                },
                None => forall|j: int|
                    0 <= j < self@.assocs.len() && (#[trigger] self@.assocs[j]).paste_id == p
                        ==> !above(last, self@.assocs[j].seq_id),
            },
    {
        let mut best: Option<usize> = None;
        let mut i: usize = 0;
        while i < self.assocs.len()
            invariant
                self@.wf(),
                i <= self.assocs.len(),
                match best {
                    Some(b) => {
                        &&& b < i
                        &&& self@.assocs[b as int].paste_id == p
                        &&& above(last, self@.assocs[b as int].seq_id)
                        &&& forall|j: int|
                            0 <= j < i && (#[trigger] self@.assocs[j]).paste_id == p && above(
                                last,
                                self@.assocs[j].seq_id,
                            ) ==> self@.assocs[b as int].seq_id <= self@.assocs[j].seq_id
                    },
                    None => forall|j: int|
                        0 <= j < i && (#[trigger] self@.assocs[j]).paste_id == p ==> !above(
                            last,
                            self@.assocs[j].seq_id,
                        ),
                },
            decreases self.assocs.len() - i,
        {
            let a = self.assocs[i];
            if a.paste_id == p && above_exec(last, a.seq_id) {
                best = match best {
                    None => Some(i),
                    Some(b) => if a.seq_id < self.assocs[b].seq_id {
                        Some(i)
                    } else {
                        Some(b)
                    },
                };
            }
            i = i + 1;
        }
        best
    }

    /// The tags attached to `paste_id`, in ascending rank order.
    pub fn list_for_paste(&self, paste_id: u64) -> (r: Result<Vec<Tag>, StoreError>)
        requires
            self@.wf(),
            self@.migrated(),
        ensures
            match r {
                Ok(v) => {
                    &&& self@.has_paste(paste_id)
                    &&& self@.is_tag_order(paste_id, tag_ids(v@))
                    &&& forall|k: int|
                        0 <= k < v@.len() ==> (#[trigger] v@[k])@ == self@.tag_at(v@[k].id)
                },
                Err(e) => e == StoreError::NotFoundError && !self@.has_paste(paste_id),
            },
    {
        if self.find_paste(paste_id).is_none() {
            return Err(StoreError::NotFoundError);
        }
        let mut out: Vec<Tag> = Vec::new();
        let mut last: Option<u64> = None;
        let mut step = self.scan_min_above(paste_id, last);
        while step.is_some()
            invariant
                self@.wf(),
                match step {
                    Some(si) => {
                        &&& si < self@.assocs.len()
                        &&& self@.assocs[si as int].paste_id == paste_id
                        &&& above(last, self@.assocs[si as int].seq_id)
                        &&& forall|j: int|
                            0 <= j < self@.assocs.len() && (#[trigger] self@.assocs[j]).paste_id
                                == paste_id && above(last, self@.assocs[j].seq_id)
                                ==> self@.assocs[si as int].seq_id <= self@.assocs[j].seq_id
                    },
                    None => forall|j: int|
                        0 <= j < self@.assocs.len() && (#[trigger] self@.assocs[j]).paste_id
                            == paste_id ==> !above(last, self@.assocs[j].seq_id),
                },
                forall|k: int|
                    0 <= k < out@.len() ==> self@.attached(paste_id, #[trigger] tag_ids(out@)[k]),
                forall|k: int|
                    0 <= k < out@.len() ==> (#[trigger] out@[k])@ == self@.tag_at(out@[k].id),
                forall|k1: int, k2: int|
                    0 <= k1 < k2 < out@.len() ==> self@.seq_of(paste_id, tag_ids(out@)[k1])
                        < self@.seq_of(paste_id, tag_ids(out@)[k2]),
                forall|k: int|
                    0 <= k < out@.len() ==> at_or_below(
                        last,
                        self@.seq_of(paste_id, #[trigger] tag_ids(out@)[k]),
                    ),
                last.is_none() ==> out@.len() == 0,
                forall|t: u64|
                    #[trigger] self@.attached(paste_id, t) && at_or_below(
                        last,
                        self@.seq_of(paste_id, t),
                    ) ==> tag_ids(out@).contains(t),
            decreases u64::MAX as int + 1 - last_rank(last),
        {
            let si = step.unwrap();
            let a = self.assocs[si];
            proof {
                laws::lemma_seq_of_row(self@, si as int);
                assert(self@.has_tag(a.tag_id));
            }
            let ghost out0 = out@;
            let ghost last0 = last;
            let ti = match self.find_tag(a.tag_id) {
                Some(ti) => ti,
                None => unreached(),
            };
            out.push(self.tags[ti].duplicate());
            last = Some(a.seq_id);
            step = self.scan_min_above(paste_id, last);
            proof {
                assert(tag_ids(out@) =~= tag_ids(out0).push(a.tag_id));
                let ids = tag_ids(out@);
                let n = out0.len() as int;
                assert(self@.seq_of(paste_id, a.tag_id) == a.seq_id);
                // every rank emitted before lies strictly below the new one
                assert forall|k: int| 0 <= k < n implies self@.seq_of(paste_id, ids[k])
                    < a.seq_id by {
                    assert(ids[k] == tag_ids(out0)[k]);
                    assert(at_or_below(last0, self@.seq_of(paste_id, tag_ids(out0)[k])));
                }
                // everything at or below the new rank has been emitted
                assert forall|t: u64|
                    self@.attached(paste_id, t) && at_or_below(
                        last,
                        self@.seq_of(paste_id, t),
                    ) implies ids.contains(t) by {
                    let w = self@.assoc_index(paste_id, t);
                    assert(0 <= w < self@.assocs.len() && self@.assocs[w].paste_id == paste_id
                        && self@.assocs[w].tag_id == t);
                    assert(self@.assocs[w].seq_id == self@.seq_of(paste_id, t));
                    if at_or_below(last0, self@.seq_of(paste_id, t)) {
                        assert(tag_ids(out0).contains(t));
                        let k = choose|k: int| 0 <= k < n && tag_ids(out0)[k] == t;
                        assert(ids[k] == t);
                    } else {
                        // strictly beyond the old mark but at or below the new
                        // one: by minimality its rank equals the new rank, and
                        // by per-paste rank uniqueness it is the emitted row
                        assert(above(last0, self@.assocs[w].seq_id));
                        assert(a.seq_id <= self@.assocs[w].seq_id);
                        assert(self@.assocs[w].seq_id == a.seq_id);
                        if w != si as int {
                            assert(false);
                        }
                        assert(ids[n] == t);
                    }
                }
            }
        }
        proof {
            // nothing of this paste lies beyond the last emitted rank
            assert forall|t: u64| #[trigger] self@.attached(paste_id, t) implies tag_ids(
                out@,
            ).contains(t) by {
                let w = self@.assoc_index(paste_id, t);
                assert(0 <= w < self@.assocs.len() && self@.assocs[w].paste_id == paste_id
                    && self@.assocs[w].tag_id == t);
                assert(!above(last, self@.assocs[w].seq_id));
                assert(self@.assocs[w].seq_id == self@.seq_of(paste_id, t));
                assert(at_or_below(last, self@.seq_of(paste_id, t)));
            }
        }
        Ok(out)
    }
}

} // verus!
