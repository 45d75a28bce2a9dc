use vstd::prelude::*;

use crate::errors::StoreError;
use crate::laws;
use crate::store::{filter_assocs, Assoc, AssocSel, Store};

verus! {

/// Linear scan: does `v` hold `x`?
fn contains_id(v: &Vec<u64>, x: u64) -> (r: bool)
    ensures
        r == v@.contains(x),
{
    let mut i: usize = 0;
    while i < v.len()
        invariant
            i <= v.len(),
            forall|j: int| 0 <= j < i ==> v@[j] != x,
        decreases v.len() - i,
    {
        if v[i] == x {
            return true;
        }
        i = i + 1;
    }
    false
}

impl Store {
    /// Attach tag `tag_id` to paste `paste_id`, appending it at the end of
    /// the paste's tag list: the new rank is one past the largest rank in
    /// use, or zero for the first tag. An existing pair is a conflict and
    /// changes nothing.
    pub fn attach(&mut self, paste_id: u64, tag_id: u64) -> (r: Result<(), StoreError>)
        requires
            old(self)@.wf(),
            old(self)@.migrated(),
            old(self)@.seq_headroom(paste_id),
        ensures
            final(self)@.wf(),
            !(old(self)@.has_paste(paste_id) && old(self)@.has_tag(tag_id)) ==> r == Err::<
                (),
                StoreError,
            >(StoreError::NotFoundError) && final(self)@ == old(self)@,
            old(self)@.has_paste(paste_id) && old(self)@.has_tag(tag_id) && old(self)@.attached(
                paste_id,
                tag_id,
            ) ==> r == Err::<(), StoreError>(StoreError::ConflictError) && final(self)@ == old(self)@,
            old(self)@.has_paste(paste_id) && old(self)@.has_tag(tag_id) && !old(self)@.attached(
                paste_id,
                tag_id,
            ) ==> r == Ok::<(), StoreError>(()) && final(self)@ == old(self)@.with_attached(
                paste_id,
                tag_id,
            ),
    {
        if self.find_paste(paste_id).is_none() {
            return Err(StoreError::NotFoundError);
        }
        if self.find_tag(tag_id).is_none() {
            return Err(StoreError::NotFoundError);
        }
        if self.find_assoc(paste_id, tag_id).is_some() {
            return Err(StoreError::ConflictError);
        }
        let ghost pre = self@;
        // largest rank in use for this paste
        let mut max: Option<u64> = None;
        let mut i: usize = 0;
        while i < self.assocs.len()
            invariant
                self@.wf(),
                self@ == pre,
                i <= self.assocs.len(),
                match max {
                    Some(m) => {
                        &&& exists|j: int|
                            0 <= j < i && (#[trigger] self@.assocs[j]).paste_id == paste_id
                                && self@.assocs[j].seq_id == m
                        &&& forall|j: int|
                            0 <= j < i && (#[trigger] self@.assocs[j]).paste_id == paste_id
                                ==> self@.assocs[j].seq_id <= m
                    },
                    None => forall|j: int|
                        0 <= j < i ==> (#[trigger] self@.assocs[j]).paste_id != paste_id,
                },
            decreases self.assocs.len() - i,
        {
            let a = self.assocs[i];
            if a.paste_id == paste_id {
                max = match max {
                    None => Some(a.seq_id),
                    Some(m) => if a.seq_id > m {
                        Some(a.seq_id)
                    } else {
                        Some(m)
                    },
                };
            }
            proof {
                assert(self@.assocs[i as int] == a);
            }
            i = i + 1;
        }
        let seq_id = match max {
            None => {
                proof {
                    assert(!pre.has_assoc_row(paste_id));
                }
                0u64
            },
            Some(m) => {
                proof {
                    assert(pre.has_assoc_row(paste_id));
                    assert(pre.is_max_seq(paste_id, m));
                    laws::lemma_max_seq_exists(pre, paste_id);
                    assert(pre.max_seq(paste_id) == m);
                    // headroom: the maximal rank is a rank in use
                    assert(m < u64::MAX);
                }
                m + 1
            },
        };
        self.assocs.push(Assoc { paste_id, tag_id, seq_id });
        proof {
            let target = pre.with_attached(paste_id, tag_id);
            assert(seq_id == pre.next_seq(paste_id));
            assert(self@.assocs =~= target.assocs);
            assert(self@ =~= target);
            laws::lemma_attached_wf(pre, paste_id, tag_id);
        }
        Ok(())
    }

    /// Remove the association of the pair; the remaining ranks keep their
    /// values (gaps are left; only `reorder` renumbers).
    pub fn detach(&mut self, paste_id: u64, tag_id: u64) -> (r: Result<(), StoreError>)
        requires
            old(self)@.wf(),
            old(self)@.migrated(),
        ensures
            final(self)@.wf(),
            !old(self)@.attached(paste_id, tag_id) ==> r == Err::<(), StoreError>(
                StoreError::NotFoundError,
            ) && final(self)@ == old(self)@,
            old(self)@.attached(paste_id, tag_id) ==> r == Ok::<(), StoreError>(()) && final(self)@ == old(self)@.with_detached(paste_id, tag_id),
    {
        if self.find_assoc(paste_id, tag_id).is_none() {
            return Err(StoreError::NotFoundError);
        }
        let ghost pre = self@;
        let kept = filter_assocs(&self.assocs, AssocSel::ByPair(paste_id, tag_id));
        self.assocs = kept;
        proof {
            let target = pre.with_detached(paste_id, tag_id);
            assert((|a: Assoc| AssocSel::ByPair(paste_id, tag_id).keeps(a)) =~= (|a: Assoc| !(
            a.paste_id == paste_id && a.tag_id == tag_id)));
            assert(self@.assocs =~= target.assocs);
            assert(self@ =~= target);
            laws::lemma_detached_wf(pre, paste_id, tag_id);
        }
        Ok(())
    }

    /// Atomically reassign ranks `0..n-1` to exactly the given tag ids for
    /// this paste, in the given order. The id set must match the paste's
    /// attached-tag set exactly, with no duplicates.
    pub fn reorder(&mut self, paste_id: u64, ids: &Vec<u64>) -> (r: Result<(), StoreError>)
        requires
            old(self)@.wf(),
            old(self)@.migrated(),
        ensures
            final(self)@.wf(),
            !old(self)@.has_paste(paste_id) ==> r == Err::<(), StoreError>(
                StoreError::NotFoundError,
            ) && final(self)@ == old(self)@,
            old(self)@.has_paste(paste_id) && !old(self)@.reorder_valid(paste_id, ids@) ==> r
                == Err::<(), StoreError>(StoreError::ValidationError) && final(self)@ == old(self)@,
            old(self)@.has_paste(paste_id) && old(self)@.reorder_valid(paste_id, ids@) ==> r
                == Ok::<(), StoreError>(()) && final(self)@ == old(self)@.with_reordered(
                paste_id,
                ids@,
            ),
    {
        if self.find_paste(paste_id).is_none() {
            return Err(StoreError::NotFoundError);
        }
        // duplicates in the requested order are malformed
        let mut k: usize = 0;
        while k < ids.len()
            invariant
                self@.wf(),
                self@ == old(self)@,
                self@.has_paste(paste_id),
                k <= ids.len(),
                forall|j1: int, j2: int| 0 <= j1 < j2 < k ==> ids@[j1] != ids@[j2],
            decreases ids.len() - k,
        {
            let mut j: usize = 0;
            while j < k
                invariant
                    self@.wf(),
                    self@ == old(self)@,
                    self@.has_paste(paste_id),
                    j <= k < ids.len(),
                    forall|j1: int| 0 <= j1 < j ==> ids@[j1] != ids@[k as int],
                decreases k - j,
            {
                if ids[j] == ids[k] {
                    proof {
                        assert(ids@[j as int] == ids@[k as int]);
                        assert(!ids@.no_duplicates());
                    }
                    return Err(StoreError::ValidationError);
                }
                j = j + 1;
            }
            k = k + 1;
        }
        proof {
            assert(ids@.no_duplicates()) by {
                assert forall|j1: int, j2: int|
                    0 <= j1 < ids@.len() && 0 <= j2 < ids@.len() && j1 != j2 implies ids@[j1]
                    != ids@[j2] by {
                    if j1 > j2 {
                        assert(ids@[j2] != ids@[j1]);
                    }
                }
            }
        }
        // every requested id must be attached
        let mut k2: usize = 0;
        while k2 < ids.len()
            invariant
                self@.wf(),
                self@ == old(self)@,
                self@.has_paste(paste_id),
                k2 <= ids.len(),
                forall|j: int| 0 <= j < k2 ==> self@.attached(paste_id, #[trigger] ids@[j]),
            decreases ids.len() - k2,
        {
            if self.find_assoc(paste_id, ids[k2]).is_none() {
                return Err(StoreError::ValidationError);
            }
            k2 = k2 + 1;
        }
        // every attached tag must be requested
        let mut i: usize = 0;
        while i < self.assocs.len()
            invariant
                self@.wf(),
                self@ == old(self)@,
                self@.has_paste(paste_id),
                i <= self.assocs.len(),
                forall|j: int|
                    0 <= j < i && (#[trigger] self@.assocs[j]).paste_id == paste_id
                        ==> ids@.contains(self@.assocs[j].tag_id),
            decreases self.assocs.len() - i,
        {
            let a = self.assocs[i];
            if a.paste_id == paste_id {
                if !contains_id(ids, a.tag_id) {
                    proof {
                        laws::lemma_seq_of_row(self@, i as int);
                        assert(self@.attached(paste_id, a.tag_id));
                        assert(!self@.reorder_valid(paste_id, ids@));
                    }
                    return Err(StoreError::ValidationError);
                }
            }
            i = i + 1;
        }
        proof {
            assert forall|t: u64| #[trigger] self@.attached(paste_id, t) implies ids@.contains(
                t,
            ) by {
                let w = self@.assoc_index(paste_id, t);
                assert(0 <= w < self@.assocs.len() && self@.assocs[w].paste_id == paste_id
                    && self@.assocs[w].tag_id == t);
            }
            assert(self@.reorder_valid(paste_id, ids@));
        }
        // rebuild: rows of other pastes in order, then the new block
        let ghost pre = self@;
        let mut kept = filter_assocs(&self.assocs, AssocSel::ByPaste(paste_id));
        let ghost f = kept@;
        let mut k3: usize = 0;
        while k3 < ids.len()
            invariant
                k3 <= ids.len(),
                kept@ == f + Seq::new(
                    k3 as nat,
                    |k: int| Assoc { paste_id, tag_id: ids@[k], seq_id: k as u64 },
                ),
            decreases ids.len() - k3,
        {
            kept.push(Assoc { paste_id, tag_id: ids[k3], seq_id: k3 as u64 });
            proof {
                assert(kept@ =~= f + Seq::new(
                    (k3 + 1) as nat,
                    |k: int| Assoc { paste_id, tag_id: ids@[k], seq_id: k as u64 },
                ));
            }
            k3 = k3 + 1;
        }
        self.assocs = kept;
        proof {
            let target = pre.with_reordered(paste_id, ids@);
            assert((|a: Assoc| AssocSel::ByPaste(paste_id).keeps(a)) =~= (|a: Assoc| a.paste_id
                != paste_id));
            assert(self@.assocs =~= target.assocs);
            assert(self@ =~= target);
            laws::lemma_reordered_wf(pre, paste_id, ids@);
        }
        Ok(())
    }
}

} // verus!
