use vstd::prelude::*;

use crate::errors::StoreError;
use crate::laws;
use crate::store::{filter_assocs, Assoc, AssocSel, Paste, PasteV, Store};

verus! {

impl Store {
    /// Insert a new paste; empty content is rejected and inserts nothing.
    /// On success the new row carries `created_at == last_used_at == now`.
    pub fn create(&mut self, value: Vec<u8>, now: u64) -> (r: Result<u64, StoreError>)
        requires
            old(self)@.wf(),
            old(self)@.migrated(),
            old(self)@.next_paste_id < u64::MAX,
        ensures
            final(self)@.wf(),
            value@.len() == 0 ==> r == Err::<u64, StoreError>(StoreError::ValidationError)
                && final(self)@ == old(self)@,
            value@.len() > 0 ==> r == Ok::<u64, StoreError>(old(self)@.next_paste_id) && final(self)@ == old(self)@.with_paste_added(value@, now),
    {
        if value.len() == 0 {
            return Err(StoreError::ValidationError);
        }
        let ghost pre = self@;
        let ghost vv = value@;
        let id = self.next_paste_id;
        self.next_paste_id = self.next_paste_id + 1;
        self.pastes.push(Paste { id, value, created_at: now, last_used_at: now });
        proof {
            let target = pre.with_paste_added(vv, now);
            assert(self@.pastes =~= target.pastes);
            assert(self@ =~= target);
            laws::lemma_paste_added_wf(pre, vv, now);
        }
        Ok(id)
    }

    /// Refresh the recall time of paste `id` to `now`.
    pub fn touch(&mut self, id: u64, now: u64) -> (r: Result<(), StoreError>)
        requires
            old(self)@.wf(),
            old(self)@.migrated(),
        ensures
            final(self)@.wf(),
            !old(self)@.has_paste(id) ==> r == Err::<(), StoreError>(StoreError::NotFoundError)
                && final(self)@ == old(self)@,
            old(self)@.has_paste(id) ==> r == Ok::<(), StoreError>(()) && final(self)@ == old(self)@.with_touched(id, now),
    {
        match self.find_paste(id) {
            None => Err(StoreError::NotFoundError),
            Some(i) => {
                let ghost pre = self@;
                let mut p = self.pastes.remove(i);
                p.last_used_at = now;
                let ghost pv = p@;
                self.pastes.insert(i, p);
                proof {
                    let target = pre.with_touched(id, now);
                    assert(pv =~= (PasteV { last_used_at: now, ..pre.paste_at(id) }));
                    assert forall|j: int| 0 <= j < self@.pastes.len() implies self@.pastes[j]
                        == target.pastes[j] by {
                        if j == i as int {
                            assert(self.pastes@[j]@ == pv);
                        }
                    }
                    assert(self@.pastes =~= target.pastes);
                    assert(self@ =~= target);
                    laws::lemma_touched_wf(pre, id, now);
                }
                Ok(())
            },
        }
    }

    /// Read paste `id`.
    pub fn get(&self, id: u64) -> (r: Result<&Paste, StoreError>)
        requires
            self@.wf(),
            self@.migrated(),
        ensures
            match r {
                Ok(p) => self@.has_paste(id) && p@ == self@.paste_at(id),
                Err(e) => e == StoreError::NotFoundError && !self@.has_paste(id),
            },
    {
        match self.find_paste(id) {
            Some(i) => Ok(&self.pastes[i]),
            None => Err(StoreError::NotFoundError),
        }
    }

    /// Remove paste `id` and, by cascade, every association row that
    /// references it. Deleting a missing id fails; it is not idempotent.
    pub fn delete_paste(&mut self, id: u64) -> (r: Result<(), StoreError>)
        requires
            old(self)@.wf(),
            old(self)@.migrated(),
        ensures
            final(self)@.wf(),
            !old(self)@.has_paste(id) ==> r == Err::<(), StoreError>(StoreError::NotFoundError)
                && final(self)@ == old(self)@,
            old(self)@.has_paste(id) ==> r == Ok::<(), StoreError>(()) && final(self)@ == old(self)@.with_paste_removed(id),
    {
        match self.find_paste(id) {
            None => Err(StoreError::NotFoundError),
            Some(i) => {
                let ghost pre = self@;
                let _removed = self.pastes.remove(i);
                let kept = filter_assocs(&self.assocs, AssocSel::ByPaste(id));
                self.assocs = kept;
                proof {
                    let target = pre.with_paste_removed(id);
                    assert(self@.pastes =~= target.pastes);
                    assert((|a: Assoc| AssocSel::ByPaste(id).keeps(a)) =~= (|a: Assoc| a.paste_id
                        != id));
                    assert(self@.assocs =~= target.assocs);
                    assert(self@ =~= target);
                    laws::lemma_paste_removed_wf(pre, id);
                }
                Ok(())
            },
        }
    }
}

} // verus!
