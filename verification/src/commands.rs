use vstd::prelude::*;

use crate::errors::StoreError;
use crate::laws;
use crate::store::Store;
use vstd::pervasive::unreached;

verus! {

/// The tag ids the given names resolve to in store `s`, in name order.
pub open spec fn named_ids(s: crate::store::StoreV, names: Seq<String>) -> Seq<u64> {
    names.map_values(|n: String| s.tag_id_of_name(n@))
}

impl Store {
    /// Attach the tag named `name` to `paste_id`, creating the tag first when
    /// the name is new. An already-attached pair is a conflict; a conflicting
    /// call changes nothing.
    pub fn tag(&mut self, paste_id: u64, name: String, now: u64) -> (r: Result<u64, StoreError>)
        requires
            old(self)@.wf(),
            old(self)@.migrated(),
            old(self)@.next_tag_id < u64::MAX,
            old(self)@.seq_headroom(paste_id),
        ensures
            final(self)@.wf(),
            name@.len() == 0 ==> r == Err::<u64, StoreError>(StoreError::ValidationError)
                && final(self)@ == old(self)@,
            name@.len() > 0 && !old(self)@.has_paste(paste_id) ==> r == Err::<u64, StoreError>(
                StoreError::NotFoundError,
            ) && final(self)@ == old(self)@,
            name@.len() > 0 && old(self)@.has_paste(paste_id) && old(self)@.has_tag_name(name@)
                && old(self)@.attached(paste_id, old(self)@.tag_id_of_name(name@)) ==> r == Err::<
                u64,
                StoreError,
            >(StoreError::ConflictError) && final(self)@ == old(self)@,
            name@.len() > 0 && old(self)@.has_paste(paste_id) && old(self)@.has_tag_name(name@)
                && !old(self)@.attached(paste_id, old(self)@.tag_id_of_name(name@)) ==> r == Ok::<
                u64,
                StoreError,
            >(old(self)@.tag_id_of_name(name@)) && final(self)@ == old(self)@.with_attached(
                paste_id,
                old(self)@.tag_id_of_name(name@),
            ),
            name@.len() > 0 && old(self)@.has_paste(paste_id) && !old(self)@.has_tag_name(name@)
                ==> r == Ok::<u64, StoreError>(old(self)@.next_tag_id) && final(self)@ == old(
                self,
            )@.with_tag_added(name@, now).with_attached(paste_id, old(self)@.next_tag_id),
    {
        if name.as_str().is_empty() {
            return Err(StoreError::ValidationError);
        }
        if self.find_paste(paste_id).is_none() {
            return Err(StoreError::NotFoundError);
        }
        match self.find_tag_by_name(&name) {
            Some(i) => {
                let tid = self.tags[i].id;
                proof {
                    assert(self@.tags[i as int].id == tid);
                    assert(self@.has_tag(tid));
                }
                match self.attach(paste_id, tid) {
                    Ok(()) => Ok(tid),
                    Err(e) => Err(e),
                }
            },
            None => {
                let ghost pre = self@;
                let tid = match self.get_or_create(name, now) {
                    Ok(t) => t,
                    Err(_) => unreached(),
                };
                proof {
                    let mid = self@;
                    laws::lemma_has_paste_transfer(pre, mid, paste_id);
                    let n = pre.tags.len() as int;
                    assert(mid.tags[n].id == tid);
                    assert(mid.has_tag(tid));
                    // no existing row can reference the fresh id
                    assert forall|j: int| 0 <= j < mid.assocs.len() implies (
                    #[trigger] mid.assocs[j]).tag_id != tid by {
                        assert(pre.has_tag(pre.assocs[j].tag_id));
                        let k = choose|k: int|
                            0 <= k < pre.tags.len() && (#[trigger] pre.tags[k]).id
                                == pre.assocs[j].tag_id;
                        assert(pre.tags[k].id < pre.next_tag_id);
                    }
                    assert(!mid.attached(paste_id, tid));
                }
                match self.attach(paste_id, tid) {
                    Ok(()) => Ok(tid),
                    Err(_) => unreached(),
                }
            },
        }
    }

    /// Detach the tag named `name` from `paste_id`; an unknown name or an
    /// unattached pair is reported as absent.
    pub fn untag(&mut self, paste_id: u64, name: &String) -> (r: Result<(), StoreError>)
        requires
            old(self)@.wf(),
            old(self)@.migrated(),
        ensures
            final(self)@.wf(),
            !old(self)@.has_tag_name(name@) ==> r == Err::<(), StoreError>(
                StoreError::NotFoundError,
            ) && final(self)@ == old(self)@,
            old(self)@.has_tag_name(name@) && !old(self)@.attached(
                paste_id,
                old(self)@.tag_id_of_name(name@),
            ) ==> r == Err::<(), StoreError>(StoreError::NotFoundError) && final(self)@ == old(
                self,
            )@,
            old(self)@.has_tag_name(name@) && old(self)@.attached(
                paste_id,
                old(self)@.tag_id_of_name(name@),
            ) ==> r == Ok::<(), StoreError>(()) && final(self)@ == old(self)@.with_detached(
                paste_id,
                old(self)@.tag_id_of_name(name@),
            ),
    {
        match self.find_tag_by_name(name) {
            None => Err(StoreError::NotFoundError),
            Some(i) => {
                let tid = self.tags[i].id;
                self.detach(paste_id, tid)
            },
        }
    }

    /// Reorder the tags of `paste_id` to follow the given names in order.
    /// Every name must denote an existing tag, and the resolved id set must
    /// match the paste's attached set exactly.
    pub fn reorder_tags(&mut self, paste_id: u64, names: &Vec<String>) -> (r: Result<
        (),
        StoreError,
    >)
        requires
            old(self)@.wf(),
            old(self)@.migrated(),
        ensures
            final(self)@.wf(),
            (exists|k: int|
                0 <= k < names@.len() && !old(self)@.has_tag_name((#[trigger] names@[k])@)) ==> r
                == Err::<(), StoreError>(StoreError::NotFoundError) && final(self)@ == old(self)@,
            (forall|k: int|
                0 <= k < names@.len() ==> old(self)@.has_tag_name((#[trigger] names@[k])@))
                && !old(self)@.has_paste(paste_id) ==> r == Err::<(), StoreError>(
                StoreError::NotFoundError,
            ) && final(self)@ == old(self)@,
            (forall|k: int|
                0 <= k < names@.len() ==> old(self)@.has_tag_name((#[trigger] names@[k])@))
                && old(self)@.has_paste(paste_id) && !old(self)@.reorder_valid(
                paste_id,
                named_ids(old(self)@, names@),
            ) ==> r == Err::<(), StoreError>(StoreError::ValidationError) && final(self)@ == old(
                self,
            )@,
            (forall|k: int|
                0 <= k < names@.len() ==> old(self)@.has_tag_name((#[trigger] names@[k])@))
                && old(self)@.has_paste(paste_id) && old(self)@.reorder_valid(
                paste_id,
                named_ids(old(self)@, names@),
            ) ==> r == Ok::<(), StoreError>(()) && final(self)@ == old(self)@.with_reordered(
                paste_id,
                named_ids(old(self)@, names@),
            ),
    {
        let mut ids: Vec<u64> = Vec::new();
        let mut k: usize = 0;
        while k < names.len()
            invariant
                self@.wf(),
                self@.migrated(),
                self@ == old(self)@,
                k <= names.len(),
                ids@.len() == k,
                forall|j: int|
                    0 <= j < k ==> self@.has_tag_name((#[trigger] names@[j])@) && ids@[j]
                        == self@.tag_id_of_name(names@[j]@),
            decreases names.len() - k,
        {
            match self.find_tag_by_name(&names[k]) {
                None => {
                    return Err(StoreError::NotFoundError);
                },
                Some(i) => {
                    ids.push(self.tags[i].id);
                },
            }
            k = k + 1;
        }
        proof {
            assert(ids@ =~= named_ids(old(self)@, names@));
        }
        self.reorder(paste_id, &ids)
    }
}

} // verus!
