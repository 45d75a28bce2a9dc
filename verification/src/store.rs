use vstd::prelude::*;

verus! {

/// One captured content blob with timestamps.
pub struct Paste {
    pub id: u64,
    pub value: Vec<u8>,
    pub created_at: u64,
    pub last_used_at: u64,
}

/// Mathematical image of a `Paste`.
#[verifier::ext_equal]
pub ghost struct PasteV {
    pub id: u64,
    pub value: Seq<u8>,
    pub created_at: u64,
    pub last_used_at: u64,
}

impl View for Paste {
    type V = PasteV;

    open spec fn view(&self) -> PasteV {
        PasteV {
            id: self.id,
            value: self.value@,
            created_at: self.created_at,
            last_used_at: self.last_used_at,
        }
    }
}

impl Paste {
    /// A field-for-field copy; `Paste` owns a `Vec`, so this replaces `clone`
    /// in verified code, where the copy's view is pinned to the original's.
    pub fn duplicate(&self) -> (r: Paste)
        ensures
            r@ == self@,
    {
        let mut value: Vec<u8> = Vec::new();
        let mut i: usize = 0;
        while i < self.value.len()
            invariant
                i <= self.value.len(),
                value@ == self.value@.subrange(0, i as int),
            decreases self.value.len() - i,
        {
            value.push(self.value[i]);
            proof {
                assert(value@ =~= self.value@.subrange(0, i + 1 as int));
            }
            i = i + 1;
        }
        proof {
            assert(value@ =~= self.value@);
        }
        Paste { id: self.id, value, created_at: self.created_at, last_used_at: self.last_used_at }
    }
}

/// A named label, unique by name, attachable to pastes.
pub struct Tag {
    pub id: u64,
    pub name: String,
    pub created_at: u64,
}

/// Mathematical image of a `Tag`.
#[verifier::ext_equal]
pub ghost struct TagV {
    pub id: u64,
    pub name: Seq<char>,
    pub created_at: u64,
}

impl View for Tag {
    type V = TagV;

    open spec fn view(&self) -> TagV {
        TagV { id: self.id, name: self.name@, created_at: self.created_at }
    }
}

impl Tag {
    /// A field-for-field copy whose view is pinned to the original's.
    pub fn duplicate(&self) -> (r: Tag)
        ensures
            r@ == self@,
    {
        Tag { id: self.id, name: self.name.clone(), created_at: self.created_at }
    }
}

/// One link between a paste and a tag, ranked by `seq_id` within its paste.
#[derive(Clone, Copy, Debug, PartialEq, Eq, Structural)]
pub struct Assoc {
    pub paste_id: u64,
    pub tag_id: u64,
    pub seq_id: u64,
}

/// Mathematical image of the whole store.
#[verifier::ext_equal]
pub ghost struct StoreV {
    pub pastes: Seq<PasteV>,
    pub tags: Seq<TagV>,
    pub assocs: Seq<Assoc>,
    pub next_paste_id: u64,
    pub next_tag_id: u64,
    pub schema_version: u64,
}

/// The relational store: three tables plus the recorded schema version.
pub struct Store {
    pub pastes: Vec<Paste>,
    pub tags: Vec<Tag>,
    pub assocs: Vec<Assoc>,
    pub next_paste_id: u64,
    pub next_tag_id: u64,
    pub schema_version: u64,
}

impl View for Store {
    type V = StoreV;

    open spec fn view(&self) -> StoreV {
        StoreV {
            pastes: self.pastes@.map_values(|p: Paste| p@),
            tags: self.tags@.map_values(|t: Tag| t@),
            assocs: self.assocs@,
            next_paste_id: self.next_paste_id,
            next_tag_id: self.next_tag_id,
            schema_version: self.schema_version,
        }
    }
}

impl StoreV {
    // ----- lookups over the paste table -----

    pub open spec fn has_paste(self, id: u64) -> bool {
        exists|i: int| 0 <= i < self.pastes.len() && (#[trigger] self.pastes[i]).id == id
    }

    pub open spec fn paste_index(self, id: u64) -> int {
        choose|i: int| 0 <= i < self.pastes.len() && (#[trigger] self.pastes[i]).id == id
    }

    pub open spec fn paste_at(self, id: u64) -> PasteV {
        self.pastes[self.paste_index(id)]
    }

    // ----- lookups over the tag table -----

    pub open spec fn has_tag(self, id: u64) -> bool {
        exists|i: int| 0 <= i < self.tags.len() && (#[trigger] self.tags[i]).id == id
    }

    pub open spec fn tag_index(self, id: u64) -> int {
        choose|i: int| 0 <= i < self.tags.len() && (#[trigger] self.tags[i]).id == id
    }

    pub open spec fn tag_at(self, id: u64) -> TagV {
        self.tags[self.tag_index(id)]
    }

    pub open spec fn has_tag_name(self, name: Seq<char>) -> bool {
        exists|i: int| 0 <= i < self.tags.len() && (#[trigger] self.tags[i]).name == name
    }

    pub open spec fn tag_name_index(self, name: Seq<char>) -> int {
        choose|i: int| 0 <= i < self.tags.len() && (#[trigger] self.tags[i]).name == name
    }

    /// The id of the tag that carries `name`; meaningful under `wf`, where
    /// names are unique.
    pub open spec fn tag_id_of_name(self, name: Seq<char>) -> u64 {
        self.tags[self.tag_name_index(name)].id
    }

    // ----- lookups over the association table -----

    pub open spec fn attached(self, p: u64, t: u64) -> bool {
        exists|i: int|
            0 <= i < self.assocs.len() && (#[trigger] self.assocs[i]).paste_id == p
                && self.assocs[i].tag_id == t
    }

    pub open spec fn assoc_index(self, p: u64, t: u64) -> int {
        choose|i: int|
            0 <= i < self.assocs.len() && (#[trigger] self.assocs[i]).paste_id == p
                && self.assocs[i].tag_id == t
    }

    /// The rank of tag `t` within paste `p`'s tag list; meaningful under `wf`,
    /// where each pair occurs at most once.
    pub open spec fn seq_of(self, p: u64, t: u64) -> u64 {
        self.assocs[self.assoc_index(p, t)].seq_id
    }

    pub open spec fn has_assoc_row(self, p: u64) -> bool {
        exists|i: int| 0 <= i < self.assocs.len() && (#[trigger] self.assocs[i]).paste_id == p
    }

    /// `s` is the largest rank in use for paste `p`.
    pub open spec fn is_max_seq(self, p: u64, s: u64) -> bool {
        &&& exists|i: int|
            0 <= i < self.assocs.len() && (#[trigger] self.assocs[i]).paste_id == p
                && self.assocs[i].seq_id == s
        &&& forall|i: int|
            0 <= i < self.assocs.len() && (#[trigger] self.assocs[i]).paste_id == p
                ==> self.assocs[i].seq_id <= s
    }

    pub open spec fn max_seq(self, p: u64) -> u64 {
        choose|s: u64| self.is_max_seq(p, s)
    }

    /// The rank `attach` assigns next for paste `p`: one past the largest
    /// rank in use, or zero when no tag is attached.
    pub open spec fn next_seq(self, p: u64) -> u64 {
        if self.has_assoc_row(p) {
            (self.max_seq(p) + 1) as u64
        } else {
            0
        }
    }

    /// No rank of paste `p` has reached the machine bound, so `attach` can
    /// still assign a fresh one.
    pub open spec fn seq_headroom(self, p: u64) -> bool {
        forall|i: int|
            0 <= i < self.assocs.len() && (#[trigger] self.assocs[i]).paste_id == p
                ==> self.assocs[i].seq_id < u64::MAX
    }

    /// `ids` is exactly paste `p`'s tag list in ascending rank order.
    pub open spec fn is_tag_order(self, p: u64, ids: Seq<u64>) -> bool {
        &&& forall|k: int| 0 <= k < ids.len() ==> self.attached(p, #[trigger] ids[k])
        &&& forall|t: u64| #[trigger] self.attached(p, t) ==> ids.contains(t)
        &&& forall|k1: int, k2: int|
            0 <= k1 < k2 < ids.len() ==> self.seq_of(p, #[trigger] ids[k1]) < self.seq_of(
                p,
                #[trigger] ids[k2],
            )
    }

    /// `ids` is a permutation of exactly the tags attached to paste `p`: the
    /// only shape `reorder` accepts.
    pub open spec fn reorder_valid(self, p: u64, ids: Seq<u64>) -> bool {
        &&& ids.no_duplicates()
        &&& forall|k: int| 0 <= k < ids.len() ==> self.attached(p, #[trigger] ids[k])
        &&& forall|t: u64| #[trigger] self.attached(p, t) ==> ids.contains(t)
    }

    // ----- well-formedness -----

    /// The store invariant: unique ids below the id counters, non-empty paste
    /// contents, unique non-empty tag names, at-most-once association pairs,
    /// unique rank per paste, and referential integrity of every row.
    pub open spec fn wf(self) -> bool {
        &&& forall|i: int, j: int|
            0 <= i < j < self.pastes.len() ==> (#[trigger] self.pastes[i]).id != (
            #[trigger] self.pastes[j]).id
        &&& forall|i: int|
            0 <= i < self.pastes.len() ==> (#[trigger] self.pastes[i]).id < self.next_paste_id
        &&& forall|i: int| 0 <= i < self.pastes.len() ==> (#[trigger] self.pastes[i]).value.len() > 0
        &&& forall|i: int, j: int|
            0 <= i < j < self.tags.len() ==> (#[trigger] self.tags[i]).id != (
            #[trigger] self.tags[j]).id
        &&& forall|i: int|
            0 <= i < self.tags.len() ==> (#[trigger] self.tags[i]).id < self.next_tag_id
        &&& forall|i: int| 0 <= i < self.tags.len() ==> (#[trigger] self.tags[i]).name.len() > 0
        &&& forall|i: int, j: int|
            0 <= i < j < self.tags.len() ==> (#[trigger] self.tags[i]).name != (
            #[trigger] self.tags[j]).name
        &&& forall|i: int, j: int|
            0 <= i < j < self.assocs.len() ==> !((#[trigger] self.assocs[i]).paste_id == (
            #[trigger] self.assocs[j]).paste_id && self.assocs[i].tag_id == self.assocs[j].tag_id)
        &&& forall|i: int, j: int|
            0 <= i < j < self.assocs.len() && (#[trigger] self.assocs[i]).paste_id == (
            #[trigger] self.assocs[j]).paste_id ==> self.assocs[i].seq_id != self.assocs[j].seq_id
        &&& forall|i: int|
            0 <= i < self.assocs.len() ==> self.has_paste((#[trigger] self.assocs[i]).paste_id)
                && self.has_tag(self.assocs[i].tag_id)
    }

    /// Repository operations are permitted only once the initial schema is in
    /// place.
    pub open spec fn migrated(self) -> bool {
        self.schema_version >= 1
    }

    // ----- spec-level transitions -----

    pub open spec fn with_paste_added(self, value: Seq<u8>, now: u64) -> StoreV {
        StoreV {
            pastes: self.pastes.push(
                PasteV { id: self.next_paste_id, value, created_at: now, last_used_at: now },
            ),
            next_paste_id: (self.next_paste_id + 1) as u64,
            ..self
        }
    }

    pub open spec fn with_touched(self, id: u64, now: u64) -> StoreV {
        StoreV {
            pastes: self.pastes.update(
                self.paste_index(id),
                (PasteV { last_used_at: now, ..self.paste_at(id) }),
            ),
            ..self
        }
    }

    pub open spec fn with_paste_removed(self, id: u64) -> StoreV {
        StoreV {
            pastes: self.pastes.remove(self.paste_index(id)),
            assocs: self.assocs.filter(|a: Assoc| a.paste_id != id),
            ..self
        }
    }

    pub open spec fn with_tag_added(self, name: Seq<char>, now: u64) -> StoreV {
        StoreV {
            tags: self.tags.push(TagV { id: self.next_tag_id, name, created_at: now }),
            next_tag_id: (self.next_tag_id + 1) as u64,
            ..self
        }
    }

    pub open spec fn with_tag_removed(self, id: u64) -> StoreV {
        StoreV {
            tags: self.tags.remove(self.tag_index(id)),
            assocs: self.assocs.filter(|a: Assoc| a.tag_id != id),
            ..self
        }
    }

    pub open spec fn with_attached(self, p: u64, t: u64) -> StoreV {
        StoreV {
            assocs: self.assocs.push(Assoc { paste_id: p, tag_id: t, seq_id: self.next_seq(p) }),
            ..self
        }
    }

    pub open spec fn with_detached(self, p: u64, t: u64) -> StoreV {
        StoreV {
            assocs: self.assocs.filter(|a: Assoc| !(a.paste_id == p && a.tag_id == t)),
            ..self
        }
    }

    pub open spec fn with_reordered(self, p: u64, ids: Seq<u64>) -> StoreV {
        StoreV {
            assocs: self.assocs.filter(|a: Assoc| a.paste_id != p) + Seq::new(
                ids.len(),
                |k: int| Assoc { paste_id: p, tag_id: ids[k], seq_id: k as u64 },
            ),
            ..self
        }
    }

    /// The migration runner's effect on the recorded schema version, for an
    /// ascending version list: the last version wins if it exceeds the
    /// current one, and nothing else changes.
    pub open spec fn with_schema(self, versions: Seq<u64>) -> StoreV {
        if versions.len() > 0 && versions.last() > self.schema_version {
            StoreV { schema_version: versions.last(), ..self }
        } else {
            self
        }
    }
}

/// Selects which association rows a cascade or a detach drops.
#[derive(Clone, Copy, Debug, PartialEq, Eq, Structural)]
pub enum AssocSel {
    /// Drop every row of the given paste.
    ByPaste(u64),
    /// Drop every row of the given tag.
    ByTag(u64),
    /// Drop the one row of the given pair.
    ByPair(u64, u64),
}

impl AssocSel {
    pub open spec fn keeps(self, a: Assoc) -> bool {
        match self {
            AssocSel::ByPaste(p) => a.paste_id != p,
            AssocSel::ByTag(t) => a.tag_id != t,
            AssocSel::ByPair(p, t) => !(a.paste_id == p && a.tag_id == t),
        }
    }

    fn keeps_exec(self, a: Assoc) -> (r: bool)
        ensures
            r == self.keeps(a),
    {
        match self {
            AssocSel::ByPaste(p) => a.paste_id != p,
            AssocSel::ByTag(t) => a.tag_id != t,
            AssocSel::ByPair(p, t) => !(a.paste_id == p && a.tag_id == t),
        }
    }
}

/// The rows of `v` that `sel` keeps, in their original order.
pub(crate) fn filter_assocs(v: &Vec<Assoc>, sel: AssocSel) -> (r: Vec<Assoc>)
    ensures
        r@ == v@.filter(|a: Assoc| sel.keeps(a)),
{
    let pred = Ghost(|a: Assoc| sel.keeps(a));
    let mut out: Vec<Assoc> = Vec::new();
    let mut i: usize = 0;
    proof {
        reveal(Seq::filter);
        assert(v@.subrange(0, 0).filter(pred@) =~= Seq::<Assoc>::empty());
    }
    while i < v.len()
        invariant
            i <= v.len(),
            pred@ == (|a: Assoc| sel.keeps(a)),
            out@ == v@.subrange(0, i as int).filter(pred@),
        decreases v.len() - i,
    {
        let a = v[i];
        proof {
            reveal(Seq::filter);
            let pre = v@.subrange(0, i as int);
            let cur = v@.subrange(0, i as int + 1);
            assert(cur.drop_last() =~= pre);
            assert(cur.last() == a);
        }
        if sel.keeps_exec(a) {
            out.push(a);
        }
        i = i + 1;
    }
    proof {
        assert(v@.subrange(0, v@.len() as int) =~= v@);
    }
    out
}

impl Store {
    /// An empty store, not yet migrated: no repository operation is permitted
    /// until `run_migrations` has recorded schema version 1.
    pub fn new() -> (r: Store)
        ensures
            r@.wf(),
            r@.pastes.len() == 0,
            r@.tags.len() == 0,
            r@.assocs.len() == 0,
            r@.next_paste_id == 1,
            r@.next_tag_id == 1,
            r@.schema_version == 0,
            !r@.migrated(),
    {
        Store {
            pastes: Vec::new(),
            tags: Vec::new(),
            assocs: Vec::new(),
            next_paste_id: 1,
            next_tag_id: 1,
            schema_version: 0,
        }
    }

    /// Linear scan for the row holding paste `id`.
    pub(crate) fn find_paste(&self, id: u64) -> (r: Option<usize>)
        requires
            self@.wf(),
        ensures
            match r {
                Some(i) => {
                    &&& self@.has_paste(id)
                    &&& i < self@.pastes.len()
                    &&& i as int == self@.paste_index(id)
                    &&& self@.pastes[i as int].id == id
                },
                None => !self@.has_paste(id),
            },
    {
        let mut i: usize = 0;
        while i < self.pastes.len()
            invariant
                self@.wf(),
                i <= self.pastes.len(),
                forall|j: int| 0 <= j < i ==> (#[trigger] self@.pastes[j]).id != id,
            decreases self.pastes.len() - i,
        {
            if self.pastes[i].id == id {
                proof {
                    assert(self@.pastes[i as int].id == id);
                    assert(self@.has_paste(id));
                    let k = self@.paste_index(id);
                    assert(0 <= k < self@.pastes.len() && self@.pastes[k].id == id);
                    assert(k == i as int);
                }
                return Some(i);
            }
            i = i + 1;
        }
        None
    }

    /// Linear scan for the row holding tag `id`.
    pub(crate) fn find_tag(&self, id: u64) -> (r: Option<usize>)
        requires
            self@.wf(),
        ensures
            match r {
                Some(i) => {
                    &&& self@.has_tag(id)
                    &&& i < self@.tags.len()
                    &&& i as int == self@.tag_index(id)
                    &&& self@.tags[i as int].id == id
                },
                None => !self@.has_tag(id),
            },
    {
        let mut i: usize = 0;
        while i < self.tags.len()
            invariant
                self@.wf(),
                i <= self.tags.len(),
                forall|j: int| 0 <= j < i ==> (#[trigger] self@.tags[j]).id != id,
            decreases self.tags.len() - i,
        {
            if self.tags[i].id == id {
                proof {
                    assert(self@.tags[i as int].id == id);
                    assert(self@.has_tag(id));
                    let k = self@.tag_index(id);
                    assert(0 <= k < self@.tags.len() && self@.tags[k].id == id);
                    assert(k == i as int);
                }
                return Some(i);
            }
            i = i + 1;
        }
        None
    }

    /// Linear scan for the row holding the tag named `name` (case-sensitive).
    pub(crate) fn find_tag_by_name(&self, name: &String) -> (r: Option<usize>)
        requires
            self@.wf(),
        ensures
            match r {
                Some(i) => {
                    &&& self@.has_tag_name(name@)
                    &&& i < self@.tags.len()
                    &&& i as int == self@.tag_name_index(name@)
                    &&& self@.tags[i as int].name == name@
                },
                None => !self@.has_tag_name(name@),
            },
    {
        let mut i: usize = 0;
        while i < self.tags.len()
            invariant
                self@.wf(),
                i <= self.tags.len(),
                forall|j: int| 0 <= j < i ==> (#[trigger] self@.tags[j]).name != name@,
            decreases self.tags.len() - i,
        {
            if self.tags[i].name == *name {
                proof {
                    assert(self@.tags[i as int].name == name@);
                    assert(self@.has_tag_name(name@));
                    let k = self@.tag_name_index(name@);
                    assert(0 <= k < self@.tags.len() && self@.tags[k].name == name@);
                    assert(k == i as int);
                }
                return Some(i);
            }
            i = i + 1;
        }
        None
    }

    /// Linear scan for the association row of the pair `(p, t)`.
    pub(crate) fn find_assoc(&self, p: u64, t: u64) -> (r: Option<usize>)
        requires
            self@.wf(),
        ensures
            match r {
                Some(i) => {
                    &&& self@.attached(p, t)
                    &&& i < self@.assocs.len()
                    &&& i as int == self@.assoc_index(p, t)
                    &&& self@.assocs[i as int].paste_id == p
                    &&& self@.assocs[i as int].tag_id == t
                    &&& self@.assocs[i as int].seq_id == self@.seq_of(p, t)
                },
                None => !self@.attached(p, t),
            },
    {
        let mut i: usize = 0;
        while i < self.assocs.len()
            invariant
                self@.wf(),
                i <= self.assocs.len(),
                forall|j: int|
                    0 <= j < i ==> !((#[trigger] self@.assocs[j]).paste_id == p
                        && self@.assocs[j].tag_id == t),
            decreases self.assocs.len() - i,
        {
            if self.assocs[i].paste_id == p && self.assocs[i].tag_id == t {
                proof {
                    assert(self@.attached(p, t));
                    let k = self@.assoc_index(p, t);
                    assert(0 <= k < self@.assocs.len() && self@.assocs[k].paste_id == p
                        && self@.assocs[k].tag_id == t);
                    assert(k == i as int);
                }
                return Some(i);
            }
            i = i + 1;
        }
        None
    }
}

} // verus!
