use vstd::prelude::*;

use crate::laws;
use crate::store::{Paste, PasteV, Store, StoreV, Tag};
use crate::tags::tag_ids;
use vstd::pervasive::unreached;

verus! {

/// Which timestamp a listing is ordered by.
#[derive(Clone, Copy, Debug, PartialEq, Eq, Structural)]
pub enum PasteOrder {
    CreatedAt,
    LastUsedAt,
}

impl PasteOrder {
    pub open spec fn key(self, p: PasteV) -> u64 {
        match self {
            PasteOrder::CreatedAt => p.created_at,
            PasteOrder::LastUsedAt => p.last_used_at,
        }
    }

    fn key_exec(self, p: &Paste) -> (r: u64)
        ensures
            r == self.key(p@),
    {
        match self {
            PasteOrder::CreatedAt => p.created_at,
            PasteOrder::LastUsedAt => p.last_used_at,
        }
    }

    /// The sort key of a paste: the chosen timestamp, with the unique id as
    /// the tiebreaker, so the order is total and strict.
    pub open spec fn pair_of(self, p: PasteV) -> (u64, u64) {
        (self.key(p), p.id)
    }
}

pub open spec fn lex_lt(a: (u64, u64), b: (u64, u64)) -> bool {
    a.0 < b.0 || (a.0 == b.0 && a.1 < b.1)
}

/// `pr` lies strictly beyond the last emitted key.
pub open spec fn pair_above(last: Option<(u64, u64)>, pr: (u64, u64)) -> bool {
    match last {
        None => true,
        Some(l) => lex_lt(l, pr),
    }
}

/// `pr` lies at or before the last emitted key.
pub open spec fn pair_at_or_below(last: Option<(u64, u64)>, pr: (u64, u64)) -> bool {
    match last {
        None => false,
        Some(l) => pr == l || lex_lt(pr, l),
    }
}

fn pair_above_exec(last: Option<(u64, u64)>, pr: (u64, u64)) -> (r: bool)
    ensures
        r == pair_above(last, pr),
{
    match last {
        None => true,
        Some(l) => l.0 < pr.0 || (l.0 == pr.0 && l.1 < pr.1),
    }
}

/// `needle` occurs contiguously inside `hay`; the empty needle occurs in
/// everything.
pub open spec fn is_substring_of(needle: Seq<u8>, hay: Seq<u8>) -> bool {
    exists|k: int|
        0 <= k <= hay.len() - needle.len() && #[trigger] hay.subrange(k, k + needle.len())
            == needle
}

/// Exact byte-substring search.
pub fn contains_bytes(hay: &Vec<u8>, needle: &Vec<u8>) -> (r: bool)
    ensures
        r == is_substring_of(needle@, hay@),
{
    if needle.len() == 0 {
        proof {
            assert(hay@.subrange(0, 0 + needle@.len() as int) =~= needle@);
        }
        return true;
    }
    if needle.len() > hay.len() {
        return false;
    }
    let hlen = hay.len();
    let bound = hay.len() - needle.len();
    let mut k: usize = 0;
    while k <= bound
        invariant
            1 <= needle@.len() <= hay@.len(),
            hlen == hay@.len(),
            bound == hay@.len() - needle@.len(),
            k <= bound + 1,
            forall|k2: int|
                0 <= k2 < k ==> #[trigger] hay@.subrange(k2, k2 + needle@.len()) != needle@,
        decreases bound + 1 - k,
    {
        let mut m: usize = 0;
        let mut mismatch = false;
        while !mismatch && m < needle.len()
            invariant
                needle@.len() <= hay@.len(),
                hay@.len() <= usize::MAX as int,
                k + needle@.len() <= hay@.len(),
                m <= needle@.len(),
                !mismatch ==> forall|j: int| 0 <= j < m ==> hay@[k + j] == needle@[j],
                mismatch ==> m < needle@.len() && hay@[k + m] != needle@[m as int],
            decreases needle.len() - m, (if mismatch { 0int } else { 1int }),
        {
            if hay[k + m] != needle[m] {
                mismatch = true;
            } else {
                m = m + 1;
            }
        }
        if !mismatch {
            proof {
                assert(hay@.subrange(k as int, k + needle@.len()) =~= needle@);
            }
            return true;
        }
        proof {
            assert(hay@.subrange(k as int, k + needle@.len())[m as int] != needle@[m as int]);
            assert(hay@.subrange(k as int, k + needle@.len()) != needle@);
        }
        k = k + 1;
    }
    false
}

/// Does paste `p` pass the optional content filter?
pub open spec fn passes(sel: Option<Seq<u8>>, p: PasteV) -> bool {
    match sel {
        None => true,
        Some(n) => is_substring_of(n, p.value),
    }
}

/// The view of an optional borrowed needle.
pub open spec fn needle_view(filter: Option<&Vec<u8>>) -> Option<Seq<u8>> {
    match filter {
        None => None,
        Some(n) => Some(n@),
    }
}

/// The ids of a row of pastes, in row order.
pub open spec fn paste_ids(v: Seq<Paste>) -> Seq<u64> {
    v.map_values(|p: Paste| p.id)
}

/// `ids` lists exactly the pastes passing `sel`, in strictly ascending
/// `(key, id)` order.
pub open spec fn is_paste_listing(
    s: StoreV,
    order: PasteOrder,
    sel: Option<Seq<u8>>,
    ids: Seq<u64>,
) -> bool {
    &&& forall|k: int|
        0 <= k < ids.len() ==> s.has_paste(#[trigger] ids[k]) && passes(sel, s.paste_at(ids[k]))
    &&& forall|id: u64|
        s.has_paste(id) && passes(sel, #[trigger] s.paste_at(id)) ==> ids.contains(id)
    &&& forall|k1: int, k2: int|
        0 <= k1 < k2 < ids.len() ==> lex_lt(
            order.pair_of(s.paste_at(#[trigger] ids[k1])),
            order.pair_of(s.paste_at(#[trigger] ids[k2])),
        )
}

impl Store {
    /// The row of the selected paste with the smallest `(key, id)` strictly
    /// beyond `last`, if any.
    fn scan_min_paste(
        &self,
        order: PasteOrder,
        filter: Option<&Vec<u8>>,
        last: Option<(u64, u64)>,
    ) -> (r: Option<usize>)
        requires
            self@.wf(),
        ensures
            match r {
                Some(i) => {
                    &&& i < self@.pastes.len()
                    &&& passes(needle_view(filter), self@.pastes[i as int])
                    &&& pair_above(last, order.pair_of(self@.pastes[i as int]))
                    &&& forall|j: int|
                        0 <= j < self@.pastes.len() && passes(
                            needle_view(filter),
                            #[trigger] self@.pastes[j],
                        ) && pair_above(last, order.pair_of(self@.pastes[j])) ==> (order.pair_of(
                            self@.pastes[i as int],
                        ) == order.pair_of(self@.pastes[j]) || lex_lt(
                            order.pair_of(self@.pastes[i as int]),
                            order.pair_of(self@.pastes[j]),
                        ))
                },
                None => forall|j: int|
                    0 <= j < self@.pastes.len() && passes(
                        needle_view(filter),
                        #[trigger] self@.pastes[j],
                    ) ==> !pair_above(last, order.pair_of(self@.pastes[j])),
            },
    {
        let mut best: Option<usize> = None;
        let mut i: usize = 0;
        while i < self.pastes.len()
            invariant
                self@.wf(),
                i <= self.pastes.len(),
                match best {
                    Some(b) => {
                        &&& b < i
                        &&& passes(needle_view(filter), self@.pastes[b as int])
                        &&& pair_above(last, order.pair_of(self@.pastes[b as int]))
                        &&& forall|j: int|
                            0 <= j < i && passes(needle_view(filter), #[trigger] self@.pastes[j])
                                && pair_above(last, order.pair_of(self@.pastes[j])) ==> (
                            order.pair_of(self@.pastes[b as int]) == order.pair_of(
                                self@.pastes[j],
                            ) || lex_lt(
                                order.pair_of(self@.pastes[b as int]),
                                order.pair_of(self@.pastes[j]),
                            ))
                    },
                    None => forall|j: int|
                        0 <= j < i && passes(needle_view(filter), #[trigger] self@.pastes[j])
                            ==> !pair_above(last, order.pair_of(self@.pastes[j])),
                },
            decreases self.pastes.len() - i,
        {
            let selected = match filter {
                None => true,
                Some(n) => contains_bytes(&self.pastes[i].value, n),
            };
            if selected {
                let key = order.key_exec(&self.pastes[i]);
                let id = self.pastes[i].id;
                proof {
                    assert((key, id) == order.pair_of(self@.pastes[i as int]));
                }
                if pair_above_exec(last, (key, id)) {
                    best = match best {
                        None => Some(i),
                        Some(b) => {
                            let bkey = order.key_exec(&self.pastes[b]);
                            let bid = self.pastes[b].id;
                            if key < bkey || (key == bkey && id < bid) {
                                Some(i)
                            } else {
                                Some(b)
                            }
                        },
                    };
                }
            }
            i = i + 1;
        }
        best
    }

    /// Every paste passing the filter, ordered by ascending `(key, id)`.
    fn select_pastes(&self, order: PasteOrder, filter: Option<&Vec<u8>>) -> (r: Vec<Paste>)
        requires
            self@.wf(),
        ensures
            forall|k: int| 0 <= k < r@.len() ==> (#[trigger] r@[k])@ == self@.paste_at(r@[k].id),
            is_paste_listing(self@, order, needle_view(filter), paste_ids(r@)),
    {
        let mut out: Vec<Paste> = Vec::new();
        let mut last: Option<(u64, u64)> = None;
        let mut step = self.scan_min_paste(order, filter, last);
        while step.is_some()
            invariant
                self@.wf(),
                match step {
                    Some(si) => {
                        &&& si < self@.pastes.len()
                        &&& passes(needle_view(filter), self@.pastes[si as int])
                        &&& pair_above(last, order.pair_of(self@.pastes[si as int]))
                        &&& forall|j: int|
                            0 <= j < self@.pastes.len() && passes(
                                needle_view(filter),
                                #[trigger] self@.pastes[j],
                            ) && pair_above(last, order.pair_of(self@.pastes[j])) ==> (
                            order.pair_of(self@.pastes[si as int]) == order.pair_of(
                                self@.pastes[j],
                            ) || lex_lt(
                                order.pair_of(self@.pastes[si as int]),
                                order.pair_of(self@.pastes[j]),
                            ))
                    },
                    None => forall|j: int|
                        0 <= j < self@.pastes.len() && passes(
                            needle_view(filter),
                            #[trigger] self@.pastes[j],
                        ) ==> !pair_above(last, order.pair_of(self@.pastes[j])),
                },
                forall|k: int|
                    0 <= k < out@.len() ==> self@.has_paste(#[trigger] paste_ids(out@)[k])
                        && passes(needle_view(filter), self@.paste_at(paste_ids(out@)[k])),
                forall|k: int|
                    0 <= k < out@.len() ==> (#[trigger] out@[k])@ == self@.paste_at(out@[k].id),
                forall|k1: int, k2: int|
                    0 <= k1 < k2 < out@.len() ==> lex_lt(
                        order.pair_of(self@.paste_at(#[trigger] paste_ids(out@)[k1])),
                        order.pair_of(self@.paste_at(#[trigger] paste_ids(out@)[k2])),
                    ),
                forall|k: int|
                    0 <= k < out@.len() ==> pair_at_or_below(
                        last,
                        order.pair_of(self@.paste_at(#[trigger] paste_ids(out@)[k])),
                    ),
                last.is_none() ==> out@.len() == 0,
                forall|id: u64|
                    self@.has_paste(id) && passes(
                        needle_view(filter),
                        #[trigger] self@.paste_at(id),
                    ) && pair_at_or_below(last, order.pair_of(self@.paste_at(id)))
                        ==> paste_ids(out@).contains(id),
            decreases (match last {
                None => u64::MAX as int + 1,
                Some(l) => u64::MAX as int - l.0,
            }), (match last {
                None => u64::MAX as int + 1,
                Some(l) => u64::MAX as int - l.1,
            }),
        {
            let si = step.unwrap();
            proof {
                laws::lemma_paste_row(self@, si as int);
            }
            let ghost out0 = out@;
            let ghost last0 = last;
            let key = order.key_exec(&self.pastes[si]);
            let id = self.pastes[si].id;
            out.push(self.pastes[si].duplicate());
            last = Some((key, id));
            step = self.scan_min_paste(order, filter, last);
            proof {
                assert(paste_ids(out@) =~= paste_ids(out0).push(id));
                let ids = paste_ids(out@);
                let n = out0.len() as int;
                let pr = order.pair_of(self@.pastes[si as int]);
                assert(pr == (key, id));
                assert(self@.paste_at(id) == self@.pastes[si as int]);
                assert(ids[n] == id);
                // every key emitted before lies strictly below the new one
                assert forall|k: int| 0 <= k < n implies lex_lt(
                    order.pair_of(self@.paste_at(ids[k])),
                    pr,
                ) by {
                    assert(ids[k] == paste_ids(out0)[k]);
                    assert(pair_at_or_below(last0, order.pair_of(self@.paste_at(ids[k]))));
                }
                // everything at or below the new key has been emitted
                assert forall|x: u64|
                    self@.has_paste(x) && passes(needle_view(filter), self@.paste_at(x))
                        && pair_at_or_below(last, order.pair_of(self@.paste_at(x))) implies
                    ids.contains(x) by {
                    let w = self@.paste_index(x);
                    assert(0 <= w < self@.pastes.len() && self@.pastes[w].id == x);
                    assert(self@.paste_at(x) == self@.pastes[w]);
                    if pair_at_or_below(last0, order.pair_of(self@.paste_at(x))) {
                        assert(paste_ids(out0).contains(x));
                        let k = choose|k: int| 0 <= k < n && paste_ids(out0)[k] == x;
                        assert(ids[k] == x);
                    } else {
                        assert(pair_above(last0, order.pair_of(self@.pastes[w])));
                        assert(order.pair_of(self@.pastes[si as int]) == order.pair_of(
                            self@.pastes[w],
                        ) || lex_lt(
                            order.pair_of(self@.pastes[si as int]),
                            order.pair_of(self@.pastes[w]),
                        ));
                        assert(order.pair_of(self@.pastes[w]) == pr);
                        assert(x == id);
                    }
                }
            }
        }
        proof {
            assert forall|id: u64|
                self@.has_paste(id) && passes(
                    needle_view(filter),
                    #[trigger] self@.paste_at(id),
                ) implies paste_ids(out@).contains(id) by {
                let w = self@.paste_index(id);
                assert(0 <= w < self@.pastes.len() && self@.pastes[w].id == id);
                assert(self@.paste_at(id) == self@.pastes[w]);
                assert(!pair_above(last, order.pair_of(self@.pastes[w])));
                assert(pair_at_or_below(last, order.pair_of(self@.paste_at(id))));
            }
        }
        out
    }

    /// The requested page of pastes, ordered as asked: the full ordered
    /// listing exists, and the result is its slice `[offset, offset+limit)`.
    pub fn list(&self, order: PasteOrder, limit: usize, offset: usize) -> (r: Vec<Paste>)
        requires
            self@.wf(),
            self@.migrated(),
        ensures
            forall|k: int| 0 <= k < r@.len() ==> (#[trigger] r@[k])@ == self@.paste_at(r@[k].id),
            exists|full: Seq<u64>|
                {
                    &&& #[trigger] is_paste_listing(self@, order, None, full)
                    &&& paste_ids(r@) == full.subrange(
                        if offset as int <= full.len() {
                            offset as int
                        } else {
                            full.len() as int
                        },
                        if offset + limit <= full.len() {
                            offset + limit
                        } else {
                            full.len() as int
                        },
                    )
                },
    {
        let full = self.select_pastes(order, None);
        let ghost full_ids = paste_ids(full@);
        let start = if offset < full.len() {
            offset
        } else {
            full.len()
        };
        let mut out: Vec<Paste> = Vec::new();
        let mut i: usize = start;
        while i < full.len() && out.len() < limit
            invariant
                start <= i <= full.len(),
                start == (if offset as int <= full@.len() {
                    offset as int
                } else {
                    full@.len() as int
                }),
                forall|k: int|
                    0 <= k < full@.len() ==> (#[trigger] full@[k])@ == self@.paste_at(full@[k].id),
                full_ids == paste_ids(full@),
                out@.len() == i - start,
                i - start <= limit,
                forall|k: int| 0 <= k < out@.len() ==> (#[trigger] out@[k])@ == full@[start + k]@,
            decreases full.len() - i,
        {
            out.push(full[i].duplicate());
            i = i + 1;
        }
        proof {
            let lo: int = if offset as int <= full_ids.len() {
                offset as int
            } else {
                full_ids.len() as int
            };
            let hi: int = if offset + limit <= full_ids.len() {
                offset + limit
            } else {
                full_ids.len() as int
            };
            assert(paste_ids(out@) =~= full_ids.subrange(lo, hi));
            assert(is_paste_listing(self@, order, None, full_ids));
        }
        out
    }

    /// The requested page of pastes passing the optional content filter, each
    /// with its tags in rank order.
    pub fn recall(&self, filter: Option<&Vec<u8>>, order: PasteOrder, limit: usize, offset: usize)
        -> (r: Vec<(Paste, Vec<Tag>)>)
        requires
            self@.wf(),
            self@.migrated(),
        ensures
            forall|k: int|
                0 <= k < r@.len() ==> {
                    &&& (#[trigger] r@[k]).0@ == self@.paste_at(r@[k].0.id)
                    &&& self@.is_tag_order(r@[k].0.id, tag_ids(r@[k].1@))
                    &&& forall|m: int|
                        0 <= m < r@[k].1@.len() ==> (#[trigger] r@[k].1@[m])@ == self@.tag_at(
                            r@[k].1@[m].id,
                        )
                },
            exists|full: Seq<u64>|
                {
                    &&& #[trigger] is_paste_listing(self@, order, needle_view(filter), full)
                    &&& r@.map_values(|e: (Paste, Vec<Tag>)| e.0.id) == full.subrange(
                        if offset as int <= full.len() {
                            offset as int
                        } else {
                            full.len() as int
                        },
                        if offset + limit <= full.len() {
                            offset + limit
                        } else {
                            full.len() as int
                        },
                    )
                },
    {
        let full = self.select_pastes(order, filter);
        let ghost full_ids = paste_ids(full@);
        proof {
            assert forall|k: int| 0 <= k < full@.len() implies self@.has_paste(
                (#[trigger] full@[k]).id,
            ) by {
                assert(self@.has_paste(paste_ids(full@)[k]));
            }
        }
        let start = if offset < full.len() {
            offset
        } else {
            full.len()
        };
        let mut out: Vec<(Paste, Vec<Tag>)> = Vec::new();
        let mut i: usize = start;
        while i < full.len() && out.len() < limit
            invariant
                self@.wf(),
                self@.migrated(),
                start <= i <= full.len(),
                start == (if offset as int <= full@.len() {
                    offset as int
                } else {
                    full@.len() as int
                }),
                forall|k: int| 0 <= k < full@.len() ==> self@.has_paste((#[trigger] full@[k]).id),
                forall|k: int|
                    0 <= k < full@.len() ==> (#[trigger] full@[k])@ == self@.paste_at(full@[k].id),
                full_ids == paste_ids(full@),
                out@.len() == i - start,
                i - start <= limit,
                forall|k: int|
                    0 <= k < out@.len() ==> (#[trigger] out@[k]).0@ == full@[start + k]@
                        && out@[k].0.id == full@[start + k].id,
                forall|k: int|
                    0 <= k < out@.len() ==> self@.is_tag_order(
                        (#[trigger] out@[k]).0.id,
                        tag_ids(out@[k].1@),
                    ),
                forall|k: int, m: int|
                    0 <= k < out@.len() && 0 <= m < out@[k].1@.len() ==> (
                    #[trigger] out@[k].1@[m])@ == self@.tag_at(out@[k].1@[m].id),
            decreases full.len() - i,
        {
            let p = full[i].duplicate();
            let tags = match self.list_for_paste(p.id) {
                Ok(t) => t,
                Err(_) => unreached(),
            };
            out.push((p, tags));
            i = i + 1;
        }
        proof {
            let lo: int = if offset as int <= full_ids.len() {
                offset as int
            } else {
                full_ids.len() as int
            };
            let hi: int = if offset + limit <= full_ids.len() {
                offset + limit
            } else {
                full_ids.len() as int
            };
            assert(out@.map_values(|e: (Paste, Vec<Tag>)| e.0.id) =~= full_ids.subrange(lo, hi));
            assert(is_paste_listing(self@, order, needle_view(filter), full_ids));
        }
        out
    }
}

/// Any two witnesses of a listing agree on their common prefix.
proof fn lemma_listing_prefix(
    s: StoreV,
    order: PasteOrder,
    sel: Option<Seq<u8>>,
    ids1: Seq<u64>,
    ids2: Seq<u64>,
    k: int,
)
    requires
        s.wf(),
        is_paste_listing(s, order, sel, ids1),
        is_paste_listing(s, order, sel, ids2),
        0 <= k <= ids1.len(),
        k <= ids2.len(),
    ensures
        forall|j: int| 0 <= j < k ==> ids1[j] == ids2[j],
    decreases k,
{
    if k > 0 {
        lemma_listing_prefix(s, order, sel, ids1, ids2, k - 1);
        let x = ids1[k - 1];
        let y = ids2[k - 1];
        assert(s.has_paste(x) && passes(sel, s.paste_at(x)));
        assert(s.has_paste(y) && passes(sel, s.paste_at(y)));
        // under `wf` the id field of `paste_at(x)` is `x` itself
        assert(s.paste_at(x).id == x);
        assert(s.paste_at(y).id == y);
        assert(ids2.contains(x));
        let m = choose|m: int| 0 <= m < ids2.len() && ids2[m] == x;
        if m < k - 1 {
            assert(ids1[m] == x);
            assert(lex_lt(order.pair_of(s.paste_at(ids1[m])), order.pair_of(s.paste_at(
                ids1[k - 1],
            ))));
            assert(false);
        }
        assert(ids1.contains(y));
        let m2 = choose|m2: int| 0 <= m2 < ids1.len() && ids1[m2] == y;
        if m2 < k - 1 {
            assert(ids2[m2] == y);
            assert(lex_lt(order.pair_of(s.paste_at(ids2[m2])), order.pair_of(s.paste_at(
                ids2[k - 1],
            ))));
            assert(false);
        }
        if m > k - 1 {
            assert(lex_lt(order.pair_of(s.paste_at(ids2[k - 1])), order.pair_of(s.paste_at(
                ids2[m],
            ))));
        }
        if m2 > k - 1 {
            assert(lex_lt(order.pair_of(s.paste_at(ids1[k - 1])), order.pair_of(s.paste_at(
                ids1[m2],
            ))));
        }
        // the two keys bound each other, so the ids agree
        assert(order.pair_of(s.paste_at(x)) == order.pair_of(s.paste_at(y)));
        assert(x == y);
    }
}

/// Law: the ordered listing of the selected pastes is unique: any two
/// sequences satisfying `is_paste_listing` are equal, so `list` and `recall`
/// have exactly one possible result for a given store and page.
pub proof fn lemma_paste_listing_unique(
    s: StoreV,
    order: PasteOrder,
    sel: Option<Seq<u8>>,
    ids1: Seq<u64>,
    ids2: Seq<u64>,
)
    requires
        s.wf(),
        is_paste_listing(s, order, sel, ids1),
        is_paste_listing(s, order, sel, ids2),
    ensures
        ids1 == ids2,
{
    let n1 = ids1.len() as int;
    let n2 = ids2.len() as int;
    let k: int = if n1 <= n2 {
        n1
    } else {
        n2
    };
    lemma_listing_prefix(s, order, sel, ids1, ids2, k);
    if n1 < n2 {
        let y = ids2[n1];
        assert(s.has_paste(y) && passes(sel, s.paste_at(y)));
        assert(ids1.contains(y));
        let m = choose|m: int| 0 <= m < n1 && ids1[m] == y;
        assert(ids2[m] == y);
        assert(lex_lt(order.pair_of(s.paste_at(ids2[m])), order.pair_of(s.paste_at(ids2[n1]))));
        assert(false);
    } else if n2 < n1 {
        let y = ids1[n2];
        assert(s.has_paste(y) && passes(sel, s.paste_at(y)));
        assert(ids2.contains(y));
        let m = choose|m: int| 0 <= m < n2 && ids2[m] == y;
        assert(ids1[m] == y);
        assert(lex_lt(order.pair_of(s.paste_at(ids1[m])), order.pair_of(s.paste_at(ids1[n2]))));
        assert(false);
    }
    assert(ids1 =~= ids2);
}


} // verus!
