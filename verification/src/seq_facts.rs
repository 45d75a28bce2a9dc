use vstd::prelude::*;

verus! {

/// Every element of a filtered sequence occurs in the original sequence, and
/// filtering a duplicate-free sequence leaves it duplicate-free.
pub proof fn lemma_filter_retains<A>(s: Seq<A>, pred: spec_fn(A) -> bool)
    ensures
        forall|i: int| 0 <= i < s.filter(pred).len() ==> s.contains(#[trigger] s.filter(pred)[i]),
        s.no_duplicates() ==> s.filter(pred).no_duplicates(),
    decreases s.len(),
{
    reveal(Seq::filter);
    let f = s.filter(pred);
    if s.len() == 0 {
    } else {
        let d = s.drop_last();
        let x = s.last();
        lemma_filter_retains(d, pred);
        let df = d.filter(pred);
        assert forall|y: A| d.contains(y) implies s.contains(y) by {
            let i = choose|i: int| 0 <= i < d.len() && d[i] == y;
            assert(s[i] == y);
        }
        if s.no_duplicates() {
            assert(d.no_duplicates());
        }
        if pred(x) {
            assert(f == df.push(x));
            assert forall|i: int| 0 <= i < f.len() implies s.contains(#[trigger] f[i]) by {
                if i < df.len() {
                    assert(f[i] == df[i]);
                    assert(d.contains(df[i]));
                } else {
                    assert(f[i] == x);
                    assert(s[s.len() - 1] == x);
                }
            }
            if s.no_duplicates() {
                assert(!df.contains(x)) by {
                    if df.contains(x) {
                        let i = choose|i: int| 0 <= i < df.len() && df[i] == x;
                        assert(d.contains(df[i]));
                        let j = choose|j: int| 0 <= j < d.len() && d[j] == x;
                        assert(s[j] == s[s.len() - 1]);
                        assert(false);
                    }
                }
                assert forall|i: int, j: int|
                    0 <= i < f.len() && 0 <= j < f.len() && i != j implies f[i] != f[j] by {
                    if i < df.len() && j < df.len() {
                        assert(df.no_duplicates());
                    } else if i == df.len() && j < df.len() {
                        assert(f[i] == x && f[j] == df[j]);
                        if f[i] == f[j] {
                            assert(df.contains(x));
                        }
                    } else if j == df.len() && i < df.len() {
                        assert(f[j] == x && f[i] == df[i]);
                        if f[i] == f[j] {
                            assert(df.contains(x));
                        }
                    }
                }
                assert(f.no_duplicates());
            }
        } else {
            assert(f == df);
            assert forall|i: int| 0 <= i < f.len() implies s.contains(#[trigger] f[i]) by {
                assert(d.contains(df[i]));
            }
        }
    }
}

/// Removing one element keeps every other element present: each index of the
/// shortened sequence still reads an element of the original.
pub proof fn lemma_remove_keeps_others<A>(s: Seq<A>, at: int)
    requires
        0 <= at < s.len(),
    ensures
        forall|j: int|
            0 <= j < s.remove(at).len() ==> #[trigger] s.remove(at)[j] == (if j < at {
                s[j]
            } else {
                s[j + 1]
            }),
        forall|i: int|
            0 <= i < s.len() && i != at ==> s.remove(at).contains(#[trigger] s[i]),
{
    assert forall|i: int| 0 <= i < s.len() && i != at implies s.remove(at).contains(
        #[trigger] s[i],
    ) by {
        if i < at {
            assert(s.remove(at)[i] == s[i]);
        } else {
            assert(s.remove(at)[i - 1] == s[i]);
        }
    }
}

} // verus!
