use vstd::prelude::*;

use crate::errors::StoreError;
use crate::store::Store;

verus! {

/// One versioned, forward-only schema change.
pub struct Migration {
    /// Strictly greater than every earlier migration's version.
    pub version: u64,
    /// A human-readable name for the change.
    pub description: String,
}

/// The version numbers of a migration list, in list order.
pub open spec fn versions_of(ms: Seq<Migration>) -> Seq<u64> {
    ms.map_values(|m: Migration| m.version)
}

/// Version numbers must be strictly ascending.
pub open spec fn versions_ascending(vs: Seq<u64>) -> bool {
    forall|i: int, j: int| 0 <= i < j < vs.len() ==> vs[i] < vs[j]
}

/// Strictly ascending adjacent pairs make the whole list strictly ascending.
proof fn lemma_ascending_from_adjacent(vs: Seq<u64>, i: int, j: int)
    requires
        forall|k: int| 0 <= k < vs.len() - 1 ==> #[trigger] vs[k] < vs[k + 1],
        0 <= i < j < vs.len(),
    ensures
        vs[i] < vs[j],
    decreases j - i,
{
    if i + 1 == j {
        assert(vs[i] < vs[i + 1]);
    } else {
        lemma_ascending_from_adjacent(vs, i, j - 1);
        assert(vs[j - 1] < vs[j]);
    }
}

/// The migration list establishing the initial schema: version 1 creates the
/// three tables with their keys, the unique tag name, the non-empty checks,
/// and the cascading foreign keys.
pub fn initial_migrations() -> (r: Vec<Migration>)
    ensures
        r@.len() == 1,
        r@[0].version == 1,
        versions_ascending(versions_of(r@)),
{
    let mut v: Vec<Migration> = Vec::new();
    v.push(Migration { version: 1, description: "create_initial_tables".to_owned() });
    v
}

impl Store {
    /// Apply, in order, each migration whose version exceeds the recorded
    /// schema version, and record the highest applied version. Re-running the
    /// same list is a no-op. A list whose versions are not strictly ascending
    /// is rejected whole: no part of it is applied.
    pub fn run_migrations(&mut self, migrations: &Vec<Migration>) -> (r: Result<(), StoreError>)
        requires
            old(self)@.wf(),
        ensures
            final(self)@.wf(),
            !versions_ascending(versions_of(migrations@)) ==> r == Err::<(), StoreError>(
                StoreError::MigrationError,
            ) && final(self)@ == old(self)@,
            versions_ascending(versions_of(migrations@)) ==> r == Ok::<(), StoreError>(())
                && final(self)@ == old(self)@.with_schema(versions_of(migrations@)),
    {
        let ghost vs = versions_of(migrations@);
        // validate the ordering before touching anything
        let mut i: usize = 1;
        while i < migrations.len()
            invariant
                self@.wf(),
                self@ == old(self)@,
                vs == versions_of(migrations@),
                1 <= i,
                i <= migrations.len() || migrations.len() == 0,
                forall|k: int|
                    0 <= k < i - 1 ==> #[trigger] versions_of(migrations@)[k] < versions_of(
                        migrations@,
                    )[k + 1],
            decreases migrations.len() - i,
        {
            if migrations[i - 1].version >= migrations[i].version {
                proof {
                    assert(vs[i - 1 as int] >= vs[i as int]);
                    assert(!versions_ascending(vs));
                }
                return Err(StoreError::MigrationError);
            }
            i = i + 1;
        }
        proof {
            assert forall|a: int, b: int| 0 <= a < b < vs.len() implies vs[a] < vs[b] by {
                lemma_ascending_from_adjacent(vs, a, b);
            }
            assert(versions_ascending(vs));
        }
        // apply in order; each step only advances the recorded version
        let ghost pre = self@;
        let mut k: usize = 0;
        while k < migrations.len()
            invariant
                versions_ascending(vs),
                vs == versions_of(migrations@),
                k <= migrations.len(),
                self@.pastes == pre.pastes,
                self@.tags == pre.tags,
                self@.assocs == pre.assocs,
                self@.next_paste_id == pre.next_paste_id,
                self@.next_tag_id == pre.next_tag_id,
                self@.schema_version == (if k > 0 && vs[k - 1] > pre.schema_version {
                    vs[k - 1]
                } else {
                    pre.schema_version
                }),
            decreases migrations.len() - k,
        {
            if migrations[k].version > self.schema_version {
                self.schema_version = migrations[k].version;
            }
            proof {
                if k > 0 {
                    assert(vs[k - 1 as int] < vs[k as int]);
                }
            }
            k = k + 1;
        }
        proof {
            let target = pre.with_schema(vs);
            if vs.len() > 0 {
                assert(vs.last() == vs[vs.len() - 1]);
            }
            assert(self@ =~= target);
        }
        Ok(())
    }
}

} // verus!
