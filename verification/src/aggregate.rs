use vstd::prelude::*;
use crate::bytes::copy_bytes;
use crate::sample::{
    identities, lemma_push_inserts, record_identity, sample_identities, Identity, SamplePairSet,
    VariantIdentity,
};

verus! {

/// An identity with the number of samples that held it.
pub struct CountEntry {
    pub identity: VariantIdentity,
    pub count: usize,
}

/// The identities of the entries, in their order.
pub open spec fn entry_identities(entries: Seq<CountEntry>) -> Seq<Identity> {
    Seq::new(entries.len(), |i: int| entries[i].identity@)
}

/// Whether an entry stands for the identity.
pub open spec fn holds(entries: Seq<CountEntry>, id: Identity) -> bool {
    exists|i: int| 0 <= i < entries.len() && (#[trigger] entries[i]).identity@ == id
}

/// The position of an entry that stands for the identity, where there is one.
pub open spec fn entry_of(entries: Seq<CountEntry>, id: Identity) -> int {
    choose|i: int| 0 <= i < entries.len() && (#[trigger] entries[i]).identity@ == id
}

/// The count that the entries give the identity: that of its entry, and 0
/// where it has none.
pub open spec fn count_in(entries: Seq<CountEntry>, id: Identity) -> nat {
    if holds(entries, id) {
        entries[entry_of(entries, id)].count as nat
    } else {
        0
    }
}

/// The count of an identity after a sample was merged: one more if the
/// sample holds the identity, and unchanged if not.
pub open spec fn merged_count(before: nat, sample: Set<Identity>, id: Identity) -> nat {
    if sample.contains(id) {
        before + 1
    } else {
        before
    }
}

/// Where no identity has two entries, the count of an identity is the count
/// of its one entry.
pub proof fn lemma_count_of_entry(entries: Seq<CountEntry>, id: Identity)
    requires
        entry_identities(entries).no_duplicates(),
    ensures
        forall|i: int|
            0 <= i < entries.len() && (#[trigger] entries[i]).identity@ == id ==> count_in(
                entries,
                id,
            ) == entries[i].count,
        !holds(entries, id) ==> count_in(entries, id) == 0,
{
    assert forall|i: int|
        0 <= i < entries.len() && (#[trigger] entries[i]).identity@ == id implies count_in(
        entries,
        id,
    ) == entries[i].count by {
        assert(holds(entries, id));
        let c = entry_of(entries, id);
        assert(entry_identities(entries).len() == entries.len());
        assert(entry_identities(entries)[c] == id);
        assert(entry_identities(entries)[i] == id);
        assert(c == i);
    }
}

/// The merges of two samples commute: either order gives the same count.
pub proof fn lemma_merge_commutes(before: nat, a: Set<Identity>, b: Set<Identity>, id: Identity)
    ensures
        merged_count(merged_count(before, a, id), b, id) == merged_count(
            merged_count(before, b, id),
            a,
            id,
        ),
{
}

/// A sample counts an identity once, however many of its records carry it:
/// the sample holds the identity, and its merge adds one to the count.
pub proof fn lemma_sample_counts_once(
    records: Seq<Option<Vec<Vec<u8>>>>,
    id: Identity,
    before: nat,
)
    requires
        exists|i: int| 0 <= i < records.len() && record_identity(#[trigger] records[i]) == Some(id),
    ensures
        sample_identities(records).contains(id),
        merged_count(before, sample_identities(records), id) == before + 1,
{
}

/// For each identity the number of samples, among those merged so far, that
/// held it.
pub struct GlobalCountTable {
    entries: Vec<CountEntry>,
    samples: usize,
}

/// Finds the entry of an identity.
fn position(entries: &Vec<CountEntry>, identity: &VariantIdentity) -> (found: Option<usize>)
    ensures
        match found {
            Some(p) => p < entries@.len() && entries@[p as int].identity@ == identity@,
            None => !holds(entries@, identity@),
        },
{
    let mut i: usize = 0;
    while i < entries.len()
        invariant
            i <= entries@.len(),
            forall|j: int| 0 <= j < i ==> (#[trigger] entries@[j]).identity@ != identity@,
        decreases entries@.len() - i,
    {
        if entries[i].identity.same_as(identity) {
            return Some(i);
        }
        i += 1;
    }
    None
}

impl GlobalCountTable {
    #[verifier::type_invariant]
    spec fn consistent(self) -> bool {
        &&& entry_identities(self.entries@).no_duplicates()
        &&& forall|i: int|
            0 <= i < self.entries@.len() ==> 1 <= (#[trigger] self.entries@[i]).count
                <= self.samples
    }

    /// The number of merged samples that held the identity.
    pub closed spec fn count(&self, id: Identity) -> nat {
        count_in(self.entries@, id)
    }

    /// The number of samples merged so far.
    pub closed spec fn samples(&self) -> nat {
        self.samples as nat
    }

    /// The table as a map from the identities seen so far to their counts.
    pub open spec fn view(&self) -> Map<Identity, nat> {
        Map::new(|id: Identity| self.count(id) > 0, |id: Identity| self.count(id))
    }

    /// The table of no samples.
    pub fn new() -> (table: GlobalCountTable)
        ensures
            table.samples() == 0,
            forall|id: Identity| #[trigger] table.count(id) == 0,
            table@ == Map::<Identity, nat>::empty(),
    {
        let table = GlobalCountTable { entries: Vec::new(), samples: 0 };
        proof {
            assert forall|id: Identity| #[trigger] table.count(id) == 0 by {
                assert(!holds(table.entries@, id));
            }
            assert(table@ =~= Map::<Identity, nat>::empty());
        }
        table
    }

    /// The number of samples merged so far.
    pub fn sample_count(&self) -> (n: usize)
        ensures
            n == self.samples(),
    {
        self.samples
    }

    /// The number of merged samples that held the identity. It never exceeds
    /// the number of samples merged.
    pub fn count_of(&self, identity: &VariantIdentity) -> (n: usize)
        ensures
            n == self.count(identity@),
            n <= self.samples(),
    {
        proof {
            use_type_invariant(&*self);
            lemma_count_of_entry(self.entries@, identity@);
        }
        match position(&self.entries, identity) {
            Some(p) => self.entries[p].count,
            None => 0,
        }
    }

    /// The entries of the table: one for each identity seen so far, with its
    /// count, which is at least one and at most the number of samples.
    pub fn entries(&self) -> (entries: &Vec<CountEntry>)
        ensures
            entry_identities(entries@).no_duplicates(),
            forall|i: int|
                0 <= i < entries@.len() ==> 1 <= (#[trigger] entries@[i]).count <= self.samples()
                    && self.count(entries@[i].identity@) == entries@[i].count,
            forall|id: Identity| #[trigger] self.count(id) > 0 ==> holds(entries@, id),
    {
        proof {
            use_type_invariant(&*self);
            assert forall|i: int| 0 <= i < self.entries@.len() implies self.count(
                (#[trigger] self.entries@[i]).identity@,
            ) == self.entries@[i].count by {
                lemma_count_of_entry(self.entries@, self.entries@[i].identity@);
            }
        }
        &self.entries
    }

}

/// Merges one sample into the table: the count of each identity that the
/// sample holds grows by one, an identity that is new to the table starts at
/// one, and every other count stays. No count exceeds the number of samples
/// merged.
pub fn update_global_variants(table: &mut GlobalCountTable, sample: SamplePairSet)
    requires
        old(table).samples() < usize::MAX,
    ensures
        final(table).samples() == old(table).samples() + 1,
        forall|id: Identity| #[trigger]
            final(table).count(id) == merged_count(old(table).count(id), sample@, id),
        forall|id: Identity| 0 <= #[trigger] final(table).count(id) <= final(table).samples(),
{
    proof {
        use_type_invariant(&*table);
    }
    let ghost before = table.entries@;
    let n: usize = table.samples;
    let mut entries: Vec<CountEntry> = Vec::new();
    std::mem::swap(&mut entries, &mut table.entries);
    let pairs = sample.pairs();
    let ghost ids = identities(pairs@);
    let mut k: usize = 0;
    proof {
        assert(ids.subrange(0, 0).to_set() =~= Set::<Identity>::empty());
        assert forall|id: Identity| count_in(before, id) <= n by {
            lemma_count_of_entry(before, id);
        }
    }
    while k < pairs.len()
        invariant
            k <= pairs@.len(),
            ids == identities(pairs@),
            ids.no_duplicates(),
            n < usize::MAX,
            entry_identities(entries@).no_duplicates(),
            forall|i: int| 0 <= i < entries@.len() ==> 1 <= (#[trigger] entries@[i]).count <= n + 1,
            forall|id: Identity| count_in(before, id) <= n,
            forall|id: Identity|
                count_in(entries@, id) == merged_count(
                    #[trigger] count_in(before, id),
                    ids.subrange(0, k as int).to_set(),
                    id,
                ),
        decreases pairs@.len() - k,
    {
        let pair = &pairs[k];
        let ghost earlier = entries@;
        let ghost seen = ids.subrange(0, k as int);
        proof {
            assert(ids[k as int] == pair@);
            assert(ids.subrange(0, k + 1) =~= seen.push(pair@));
            lemma_push_inserts(seen, pair@);
            if seen.to_set().contains(pair@) {
                let j = choose|j: int| 0 <= j < seen.len() && seen[j] == pair@;
                assert(ids[j] == ids[k as int]);
            }
            lemma_count_of_entry(earlier, pair@);
            assert(count_in(earlier, pair@) == merged_count(
                count_in(before, pair@),
                seen.to_set(),
                pair@,
            ));
        }
        let copy = VariantIdentity::new(
            copy_bytes(pair.gene.as_slice()),
            copy_bytes(pair.protein_change.as_slice()),
        );
        match position(&entries, pair) {
            Some(p) => {
                let count: usize = entries[p].count;
                entries.set(p, CountEntry { identity: copy, count: count + 1 });
                proof {
                    assert(entry_identities(entries@) =~= entry_identities(earlier));
                    assert forall|id: Identity|
                        count_in(entries@, id) == merged_count(
                            #[trigger] count_in(before, id),
                            ids.subrange(0, k + 1).to_set(),
                            id,
                        ) by {
                        lemma_count_of_entry(earlier, id);
                        lemma_count_of_entry(entries@, id);
                        if id == pair@ {
                            assert(earlier[p as int].identity@ == id);
                            assert(entries@[p as int].identity@ == id);
                        } else if holds(earlier, id) {
                            let w = entry_of(earlier, id);
                            assert(entries@[w] == earlier[w]);
                            assert(entries@[w].identity@ == id);
                        } else if holds(entries@, id) {
                            let w = entry_of(entries@, id);
                            assert(earlier[w].identity@ == entry_identities(earlier)[w]);
                            assert(entry_identities(entries@)[w] == id);
                        }
                    }
                }
            },
            None => {
                entries.push(CountEntry { identity: copy, count: 1 });
                proof {
                    assert(entry_identities(entries@) =~= entry_identities(earlier).push(pair@));
                    assert forall|i: int| 0 <= i < earlier.len() implies entry_identities(
                        earlier,
                    )[i] != pair@ by {
                        assert(earlier[i].identity@ != pair@);
                    }
                    assert forall|id: Identity|
                        count_in(entries@, id) == merged_count(
                            #[trigger] count_in(before, id),
                            ids.subrange(0, k + 1).to_set(),
                            id,
                        ) by {
                        lemma_count_of_entry(earlier, id);
                        lemma_count_of_entry(entries@, id);
                        if id == pair@ {
                            assert(entries@[earlier.len() as int].identity@ == id);
                        } else if holds(earlier, id) {
                            let w = entry_of(earlier, id);
                            assert(entries@[w] == earlier[w]);
                            assert(entries@[w].identity@ == id);
                        } else if holds(entries@, id) {
                            let w = entry_of(entries@, id);
                            if w < earlier.len() {
                                assert(entries@[w] == earlier[w]);
                                assert(earlier[w].identity@ == id);
                            }
                        }
                    }
                }
            },
        }
        k += 1;
    }
    proof {
        assert(ids.subrange(0, k as int) =~= ids);
    }
    table.samples = n + 1;
    table.entries = entries;
}

/// The identities of each sample, in the order of the samples.
pub open spec fn sample_sets(samples: Seq<SamplePairSet>) -> Seq<Set<Identity>> {
    Seq::new(samples.len(), |i: int| samples[i]@)
}

/// The number of samples that hold the identity.
pub open spec fn holders(samples: Seq<Set<Identity>>, id: Identity) -> nat
    decreases samples.len(),
{
    if samples.len() == 0 {
        0
    } else {
        merged_count(holders(samples.drop_last(), id), samples.last(), id)
    }
}

/// No identity has more holders than there are samples.
pub proof fn lemma_holders_bounded(samples: Seq<Set<Identity>>, id: Identity)
    ensures
        0 <= holders(samples, id) <= samples.len(),
    decreases samples.len(),
{
    if samples.len() > 0 {
        lemma_holders_bounded(samples.drop_last(), id);
    }
}

/// Merges all samples of a run into one table: it gives each identity the
/// number of samples that hold it.
pub fn aggregate_samples(samples: Vec<SamplePairSet>) -> (table: GlobalCountTable)
    ensures
        table.samples() == samples@.len(),
        forall|id: Identity| #[trigger] table.count(id) == holders(sample_sets(samples@), id),
{
    let ghost all = sample_sets(samples@);
    let total: usize = samples.len();
    let mut rest = samples;
    let mut table = GlobalCountTable::new();
    while rest.len() > 0
        invariant
            table.samples() + rest@.len() == all.len(),
            all.len() == total,
            forall|id: Identity| #[trigger]
                table.count(id) + holders(sample_sets(rest@), id) == holders(all, id),
        decreases rest@.len(),
    {
        let ghost open_samples = sample_sets(rest@);
        let ghost counted = table;
        let sample = match rest.pop() {
            Some(s) => s,
            None => SamplePairSet::new(),
        };
        let ghost held = sample@;
        proof {
            assert(sample_sets(rest@) =~= open_samples.drop_last());
            assert(open_samples.last() == held);
        }
        update_global_variants(&mut table, sample);
        proof {
            assert forall|id: Identity| #[trigger]
                table.count(id) + holders(sample_sets(rest@), id) == holders(all, id) by {
                assert(counted.count(id) + holders(open_samples, id) == holders(all, id));
            }
        }
    }
    proof {
        assert forall|id: Identity| #[trigger] table.count(id) == holders(all, id) by {
            assert(table.count(id) + holders(sample_sets(rest@), id) == holders(all, id));
        }
    }
    table
}

} // verus!
