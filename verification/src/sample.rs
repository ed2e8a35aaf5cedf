use vstd::prelude::*;
use crate::annotation::{
    byte_strings, extract_canonical_transcript, extraction_matches, is_canonical, read_fields,
    select, Reading, ALTERNATE_FIELD, GENE_FIELD, PROTEIN_FIELD,
};
use crate::bytes::bytes_equal;
use crate::error::Error;

verus! {

/// A gene and a protein change, as byte strings.
pub type Identity = (Seq<u8>, Seq<u8>);

/// The identity of a variant: the gene it affects and the protein change it
/// causes. Two identities are the same if both byte strings are.
#[derive(Clone, Debug, PartialEq, Eq, Hash)]
pub struct VariantIdentity {
    pub gene: Vec<u8>,
    pub protein_change: Vec<u8>,
}

impl View for VariantIdentity {
    type V = Identity;

    open spec fn view(&self) -> Identity {
        (self.gene@, self.protein_change@)
    }
}

impl VariantIdentity {
    /// An identity of the two byte strings.
    pub fn new(gene: Vec<u8>, protein_change: Vec<u8>) -> (identity: VariantIdentity)
        ensures
            identity@ == (gene@, protein_change@),
    {
        VariantIdentity { gene, protein_change }
    }

    /// Whether both identities name the same gene and protein change.
    pub fn same_as(&self, other: &VariantIdentity) -> (same: bool)
        ensures
            same == (self@ == other@),
    {
        bytes_equal(self.gene.as_slice(), other.gene.as_slice()) && bytes_equal(
            self.protein_change.as_slice(),
            other.protein_change.as_slice(),
        )
    }
}

/// The identities that a vector holds, in its order.
pub open spec fn identities(v: Seq<VariantIdentity>) -> Seq<Identity> {
    Seq::new(v.len(), |i: int| v[i]@)
}

/// The entries of a record's annotation field; none where it is absent.
pub open spec fn record_entries(record: Option<Vec<Vec<u8>>>) -> Seq<Seq<u8>> {
    match record {
        Some(transcripts) => byte_strings(transcripts@),
        None => Seq::empty(),
    }
}

/// The identity that a selection gives: one where the canonical entry has
/// both a gene and a protein change.
pub open spec fn identity_of(reading: Reading) -> Option<Identity> {
    match reading {
        Reading::Canonical { gene, protein_change: Some(change) } => Some((gene, change)),
        _ => None,
    }
}

/// A canonical entry that names a gene and has an empty protein notation is
/// read without failure and gives no identity.
pub proof fn lemma_empty_notation_suppressed(fields: Seq<Seq<u8>>)
    requires
        fields.len() > ALTERNATE_FIELD,
        is_canonical(fields),
        fields[GENE_FIELD as int].len() > 0,
        fields[PROTEIN_FIELD as int].len() == 0,
    ensures
        read_fields(fields) == (Reading::Canonical {
            gene: fields[GENE_FIELD as int],
            protein_change: None,
        }),
        identity_of(read_fields(fields)) is None,
{
}

/// The identity that a record contributes, if any.
pub open spec fn record_identity(record: Option<Vec<Vec<u8>>>) -> Option<Identity> {
    identity_of(select(record_entries(record)))
}

/// Whether the selection of a record meets a malformed entry.
pub open spec fn record_malformed(record: Option<Vec<Vec<u8>>>) -> bool {
    select(record_entries(record)) is Malformed
}

/// Whether one of the first `n` records is malformed.
pub open spec fn malformed_within(records: Seq<Option<Vec<Vec<u8>>>>, n: int) -> bool {
    exists|i: int| 0 <= i < n && i < records.len() && record_malformed(#[trigger] records[i])
}

/// The identities that the first `n` records contribute.
pub open spec fn identities_within(records: Seq<Option<Vec<Vec<u8>>>>, n: int) -> Set<Identity> {
    Set::new(
        |id: Identity|
            exists|i: int|
                0 <= i < n && i < records.len() && record_identity(#[trigger] records[i]) == Some(
                    id,
                ),
    )
}

/// Whether a sample holds a malformed record.
pub open spec fn sample_malformed(records: Seq<Option<Vec<Vec<u8>>>>) -> bool {
    malformed_within(records, records.len() as int)
}

/// The identities of a sample: each one that any of its records contributes.
pub open spec fn sample_identities(records: Seq<Option<Vec<Vec<u8>>>>) -> Set<Identity> {
    identities_within(records, records.len() as int)
}

/// Pushing an item on a sequence inserts it into the set of its items.
pub proof fn lemma_push_inserts(s: Seq<Identity>, id: Identity)
    ensures
        s.push(id).to_set() == s.to_set().insert(id),
{
    assert forall|a: Identity| s.push(id).to_set().contains(a) <==> s.to_set().insert(id).contains(
        a,
    ) by {
        if s.push(id).contains(a) {
            let i = choose|i: int| 0 <= i < s.push(id).len() && s.push(id)[i] == a;
            if i < s.len() {
                assert(s[i] == a);
            }
        }
        if s.contains(a) {
            let i = choose|i: int| 0 <= i < s.len() && s[i] == a;
            assert(s.push(id)[i] == a);
        }
        if a == id {
            assert(s.push(id)[s.len() as int] == a);
        }
    }
    assert(s.push(id).to_set() =~= s.to_set().insert(id));
}

/// The identities seen in one sample, each held once.
pub struct SamplePairSet {
    pairs: Vec<VariantIdentity>,
}

impl SamplePairSet {
    #[verifier::type_invariant]
    spec fn held_once(self) -> bool {
        identities(self.pairs@).no_duplicates()
    }

    /// The identities in the set.
    pub closed spec fn view(&self) -> Set<Identity> {
        identities(self.pairs@).to_set()
    }

    /// The empty set.
    pub fn new() -> (set: SamplePairSet)
        ensures
            set@ == Set::<Identity>::empty(),
    {
        let set = SamplePairSet { pairs: Vec::new() };
        proof {
            assert(identities(set.pairs@).to_set() =~= Set::<Identity>::empty());
        }
        set
    }

    /// Whether the set holds the identity.
    pub fn contains(&self, identity: &VariantIdentity) -> (held: bool)
        ensures
            held == self@.contains(identity@),
    {
        let mut i: usize = 0;
        while i < self.pairs.len()
            invariant
                i <= self.pairs@.len(),
                forall|j: int| 0 <= j < i ==> identities(self.pairs@)[j] != identity@,
            decreases self.pairs@.len() - i,
        {
            if self.pairs[i].same_as(identity) {
                proof {
                    assert(identities(self.pairs@)[i as int] == identity@);
                }
                return true;
            }
            i += 1;
        }
        false
    }

    /// Puts the identity into the set, and tells whether it was new.
    pub fn insert(&mut self, identity: VariantIdentity) -> (added: bool)
        ensures
            final(self)@ == old(self)@.insert(identity@),
            added == !old(self)@.contains(identity@),
    {
        proof {
            use_type_invariant(&*self);
        }
        if self.contains(&identity) {
            proof {
                assert(self@.insert(identity@) =~= self@);
            }
            return false;
        }
        let mut pairs: Vec<VariantIdentity> = Vec::new();
        std::mem::swap(&mut pairs, &mut self.pairs);
        let ghost before = identities(pairs@);
        pairs.push(identity);
        proof {
            assert(identities(pairs@) =~= before.push(identity@));
            lemma_push_inserts(before, identity@);
            assert(!before.contains(identity@));
        }
        self.pairs = pairs;
        true
    }

    /// The number of identities in the set.
    pub fn len(&self) -> (n: usize)
        ensures
            self@.finite(),
            n == self@.len(),
    {
        proof {
            use_type_invariant(&*self);
            identities(self.pairs@).unique_seq_to_set();
        }
        self.pairs.len()
    }

    /// The identities of the set, each once.
    pub fn pairs(&self) -> (pairs: &Vec<VariantIdentity>)
        ensures
            identities(pairs@).no_duplicates(),
            identities(pairs@).to_set() == self@,
    {
        proof {
            use_type_invariant(&*self);
        }
        &self.pairs
    }
}

/// Collects the identities of one sample from the annotation fields of its
/// records. A record without a canonical entry, or whose canonical entry has
/// no protein change, contributes nothing; one malformed record fails the
/// whole sample.
pub fn gather_bcf_variants(records: &Vec<Option<Vec<Vec<u8>>>>) -> (result: Result<
    SamplePairSet,
    Error,
>)
    ensures
        match result {
            Ok(set) => !sample_malformed(records@) && set@ == sample_identities(records@),
            Err(e) => sample_malformed(records@) && e == Error::MalformedAnnotation,
        },
{
    let mut set = SamplePairSet::new();
    let mut i: usize = 0;
    proof {
        assert(identities_within(records@, 0) =~= Set::<Identity>::empty());
    }
    while i < records.len()
        invariant
            i <= records@.len(),
            !malformed_within(records@, i as int),
            set@ == identities_within(records@, i as int),
        decreases records@.len() - i,
    {
        let extracted = match &records[i] {
            Some(transcripts) => extract_canonical_transcript(Some(transcripts)),
            None => extract_canonical_transcript(None),
        };
        let ghost reading = select(record_entries(records@[i as int]));
        proof {
            assert(extraction_matches(extracted, reading));
        }
        let ghost earlier = set@;
        match extracted {
            Err(e) => {
                proof {
                    assert(record_malformed(records@[i as int]));
                }
                return Err(e);
            },
            Ok((Some(gene), Some(change))) => {
                let identity = VariantIdentity::new(gene, change);
                proof {
                    assert(record_identity(records@[i as int]) == Some(identity@));
                }
                set.insert(identity);
                proof {
                    assert forall|id: Identity|
                        identities_within(records@, i + 1).contains(id)
                            <==> earlier.insert(identity@).contains(id) by {
                        if identities_within(records@, i + 1).contains(id) {
                            let k = choose|k: int|
                                0 <= k < i + 1 && k < records@.len() && record_identity(
                                    #[trigger] records@[k],
                                ) == Some(id);
                            if k < i {
                                assert(identities_within(records@, i as int).contains(id));
                            }
                        }
                        if earlier.contains(id) {
                            let k = choose|k: int|
                                0 <= k < i && k < records@.len() && record_identity(
                                    #[trigger] records@[k],
                                ) == Some(id);
                            assert(0 <= k < i + 1 && record_identity(records@[k]) == Some(id));
                        }
                    }
                    assert(identities_within(records@, i + 1) =~= earlier.insert(identity@));
                }
            },
            Ok(_) => {
                proof {
                    assert(record_identity(records@[i as int]) is None);
                    assert forall|id: Identity|
                        identities_within(records@, i + 1).contains(id) <==> earlier.contains(
                            id,
                        ) by {
                        if identities_within(records@, i + 1).contains(id) {
                            let k = choose|k: int|
                                0 <= k < i + 1 && k < records@.len() && record_identity(
                                    #[trigger] records@[k],
                                ) == Some(id);
                            assert(k < i);
                        }
                        if earlier.contains(id) {
                            let k = choose|k: int|
                                0 <= k < i && k < records@.len() && record_identity(
                                    #[trigger] records@[k],
                                ) == Some(id);
                            assert(0 <= k < i + 1 && record_identity(records@[k]) == Some(id));
                        }
                    }
                    assert(identities_within(records@, i + 1) =~= earlier);
                }
            },
        }
        proof {
            assert(!record_malformed(records@[i as int]));
        }
        i += 1;
    }
    Ok(set)
}

} // verus!
