use vstd::prelude::*;
use crate::bytes::{bytes_equal, copy_bytes, copy_range};
use crate::error::Error;

verus! {

/// The byte `|`, which parts the sub-fields of a transcript entry.
pub const FIELD_SEPARATOR: u8 = 124;

/// The byte `:`, which parts the transcript reference from the protein change.
pub const NOTATION_SEPARATOR: u8 = 58;

/// Position of the gene symbol.
pub const GENE_FIELD: usize = 3;

/// Position of the protein notation.
pub const PROTEIN_FIELD: usize = 11;

/// Position of the canonical flag.
pub const CANONICAL_FIELD: usize = 24;

/// Position of the alternate indicator of a canonical transcript.
pub const ALTERNATE_FIELD: usize = 26;

/// The bytes of `YES`, the value of a set canonical flag.
pub open spec fn canonical_mark() -> Seq<u8> {
    seq![89u8, 69u8, 83u8]
}

/// The pieces of `s` between the occurrences of `separator`, in order. There
/// is one piece more than there are separators, so an empty string has one
/// empty piece.
pub open spec fn split(s: Seq<u8>, separator: u8) -> Seq<Seq<u8>>
    decreases s.len(),
{
    if s.len() == 0 {
        seq![Seq::<u8>::empty()]
    } else {
        let before = split(s.drop_last(), separator);
        if s.last() == separator {
            before.push(Seq::<u8>::empty())
        } else {
            before.drop_last().push(before.last().push(s.last()))
        }
    }
}

/// How often `separator` occurs in `s`.
pub open spec fn occurrences(s: Seq<u8>, separator: u8) -> nat
    decreases s.len(),
{
    if s.len() == 0 {
        0
    } else {
        occurrences(s.drop_last(), separator) + if s.last() == separator {
            1nat
        } else {
            0nat
        }
    }
}

/// The pieces put together again, with `separator` between neighbours.
pub open spec fn joined(pieces: Seq<Seq<u8>>, separator: u8) -> Seq<u8>
    decreases pieces.len(),
{
    if pieces.len() == 0 {
        Seq::empty()
    } else if pieces.len() == 1 {
        pieces[0]
    } else {
        joined(pieces.drop_last(), separator).push(separator) + pieces.last()
    }
}

/// Splitting loses nothing: the pieces of a string, joined, are the string.
pub proof fn lemma_split_joins(s: Seq<u8>, separator: u8)
    ensures
        split(s, separator).len() >= 1,
        joined(split(s, separator), separator) == s,
    decreases s.len(),
{
    if s.len() == 0 {
        assert(joined(split(s, separator), separator) =~= s);
    } else {
        let before = split(s.drop_last(), separator);
        let after = split(s, separator);
        lemma_split_joins(s.drop_last(), separator);
        assert(s =~= s.drop_last().push(s.last()));
        if s.last() == separator {
            assert(after.drop_last() =~= before);
            assert(joined(after, separator) =~= joined(before, separator).push(separator));
        } else if before.len() == 1 {
            assert(joined(after, separator) =~= before[0].push(s.last()));
        } else {
            assert(after.drop_last() =~= before.drop_last());
            assert(joined(after, separator) =~= joined(before, separator).push(s.last()));
        }
    }
}

/// Where the piece after the last `separator` starts: 0 if there is none.
pub open spec fn last_piece_start(s: Seq<u8>, separator: u8) -> int
    decreases s.len(),
{
    if s.len() == 0 {
        0
    } else if s.last() == separator {
        s.len() as int
    } else {
        last_piece_start(s.drop_last(), separator)
    }
}

/// What follows the last `separator` in `s`; all of `s` if there is none.
pub open spec fn last_piece(s: Seq<u8>, separator: u8) -> Seq<u8> {
    s.subrange(last_piece_start(s, separator), s.len() as int)
}

/// A split has one piece more than the string has separators, and no piece
/// holds the separator.
pub proof fn lemma_split_pieces(s: Seq<u8>, separator: u8)
    ensures
        split(s, separator).len() == occurrences(s, separator) + 1,
        forall|k: int, j: int|
            #![trigger split(s, separator)[k][j]]
            0 <= k < split(s, separator).len() && 0 <= j < split(s, separator)[k].len()
                ==> split(s, separator)[k][j] != separator,
    decreases s.len(),
{
    if s.len() > 0 {
        lemma_split_pieces(s.drop_last(), separator);
    }
}

/// The start of the last piece lies in the string, follows a separator unless
/// it is 0, and no separator comes after it.
pub proof fn lemma_last_piece_start(s: Seq<u8>, separator: u8)
    ensures
        0 <= last_piece_start(s, separator) <= s.len(),
        last_piece_start(s, separator) > 0 ==> s[last_piece_start(s, separator) - 1] == separator,
        forall|j: int| last_piece_start(s, separator) <= j < s.len() ==> s[j] != separator,
    decreases s.len(),
{
    if s.len() > 0 && s.last() != separator {
        lemma_last_piece_start(s.drop_last(), separator);
        assert forall|j: int| last_piece_start(s, separator) <= j < s.len() implies s[j]
            != separator by {
            if j < s.len() - 1 {
                assert(s.drop_last()[j] == s[j]);
            }
        }
    }
}

/// A position that follows a separator, or is 0, and has no separator after
/// it is the start of the last piece.
pub proof fn lemma_last_piece_start_unique(s: Seq<u8>, separator: u8, start: int)
    requires
        0 <= start <= s.len(),
        start > 0 ==> s[start - 1] == separator,
        forall|j: int| start <= j < s.len() ==> s[j] != separator,
    ensures
        last_piece_start(s, separator) == start,
    decreases s.len(),
{
    if s.len() > 0 && s.last() != separator {
        assert(start < s.len());
        assert forall|j: int| start <= j < s.drop_last().len() implies s.drop_last()[j]
            != separator by {
            assert(s.drop_last()[j] == s[j]);
        }
        lemma_last_piece_start_unique(s.drop_last(), separator, start);
    }
}

/// The last piece of a split is what follows the last separator.
pub proof fn lemma_split_last(s: Seq<u8>, separator: u8)
    ensures
        split(s, separator).len() >= 1,
        split(s, separator).last() == last_piece(s, separator),
    decreases s.len(),
{
    if s.len() == 0 {
        assert(last_piece(s, separator) =~= Seq::<u8>::empty());
    } else {
        lemma_split_last(s.drop_last(), separator);
        lemma_last_piece_start(s.drop_last(), separator);
        if s.last() == separator {
            assert(last_piece(s, separator) =~= Seq::<u8>::empty());
        } else {
            assert(last_piece(s, separator) =~= last_piece(s.drop_last(), separator).push(
                s.last(),
            ));
        }
    }
}

/// The byte strings that a vector of byte vectors holds.
pub open spec fn byte_strings(v: Seq<Vec<u8>>) -> Seq<Seq<u8>> {
    Seq::new(v.len(), |i: int| v[i]@)
}

/// What a lookup of the sub-field at `position` hands out: the sub-field, or
/// the failure where the entry has no such position.
pub open spec fn lookup_matches(
    fields: Seq<Seq<u8>>,
    position: int,
    found: Result<&Vec<u8>, Error>,
) -> bool {
    if 0 <= position < fields.len() {
        match found {
            Ok(f) => f@ == fields[position],
            Err(_) => false,
        }
    } else {
        found == Err::<&Vec<u8>, Error>(Error::MalformedAnnotation)
    }
}

/// One transcript's annotation, parted into its sub-fields.
pub struct TranscriptEntry {
    pub fields: Vec<Vec<u8>>,
}

impl View for TranscriptEntry {
    type V = Seq<Seq<u8>>;

    open spec fn view(&self) -> Seq<Seq<u8>> {
        byte_strings(self.fields@)
    }
}

/// What one transcript entry means for the selection.
pub enum Reading {
    /// The entry is complete and not canonical.
    NotCanonical,
    /// The entry lacks a sub-field, or is canonical and names no gene.
    Malformed,
    /// The entry is canonical.
    Canonical { gene: Seq<u8>, protein_change: Option<Seq<u8>> },
}

/// A complete entry is canonical if its flag is `YES` or its alternate
/// indicator is not empty.
pub open spec fn is_canonical(fields: Seq<Seq<u8>>) -> bool {
    fields[CANONICAL_FIELD as int] == canonical_mark() || fields[ALTERNATE_FIELD as int].len() > 0
}

/// The protein change of a protein notation: nothing if the notation is
/// empty, else what follows its last colon.
pub open spec fn protein_change_of(notation: Seq<u8>) -> Option<Seq<u8>> {
    if notation.len() == 0 {
        None
    } else {
        Some(last_piece(notation, NOTATION_SEPARATOR))
    }
}

/// The reading of sub-fields.
pub open spec fn read_fields(fields: Seq<Seq<u8>>) -> Reading {
    if fields.len() <= ALTERNATE_FIELD {
        Reading::Malformed
    } else if !is_canonical(fields) {
        Reading::NotCanonical
    } else if fields[GENE_FIELD as int].len() == 0 {
        Reading::Malformed
    } else {
        Reading::Canonical {
            gene: fields[GENE_FIELD as int],
            protein_change: protein_change_of(fields[PROTEIN_FIELD as int]),
        }
    }
}

/// An entry without the alternate indicator is malformed, whatever its other
/// sub-fields hold.
pub proof fn lemma_short_entry_malformed(fields: Seq<Seq<u8>>)
    requires
        fields.len() <= ALTERNATE_FIELD,
    ensures
        read_fields(fields) is Malformed,
{
}

/// The reading of a raw transcript entry.
pub open spec fn read_entry(raw: Seq<u8>) -> Reading {
    read_fields(split(raw, FIELD_SEPARATOR))
}

/// The reading of the first entry, from position `from` on, that is not a
/// complete entry without canonical status; `NotCanonical` if there is none.
pub open spec fn select_from(entries: Seq<Seq<u8>>, from: int) -> Reading
    decreases entries.len() - from,
{
    if from < 0 || from >= entries.len() {
        Reading::NotCanonical
    } else if read_entry(entries[from]) is NotCanonical {
        select_from(entries, from + 1)
    } else {
        read_entry(entries[from])
    }
}

/// The canonical selection of an annotation field.
pub open spec fn select(entries: Seq<Seq<u8>>) -> Reading {
    select_from(entries, 0)
}

/// The entries of an annotation field; none where the field is absent.
pub open spec fn entries_of(ann: Option<&Vec<Vec<u8>>>) -> Seq<Seq<u8>> {
    match ann {
        Some(transcripts) => byte_strings(transcripts@),
        None => Seq::empty(),
    }
}

/// What a selection hands out: the gene and the protein change of the
/// canonical entry, or the failure.
pub open spec fn extraction_matches(
    result: Result<(Option<Vec<u8>>, Option<Vec<u8>>), Error>,
    reading: Reading,
) -> bool {
    match reading {
        Reading::Malformed => result == Err::<(Option<Vec<u8>>, Option<Vec<u8>>), Error>(
            Error::MalformedAnnotation,
        ),
        Reading::NotCanonical => result matches Ok((None, None)),
        Reading::Canonical { gene, protein_change } => match result {
            Ok((Some(g), p)) => g@ == gene && match protein_change {
                Some(change) => p matches Some(c) && c@ == change,
                None => p is None,
            },
            _ => false,
        },
    }
}

/// Order decides: the first entry that is not a complete entry without
/// canonical status gives the selection, whichever of the two marks it
/// carries and whatever stands behind it.
pub proof fn lemma_first_match_wins(entries: Seq<Seq<u8>>, first: int)
    requires
        0 <= first < entries.len(),
        forall|j: int| 0 <= j < first ==> read_entry(#[trigger] entries[j]) is NotCanonical,
        !(read_entry(entries[first]) is NotCanonical),
    ensures
        select(entries) == read_entry(entries[first]),
{
    lemma_select_skips(entries, 0, first);
}

/// Entries without canonical status select nothing.
pub proof fn lemma_none_canonical(entries: Seq<Seq<u8>>)
    requires
        forall|j: int| 0 <= j < entries.len() ==> read_entry(#[trigger] entries[j]) is NotCanonical,
    ensures
        select(entries) is NotCanonical,
{
    lemma_select_skips(entries, 0, entries.len() as int);
}

/// The selection passes over complete entries without canonical status.
pub proof fn lemma_select_skips(entries: Seq<Seq<u8>>, from: int, to: int)
    requires
        0 <= from <= to <= entries.len(),
        forall|j: int| from <= j < to ==> read_entry(#[trigger] entries[j]) is NotCanonical,
    ensures
        select_from(entries, from) == select_from(entries, to),
    decreases to - from,
{
    if from < to {
        lemma_select_skips(entries, from + 1, to);
    }
}

/// Parts `raw` at each `separator`.
pub fn split_bytes(raw: &[u8], separator: u8) -> (pieces: Vec<Vec<u8>>)
    ensures
        byte_strings(pieces@) == split(raw@, separator),
{
    let mut pieces: Vec<Vec<u8>> = Vec::new();
    let mut current: Vec<u8> = Vec::new();
    let mut i: usize = 0;
    proof {
        assert(raw@.subrange(0, 0) =~= Seq::<u8>::empty());
        assert(byte_strings(pieces@).push(current@) =~= seq![Seq::<u8>::empty()]);
    }
    while i < raw.len()
        invariant
            i <= raw@.len(),
            split(raw@.subrange(0, i as int), separator) == byte_strings(pieces@).push(current@),
        decreases raw@.len() - i,
    {
        let byte: u8 = raw[i];
        let ghost done = byte_strings(pieces@);
        let ghost open_piece = current@;
        proof {
            assert(raw@.subrange(0, i + 1).drop_last() =~= raw@.subrange(0, i as int));
            assert(raw@.subrange(0, i + 1).last() == byte);
            assert(done.push(open_piece).drop_last() =~= done);
        }
        if byte == separator {
            pieces.push(current);
            current = Vec::new();
            proof {
                assert(byte_strings(pieces@) =~= done.push(open_piece));
            }
        } else {
            current.push(byte);
        }
        i += 1;
    }
    proof {
        assert(raw@.subrange(0, i as int) =~= raw@);
    }
    let ghost done = byte_strings(pieces@);
    pieces.push(current);
    proof {
        assert(byte_strings(pieces@) =~= done.push(current@));
    }
    pieces
}

/// Copies what follows the last `separator` in `raw`, or all of `raw` if it
/// holds none.
pub fn last_piece_of(raw: &[u8], separator: u8) -> (piece: Vec<u8>)
    ensures
        piece@ == last_piece(raw@, separator),
        piece@ == split(raw@, separator).last(),
{
    let mut start: usize = raw.len();
    while start > 0 && raw[start - 1] != separator
        invariant
            start <= raw@.len(),
            forall|j: int| start <= j < raw@.len() ==> raw@[j] != separator,
        decreases start,
    {
        start -= 1;
    }
    proof {
        lemma_last_piece_start_unique(raw@, separator, start as int);
        lemma_split_last(raw@, separator);
    }
    copy_range(raw, start, raw.len())
}

impl TranscriptEntry {
    /// Parts a raw transcript entry into its sub-fields.
    pub fn parse(raw: &[u8]) -> (entry: TranscriptEntry)
        ensures
            entry@ == split(raw@, FIELD_SEPARATOR),
    {
        TranscriptEntry { fields: split_bytes(raw, FIELD_SEPARATOR) }
    }

    /// The sub-field at `position`, or the failure if the entry is too short.
    pub fn field(&self, position: usize) -> (found: Result<&Vec<u8>, Error>)
        ensures
            lookup_matches(self@, position as int, found),
    {
        if position < self.fields.len() {
            Ok(&self.fields[position])
        } else {
            Err(Error::MalformedAnnotation)
        }
    }

    /// The gene symbol.
    pub fn gene(&self) -> (found: Result<&Vec<u8>, Error>)
        ensures
            lookup_matches(self@, GENE_FIELD as int, found),
    {
        self.field(GENE_FIELD)
    }

    /// The protein notation, with its transcript reference.
    pub fn protein_notation(&self) -> (found: Result<&Vec<u8>, Error>)
        ensures
            lookup_matches(self@, PROTEIN_FIELD as int, found),
    {
        self.field(PROTEIN_FIELD)
    }

    /// The canonical flag.
    pub fn canonical_flag(&self) -> (found: Result<&Vec<u8>, Error>)
        ensures
            lookup_matches(self@, CANONICAL_FIELD as int, found),
    {
        self.field(CANONICAL_FIELD)
    }

    /// The alternate indicator of a canonical transcript.
    pub fn alternate_flag(&self) -> (found: Result<&Vec<u8>, Error>)
        ensures
            lookup_matches(self@, ALTERNATE_FIELD as int, found),
    {
        self.field(ALTERNATE_FIELD)
    }

    /// Whether the entry is canonical; the failure if it lacks a sub-field up
    /// to the alternate indicator.
    pub fn canonical(&self) -> (found: Result<bool, Error>)
        ensures
            self@.len() > ALTERNATE_FIELD ==> found == Ok::<bool, Error>(is_canonical(self@)),
            self@.len() <= ALTERNATE_FIELD ==> found == Err::<bool, Error>(
                Error::MalformedAnnotation,
            ),
    {
        let alternate = match self.alternate_flag() {
            Ok(f) => f,
            Err(e) => {
                return Err(e);
            },
        };
        let flag = match self.canonical_flag() {
            Ok(f) => f,
            Err(e) => {
                return Err(e);
            },
        };
        let mark: [u8; 3] = [89u8, 69u8, 83u8];
        proof {
            assert(mark@ =~= canonical_mark());
        }
        let flagged = bytes_equal(flag.as_slice(), mark.as_slice());
        Ok(flagged || alternate.len() > 0)
    }
}

/// Copies the protein change out of a protein notation.
pub fn protein_change(notation: &[u8]) -> (change: Option<Vec<u8>>)
    ensures
        match protein_change_of(notation@) {
            Some(c) => change matches Some(v) && v@ == c,
            None => change is None,
        },
{
    if notation.len() == 0 {
        None
    } else {
        Some(last_piece_of(notation, NOTATION_SEPARATOR))
    }
}

/// Selects the canonical transcript of a record's annotation field and hands
/// out its gene and protein change. An absent field, or one without a
/// canonical entry, gives neither; a canonical entry with an empty protein
/// notation gives the gene alone.
pub fn extract_canonical_transcript(ann: Option<&Vec<Vec<u8>>>) -> (result: Result<
    (Option<Vec<u8>>, Option<Vec<u8>>),
    Error,
>)
    ensures
        extraction_matches(result, select(entries_of(ann))),
{
    let transcripts = match ann {
        Some(t) => t,
        None => {
            return Ok((None, None));
        },
    };
    let mut i: usize = 0;
    while i < transcripts.len()
        invariant
            i <= transcripts@.len(),
            entries_of(ann) == byte_strings(transcripts@),
            select(entries_of(ann)) == select_from(entries_of(ann), i as int),
        decreases transcripts@.len() - i,
    {
        let entry = TranscriptEntry::parse(transcripts[i].as_slice());
        proof {
            assert(entries_of(ann)[i as int] == transcripts@[i as int]@);
        }
        let chosen = match entry.canonical() {
            Ok(c) => c,
            Err(e) => {
                return Err(e);
            },
        };
        if chosen {
            let gene = match entry.gene() {
                Ok(g) => g,
                Err(e) => {
                    return Err(e);
                },
            };
            if gene.len() == 0 {
                return Err(Error::MalformedAnnotation);
            }
            let notation = match entry.protein_notation() {
                Ok(n) => n,
                Err(e) => {
                    return Err(e);
                },
            };
            let change = protein_change(notation.as_slice());
            return Ok((Some(copy_bytes(gene.as_slice())), change));
        }
        i += 1;
    }
    Ok((None, None))
}

} // verus!
