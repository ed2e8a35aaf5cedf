use ubiquitous_variant_identifier::annotation::{
    extract_canonical_transcript, last_piece_of, protein_change, split_bytes, TranscriptEntry,
};
use ubiquitous_variant_identifier::bytes::{bytes_equal, copy_bytes, copy_range};
use ubiquitous_variant_identifier::error::Error;

fn transcript(gene: &str, notation: &str, flag: &str, alternate: &str) -> Vec<u8> {
    let mut fields: Vec<String> = vec![String::new(); 27];
    fields[0] = "A".to_string();
    fields[1] = "missense_variant".to_string();
    fields[3] = gene.to_string();
    fields[11] = notation.to_string();
    fields[24] = flag.to_string();
    fields[26] = alternate.to_string();
    fields.join("|").into_bytes()
}

fn shortened(entry: &[u8], fields: usize) -> Vec<u8> {
    let pieces: Vec<&[u8]> = entry.split(|b| *b == b'|').take(fields).collect();
    pieces.join(&b'|')
}

#[test]
fn bytes_equal_compares_contents() {
    assert!(bytes_equal(b"YES", b"YES"));
    assert!(!bytes_equal(b"YES", b"YEs"));
    assert!(!bytes_equal(b"YES", b"YE"));
    assert!(bytes_equal(b"", b""));
}

#[test]
fn copy_range_takes_the_bounds() {
    assert_eq!(copy_range(b"abcdef", 2, 4), b"cd".to_vec());
    assert_eq!(copy_range(b"abcdef", 3, 3), Vec::<u8>::new());
    assert_eq!(copy_bytes(b"abc"), b"abc".to_vec());
}

#[test]
fn split_has_one_piece_more_than_separators() {
    assert_eq!(split_bytes(b"a|bc||d", b'|'), vec![b"a".to_vec(), b"bc".to_vec(), vec![], b"d".to_vec()]);
    assert_eq!(split_bytes(b"", b'|'), vec![Vec::<u8>::new()]);
    assert_eq!(split_bytes(b"|", b'|'), vec![Vec::<u8>::new(), Vec::<u8>::new()]);
    assert_eq!(split_bytes(b"abc", b'|'), vec![b"abc".to_vec()]);
}

#[test]
fn split_agrees_with_the_slice_method() {
    let raw = transcript("TP53", "ENSP00000269305.4:p.Arg175His", "YES", "");
    let expected: Vec<Vec<u8>> = raw.split(|b| *b == b'|').map(|p| p.to_vec()).collect();
    assert_eq!(split_bytes(&raw, b'|'), expected);
    assert_eq!(expected.len(), 27);
}

#[test]
fn last_piece_follows_the_last_separator() {
    assert_eq!(last_piece_of(b"ENSP1:p.Arg175His", b':'), b"p.Arg175His".to_vec());
    assert_eq!(last_piece_of(b"a:b:c", b':'), b"c".to_vec());
    assert_eq!(last_piece_of(b"p.Arg175His", b':'), b"p.Arg175His".to_vec());
    assert_eq!(last_piece_of(b"abc:", b':'), Vec::<u8>::new());
    assert_eq!(last_piece_of(b"", b':'), Vec::<u8>::new());
}

#[test]
fn protein_change_of_empty_notation_is_absent() {
    assert_eq!(protein_change(b""), None);
    assert_eq!(protein_change(b"ENSP1:p.Gly12Asp"), Some(b"p.Gly12Asp".to_vec()));
    assert_eq!(protein_change(b"ENSP1:"), Some(Vec::new()));
}

#[test]
fn entry_names_fields_by_role() {
    let entry = TranscriptEntry::parse(&transcript("KRAS", "ENSP2:p.Gly12Asp", "YES", "1"));
    assert_eq!(entry.gene(), Ok(&b"KRAS".to_vec()));
    assert_eq!(entry.protein_notation(), Ok(&b"ENSP2:p.Gly12Asp".to_vec()));
    assert_eq!(entry.canonical_flag(), Ok(&b"YES".to_vec()));
    assert_eq!(entry.alternate_flag(), Ok(&b"1".to_vec()));
    assert_eq!(entry.field(27), Err(Error::MalformedAnnotation));
    assert_eq!(entry.canonical(), Ok(true));
}

#[test]
fn entry_canonical_by_either_mark() {
    assert_eq!(TranscriptEntry::parse(&transcript("G", "", "YES", "")).canonical(), Ok(true));
    assert_eq!(TranscriptEntry::parse(&transcript("G", "", "", "1")).canonical(), Ok(true));
    assert_eq!(TranscriptEntry::parse(&transcript("G", "", "", "")).canonical(), Ok(false));
    assert_eq!(TranscriptEntry::parse(&transcript("G", "", "yes", "")).canonical(), Ok(false));
    assert_eq!(TranscriptEntry::parse(&transcript("G", "", "YESS", "")).canonical(), Ok(false));
}

#[test]
fn short_entry_has_no_late_fields() {
    let short = shortened(&transcript("G", "N:p.X", "YES", "1"), 26);
    let entry = TranscriptEntry::parse(&short);
    assert_eq!(entry.gene(), Ok(&b"G".to_vec()));
    assert_eq!(entry.canonical_flag(), Ok(&b"YES".to_vec()));
    assert_eq!(entry.alternate_flag(), Err(Error::MalformedAnnotation));
    assert_eq!(entry.canonical(), Err(Error::MalformedAnnotation));
}

#[test]
fn absent_annotation_selects_nothing() {
    assert_eq!(extract_canonical_transcript(None), Ok((None, None)));
    assert_eq!(extract_canonical_transcript(Some(&vec![])), Ok((None, None)));
}

#[test]
fn no_canonical_entry_selects_nothing() {
    let ann = vec![transcript("TP53", "ENSP1:p.Arg175His", "", ""), transcript("KRAS", "ENSP2:p.Gly12Asp", "NO", "")];
    assert_eq!(extract_canonical_transcript(Some(&ann)), Ok((None, None)));
}

#[test]
fn canonical_flag_selects_gene_and_change() {
    let ann = vec![transcript("TP53", "ENSP00000269305.4:p.Arg175His", "YES", "")];
    assert_eq!(
        extract_canonical_transcript(Some(&ann)),
        Ok((Some(b"TP53".to_vec()), Some(b"p.Arg175His".to_vec())))
    );
}

#[test]
fn first_match_wins_over_later_flag() {
    let ann = vec![
        transcript("SKIP", "ENSP0:p.Ala1Val", "", ""),
        transcript("FIRST", "ENSP1:p.Arg2Cys", "", "MANE"),
        transcript("LATER", "ENSP2:p.Gly3Ser", "YES", ""),
    ];
    assert_eq!(
        extract_canonical_transcript(Some(&ann)),
        Ok((Some(b"FIRST".to_vec()), Some(b"p.Arg2Cys".to_vec())))
    );
}

#[test]
fn empty_protein_notation_gives_gene_alone() {
    let ann = vec![transcript("TP53", "", "YES", ""), transcript("KRAS", "ENSP2:p.Gly12Asp", "YES", "")];
    assert_eq!(extract_canonical_transcript(Some(&ann)), Ok((Some(b"TP53".to_vec()), None)));
}

#[test]
fn notation_without_colon_is_kept_whole() {
    let ann = vec![transcript("TP53", "p.Arg175His", "", "1")];
    assert_eq!(
        extract_canonical_transcript(Some(&ann)),
        Ok((Some(b"TP53".to_vec()), Some(b"p.Arg175His".to_vec())))
    );
}

#[test]
fn short_canonical_entry_is_malformed() {
    let short = shortened(&transcript("TP53", "ENSP1:p.Arg175His", "YES", ""), 26);
    assert_eq!(extract_canonical_transcript(Some(&vec![short])), Err(Error::MalformedAnnotation));
    let shorter = shortened(&transcript("TP53", "ENSP1:p.Arg175His", "YES", ""), 10);
    assert_eq!(extract_canonical_transcript(Some(&vec![shorter])), Err(Error::MalformedAnnotation));
    assert_eq!(extract_canonical_transcript(Some(&vec![Vec::new()])), Err(Error::MalformedAnnotation));
}

#[test]
fn short_entry_before_canonical_is_malformed() {
    let ann = vec![
        shortened(&transcript("A", "ENSP1:p.X", "", ""), 20),
        transcript("TP53", "ENSP1:p.Arg175His", "YES", ""),
    ];
    assert_eq!(extract_canonical_transcript(Some(&ann)), Err(Error::MalformedAnnotation));
}

#[test]
fn short_entry_after_canonical_is_not_read() {
    let ann = vec![
        transcript("TP53", "ENSP1:p.Arg175His", "YES", ""),
        shortened(&transcript("A", "ENSP1:p.X", "", ""), 20),
    ];
    assert_eq!(
        extract_canonical_transcript(Some(&ann)),
        Ok((Some(b"TP53".to_vec()), Some(b"p.Arg175His".to_vec())))
    );
}

#[test]
fn canonical_entry_without_gene_is_malformed() {
    let ann = vec![transcript("", "ENSP1:p.Arg175His", "", "1")];
    assert_eq!(extract_canonical_transcript(Some(&ann)), Err(Error::MalformedAnnotation));
}

#[test]
fn longer_entry_is_accepted() {
    let mut raw = transcript("TP53", "ENSP1:p.Arg175His", "YES", "");
    raw.extend_from_slice(b"|extra|more");
    assert_eq!(
        extract_canonical_transcript(Some(&vec![raw])),
        Ok((Some(b"TP53".to_vec()), Some(b"p.Arg175His".to_vec())))
    );
}
