use inverted_index::accumulator::{Accumulator, RawDoc};
use inverted_index::builder::{build_bin_index, check_bounded};
use inverted_index::codec::{decode_plist, encode_plist};
use inverted_index::errors::IndexError;
use inverted_index::lexicon::{DocTable, Lexicon};
use inverted_index::merge::merge_sorted_postings;
use inverted_index::pipeline::process_gzip_file;
use inverted_index::postings::Posting;
use inverted_index::query::{intersect, TermQueryProcessor};
use inverted_index::spill::{
    decode_doc_metadata, decode_lexicon, decode_spill, encode_doc_metadata, encode_lexicon,
    encode_spill, SpillCodec,
};
use inverted_index::text::split_terms;

fn doc(id: &str, tokens: &[(&str, u32)]) -> RawDoc {
    let mut total: u32 = 0;
    let mut tv: Vec<(String, u32)> = Vec::new();
    for (t, f) in tokens {
        total += *f;
        tv.push((String::from(*t), *f));
    }
    RawDoc { external_id: String::from(id), length: total, tokens: tv }
}

/// A small corpus where "developed" occurs in documents 1, 3, 5 and
/// "cool" occurs in documents 3, 5, 9.
fn sample_corpus() -> Vec<RawDoc> {
    let mut docs = Vec::new();
    docs.push(doc("d0", &[("alpha", 2)]));
    docs.push(doc("d1", &[("developed", 1), ("beta", 1)]));
    docs.push(doc("d2", &[("beta", 3)]));
    docs.push(doc("d3", &[("developed", 2), ("cool", 1)]));
    docs.push(doc("d4", &[("alpha", 1)]));
    docs.push(doc("d5", &[("developed", 1), ("cool", 2), ("beta", 1)]));
    docs.push(doc("d6", &[("gamma", 1)]));
    docs.push(doc("d7", &[("alpha", 4)]));
    docs.push(doc("d8", &[("gamma", 2)]));
    docs.push(doc("d9", &[("cool", 5)]));
    docs
}

fn build_processor(batch_size: usize) -> TermQueryProcessor {
    let docs = sample_corpus();
    let (batches, lexicon, table) = process_gzip_file(&docs, batch_size);
    let merged = merge_sorted_postings(&batches);
    assert!(check_bounded(&merged));
    let index = build_bin_index(&merged);
    TermQueryProcessor::new(index, lexicon, table).expect("artifacts must validate")
}

#[test]
fn three_docs_threshold_two_spills_two_batches() {
    let docs = vec![
        doc("a", &[("x", 1), ("y", 1)]),
        doc("b", &[("x", 2)]),
        doc("c", &[("x", 1), ("z", 3)]),
    ];
    let (batches, _lex, table) = process_gzip_file(&docs, 2);
    assert_eq!(batches.len(), 2);
    assert_eq!(table.len(), 3);
    // Batch sizes in documents: first covers docs 0 and 1, second doc 2.
    for rec in &batches[0] {
        for p in &rec.postings {
            assert!(p.doc_id < 2);
        }
    }
    for rec in &batches[1] {
        for p in &rec.postings {
            assert_eq!(p.doc_id, 2);
        }
    }
    // Token "x" occurs in both batches; the merged list crosses the
    // batch boundary with strictly increasing document ids.
    let merged = merge_sorted_postings(&batches);
    let x_rec = merged
        .iter()
        .find(|r| {
            r.postings.len() == 3
        })
        .expect("a token in all three documents");
    assert_eq!(x_rec.postings[0].doc_id, 0);
    assert_eq!(x_rec.postings[1].doc_id, 1);
    assert_eq!(x_rec.postings[2].doc_id, 2);
}

#[test]
fn merge_deduplicates_and_sorts_tokens() {
    let docs = sample_corpus();
    let (batches, _lex, _table) = process_gzip_file(&docs, 3);
    assert_eq!(batches.len(), 4);
    let merged = merge_sorted_postings(&batches);
    for w in merged.windows(2) {
        assert!(w[0].token_id < w[1].token_id);
    }
    for rec in &merged {
        assert!(!rec.postings.is_empty());
        for w in rec.postings.windows(2) {
            assert!(w[0].doc_id < w[1].doc_id);
        }
        for p in &rec.postings {
            assert!(p.freq >= 1);
        }
    }
}

#[test]
fn plist_codec_round_trips_through_directory_entry() {
    let lists = vec![
        vec![Posting { doc_id: 0, freq: 3 }],
        vec![Posting { doc_id: 1, freq: 1 }, Posting { doc_id: 4, freq: 2 }],
        vec![
            Posting { doc_id: 2, freq: 9 },
            Posting { doc_id: 3, freq: 1 },
            Posting { doc_id: 70000, freq: 65536 },
        ],
    ];
    let mut blob: Vec<u8> = Vec::new();
    let mut dirs: Vec<(usize, usize)> = Vec::new();
    for l in &lists {
        let enc = encode_plist(l);
        dirs.push((blob.len(), enc.len()));
        blob.extend_from_slice(&enc);
    }
    for (i, l) in lists.iter().enumerate() {
        let (off, len) = dirs[i];
        let back = decode_plist(&blob, off, len).expect("a written range decodes");
        assert_eq!(&back, l);
    }
}

#[test]
fn plist_codec_rejects_corrupt_ranges() {
    let list = vec![Posting { doc_id: 5, freq: 2 }];
    let enc = encode_plist(&list);
    // Truncated range.
    assert_eq!(decode_plist(&enc, 0, enc.len() - 1), Err(IndexError::CorruptArtifact));
    // Range out of bounds.
    assert_eq!(decode_plist(&enc, 4, enc.len()), Err(IndexError::CorruptArtifact));
    // Zero frequency is not a valid posting.
    let bad = encode_plist(&vec![Posting { doc_id: 5, freq: 1 }]);
    let mut tampered = bad.clone();
    tampered[4 + 8] = 0;
    assert_eq!(decode_plist(&tampered, 0, tampered.len()), Err(IndexError::CorruptArtifact));
    // Unsorted document ids are rejected.
    let two = vec![Posting { doc_id: 9, freq: 1 }, Posting { doc_id: 10, freq: 1 }];
    let enc2 = encode_plist(&two);
    let mut swapped = enc2.clone();
    // Swap the two 12-byte posting cells after the 4-byte count.
    for b in 0..12 {
        swapped.swap(4 + b, 4 + 12 + b);
    }
    assert_eq!(decode_plist(&swapped, 0, swapped.len()), Err(IndexError::CorruptArtifact));
}

#[test]
fn directory_entries_tile_the_blob() {
    let docs = sample_corpus();
    let (batches, _lex, _table) = process_gzip_file(&docs, 4);
    let merged = merge_sorted_postings(&batches);
    let index = build_bin_index(&merged);
    assert_eq!(index.directory.len(), merged.len());
    let mut expected_offset: u64 = 0;
    for (i, e) in index.directory.iter().enumerate() {
        assert_eq!(e.offset, expected_offset);
        assert!(e.length > 0);
        if i > 0 {
            let prev = &index.directory[i - 1];
            assert!(prev.token_id < e.token_id);
            assert!(prev.offset + prev.length as u64 <= e.offset);
            assert!(prev.offset < e.offset);
        }
        expected_offset += e.length as u64;
    }
    assert_eq!(expected_offset, index.blob.len() as u64);
}

#[test]
fn rebuilding_from_the_same_corpus_is_byte_identical() {
    let docs1 = sample_corpus();
    let docs2 = sample_corpus();
    let (b1, l1, t1) = process_gzip_file(&docs1, 4);
    let (b2, l2, t2) = process_gzip_file(&docs2, 4);
    let m1 = merge_sorted_postings(&b1);
    let m2 = merge_sorted_postings(&b2);
    let i1 = build_bin_index(&m1);
    let i2 = build_bin_index(&m2);
    assert_eq!(i1.blob, i2.blob);
    assert_eq!(i1.directory, i2.directory);
    assert_eq!(
        encode_lexicon(&l1, SpillCodec::Binary),
        encode_lexicon(&l2, SpillCodec::Binary)
    );
    assert_eq!(
        encode_doc_metadata(&t1, SpillCodec::Binary),
        encode_doc_metadata(&t2, SpillCodec::Binary)
    );
}

#[test]
fn unknown_term_is_nonfatal_and_conjunction_short_circuits() {
    let tqp = build_processor(4);
    let absent = String::from("zebra");
    assert_eq!(tqp.lookup_term(&absent), Err(IndexError::UnknownTerm));
    assert_eq!(tqp.postings_for_term(&absent), Err(IndexError::UnknownTerm));
    let res = tqp.conjunctive_query("developed zebra");
    assert!(res.is_empty());
}

#[test]
fn two_term_conjunction_intersects_postings() {
    let tqp = build_processor(4);
    let res = tqp.conjunctive_query("developed cool");
    assert_eq!(res, vec![3, 5]);
    // Term order does not affect the result.
    let res2 = tqp.conjunctive_query("cool developed");
    assert_eq!(res2, vec![3, 5]);
}

#[test]
fn single_term_query_matches_postings_for_term() {
    let tqp = build_processor(3);
    let term = String::from("developed");
    let postings = tqp.postings_for_term(&term).expect("term is indexed");
    let docs: Vec<usize> = postings.iter().map(|p| p.doc_id).collect();
    assert_eq!(docs, vec![1, 3, 5]);
    assert_eq!(tqp.conjunctive_query("developed"), docs);
}

#[test]
fn postings_report_term_frequencies() {
    let tqp = build_processor(4);
    let term = String::from("cool");
    let postings = tqp.postings_for_term(&term).expect("term is indexed");
    assert_eq!(postings.len(), 3);
    assert_eq!(postings[0], Posting { doc_id: 3, freq: 1 });
    assert_eq!(postings[1], Posting { doc_id: 5, freq: 2 });
    assert_eq!(postings[2], Posting { doc_id: 9, freq: 5 });
}

#[test]
fn empty_query_gives_empty_result() {
    let tqp = build_processor(4);
    assert!(tqp.conjunctive_query("").is_empty());
    assert!(tqp.conjunctive_query("   ").is_empty());
}

#[test]
fn split_terms_is_whitespace_delimited() {
    let terms = split_terms("  developed \t cool\nbeta ");
    let expect: Vec<String> =
        vec![String::from("developed"), String::from("cool"), String::from("beta")];
    assert_eq!(terms, expect);
    assert!(split_terms("").is_empty());
}

#[test]
fn intersect_is_sorted_merge_join() {
    let a = vec![1usize, 3, 5, 9];
    let b = vec![3usize, 5, 9, 11];
    assert_eq!(intersect(&a, &b), vec![3, 5, 9]);
    let empty: Vec<usize> = Vec::new();
    assert_eq!(intersect(&a, &empty), empty);
}

#[test]
fn spill_round_trips_under_both_codecs() {
    let docs = sample_corpus();
    let (batches, _lex, _table) = process_gzip_file(&docs, 4);
    for codec in [SpillCodec::Binary, SpillCodec::Readable] {
        for batch in &batches {
            let bytes = encode_spill(batch, codec);
            let back = decode_spill(&bytes, codec).expect("its bytes decode");
            assert_eq!(back.len(), batch.len());
            for (r1, r2) in back.iter().zip(batch.iter()) {
                assert_eq!(r1.token_id, r2.token_id);
                assert_eq!(r1.postings, r2.postings);
            }
        }
    }
}

#[test]
fn spill_codecs_are_distinct_and_reject_foreign_bytes() {
    let docs = sample_corpus();
    let (batches, _lex, _table) = process_gzip_file(&docs, 10);
    let bin = encode_spill(&batches[0], SpillCodec::Binary);
    let txt = encode_spill(&batches[0], SpillCodec::Readable);
    assert_ne!(bin, txt);
    assert_eq!(decode_spill(&bin, SpillCodec::Readable), Err(IndexError::CorruptArtifact));
}

#[test]
fn lexicon_and_metadata_tables_round_trip() {
    let docs = sample_corpus();
    let (_batches, lex, table) = process_gzip_file(&docs, 4);
    for codec in [SpillCodec::Binary, SpillCodec::Readable] {
        let lb = encode_lexicon(&lex, codec);
        let lex2 = decode_lexicon(&lb, codec).expect("lexicon bytes decode");
        assert_eq!(lex2.len(), lex.len());
        let dev = String::from("developed");
        assert_eq!(lex2.token_of(&dev), lex.token_of(&dev));
        let tb = encode_doc_metadata(&table, codec);
        let table2 = decode_doc_metadata(&tb, codec).expect("metadata bytes decode");
        assert_eq!(table2.len(), table.len());
        let m = table2.meta_of(5).expect("document 5 exists");
        assert_eq!(m.external_id, String::from("d5"));
        assert_eq!(m.length, 4);
    }
}

#[test]
fn corrupt_lexicon_rows_are_rejected() {
    let mut rows: Vec<(String, u32)> = Vec::new();
    rows.push((String::from("a"), 0));
    rows.push((String::from("a"), 1));
    assert!(Lexicon::from_pairs(&rows).is_err());
    let mut bad_ids: Vec<(String, u32)> = Vec::new();
    bad_ids.push((String::from("a"), 1));
    assert!(Lexicon::from_pairs(&bad_ids).is_err());
    let mut dup_ids: Vec<(String, u32)> = Vec::new();
    dup_ids.push((String::from("a"), 0));
    dup_ids.push((String::from("b"), 0));
    assert!(Lexicon::from_pairs(&dup_ids).is_err());
    let good = vec![(String::from("a"), 0), (String::from("b"), 1)];
    let lex = Lexicon::from_pairs(&good).expect("dense unique rows are a lexicon");
    assert_eq!(lex.token_of(&String::from("b")), Some(1));
    // Row order carries no meaning: ids alone bind terms to slots.
    let shuffled = vec![(String::from("b"), 1), (String::from("a"), 0)];
    let lex2 = Lexicon::from_pairs(&shuffled).expect("any row order is accepted");
    assert_eq!(lex2.token_of(&String::from("a")), Some(0));
    assert_eq!(lex2.token_of(&String::from("b")), Some(1));
}

#[test]
fn lexicon_artifact_rows_are_sorted_by_term() {
    // First-seen order is alpha, developed, beta, cool, gamma — not
    // alphabetical — so the artifact must reorder the rows by term
    // while keeping each term's id.
    let docs = sample_corpus();
    let (_batches, lex, _table) = process_gzip_file(&docs, 4);
    let bytes = encode_lexicon(&lex, SpillCodec::Readable);
    let rows: Vec<(String, u32)> =
        serde_json::from_slice(&bytes).expect("the readable artifact is a row list");
    assert_eq!(rows.len(), 5);
    for w in rows.windows(2) {
        assert!(w[0].0 < w[1].0);
    }
    for (term, id) in &rows {
        assert_eq!(lex.token_of(term), Some(*id));
    }
    // And it still decodes back to the same table.
    let back = decode_lexicon(&bytes, SpillCodec::Readable).expect("artifact decodes");
    assert_eq!(back.len(), lex.len());
    for (term, id) in &rows {
        assert_eq!(back.token_of(term), Some(*id));
    }
}

#[test]
fn accumulator_flush_clears_state_and_sorts_tokens() {
    let mut acc = Accumulator::new(2);
    let d0 = doc("x0", &[("b", 1), ("a", 2)]);
    let d1 = doc("x1", &[("a", 1), ("c", 4)]);
    acc.add_document(&d0.external_id, d0.length, &d0.tokens);
    assert!(!acc.should_flush());
    acc.add_document(&d1.external_id, d1.length, &d1.tokens);
    assert!(acc.should_flush());
    let batch = acc.flush();
    // Token ids in first-seen order: b=0, a=1, c=2; records sorted by id.
    assert_eq!(batch.len(), 3);
    assert_eq!(batch[0].token_id, 0);
    assert_eq!(batch[0].postings, vec![Posting { doc_id: 0, freq: 1 }]);
    assert_eq!(batch[1].token_id, 1);
    assert_eq!(
        batch[1].postings,
        vec![Posting { doc_id: 0, freq: 2 }, Posting { doc_id: 1, freq: 1 }]
    );
    assert_eq!(batch[2].token_id, 2);
    let second = acc.flush();
    assert!(second.is_empty());
}

#[test]
fn validator_rejects_overlapping_directories() {
    let docs = sample_corpus();
    let (batches, lex, table) = process_gzip_file(&docs, 4);
    let merged = merge_sorted_postings(&batches);
    let mut index = build_bin_index(&merged);
    // Tamper: shift the second entry into the middle of the first
    // entry's bytes, where no valid list encoding starts.
    if index.directory.len() > 1 {
        index.directory[1].offset = 1;
    }
    assert!(TermQueryProcessor::new(index, lex, table).is_err());
}

#[test]
fn error_kinds_describe_themselves() {
    assert_eq!(IndexError::CorruptArtifact.describe(), "corrupt artifact");
    assert_eq!(IndexError::UnknownTerm.describe(), "unknown term");
    assert_eq!(IndexError::CorruptArtifact, IndexError::CorruptArtifact);
    assert_ne!(IndexError::CorruptArtifact, IndexError::UnknownTerm);
}
