use barcode_correction::annotate::annotation;
use barcode_correction::correct::{correct_barcode, correct_read, likelihood_of_errors, SCALE};
use barcode_correction::error_model::mismatch_error_score;
use barcode_correction::priors::{PriorTable, SetupError};
use barcode_correction::tables::{
    build_whitelist, parse_count, parse_count_line, parse_counts, split_bytes, trim_bytes,
    trim_end_bytes,
};
use barcode_correction::trie::Trie;

fn trie_of(words: &[&str]) -> Trie {
    let mut t = Trie::new();
    for w in words {
        t.add_word(w.as_bytes());
    }
    t
}

fn hamming(a: &[u8], b: &[u8]) -> usize {
    a.iter().zip(b.iter()).filter(|(x, y)| x != y).count()
}

fn sorted_neighbours(t: &Trie, q: &str, k: usize) -> Vec<(Vec<u8>, usize)> {
    let mut r = t.get_words_within_hamming_distance(q.as_bytes(), k);
    r.sort();
    r
}

fn priors_for(whitelist: &[&str], counts: &[(&str, usize)]) -> PriorTable {
    let wl: Vec<Vec<u8>> = whitelist.iter().map(|w| w.as_bytes().to_vec()).collect();
    let recs: Vec<(Vec<u8>, usize)> =
        counts.iter().map(|(b, c)| (b.as_bytes().to_vec(), *c)).collect();
    PriorTable::from_counts(&wl, &recs).unwrap()
}

#[test]
fn trie_contains_only_added_words() {
    let t = trie_of(&["AAAA", "AACA", "AAAA"]);
    assert!(t.contains(b"AAAA"));
    assert!(t.contains(b"AACA"));
    assert!(!t.contains(b"AAC"));
    assert!(!t.contains(b"AACAA"));
    assert!(!t.contains(b"TTTT"));
}

#[test]
fn stored_word_is_its_own_neighbour_at_every_budget() {
    let words = ["ACGT", "ACGA", "TTTT", "GGCA"];
    let t = trie_of(&words);
    for w in words.iter() {
        for k in 0..5 {
            let r = t.get_words_within_hamming_distance(w.as_bytes(), k);
            assert!(r.contains(&(w.as_bytes().to_vec(), 0)));
        }
    }
}

#[test]
fn neighbours_match_brute_force() {
    let words = ["ACGT", "ACGA", "TTTT", "GGCA", "ACTT", "NCGT", "AAAA"];
    let t = trie_of(&words);
    for q in ["ACGT", "ACGG", "TTTA", "CCCC", "NNNN", "ACG", "ACGTA"] {
        for k in 0..5 {
            let mut expected: Vec<(Vec<u8>, usize)> = words
                .iter()
                .filter(|w| w.len() == q.len() && hamming(w.as_bytes(), q.as_bytes()) <= k)
                .map(|w| (w.as_bytes().to_vec(), hamming(w.as_bytes(), q.as_bytes())))
                .collect();
            expected.sort();
            assert_eq!(sorted_neighbours(&t, q, k), expected);
        }
    }
}

#[test]
fn neighbour_order_is_deterministic() {
    let t1 = trie_of(&["AAAA", "AACA", "AAGA"]);
    let t2 = trie_of(&["AAAA", "AACA", "AAGA"]);
    let a = t1.get_words_within_hamming_distance(b"AATA", 1);
    let b = t2.get_words_within_hamming_distance(b"AATA", 1);
    assert_eq!(a, b);
    assert_eq!(a.len(), 3);
}

#[test]
fn zero_budget_gives_exact_matches_only() {
    let t = trie_of(&["AAAA", "AACA"]);
    assert_eq!(
        t.get_words_within_hamming_distance(b"AAAA", 0),
        vec![(b"AAAA".to_vec(), 0)]
    );
    assert!(t.get_words_within_hamming_distance(b"AAAT", 0).is_empty());
}

#[test]
fn zero_budget_leaves_unlisted_read_uncorrected() {
    let t = trie_of(&["AAAA", "AACA"]);
    let p = priors_for(&["AAAA", "AACA"], &[]);
    assert_eq!(correct_read(&t, &p, b"AAAT", b"IIII", 0), None);
    assert_eq!(correct_read(&t, &p, b"AACA", b"IIII", 0), Some(b"AACA".to_vec()));
}

#[test]
fn error_score_sums_phred_of_mismatches() {
    assert_eq!(mismatch_error_score(b"AAAA", b"AACA", b"IIII"), 40);
    assert_eq!(mismatch_error_score(b"ACAA", b"AACA", b"I5+I"), 20 + 10);
    assert_eq!(mismatch_error_score(b"ACGT", b"TGCA", b"!!!!"), 0);
}

#[test]
fn error_score_of_identical_strings_is_zero() {
    assert_eq!(mismatch_error_score(b"ACGTN", b"ACGTN", b"I#5+?"), 0);
    assert_eq!(likelihood_of_errors(0), (SCALE, 0));
}

#[test]
fn error_score_ignores_order_of_positions() {
    let o = b"ACGTA";
    let h = b"ACCTT";
    let p = b"I5+#?";
    let perm = [4usize, 2, 0, 3, 1];
    let po: Vec<u8> = perm.iter().map(|&i| o[i]).collect();
    let ph: Vec<u8> = perm.iter().map(|&i| h[i]).collect();
    let pp: Vec<u8> = perm.iter().map(|&i| p[i]).collect();
    assert_eq!(
        mismatch_error_score(o, h, p),
        mismatch_error_score(&po, &ph, &pp)
    );
    assert_eq!(mismatch_error_score(o, h, p), 10 + 30);
}

#[test]
fn fixed_point_likelihoods() {
    assert_eq!(likelihood_of_errors(10), (SCALE, 1));
    assert_eq!(likelihood_of_errors(3), (501187233627272285, 0));
    assert_eq!(likelihood_of_errors(13), (501187233627272285, 1));
    assert_eq!(likelihood_of_errors(190), (SCALE, 19));
    assert_eq!(likelihood_of_errors(1009), (125892541179416721, 100));
}

#[test]
fn no_candidate_is_uncorrectable() {
    let similar: Vec<Vec<u8>> = vec![];
    assert_eq!(correct_barcode(b"AAAA", b"IIII", &similar, &vec![]), None);
}

#[test]
fn single_candidate_is_taken_whatever_its_likelihood() {
    let similar = vec![b"TTTT".to_vec()];
    assert_eq!(
        correct_barcode(b"AAAA", b"IIII", &similar, &vec![1]),
        Some(b"TTTT".to_vec())
    );
    assert_eq!(
        correct_barcode(b"AAAA", b"IIII", &similar, &vec![0]),
        Some(b"TTTT".to_vec())
    );
}

#[test]
fn confident_candidate_is_chosen() {
    let similar = vec![b"AACA".to_vec(), b"AAAA".to_vec()];
    assert_eq!(
        correct_barcode(b"ACAA", b"IIII", &similar, &vec![1, 1]),
        Some(b"AAAA".to_vec())
    );
}

#[test]
fn even_candidates_are_uncorrectable() {
    let similar = vec![b"AAAA".to_vec(), b"AACA".to_vec()];
    assert_eq!(correct_barcode(b"ACAA", b"I!!I", &similar, &vec![1, 1]), None);
}

#[test]
fn prior_weight_can_decide() {
    let similar = vec![b"AAAT".to_vec(), b"AAAG".to_vec()];
    assert_eq!(correct_barcode(b"AAAC", b"IIII", &similar, &vec![1, 1]), None);
    assert_eq!(
        correct_barcode(b"AAAC", b"IIII", &similar, &vec![1, 100]),
        Some(b"AAAG".to_vec())
    );
    assert_eq!(
        correct_barcode(b"AAAC", b"IIII", &similar, &vec![0, 1]),
        Some(b"AAAG".to_vec())
    );
}

#[test]
fn threshold_is_inclusive() {
    let similar = vec![b"AAAT".to_vec(), b"AAAG".to_vec()];
    assert_eq!(
        correct_barcode(b"AAAC", b"IIII", &similar, &vec![39, 1]),
        Some(b"AAAT".to_vec())
    );
    assert_eq!(correct_barcode(b"AAAC", b"IIII", &similar, &vec![38, 1]), None);
}

#[test]
fn zero_weights_are_uncorrectable() {
    let similar = vec![b"AAAT".to_vec(), b"AAAG".to_vec()];
    assert_eq!(correct_barcode(b"AAAC", b"IIII", &similar, &vec![0, 0]), None);
}

#[test]
fn exact_match_is_accepted() {
    let t = trie_of(&["AAAA", "AACA"]);
    let p = priors_for(&["AAAA", "AACA"], &[]);
    assert_eq!(correct_read(&t, &p, b"AAAA", b"IIII", 2), Some(b"AAAA".to_vec()));
}

#[test]
fn two_candidates_with_low_quality_are_uncorrectable() {
    let t = trie_of(&["AAAA", "AACA"]);
    let p = priors_for(&["AAAA", "AACA"], &[]);
    assert_eq!(p.get(b"AAAA"), 1);
    assert_eq!(p.get(b"AACA"), 1);
    assert_eq!(t.get_words_within_hamming_distance(b"ACAA", 2).len(), 2);
    assert_eq!(correct_read(&t, &p, b"ACAA", b"I!!I", 2), None);
    assert_eq!(correct_read(&t, &p, b"ACAA", b"IIII", 2), Some(b"AAAA".to_vec()));
}

#[test]
fn single_neighbour_is_accepted() {
    let t = trie_of(&["AAAA"]);
    let p = priors_for(&["AAAA"], &[]);
    assert_eq!(correct_read(&t, &p, b"AAAT", b"IIII", 1), Some(b"AAAA".to_vec()));
    assert_eq!(correct_read(&t, &p, b"AATT", b"IIII", 1), None);
}

#[test]
fn priors_sum_counts_and_add_pseudocount() {
    let p = priors_for(
        &["AAAA", "CCCC", "GGGG"],
        &[("AAAA", 3), ("TTTT", 5), ("AAAA", 4), ("CCCC", 0)],
    );
    assert_eq!(p.get(b"AAAA"), 8);
    assert_eq!(p.get(b"CCCC"), 1);
    assert_eq!(p.get(b"GGGG"), 1);
    assert_eq!(p.get(b"TTTT"), 5);
    assert_eq!(p.get(b"NNNN"), 0);
}

#[test]
fn priors_overflow_is_an_error() {
    let wl = vec![b"AAAA".to_vec()];
    let recs = vec![(b"AAAA".to_vec(), usize::MAX)];
    assert_eq!(
        PriorTable::from_counts(&wl, &recs).err(),
        Some(SetupError::CountOverflow)
    );
    let recs = vec![(b"CCCC".to_vec(), usize::MAX), (b"CCCC".to_vec(), 1)];
    assert_eq!(
        PriorTable::from_counts(&wl, &recs).err(),
        Some(SetupError::CountOverflow)
    );
    let recs = vec![(b"CCCC".to_vec(), usize::MAX)];
    assert!(PriorTable::from_counts(&wl, &recs).is_ok());
}

#[test]
fn prior_table_add() {
    let mut p = PriorTable::new();
    assert!(p.add(&b"AC".to_vec(), 2));
    assert!(p.add(&b"AC".to_vec(), 3));
    assert_eq!(p.get(b"AC"), 5);
    assert!(!p.add(&b"AC".to_vec(), usize::MAX));
    assert_eq!(p.get(b"AC"), 5);
}

#[test]
fn whitelist_text_is_trimmed_and_deduplicated() {
    let (t, list) = build_whitelist(b"AAAA \nCCCC\r\nAAAA\nGGGG\t\n");
    assert_eq!(
        list,
        vec![b"AAAA".to_vec(), b"CCCC".to_vec(), b"GGGG".to_vec()]
    );
    assert!(t.contains(b"AAAA"));
    assert!(t.contains(b"CCCC"));
    assert!(t.contains(b"GGGG"));
    assert!(!t.contains(b"AAAA "));
}

#[test]
fn splitting_and_trimming() {
    assert_eq!(
        split_bytes(b"a\tb\t\tc", b'\t'),
        vec![b"a".to_vec(), b"b".to_vec(), b"".to_vec(), b"c".to_vec()]
    );
    assert_eq!(split_bytes(b"", b'\n'), vec![b"".to_vec()]);
    assert_eq!(trim_end_bytes(b" ab \t\r\n"), b" ab".to_vec());
    assert_eq!(trim_bytes(b" \n ab c \n"), b"ab c".to_vec());
}

#[test]
fn count_fields() {
    assert_eq!(parse_count(b"42"), Some(42));
    assert_eq!(parse_count(b"+7"), Some(7));
    assert_eq!(parse_count(b"007"), Some(7));
    assert_eq!(parse_count(b""), None);
    assert_eq!(parse_count(b"+"), None);
    assert_eq!(parse_count(b"-1"), None);
    assert_eq!(parse_count(b"4 2"), None);
    assert_eq!(parse_count(b"18446744073709551615"), Some(usize::MAX));
    assert_eq!(parse_count(b"18446744073709551616"), None);
    assert_eq!(parse_count(b"99999999999999999999x"), None);
}

#[test]
fn count_lines() {
    assert_eq!(
        parse_count_line(b"AAAA\t12"),
        Ok((b"AAAA".to_vec(), 12))
    );
    assert_eq!(
        parse_count_line(b"AAAA\t12\textra"),
        Ok((b"AAAA".to_vec(), 12))
    );
    assert_eq!(parse_count_line(b"AAAA 12"), Err(SetupError::MalformedCountLine));
    assert_eq!(parse_count_line(b"AAAA\tx"), Err(SetupError::MalformedCountLine));
}

#[test]
fn count_tables() {
    assert_eq!(
        parse_counts(b"\nAAAA\t1\nCCCC\t2\nAAAA\t3\n\n"),
        Ok(vec![
            (b"AAAA".to_vec(), 1),
            (b"CCCC".to_vec(), 2),
            (b"AAAA".to_vec(), 3)
        ])
    );
    assert_eq!(
        parse_counts(b"AAAA\t1\nCCCC\n"),
        Err(SetupError::MalformedCountLine)
    );
    assert_eq!(parse_counts(b"  \n"), Ok(vec![]));
    assert_eq!(parse_counts(b""), Ok(vec![]));
}

#[test]
fn annotations() {
    assert_eq!(
        annotation(b"ACAA", Some(b"AAAA"), b"IIII"),
        b"CR:Z:ACAA\tCB:Z:AAAA\tCY:Z:IIII".to_vec()
    );
    assert_eq!(
        annotation(b"ACAA", None, b"IIII"),
        b"CR:Z:ACAA\tCY:Z:IIII".to_vec()
    );
}

#[test]
fn prior_table_keys_that_share_prefixes() {
    let mut p = PriorTable::new();
    assert!(p.add(&b"ACGT".to_vec(), 4));
    assert_eq!(p.get(b"ACG"), 0);
    assert!(p.add(&b"ACG".to_vec(), 2));
    assert!(p.add(&b"".to_vec(), 1));
    assert_eq!(p.get(b"ACGT"), 4);
    assert_eq!(p.get(b"ACG"), 2);
    assert_eq!(p.get(b""), 1);
    assert_eq!(p.get(b"AC"), 0);
}

#[test]
fn empty_count_table_gives_pseudocounts() {
    let (_, wl) = build_whitelist(b"AAAA\nCCCC\n");
    let recs = parse_counts(b"\n").unwrap();
    let p = PriorTable::from_counts(&wl, &recs).unwrap();
    assert_eq!(p.get(b"AAAA"), 1);
    assert_eq!(p.get(b"CCCC"), 1);
    assert_eq!(p.get(b""), 0);
}

#[test]
fn blank_whitelist_lines_are_skipped() {
    let (t, list) = build_whitelist(b"\n  \nACGT\n\n");
    assert_eq!(list, vec![b"ACGT".to_vec()]);
    assert!(!t.contains(b""));
}

#[test]
fn neighbour_order_follows_insertion() {
    let t = trie_of(&["AAGA", "AAAA", "AACA", "CAAA"]);
    assert_eq!(
        t.get_words_within_hamming_distance(b"AATA", 1),
        vec![
            (b"AAGA".to_vec(), 1),
            (b"AAAA".to_vec(), 1),
            (b"AACA".to_vec(), 1)
        ]
    );
}

#[test]
fn candidate_order_does_not_change_the_choice() {
    let a = vec![b"AAAT".to_vec(), b"AAAG".to_vec(), b"AAGC".to_vec()];
    let b = vec![b"AAGC".to_vec(), b"AAAG".to_vec(), b"AAAT".to_vec()];
    assert_eq!(
        correct_barcode(b"AAAC", b"IIII", &a, &vec![1, 100, 1]),
        correct_barcode(b"AAAC", b"IIII", &b, &vec![1, 100, 1])
    );
    assert_eq!(
        correct_barcode(b"AAAC", b"IIII", &a, &vec![1, 100, 1]),
        Some(b"AAAG".to_vec())
    );
}

#[test]
fn heavy_weight_outweighs_a_poor_score() {
    let similar = vec![b"AA".to_vec(), b"TT".to_vec()];
    let qual = [128u8, 128u8];
    assert_eq!(
        correct_barcode(b"AA", &qual, &similar, &vec![1, usize::MAX]),
        None
    );
    assert_eq!(
        correct_barcode(b"AA", &qual, &similar, &vec![1, 1]),
        Some(b"AA".to_vec())
    );
    let similar = vec![b"AAAAAAAAAAAAAAAAAAAA".to_vec(), b"TTTTTTTTTTTTTTTTTTTT".to_vec()];
    let read = b"AAAAAAAAAAAAAAAAAAAA";
    let qual = [126u8; 20];
    assert_eq!(
        correct_barcode(read, &qual, &similar, &vec![0, 1]),
        Some(b"TTTTTTTTTTTTTTTTTTTT".to_vec())
    );
}

#[test]
fn third_position_quality_decides_between_near_candidates() {
    let similar = vec![b"AAAA".to_vec(), b"AACA".to_vec()];
    let mut qual = *b"IIII";
    qual[2] = 49;
    assert_eq!(
        correct_barcode(b"ACAA", &qual, &similar, &vec![1, 1]),
        Some(b"AAAA".to_vec())
    );
    qual[2] = 48;
    assert_eq!(correct_barcode(b"ACAA", &qual, &similar, &vec![1, 1]), None);
}
