use pattern_match::backend::{AhoCorasickMultipleSearch, KmpMultipleSearch, MultipleSearch};
use pattern_match::{
    find_best_atom, find_multiple_overlapping, find_one, find_overlapping, match_at, parse_ida_pattern,
    MaskedByte, ATOM_QUALITY_THRESHOLD,
};

fn pattern(text: &str) -> Vec<MaskedByte> {
    parse_ida_pattern(text)
        .unwrap()
        .into_iter()
        .map(|(b, m)| MaskedByte::new(b, m))
        .collect()
}

#[test]
fn atom_selection_all_concrete() {
    let p = [MaskedByte::full(0x77), MaskedByte::full(0x88), MaskedByte::full(0x99)];
    assert_eq!(find_best_atom(&p), Some((0, 3, 60)));
    assert!(60 >= ATOM_QUALITY_THRESHOLD);
}

#[test]
fn atom_selection_tie_keeps_first() {
    let p = [MaskedByte::full(0x77), MaskedByte::masked(), MaskedByte::full(0x99)];
    assert_eq!(find_best_atom(&p), Some((0, 1, 20)));
}

#[test]
fn atom_selection_prefers_higher_score() {
    let p = pattern("00 00 00 ?? 12 34 ?? 41 42 43");
    assert_eq!(find_best_atom(&p), Some((7, 10, 60)));
    let q = pattern("00 FF 80 7F 20 CC");
    assert_eq!(find_best_atom(&q), Some((0, 6, 12 + 12 + 15 + 15 + 15 + 15)));
}

#[test]
fn atom_selection_partial_mask_splits_runs() {
    let p = pattern("11 2? 33 44");
    assert_eq!(find_best_atom(&p), Some((2, 4, 40)));
}

#[test]
fn atom_selection_all_wildcards() {
    let p = pattern("?? ?? ??");
    assert_eq!(find_best_atom(&p), None);
}

#[test]
fn masked_byte_predicate() {
    let b = MaskedByte::new(0x80, 0xF0);
    assert!(b.match_haystack(&0x8F));
    assert!(!b.match_haystack(&0x70));
    assert!(!b.is_unmasked());
    assert!(MaskedByte::full(0x12).is_unmasked());
    assert!(MaskedByte::full(0x12).match_haystack(&0x12));
    assert!(!MaskedByte::full(0x12).match_haystack(&0x13));
    assert!(MaskedByte::masked().match_haystack(&0xAB));
}

#[test]
fn match_at_checks_bounds() {
    let p = pattern("77 8? 99");
    let h = [0x11, 0x77, 0x85, 0x99, 0x22];
    assert!(match_at(&p, &h, 1));
    assert!(!match_at(&p, &h, 0));
    assert!(!match_at(&p, &h, 3));
    assert!(!match_at(&p, &h, 9));
}

#[test]
fn single_pattern_end_to_end() {
    let p = pattern("77 8? 99");
    let h = [0x11, 0x77, 0x85, 0x99, 0x22];
    assert_eq!(find_overlapping(&p, &h), vec![1]);
}

#[test]
fn single_pattern_overlapping_matches() {
    let p = pattern("AA AA");
    let h = [0xAA, 0xAA, 0xAA, 0x00, 0xAA, 0xAA];
    assert_eq!(find_overlapping(&p, &h), vec![0, 1, 4]);
}

#[test]
fn single_pattern_atom_hits_failing_verification_are_dropped() {
    let p = pattern("11 22 ?? 4?");
    let h = [0x11, 0x22, 0x00, 0x50, 0x11, 0x22, 0x01, 0x45, 0x11, 0x22];
    assert_eq!(find_overlapping(&p, &h), vec![4]);
}

#[test]
fn atom_hit_before_pattern_start_is_dropped() {
    let p = pattern("?? 12 34 56");
    let h = [0x12, 0x34, 0x56, 0x00, 0x12, 0x34, 0x56];
    assert_eq!(find_overlapping(&p, &h), vec![3]);
    assert_eq!(find_multiple_overlapping(&[&p[..]], &h), vec![vec![3]]);
}

#[test]
fn low_quality_pattern_uses_whole_pattern_scan() {
    let p = pattern("00 ?? 00");
    let h = [0x00, 0x01, 0x00, 0x02, 0x00, 0x00];
    assert_eq!(find_overlapping(&p, &h), vec![0, 2]);
    let w = pattern("?? 02 ??");
    assert_eq!(find_overlapping(&w, &[1, 2, 3, 2, 5]), vec![0, 2]);
}

#[test]
fn empty_and_short_haystacks() {
    let p = pattern("41 42 43");
    assert_eq!(find_overlapping(&p, &[]), Vec::<usize>::new());
    assert_eq!(find_overlapping(&p, &[0x41, 0x42]), Vec::<usize>::new());
    assert_eq!(find_multiple_overlapping(&[&p[..]], &[]), vec![Vec::<usize>::new()]);
}

#[test]
fn batch_end_to_end() {
    let a = pattern("AA BB");
    let c = pattern("CC ??");
    let h = [0xAA, 0xBB, 0x00, 0xCC, 0x11, 0xCC, 0xAA, 0xBB, 0xCC];
    let r = find_multiple_overlapping(&[&a[..], &c[..]], &h);
    assert_eq!(r, vec![vec![0, 6], vec![3, 5]]);
}

#[test]
fn batch_demultiplexes_and_verifies() {
    let a = pattern("41 42 43 ?? 4?");
    let b = pattern("42 43 44");
    let c = pattern("41 42 43 44");
    let h = [0x41, 0x42, 0x43, 0x44, 0x4F, 0x41, 0x42, 0x43, 0x44, 0x50];
    let r = find_multiple_overlapping(&[&a[..], &b[..], &c[..]], &h);
    assert_eq!(r, vec![vec![0], vec![1, 6], vec![0, 5]]);
}

#[test]
fn batch_with_shared_atoms_and_overlaps() {
    let a = pattern("AA AA AA");
    let b = pattern("AA AA AA ??");
    let h = [0xAA, 0xAA, 0xAA, 0xAA, 0xAA];
    let r = find_multiple_overlapping(&[&a[..], &b[..]], &h);
    assert_eq!(r, vec![vec![0, 1, 2], vec![0, 1]]);
}

#[test]
fn batch_of_no_patterns() {
    let r = find_multiple_overlapping(&[], &[1, 2, 3]);
    assert!(r.is_empty());
}

#[test]
fn batch_agrees_with_single_searches() {
    let a = pattern("10 20 3?");
    let b = pattern("?? 20 ??");
    let h = [0x10, 0x20, 0x31, 0x10, 0x20, 0x40, 0x20, 0x3F];
    let r = find_multiple_overlapping(&[&a[..], &b[..]], &h);
    assert_eq!(r[0], find_overlapping(&a, &h));
    assert_eq!(r[1], find_overlapping(&b, &h));
    assert_eq!(r, vec![vec![0], vec![0, 3, 5]]);
}

#[test]
fn searching_twice_gives_the_same_offsets() {
    let p = pattern("AB ?? CD");
    let h = [0xAB, 0x00, 0xCD, 0xAB, 0xCD, 0xCD, 0xAB, 0xAB, 0xCD];
    let first = find_overlapping(&p, &h);
    let second = find_overlapping(&p, &h);
    assert_eq!(first, second);
    assert_eq!(first, vec![0, 3, 6]);
    let m1 = find_multiple_overlapping(&[&p[..]], &h);
    let m2 = find_multiple_overlapping(&[&p[..]], &h);
    assert_eq!(m1, m2);
    assert_eq!(m1, vec![first]);
}

#[test]
fn find_one_returns_first_match() {
    let p = pattern("11 22 ?? 4?");
    let h = [0x11, 0x22, 0x00, 0x50, 0x11, 0x22, 0x01, 0x45, 0x11, 0x22, 0x07, 0x4A];
    assert_eq!(find_one(&p, &h), Some(4));
    let q = pattern("77 8? 99");
    assert_eq!(find_one(&q, &[0x11, 0x77, 0x85, 0x99, 0x22]), Some(1));
}

#[test]
fn find_one_without_match() {
    let p = pattern("11 22 33");
    assert_eq!(find_one(&p, &[0x11, 0x22, 0x34, 0x11, 0x22]), None);
    assert_eq!(find_one(&p, &[]), None);
}

#[test]
fn find_one_skips_atom_hit_before_pattern_start() {
    let p = pattern("?? 12 34 56");
    assert_eq!(find_one(&p, &[0x12, 0x34, 0x56, 0x00, 0x12, 0x34, 0x56]), Some(3));
}

#[test]
fn find_one_low_quality_pattern() {
    let p = pattern("00 ?? 00");
    assert_eq!(find_one(&p, &[0x01, 0x00, 0x01, 0x00, 0x00]), Some(1));
    let w = pattern("?? 05 ??");
    assert_eq!(find_one(&w, &[0x05, 0x05]), None);
    assert_eq!(find_one(&w, &[0x05, 0x05, 0x05]), Some(0));
}

#[test]
fn backends_take_an_empty_list_of_strings() {
    let h = [1u8, 2, 3];
    assert!(KmpMultipleSearch.search_multiple(&h, &Vec::new()).is_empty());
    assert!(AhoCorasickMultipleSearch.search_multiple(&h, &Vec::new()).is_empty());
    let atoms = vec![vec![2u8, 3], vec![1u8]];
    assert_eq!(KmpMultipleSearch.search_multiple(&h, &atoms), vec![vec![1], vec![0]]);
    assert_eq!(AhoCorasickMultipleSearch.search_multiple(&h, &atoms), vec![vec![1], vec![0]]);
}
