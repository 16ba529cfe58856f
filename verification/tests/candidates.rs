use words_breaker::candidates::{fill_missing_at_end, stream};
use words_breaker::replacement::permutations_with_replacement;

const WL: usize = 4;

#[test]
fn no_missing_yields_one() {
    let base: Vec<u16> = vec![0, 1, 2];
    let results: Vec<Vec<u16>> = fill_missing_at_end(base, 0, WL).collect();
    assert_eq!(results.len(), 1);
    assert_eq!(results[0], vec![0, 1, 2]);
}

#[test]
fn one_missing_yields_wl() {
    let base: Vec<u16> = vec![0, 1];
    let results: Vec<Vec<u16>> = fill_missing_at_end(base, 1, WL).collect();
    assert_eq!(results.len(), WL);
    for r in &results {
        assert_eq!(r.len(), 3);
        assert_eq!(r[0], 0);
        assert_eq!(r[1], 1);
    }
}

#[test]
fn two_missing_yields_wl_squared() {
    let base: Vec<u16> = vec![5];
    let results: Vec<Vec<u16>> = fill_missing_at_end(base, 2, WL).collect();
    assert_eq!(results.len(), WL * WL);
    for r in &results {
        assert_eq!(r.len(), 3);
        assert_eq!(r[0], 5);
    }
}

#[test]
fn fillers_come_in_lexicographic_order() {
    let results = fill_missing_at_end(vec![7], 2, 2).collect();
    assert_eq!(results, vec![vec![7, 0, 0], vec![7, 0, 1], vec![7, 1, 0], vec![7, 1, 1]]);
}

#[test]
fn fillers_end_for_good() {
    let mut it = fill_missing_at_end(vec![9], 1, 2);
    assert_eq!(it.next(), Some(vec![9, 0]));
    assert_eq!(it.next(), Some(vec![9, 1]));
    assert_eq!(it.next(), None);
    assert_eq!(it.next(), None);
}

#[test]
fn no_words_no_fillings() {
    assert!(fill_missing_at_end(vec![1], 1, 0).collect().is_empty());
    assert_eq!(fill_missing_at_end(vec![1], 0, 0).collect(), vec![vec![1]]);
}

#[test]
fn every_index_of_a_list_is_a_filler() {
    let results = fill_missing_at_end(vec![], 1, 65_536).collect();
    assert_eq!(results.len(), 65_536);
    for (i, r) in results.iter().enumerate() {
        assert_eq!(r, &vec![i as u16]);
    }
    assert_eq!(fill_missing_at_end(vec![], 1, 65_535).collect().len(), 65_535);
}

#[test]
fn without_places_the_list_does_not_matter() {
    assert_eq!(fill_missing_at_end(vec![8], 0, usize::MAX).collect(), vec![vec![8]]);
    assert_eq!(stream(vec![4; 12], usize::MAX).next(), Some([4; 12]));
}

#[test]
fn a_stream_reaches_the_last_index_of_a_list() {
    let mut it = stream(vec![7; 11], 65_536);
    let mut last = [7u16; 12];
    last[11] = 65_535;
    for _ in 0..65_535 {
        assert!(it.next().is_some());
    }
    assert_eq!(it.next(), Some(last));
}

#[test]
fn full_phrase_streams_all_orders() {
    let known: Vec<u16> = vec![4; 12];
    let mut it = stream(vec![1, 2, 3], 0);
    assert_eq!(it.next(), None);
    let mut all = stream(known, 10);
    assert_eq!(all.next(), Some([4; 12]));
    assert_eq!(all.next(), Some([4; 12]));
}

#[test]
fn stream_permutes_and_fills() {
    let known: Vec<u16> = vec![10, 11];
    let mut it = stream(known, 1);
    let mut first = [0u16; 12];
    first[0] = 10;
    first[1] = 11;
    let mut second = [0u16; 12];
    second[0] = 11;
    second[1] = 10;
    assert_eq!(it.next(), Some(first));
    assert_eq!(it.next(), Some(second));
    assert_eq!(it.next(), None);
    assert_eq!(it.next(), None);
}

#[test]
fn stream_counts_orders_times_fillings() {
    let known: Vec<u16> = vec![20, 21, 22, 23];
    let mut it = stream(known.clone(), 2);
    let mut seen: Vec<[u16; 12]> = Vec::new();
    while let Some(p) = it.next() {
        let mut head = p[..4].to_vec();
        head.sort();
        assert_eq!(head, known);
        assert!(p[4..].iter().all(|&w| w < 2));
        seen.push(p);
    }
    assert_eq!(seen.len(), 24 * 256);
    seen.sort();
    seen.dedup();
    assert_eq!(seen.len(), 24 * 256);
}

#[test]
fn permutations_with_replacement_of_a_pool() {
    let mut it = permutations_with_replacement(vec!['a', 'b'], 2);
    let mut all: Vec<Vec<char>> = Vec::new();
    while let Some(s) = it.next() {
        all.push(s);
    }
    assert_eq!(all, vec![vec!['a', 'a'], vec!['a', 'b'], vec!['b', 'a'], vec!['b', 'b']]);
    assert_eq!(it.next(), None);
}

#[test]
fn permutations_with_replacement_at_the_edges() {
    let mut none = permutations_with_replacement(Vec::<u16>::new(), 0);
    assert_eq!(none.next(), Some(vec![]));
    assert_eq!(none.next(), None);
    let mut empty = permutations_with_replacement(Vec::<u16>::new(), 3);
    assert_eq!(empty.next(), None);
}
