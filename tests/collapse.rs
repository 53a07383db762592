use opl_filter::Filter;
use std::cmp::Ordering;

#[test]
fn collapse_keeps_best_of_each_run_ranked_first() {
    // Rows 3 and 4 share key 1 with ranks 10 and 20; row 5 has key 2, rank 15.
    let keys = vec![0, 0, 0, 1, 1, 2];
    let ranks: Vec<i64> = vec![0, 0, 0, 10, 20, 15];
    let f = Filter { list: vec![3, 4, 5] };
    assert_eq!(f.sort_and_unique_by(&keys, |x, y| ranks[x as usize].cmp(&ranks[y as usize])).list, vec![4, 5]);
}

#[test]
fn collapse_does_not_merge_separate_runs_of_one_key() {
    // Key 7 appears at rows 0-1 and again at row 3, with key 8 between.
    let keys = vec![7, 7, 8, 7];
    let ranks: Vec<i64> = vec![1, 5, 3, 2];
    let f = Filter { list: vec![0, 1, 2, 3] };
    assert_eq!(f.sort_and_unique_by(&keys, |x, y| ranks[x as usize].cmp(&ranks[y as usize])).list, vec![1, 2, 3]);
}

#[test]
fn collapse_tie_in_a_run_keeps_the_last() {
    let keys = vec![4, 4, 4];
    let ranks: Vec<i64> = vec![9, 9, 1];
    let f = Filter { list: vec![0, 1, 2] };
    assert_eq!(f.sort_and_unique_by(&keys, |x, y| ranks[x as usize].cmp(&ranks[y as usize])).list, vec![1]);
}

#[test]
fn collapse_equal_ranks_keep_filter_order() {
    let keys = vec![1, 2, 3, 4];
    let ranks: Vec<i64> = vec![5, 8, 5, 8];
    let f = Filter { list: vec![0, 1, 2, 3] };
    assert_eq!(f.sort_and_unique_by(&keys, |x, y| ranks[x as usize].cmp(&ranks[y as usize])).list, vec![1, 3, 0, 2]);
}

#[test]
fn collapse_of_empty_filter_is_empty() {
    let keys: Vec<u32> = vec![1, 2];
    let ranks: Vec<i64> = vec![3, 4];
    let f = Filter { list: vec![] };
    assert_eq!(f.sort_and_unique_by(&keys, |x, y| ranks[x as usize].cmp(&ranks[y as usize])).list, Vec::<u32>::new());
}

#[test]
fn collapse_output_has_one_entry_per_run() {
    let keys = vec![1, 1, 2, 2, 2, 3, 1, 1];
    let ranks: Vec<i64> = vec![-4, -2, 0, 7, 7, -9, 100, 3];
    let f = Filter { list: vec![0, 1, 2, 3, 4, 5, 6, 7] };
    let r = f.sort_and_unique_by(&keys, |x, y| ranks[x as usize].cmp(&ranks[y as usize]));
    assert_eq!(r.list, vec![6, 4, 1, 5]);
}

#[test]
fn collapse_only_reads_rows_in_the_filter() {
    let keys = vec![1, 1, 1, 1];
    let ranks: Vec<i64> = vec![50, 2, 40, 3];
    let f = Filter { list: vec![1, 3] };
    assert_eq!(f.sort_and_unique_by(&keys, |x, y| ranks[x as usize].cmp(&ranks[y as usize])).list, vec![3]);
}

#[test]
fn wilks_collapse_matches_generic_collapse() {
    let keys = vec![1, 1, 2, 2, 2, 3, 1, 1];
    let wilks: Vec<i32> = vec![-4, -2, 0, 7, 7, -9, 100, 3];
    let ranks: Vec<i64> = wilks.iter().map(|w| *w as i64).collect();
    let f = Filter { list: vec![0, 2, 3, 4, 5, 6, 7] };
    let generic = f.sort_and_unique_by(&keys, |x, y| ranks[x as usize].cmp(&ranks[y as usize]));
    let wilks_based = f.sort_and_unique_by_wilks(&keys, &wilks);
    assert_eq!(generic, wilks_based);
    assert_eq!(wilks_based.list, vec![6, 4, 0, 5]);
}

#[test]
fn collapse_with_reversed_comparator_ranks_lowest_first() {
    let keys = vec![1, 1, 2, 3];
    let ranks: Vec<i64> = vec![4, 9, 6, 1];
    let f = Filter { list: vec![0, 1, 2, 3] };
    let r = f.sort_and_unique_by(&keys, |x: u32, y: u32| -> Ordering {
        ranks[y as usize].cmp(&ranks[x as usize])
    });
    assert_eq!(r.list, vec![3, 0, 2]);
}
