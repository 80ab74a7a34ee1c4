use peter_grep::common::{
    merge_overlapping_match_ranges, range_end_adjust, range_start_adjust, str_to_tokens,
    Incrementer, END_STATE, EXIT_CODE_NO_MATCH, EXIT_CODE_SUCCESS, START_STATE,
};
use peter_grep::token::Token;

#[test]
fn tokens_are_flanked_by_sentinels() {
    assert_eq!(str_to_tokens(""), vec![Token::Start, Token::End]);
    assert_eq!(
        str_to_tokens("ab"),
        vec![Token::Start, Token::Char('a'), Token::Char('b'), Token::End]
    );
    assert_eq!(str_to_tokens("héllo").len(), 7);
}

#[test]
fn constants() {
    assert_eq!(START_STATE, 0);
    assert_eq!(END_STATE, 1);
    assert_eq!(EXIT_CODE_SUCCESS, 0);
    assert_eq!(EXIT_CODE_NO_MATCH, 1);
}

#[test]
fn incrementer_counts_up() {
    let mut a = Incrementer::new();
    assert_eq!(a.get(), 0);
    assert_eq!(a.get(), 1);
    assert_eq!(a.peek(), 2);
    let mut b = Incrementer::new_from(7);
    assert_eq!(b.get(), 7);
    assert_eq!(b.get(), 8);
    let mut c = Incrementer::new_from(u64::MAX);
    assert_eq!(c.get_cyclic(), u64::MAX);
    assert_eq!(c.get_cyclic(), 0);
    assert_eq!(c.get_cyclic(), 1);
}

#[test]
fn range_start_strips_the_leading_sentinel() {
    assert_eq!(range_start_adjust(0), 0);
    assert_eq!(range_start_adjust(1), 0);
    assert_eq!(range_start_adjust(5), 4);
}

#[test]
fn range_end_strips_both_sentinels() {
    assert_eq!(range_end_adjust(0, 3), 0);
    assert_eq!(range_end_adjust(1, 3), 0);
    assert_eq!(range_end_adjust(3, 3), 2);
    assert_eq!(range_end_adjust(4, 3), 3);
    assert_eq!(range_end_adjust(5, 3), 3);
    assert_eq!(range_end_adjust(9, 3), 3);
}

#[test]
fn merge_sorts_and_joins_ranges_that_touch_or_overlap() {
    assert_eq!(merge_overlapping_match_ranges(&vec![]), vec![]);
    assert_eq!(
        merge_overlapping_match_ranges(&vec![(5, 7), (1, 2), (2, 4), (9, 9)]),
        vec![(1, 4), (5, 7), (9, 9)]
    );
    assert_eq!(merge_overlapping_match_ranges(&vec![(0, 3), (3, 5)]), vec![(0, 5)]);
    assert_eq!(merge_overlapping_match_ranges(&vec![(0, 3), (4, 5)]), vec![(0, 3), (4, 5)]);
}

#[test]
fn merge_keeps_the_latest_end() {
    assert_eq!(merge_overlapping_match_ranges(&vec![(0, 10), (1, 5)]), vec![(0, 10)]);
    assert_eq!(merge_overlapping_match_ranges(&vec![(1, 5), (0, 10), (10, 11)]), vec![(0, 11)]);
}

#[test]
fn merge_is_idempotent() {
    let inputs = vec![
        vec![(5, 7), (1, 2), (2, 4), (9, 9)],
        vec![(0, 10), (1, 5), (3, 12), (20, 21)],
        vec![(5, 2), (5, 3), (3, 4)],
        vec![(4, 4), (4, 4), (0, 0)],
    ];
    for ranges in inputs {
        let once = merge_overlapping_match_ranges(&ranges);
        let twice = merge_overlapping_match_ranges(&once);
        assert_eq!(once, twice);
        for pair in once.windows(2) {
            assert!(pair[0] <= pair[1]);
            assert!(pair[0].1 < pair[1].0);
        }
    }
}
