use marble_puzzles::fabric::{
    count_claimed_by_at_least_two, find_non_overlapping_id, is_overlap, parse_line,
    rect_from_captures, try_parse_line, Cloth, Rect,
};
use marble_puzzles::setup::setup_from_captures;
use marble_puzzles::error::GameError;

#[test]
fn day3_test_parse_line() {
    let claim = Rect {
        x1: 3,
        y1: 2,
        x2: 3 + 5,
        y2: 2 + 4,
    };
    assert_eq!(parse_line("#123 @ 3,2: 5x4"), claim);
}

#[test]
fn test_count_claimed_by_at_least_two() {
    let input = ["#1 @ 1,3: 4x4", "#2 @ 3,1: 4x4", "#3 @ 5,5: 2x2"];
    let claims: Vec<_> = input.iter().map(|s| parse_line(s)).collect();
    assert_eq!(4, count_claimed_by_at_least_two(&claims));
}

#[test]
fn test_is_overlap() {
    let input = ["#1 @ 1,3: 4x4", "#2 @ 3,1: 4x4", "#3 @ 5,5: 2x2"];
    let claims: Vec<_> = input.iter().map(|s| parse_line(s)).collect();
    assert!(is_overlap(&claims[0], &claims[1]));
    assert!(!is_overlap(&claims[0], &claims[2]));
    assert!(!is_overlap(&claims[1], &claims[2]));
}

#[test]
fn test_find_non_overlapping_id() {
    let input = ["#1 @ 1,3: 4x4", "#2 @ 3,1: 4x4", "#3 @ 5,5: 2x2"];
    let claims: Vec<_> = input.iter().map(|s| parse_line(s)).collect();
    assert_eq!(find_non_overlapping_id(&claims), 3);
}

fn rect(x1: usize, y1: usize, x2: usize, y2: usize) -> Rect {
    Rect { x1, y1, x2, y2 }
}

fn groups(parts: &[Option<&str>]) -> Option<Vec<Option<String>>> {
    Some(parts.iter().map(|part| part.map(String::from)).collect())
}

#[test]
fn try_parse_line_reads_claims_only() {
    assert_eq!(Some(rect(3, 2, 8, 6)), try_parse_line("#123 @ 3,2: 5x4"));
    assert_eq!(Some(rect(0, 0, 0, 0)), try_parse_line("#0 @ 0,0: 0x0 and more"));
    assert_eq!(Some(rect(7, 8, 16, 18)), try_parse_line("#1 @ 007,08: 9x10\n"));
    assert_eq!(None, try_parse_line(""));
    assert_eq!(None, try_parse_line(" #123 @ 3,2: 5x4"));
    assert_eq!(None, try_parse_line("#123 @ 3,2: 5"));
    assert_eq!(None, try_parse_line("#123 @ 3;2: 5x4"));
    assert_eq!(None, try_parse_line("#123 @ -3,2: 5x4"));
    assert_eq!(None, try_parse_line("# @ 3,2: 5x4"));
    assert_eq!(None, try_parse_line("#1 @ 340282366920938463463374607431768211456,2: 5x4"));
    let most = usize::MAX.to_string();
    assert_eq!(None, try_parse_line(&format!("#1 @ {},2: 1x4", most)));
    assert_eq!(None, try_parse_line(&format!("#1 @ 3,1: 5x{}", most)));
    assert_eq!(
        Some(rect(usize::MAX, 0, usize::MAX, 1)),
        try_parse_line(&format!("#1 @ {},0: 0x1", most))
    );
    assert_eq!(None, try_parse_line("#1 @ \u{0663},2: 5x4"));
}

#[test]
fn captured_groups_become_a_rectangle() {
    let whole = Some("#1 @ 1,3: 4x5");
    assert_eq!(
        Some(rect(1, 3, 5, 8)),
        rect_from_captures(&groups(&[whole, Some("1"), Some("3"), Some("4"), Some("5")]))
    );
    assert_eq!(None, rect_from_captures(&None));
    assert_eq!(None, rect_from_captures(&groups(&[whole])));
    assert_eq!(None, rect_from_captures(&groups(&[whole, Some("1"), Some("3"), Some("4")])));
    assert_eq!(
        None,
        rect_from_captures(&groups(&[whole, Some("1"), None, Some("4"), Some("5")]))
    );
    assert_eq!(
        None,
        rect_from_captures(&groups(&[whole, Some("1"), Some("x"), Some("4"), Some("5")]))
    );
    assert_eq!(
        Some(rect(1, 3, 5, 8)),
        rect_from_captures(&groups(&[None, Some("+1"), Some("3"), Some("4"), Some("5"), Some("6")]))
    );
}

#[test]
fn captured_groups_become_a_game() {
    assert_eq!(Ok((10, 1618)), setup_from_captures(&groups(&[None, Some("10"), Some("1618")])));
    assert_eq!(Err(GameError::MalformedInput), setup_from_captures(&None));
    assert_eq!(Err(GameError::MalformedInput), setup_from_captures(&groups(&[None, Some("10")])));
    assert_eq!(
        Err(GameError::MalformedInput),
        setup_from_captures(&groups(&[None, Some("10"), None]))
    );
    assert_eq!(
        Err(GameError::MalformedInput),
        setup_from_captures(&groups(&[None, Some("ten"), Some("5")]))
    );
    assert_eq!(
        Err(GameError::MalformedInput),
        setup_from_captures(&groups(&[None, Some("10"), Some("4294967296")]))
    );
}

#[test]
fn cloth_counts_each_cell_up_to_two() {
    let mut cloth = Cloth::new();
    assert_eq!(0, cloth.count_claimed_by_at_least_two());
    cloth.claim_point(0, 0);
    cloth.claim_point(999, 999);
    assert_eq!(0, cloth.count_claimed_by_at_least_two());
    cloth.claim_point(0, 0);
    assert_eq!(1, cloth.count_claimed_by_at_least_two());
    for _ in 0..300 {
        cloth.claim_point(0, 0);
    }
    assert_eq!(1, cloth.count_claimed_by_at_least_two());
    cloth.claim_point(999, 999);
    cloth.claim_point(1000, 0);
    cloth.claim_point(0, 1);
    assert_eq!(3, cloth.count_claimed_by_at_least_two());
}

#[test]
fn contested_cells_are_counted_once() {
    assert_eq!(0, count_claimed_by_at_least_two(&[]));
    assert_eq!(0, count_claimed_by_at_least_two(&[rect(0, 0, 1000, 1000)]));
    assert_eq!(
        1_000_000,
        count_claimed_by_at_least_two(&[rect(0, 0, 1000, 1000), rect(0, 0, 1000, 1000)])
    );
    let three = [rect(1, 1, 4, 4), rect(2, 2, 5, 5), rect(3, 3, 6, 6)];
    assert_eq!(7, count_claimed_by_at_least_two(&three));
    assert_eq!(0, count_claimed_by_at_least_two(&[rect(5, 5, 5, 9), rect(5, 5, 9, 5), rect(7, 7, 2, 2)]));
    assert_eq!(0, count_claimed_by_at_least_two(&[rect(0, 0, 2, 2), rect(2, 0, 4, 2), rect(0, 2, 2, 4)]));
}

#[test]
fn a_rectangle_wider_than_the_sheet_runs_on_in_the_next_row() {
    assert_eq!(1000, count_claimed_by_at_least_two(&[rect(0, 0, 2000, 2)]));
    assert_eq!(2, count_claimed_by_at_least_two(&[rect(999, 0, 1001, 1), rect(999, 0, 1000, 2), rect(0, 1, 1, 2)]));
}

#[test]
fn overlap_needs_a_shared_point() {
    assert!(is_overlap(&rect(0, 0, 2, 2), &rect(1, 1, 3, 3)));
    assert!(is_overlap(&rect(1, 1, 3, 3), &rect(0, 0, 2, 2)));
    assert!(is_overlap(&rect(0, 0, 10, 10), &rect(4, 4, 5, 5)));
    assert!(is_overlap(&rect(4, 0, 5, 10), &rect(0, 4, 10, 5)));
    assert!(!is_overlap(&rect(0, 0, 2, 2), &rect(2, 0, 4, 2)));
    assert!(!is_overlap(&rect(0, 0, 2, 2), &rect(0, 2, 2, 4)));
    assert!(!is_overlap(&rect(0, 0, 2, 2), &rect(1, 1, 1, 3)));
    assert!(!is_overlap(&rect(3, 3, 3, 3), &rect(3, 3, 3, 3)));
    assert!(!is_overlap(&rect(5, 5, 1, 1), &rect(0, 0, 9, 9)));
}

#[test]
fn first_free_claim_is_numbered_from_one() {
    assert_eq!(0, find_non_overlapping_id(&[]));
    assert_eq!(1, find_non_overlapping_id(&[rect(0, 0, 1, 1)]));
    assert_eq!(0, find_non_overlapping_id(&[rect(0, 0, 2, 2), rect(1, 1, 3, 3)]));
    assert_eq!(
        2,
        find_non_overlapping_id(&[rect(0, 0, 2, 2), rect(5, 5, 6, 6), rect(1, 1, 3, 3), rect(9, 9, 10, 10)])
    );
    assert_eq!(
        0,
        find_non_overlapping_id(&[rect(0, 0, 2, 2), rect(1, 1, 4, 4), rect(3, 3, 6, 6), rect(5, 0, 6, 4)])
    );
    assert_eq!(1, find_non_overlapping_id(&[rect(0, 0, 0, 5), rect(0, 0, 3, 3), rect(2, 2, 5, 5)]));
    let many: Vec<Rect> = (0..70).map(|i| rect(i, 0, i + 2, 1)).chain([rect(500, 500, 501, 501)]).collect();
    assert_eq!(71, find_non_overlapping_id(&many));
}
