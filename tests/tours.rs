use prancing_pony::{find_solution, has_solution, Tour, TourInput, TourResult};

fn input(size_x: u8, size_y: u8, start: (i16, i16)) -> TourInput {
    TourInput { size_x, size_y, starting_position: start }
}

fn solution(r: TourResult) -> Tour {
    match r {
        TourResult::Solution(t) => t,
        TourResult::NoSolution => panic!("expected a tour"),
    }
}

fn assert_open_tour(w: i16, h: i16, start: (i16, i16), path: &[(i16, i16)]) {
    assert_eq!(path.len(), (w * h) as usize);
    assert_eq!(path[0], start);
    let mut seen = vec![false; (w * h) as usize];
    for p in path {
        assert!(p.0 >= 0 && p.0 < w && p.1 >= 0 && p.1 < h);
        let i = (p.1 * w + p.0) as usize;
        assert!(!seen[i]);
        seen[i] = true;
    }
    assert!(seen.iter().all(|s| *s));
    for pair in path.windows(2) {
        let dx = (pair[1].0 - pair[0].0).abs();
        let dy = (pair[1].1 - pair[0].1).abs();
        assert!((dx == 1 && dy == 2) || (dx == 2 && dy == 1));
    }
}

#[test]
fn three_by_ten_has_tour() {
    let result = find_solution(input(3, 10, (0, 0)));
    assert!(result.has_solution());
    let tour = solution(result);
    assert_eq!(tour.position_history.len(), 30);
    assert_eq!(tour.position_history[0], (0, 0));
    assert_open_tour(3, 10, (0, 0), &tour.position_history);
}

#[test]
fn ten_by_three_has_tour() {
    let tour = solution(find_solution(input(10, 3, (0, 0))));
    assert_open_tour(10, 3, (0, 0), &tour.position_history);
}

#[test]
fn search_is_deterministic() {
    let a = solution(find_solution(input(3, 10, (0, 0))));
    let b = solution(find_solution(input(3, 10, (0, 0))));
    assert_eq!(a.position_history, b.position_history);
    assert_eq!(a.times_backtracked, b.times_backtracked);
}

#[test]
fn four_by_four_has_no_solution() {
    let result = find_solution(input(4, 4, (0, 0)));
    assert!(!result.has_solution());
    assert!(matches!(result, TourResult::NoSolution));
}

#[test]
fn five_by_five_fails_parity_rule() {
    assert!(!has_solution(5, 5));
    assert!(!find_solution(input(5, 5, (0, 0))).has_solution());
}

#[test]
fn zero_sized_boards_have_no_solution() {
    assert!(!find_solution(input(0, 5, (0, 0))).has_solution());
    assert!(!find_solution(input(5, 0, (0, 0))).has_solution());
    assert!(!find_solution(input(0, 0, (0, 0))).has_solution());
    assert!(!has_solution(0, 6));
    assert!(!has_solution(6, 0));
}

#[test]
fn infeasible_board_ignores_start() {
    assert!(!find_solution(input(4, 4, (100, -3))).has_solution());
}

#[test]
fn feasibility_is_symmetric() {
    for w in 1..=20u8 {
        for h in 1..=20u8 {
            assert_eq!(has_solution(w, h), has_solution(h, w));
        }
    }
}

#[test]
fn both_odd_is_infeasible() {
    for w in (1..=25u8).step_by(2) {
        for h in (1..=25u8).step_by(2) {
            assert!(!has_solution(w, h));
        }
    }
}

#[test]
fn narrow_boards_are_infeasible() {
    for h in 1..=40u8 {
        assert!(!has_solution(1, h));
        assert!(!has_solution(2, h));
        assert!(!has_solution(4, h));
    }
}

#[test]
fn three_wide_exceptions() {
    assert!(!has_solution(3, 4));
    assert!(!has_solution(3, 6));
    assert!(!has_solution(3, 8));
    assert!(has_solution(3, 10));
    assert!(has_solution(3, 12));
    assert!(!has_solution(3, 7));
}

#[test]
fn larger_boards_are_feasible() {
    assert!(has_solution(5, 6));
    assert!(has_solution(6, 6));
    assert!(has_solution(8, 8));
    assert!(has_solution(255, 254));
    assert!(!has_solution(255, 255));
}
