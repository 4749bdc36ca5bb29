use prancing_pony::moves::{knight_move, Move, MOVE_COUNT};
use prancing_pony::position::Position;

#[test]
fn move_table_order() {
    let expected = [(1, 2), (2, 1), (2, -1), (1, -2), (-1, -2), (-2, -1), (-2, 1), (-1, 2)];
    assert_eq!(MOVE_COUNT, 8);
    for (i, e) in expected.iter().enumerate() {
        assert_eq!(knight_move(i), Move(e.0, e.1));
    }
}

#[test]
fn calc_move_adds_offsets() {
    let p = Position(3, 4);
    let q = p.calc_move(&Move(-2, 1));
    assert_eq!(q.to_tuple(), (1, 5));
    assert_eq!(p.to_tuple(), (3, 4));
}
