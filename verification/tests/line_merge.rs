use game2048::Direction;
use game2048::Position;
use game2048::line::line_heads;
use game2048::line::line_positions;
use game2048::merge::TILE_MAX;
use game2048::merge::merge_line_values;

fn pos(row: u8, column: u8) -> Position {
    Position { row, column }
}

fn merged(vals: [u64; 6]) -> Vec<u64> {
    let v: Vec<u64> = vals.to_vec();
    merge_line_values(&v)
}

#[test]
fn neighbor_none_exactly_at_edges() {
    for row in 0u8..6 {
        for column in 0u8..6 {
            let p = pos(row, column);
            assert_eq!(p.neighbor(Direction::Up).is_none(), row == 0);
            assert_eq!(p.neighbor(Direction::Down).is_none(), row == 5);
            assert_eq!(p.neighbor(Direction::Left).is_none(), column == 0);
            assert_eq!(p.neighbor(Direction::Right).is_none(), column == 5);
        }
    }
}

#[test]
fn neighbor_moves_one_step() {
    let p = pos(2, 3);
    assert_eq!(p.neighbor(Direction::Up), Some(pos(1, 3)));
    assert_eq!(p.neighbor(Direction::Down), Some(pos(3, 3)));
    assert_eq!(p.neighbor(Direction::Left), Some(pos(2, 2)));
    assert_eq!(p.neighbor(Direction::Right), Some(pos(2, 4)));
}

#[test]
fn opposite_table() {
    assert_eq!(Direction::Up.opposite(), Direction::Down);
    assert_eq!(Direction::Down.opposite(), Direction::Up);
    assert_eq!(Direction::Left.opposite(), Direction::Right);
    assert_eq!(Direction::Right.opposite(), Direction::Left);
}

#[test]
fn perpendicular_positive_cycle() {
    assert_eq!(Direction::Up.perpendicular_positive(), Direction::Left);
    assert_eq!(Direction::Left.perpendicular_positive(), Direction::Down);
    assert_eq!(Direction::Down.perpendicular_positive(), Direction::Right);
    assert_eq!(Direction::Right.perpendicular_positive(), Direction::Up);
}

#[test]
fn from_index_round_trip() {
    for i in 0u64..36 {
        let p = Position::from_index(i);
        assert!(p.row < 6 && p.column < 6);
        assert_eq!(p.index() as u64, i);
    }
}

#[test]
fn heads_of_each_direction() {
    let up = line_heads(Direction::Up);
    let down = line_heads(Direction::Down);
    let left = line_heads(Direction::Left);
    let right = line_heads(Direction::Right);
    for k in 0u8..6 {
        assert_eq!(up[k as usize], pos(0, 5 - k));
        assert_eq!(down[k as usize], pos(5, k));
        assert_eq!(left[k as usize], pos(k, 0));
        assert_eq!(right[k as usize], pos(5 - k, 5));
    }
}

#[test]
fn line_positions_full_column() {
    let ps = line_positions(pos(0, 3), Direction::Down);
    assert_eq!(ps.len(), 6);
    for (j, p) in ps.iter().enumerate() {
        assert_eq!(*p, pos(j as u8, 3));
    }
}

#[test]
fn line_positions_stop_at_edge() {
    let ps = line_positions(pos(2, 3), Direction::Down);
    assert_eq!(ps, vec![pos(2, 3), pos(3, 3), pos(4, 3), pos(5, 3)]);
    let ps = line_positions(pos(1, 4), Direction::Right);
    assert_eq!(ps, vec![pos(1, 4), pos(1, 5)]);
    let ps = line_positions(pos(0, 0), Direction::Up);
    assert_eq!(ps, vec![pos(0, 0)]);
}

#[test]
fn merge_two_independent_pairs() {
    assert_eq!(merged([2, 2, 2, 2, 0, 0]), vec![4, 4, 0, 0, 0, 0]);
}

#[test]
fn merge_is_not_chained() {
    assert_eq!(merged([2, 2, 4, 0, 0, 0]), vec![4, 4, 0, 0, 0, 0]);
}

#[test]
fn merge_leaves_full_alternating_line_unchanged() {
    assert_eq!(merged([2, 4, 2, 4, 2, 4]), vec![2, 4, 2, 4, 2, 4]);
}

#[test]
fn merge_slides_without_merging() {
    assert_eq!(merged([0, 0, 1, 0, 2, 0]), vec![1, 2, 0, 0, 0, 0]);
    assert_eq!(merged([0, 0, 0, 0, 0, 7]), vec![7, 0, 0, 0, 0, 0]);
}

#[test]
fn merge_pairs_across_gaps() {
    assert_eq!(merged([2, 0, 2, 0, 2, 0]), vec![4, 2, 0, 0, 0, 0]);
    assert_eq!(merged([4, 0, 0, 0, 0, 4]), vec![8, 0, 0, 0, 0, 0]);
}

#[test]
fn merge_only_leading_pair_of_a_triple() {
    assert_eq!(merged([2, 2, 2, 0, 0, 0]), vec![4, 2, 0, 0, 0, 0]);
}

#[test]
fn merge_empty_line_stays_empty() {
    assert_eq!(merged([0, 0, 0, 0, 0, 0]), vec![0, 0, 0, 0, 0, 0]);
}

#[test]
fn merge_full_line_of_equal_values() {
    assert_eq!(merged([2, 2, 2, 2, 2, 2]), vec![4, 4, 4, 0, 0, 0]);
}

#[test]
fn merge_largest_tiles_stays_in_range() {
    assert_eq!(
        merged([TILE_MAX, TILE_MAX, 0, 0, 0, 0]),
        vec![TILE_MAX + TILE_MAX, 0, 0, 0, 0, 0]
    );
}
