use assembler::grid::{optimal_stacking, y_from_x, Dims};

#[test]
fn rows_round_up() {
    assert_eq!(y_from_x(1, 5), 5);
    assert_eq!(y_from_x(2, 5), 3);
    assert_eq!(y_from_x(3, 6), 2);
    assert_eq!(y_from_x(5, 5), 1);
    assert_eq!(y_from_x(7, 5), 1);
    assert_eq!(y_from_x(4, 0), 0);
}

#[test]
fn one_tile_gets_one_cell() {
    assert_eq!(optimal_stacking(1, Dims { x: 4, y: 4 }), Dims { x: 1, y: 1 });
}

#[test]
fn four_square_tiles_make_a_square() {
    assert_eq!(optimal_stacking(4, Dims { x: 10, y: 10 }), Dims { x: 2, y: 2 });
}

#[test]
fn five_tiles_tie_goes_to_fewer_columns() {
    assert_eq!(optimal_stacking(5, Dims { x: 10, y: 10 }), Dims { x: 2, y: 3 });
}

#[test]
fn tall_tiles_go_side_by_side() {
    assert_eq!(optimal_stacking(3, Dims { x: 10, y: 30 }), Dims { x: 3, y: 1 });
}

#[test]
fn wide_tiles_stack_up() {
    assert_eq!(optimal_stacking(3, Dims { x: 30, y: 10 }), Dims { x: 1, y: 3 });
}

#[test]
fn larger_side_is_least_among_all_layouts() {
    for n in 1usize..=30 {
        for (w, h) in [(1usize, 1usize), (10, 10), (3, 7), (16, 4), (0, 5), (5, 0)] {
            let g = optimal_stacking(n, Dims { x: w, y: h });
            assert!(g.x >= 1 && g.x <= n);
            assert!(g.x * g.y >= n);
            assert!((g.y - 1) * g.x < n);
            let best = std::cmp::max(g.y * h, g.x * w);
            for c in 1..=n {
                for r in 1..=n {
                    if c * r >= n {
                        let side = std::cmp::max(r * h, c * w);
                        assert!(side >= best);
                        if c < g.x {
                            assert!(side > best);
                        }
                    }
                }
            }
        }
    }
}

#[test]
fn many_tiles_do_not_overflow() {
    let g = optimal_stacking(100, Dims { x: usize::MAX, y: usize::MAX });
    assert_eq!(g, Dims { x: 10, y: 10 });
}
