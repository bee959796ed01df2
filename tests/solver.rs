use rand::rngs::StdRng;
use rand::SeedableRng;

use word_grid::board::Board;
use word_grid::candidates::{shuffled_directions, shuffled_range};
use word_grid::error::SolveError;
use word_grid::geometry::{Dir, Pos};
use word_grid::placement::{check_collision, PlacedWord};
use word_grid::solver::{solve, Solution};

fn words(ws: &[&str]) -> Vec<String> {
    ws.iter().map(|w| w.to_string()).collect()
}

fn cells_of(p: &PlacedWord) -> Vec<(isize, isize, char)> {
    let d = p.direction.pos_from_dir();
    p.word
        .chars()
        .enumerate()
        .map(|(i, c)| (p.position.x + d.x * i as isize, p.position.y + d.y * i as isize, c))
        .collect()
}

fn assert_valid(sol: &Solution, input: &[&str], w: isize, h: isize) {
    assert_eq!(sol.placed_words.len(), input.len());
    let mut covered = vec![vec![false; h as usize]; w as usize];
    for (p, expected) in sol.placed_words.iter().zip(input) {
        assert_eq!(p.word, *expected);
        for (x, y, c) in cells_of(p) {
            assert!(x >= 0 && x < w && y >= 0 && y < h);
            assert_eq!(sol.board.get(x, y), Some(c));
            covered[x as usize][y as usize] = true;
        }
    }
    for x in 0..w {
        for y in 0..h {
            if !covered[x as usize][y as usize] {
                assert_eq!(sol.board.get(x, y), None);
            }
        }
    }
}

#[test]
fn two_letters_never_fit_one_cell() {
    let mut rng = StdRng::seed_from_u64(1);
    let r = solve(&words(&["ab"]), 1, 1, &mut rng);
    assert!(matches!(r, Err(SolveError::NoSolutionFound)));
}

#[test]
fn single_word_lies_in_a_straight_line() {
    let mut rng = StdRng::seed_from_u64(7);
    let sol = solve(&words(&["cat"]), 5, 5, &mut rng).unwrap();
    assert_valid(&sol, &["cat"], 5, 5);
    let cells = cells_of(&sol.placed_words[0]);
    let letters: String = cells.iter().map(|c| c.2).collect();
    assert_eq!(letters, "cat");
    let mut filled = 0;
    for x in 0..5 {
        for y in 0..5 {
            if sol.board.get(x, y).is_some() {
                filled += 1;
            }
        }
    }
    assert_eq!(filled, 3);
}

#[test]
fn overlapping_words_agree_where_they_cross() {
    let mut crossed = false;
    for seed in 0..300u64 {
        let mut rng = StdRng::seed_from_u64(seed);
        let sol = solve(&words(&["eye", "yes"]), 5, 5, &mut rng).unwrap();
        assert_valid(&sol, &["eye", "yes"], 5, 5);
        let a = cells_of(&sol.placed_words[0]);
        let b = cells_of(&sol.placed_words[1]);
        for &(x, y, c) in &a {
            for &(x2, y2, c2) in &b {
                if (x, y) == (x2, y2) {
                    assert_eq!(c, c2);
                    assert_eq!(sol.board.get(x, y), Some(c));
                    crossed = true;
                }
            }
        }
    }
    assert!(crossed);
}

#[test]
fn reruns_with_other_seeds_stay_valid() {
    let input = ["one", "two", "three", "four"];
    let mut layouts = Vec::new();
    for seed in [3u64, 4u64] {
        let mut rng = StdRng::seed_from_u64(seed);
        let sol = solve(&words(&input), 6, 6, &mut rng).unwrap();
        assert_valid(&sol, &input, 6, 6);
        layouts.push(
            sol.placed_words
                .iter()
                .map(|p| (p.position, p.direction))
                .collect::<Vec<_>>(),
        );
    }
    assert_eq!(layouts[0].len(), layouts[1].len());
}

#[test]
fn numbers_fill_a_twelve_grid() {
    let input = [
        "zero", "one", "two", "three", "four", "five", "six", "seven", "eight", "nine", "ten",
    ];
    let mut rng = StdRng::seed_from_u64(11);
    let sol = solve(&words(&input), 12, 12, &mut rng).unwrap();
    assert_valid(&sol, &input, 12, 12);
}

#[test]
fn word_longer_than_grid_has_no_solution() {
    let mut rng = StdRng::seed_from_u64(2);
    let r = solve(&words(&["abcd"]), 3, 3, &mut rng);
    assert!(matches!(r, Err(SolveError::NoSolutionFound)));
}

#[test]
fn clashing_words_have_no_solution() {
    let mut rng = StdRng::seed_from_u64(5);
    let r = solve(&words(&["a", "b"]), 1, 1, &mut rng);
    assert!(matches!(r, Err(SolveError::NoSolutionFound)));
    let mut rng = StdRng::seed_from_u64(5);
    let sol = solve(&words(&["a", "a"]), 1, 1, &mut rng).unwrap();
    assert_eq!(sol.board.get(0, 0), Some('a'));
}

#[test]
fn no_words_give_an_empty_board() {
    let mut rng = StdRng::seed_from_u64(9);
    let sol = solve(&Vec::new(), 2, 3, &mut rng).unwrap();
    assert!(sol.placed_words.is_empty());
    assert_eq!(sol.board.width(), 2);
    assert_eq!(sol.board.height(), 3);
    for x in 0..2 {
        for y in 0..3 {
            assert_eq!(sol.board.get(x, y), None);
        }
    }
}

#[test]
fn non_positive_dimensions_are_rejected() {
    let mut rng = StdRng::seed_from_u64(0);
    assert!(matches!(solve(&words(&["a"]), 0, 3, &mut rng), Err(SolveError::InvalidDimensions)));
    assert!(matches!(solve(&words(&["a"]), 3, -1, &mut rng), Err(SolveError::InvalidDimensions)));
    assert!(matches!(Board::new(-2, 2), Err(SolveError::InvalidDimensions)));
}

#[test]
fn empty_word_is_rejected() {
    let mut rng = StdRng::seed_from_u64(0);
    assert!(matches!(solve(&words(&["a", ""]), 3, 3, &mut rng), Err(SolveError::EmptyWord)));
}

#[test]
fn directions_are_unit_steps() {
    let expected = [
        (Dir::North, 0, 1),
        (Dir::South, 0, -1),
        (Dir::East, 1, 0),
        (Dir::West, -1, 0),
        (Dir::NE, 1, 1),
        (Dir::NW, -1, 1),
        (Dir::SE, 1, -1),
        (Dir::SW, -1, -1),
    ];
    for (d, x, y) in expected {
        assert_eq!(d.pos_from_dir(), Pos { x, y });
    }
}

#[test]
fn positions_translate_and_scale() {
    let p = Pos { x: 2, y: -3 };
    assert_eq!(p.add(Pos { x: -1, y: 5 }), Pos { x: 1, y: 2 });
    assert_eq!(p.mul(3), Pos { x: 6, y: -9 });
    assert_eq!(p.mul(-1), Pos { x: -2, y: 3 });
}

#[test]
fn board_bounds_and_spans() {
    let b = Board::new(4, 3).unwrap();
    assert!(b.in_bounds(Pos { x: 3, y: 2 }));
    assert!(!b.in_bounds(Pos { x: 4, y: 0 }));
    assert!(!b.in_bounds(Pos { x: 0, y: -1 }));
    assert!(b.span_in_bounds(Pos { x: 0, y: 0 }, Dir::East, 4));
    assert!(!b.span_in_bounds(Pos { x: 0, y: 0 }, Dir::East, 5));
    assert!(b.span_in_bounds(Pos { x: 3, y: 2 }, Dir::SW, 3));
    assert!(!b.span_in_bounds(Pos { x: 3, y: 2 }, Dir::SW, 4));
    assert!(b.span_in_bounds(Pos { x: 1, y: 0 }, Dir::North, 3));
    assert!(!b.span_in_bounds(Pos { x: 1, y: 1 }, Dir::North, 3));
    assert!(!b.span_in_bounds(Pos { x: 5, y: 1 }, Dir::West, 1));
}

#[test]
fn board_set_get_and_snapshot() {
    let mut b = Board::new(3, 2).unwrap();
    b.set(2, 1, 'q');
    let s = b.snapshot();
    b.set(0, 0, 'z');
    assert_eq!(b.get(2, 1), Some('q'));
    assert_eq!(b.get(0, 0), Some('z'));
    assert_eq!(s.get(2, 1), Some('q'));
    assert_eq!(s.get(0, 0), None);
    assert_eq!(s.get(1, 1), None);
}

#[test]
fn collision_check_is_atomic() {
    let mut b = Board::new(3, 3).unwrap();
    b.set(2, 0, 'x');
    let word: Vec<char> = "abc".chars().collect();
    assert!(check_collision(&b, &word, Pos { x: 0, y: 0 }, Dir::East).is_none());
    assert_eq!(b.get(0, 0), None);
    assert_eq!(b.get(1, 0), None);
    assert!(check_collision(&b, &word, Pos { x: 0, y: 2 }, Dir::SE).is_none());
    let placed = check_collision(&b, &word, Pos { x: 0, y: 2 }, Dir::East).unwrap();
    assert_eq!(placed.get(0, 2), Some('a'));
    assert_eq!(placed.get(1, 2), Some('b'));
    assert_eq!(placed.get(2, 2), Some('c'));
    assert_eq!(placed.get(2, 0), Some('x'));
    assert_eq!(placed.get(1, 1), None);
    assert_eq!(b.get(0, 2), None);
}

#[test]
fn collision_check_accepts_matching_letters() {
    let mut b = Board::new(3, 1).unwrap();
    b.set(1, 0, 'b');
    let word: Vec<char> = "abc".chars().collect();
    let placed = check_collision(&b, &word, Pos { x: 0, y: 0 }, Dir::East).unwrap();
    assert_eq!(placed.get(0, 0), Some('a'));
    assert_eq!(placed.get(1, 0), Some('b'));
    assert_eq!(placed.get(2, 0), Some('c'));
    let reversed = check_collision(&b, &word, Pos { x: 2, y: 0 }, Dir::West).unwrap();
    assert_eq!(reversed.get(0, 0), Some('c'));
}

#[test]
fn shuffled_range_is_a_permutation() {
    let mut rng = StdRng::seed_from_u64(42);
    let mut moved = false;
    for _ in 0..20 {
        let v = shuffled_range(10, &mut rng);
        let mut sorted = v.clone();
        sorted.sort();
        assert_eq!(sorted, (0..10).collect::<Vec<isize>>());
        if v != sorted {
            moved = true;
        }
    }
    assert!(moved);
    assert!(shuffled_range(0, &mut rng).is_empty());
}

#[test]
fn shuffled_directions_hold_all_eight() {
    let mut rng = StdRng::seed_from_u64(8);
    let ds = shuffled_directions(&mut rng);
    assert_eq!(ds.len(), 8);
    for d in [Dir::North, Dir::South, Dir::East, Dir::West, Dir::NE, Dir::NW, Dir::SE, Dir::SW] {
        assert!(ds.contains(&d));
    }
}
