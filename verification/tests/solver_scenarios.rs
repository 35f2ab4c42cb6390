use pizza_slicer::pizza::{Ingredient, Pizza};
use pizza_slicer::solver::Slice;

fn cell(c: char) -> Ingredient {
    Ingredient::from_char(c).unwrap()
}

fn pizza(rows: &[&str]) -> Pizza {
    let field: Vec<Vec<Ingredient>> =
        rows.iter().map(|row| row.chars().map(cell).collect()).collect();
    Pizza::new(field).unwrap()
}

fn covers(s: &Slice, x: usize, y: usize) -> bool {
    s.x <= x && x < s.x + s.width && s.y <= y && y < s.y + s.height
}

fn overlap(a: &Slice, b: &Slice) -> bool {
    a.x < b.x + b.width && b.x < a.x + a.width && a.y < b.y + b.height && b.y < a.y + a.height
}

fn count_in(p: &Pizza, s: &Slice, ing: Ingredient) -> usize {
    let mut n = 0;
    for y in s.y..s.y + s.height {
        for x in s.x..s.x + s.width {
            if p.at(x, y) == ing {
                n += 1;
            }
        }
    }
    n
}

/// Every slice respects the limits, with counts that match the grid; no two
/// slices overlap.
fn check_solution(p: &Pizza, slices: &[Slice], min_per_type: usize, max_cells: usize) {
    for s in slices {
        assert!(s.width >= 1 && s.height >= 1);
        assert!(s.x + s.width <= p.columns() && s.y + s.height <= p.rows());
        assert!(s.width * s.height <= max_cells);
        assert_eq!(s.tomato_count, count_in(p, s, Ingredient::Tomato));
        assert_eq!(s.mushroom_count, count_in(p, s, Ingredient::Mushroom));
        assert!(s.tomato_count >= min_per_type);
        assert!(s.mushroom_count >= min_per_type);
        assert_eq!(s.width * s.height, s.tomato_count + s.mushroom_count);
    }
    for i in 0..slices.len() {
        for j in i + 1..slices.len() {
            assert!(!overlap(&slices[i], &slices[j]));
        }
    }
}

fn covered_area(p: &Pizza, slices: &[Slice]) -> usize {
    let mut n = 0;
    for y in 0..p.rows() {
        for x in 0..p.columns() {
            if slices.iter().any(|s| covers(s, x, y)) {
                n += 1;
            }
        }
    }
    n
}

#[test]
fn all_tomato_grid_is_fully_covered() {
    // With no lower bound on either ingredient every single cell is already
    // a valid slice, so the row-major seed pass claims each cell on sight
    // and the whole grid ends up covered by one-cell slices.
    let p = pizza(&["TTT", "TTT", "TTT"]);
    let slices = p.solve(0, 9);
    check_solution(&p, &slices, 0, 9);
    assert_eq!(covered_area(&p, &slices), 9);
    assert_eq!(
        slices.iter().map(|s| s.width * s.height).sum::<usize>(),
        9
    );
    assert_eq!(slices.len(), 9);
}

#[test]
fn single_row_pair_takes_the_full_row() {
    let p = pizza(&["TM"]);
    let slices = p.solve(1, 2);
    check_solution(&p, &slices, 1, 2);
    assert_eq!(slices.len(), 1);
    let s = &slices[0];
    assert_eq!((s.x, s.y, s.width, s.height), (0, 0, 2, 1));
    assert_eq!((s.tomato_count, s.mushroom_count), (1, 1));
}

#[test]
fn unreachable_minimum_yields_no_slices() {
    // Two of each ingredient cannot fit in three cells, so no valid slice
    // exists at all.
    let p = pizza(&["TMT", "MTM", "TMT"]);
    let slices = p.solve(2, 3);
    assert_eq!(slices.len(), 0);
}

#[test]
fn checkerboard_splits_into_dominoes() {
    let p = pizza(&["TMTM", "MTMT", "TMTM", "MTMT"]);
    let slices = p.solve(1, 2);
    check_solution(&p, &slices, 1, 2);
    assert!(slices.len() > 1);
    for s in &slices {
        assert_eq!(s.width * s.height, 2);
        assert_eq!(s.tomato_count, 1);
        assert_eq!(s.mushroom_count, 1);
    }
    assert_eq!(covered_area(&p, &slices), 16);
    assert_eq!(slices.len(), 8);
}

#[test]
fn identical_input_gives_identical_slices() {
    let rows = ["TMMT", "MTTM", "TTMM"];
    let first = pizza(&rows).solve(1, 4);
    let second = pizza(&rows).solve(1, 4);
    assert_eq!(first, second);
    check_solution(&pizza(&rows), &first, 1, 4);
}

#[test]
fn committed_slices_never_exceed_the_cell_budget() {
    let p = pizza(&["TTTTTT", "MMMMMM", "TTTTTT"]);
    let slices = p.solve(1, 5);
    check_solution(&p, &slices, 1, 5);
    assert!(!slices.is_empty());
}

#[test]
fn fallback_direction_commits_a_vertical_pair() {
    // Seeding at (1, 0) first grows left ("TT", never valid); the
    // per-direction fallback then grows down and finds the valid pair.
    let p = pizza(&["TT", "TM"]);
    let slices = p.solve(1, 2);
    assert_eq!(slices.len(), 1);
    let s = &slices[0];
    assert_eq!((s.x, s.y, s.width, s.height), (1, 0, 1, 2));
    assert_eq!((s.tomato_count, s.mushroom_count), (1, 1));
}
