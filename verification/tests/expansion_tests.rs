use pizza_slicer::pizza::{Ingredient, Pizza};
use pizza_slicer::solver::{slice_valid, try_expand_slice_towards, PizzaSolver, Slice};

fn cell(c: char) -> Ingredient {
    Ingredient::from_char(c).unwrap()
}

fn pizza(rows: &[&str]) -> Pizza {
    let field: Vec<Vec<Ingredient>> =
        rows.iter().map(|row| row.chars().map(cell).collect()).collect();
    Pizza::new(field).unwrap()
}

fn covers(s: &Slice, x: usize, y: usize) -> bool {
    s.x <= x && x < s.x + s.width && s.y <= y && y < s.y + s.height
}

#[test]
fn expansion_grows_into_free_cells() {
    let p = pizza(&["TM", "MT"]);
    let mut occupied = vec![false; 4];
    let mut slice = Slice { x: 0, y: 0, width: 1, height: 1, tomato_count: 1, mushroom_count: 0 };
    // Grow right: claims (1, 0), a mushroom.
    assert!(try_expand_slice_towards(4, true, &p, &mut occupied, &mut slice, 1, 0));
    assert_eq!((slice.x, slice.y, slice.width, slice.height), (0, 0, 2, 1));
    assert_eq!((slice.tomato_count, slice.mushroom_count), (1, 1));
    assert_eq!(occupied, vec![false, true, false, false]);
    // Grow down: claims the whole second row.
    assert!(try_expand_slice_towards(4, true, &p, &mut occupied, &mut slice, 0, 1));
    assert_eq!((slice.width, slice.height), (2, 2));
    assert_eq!((slice.tomato_count, slice.mushroom_count), (2, 2));
    assert_eq!(occupied, vec![false, true, true, true]);
}

#[test]
fn expansion_respects_bounds_budget_and_occupancy() {
    let p = pizza(&["TM", "MT"]);
    let mut occupied = vec![false, false, true, false];
    let mut slice = Slice { x: 0, y: 0, width: 1, height: 1, tomato_count: 1, mushroom_count: 0 };
    let before = slice;
    // Out of bounds on every side but right and down.
    assert!(!try_expand_slice_towards(4, true, &p, &mut occupied, &mut slice, -1, 0));
    assert!(!try_expand_slice_towards(4, true, &p, &mut occupied, &mut slice, 0, -1));
    // Down is blocked: (0, 1) is already claimed.
    assert!(!try_expand_slice_towards(4, true, &p, &mut occupied, &mut slice, 0, 1));
    // A one-cell budget refuses any growth.
    assert!(!try_expand_slice_towards(1, true, &p, &mut occupied, &mut slice, 1, 0));
    assert_eq!(slice, before);
    assert_eq!(occupied, vec![false, false, true, false]);
}

#[test]
fn diagonal_expansion_claims_a_column_and_a_row() {
    let p = pizza(&["TTT", "TMT", "TTM"]);
    let mut occupied = vec![false; 9];
    let mut slice = Slice { x: 0, y: 0, width: 1, height: 1, tomato_count: 1, mushroom_count: 0 };
    assert!(try_expand_slice_towards(9, true, &p, &mut occupied, &mut slice, 1, 1));
    assert_eq!((slice.x, slice.y, slice.width, slice.height), (0, 0, 2, 2));
    assert_eq!((slice.tomato_count, slice.mushroom_count), (3, 1));
    assert_eq!(
        occupied,
        vec![false, true, false, true, true, false, false, false, false]
    );
}

#[test]
fn seed_phase_occupancy_matches_the_slices() {
    let p = pizza(&["TMTM", "MTMT"]);
    let mut solver = PizzaSolver::new(&p, 1, 2);
    solver.find_minimal_slices();
    for y in 0..p.rows() {
        for x in 0..p.columns() {
            let covered = solver.slices.iter().any(|s| covers(s, x, y));
            assert_eq!(solver.occupied(x, y), covered);
            assert_eq!(solver.occupied[y * p.columns() + x], covered);
        }
    }
}

#[test]
fn expansion_phase_is_idempotent() {
    let p = pizza(&["TTMTT", "TMMMT", "TTMTT"]);
    let mut solver = PizzaSolver::new(&p, 1, 6);
    solver.find_minimal_slices();
    solver.expand_slices();
    let slices_once = solver.slices.clone();
    let occupied_once = solver.occupied.clone();
    solver.expand_slices();
    assert_eq!(solver.slices, slices_once);
    assert_eq!(solver.occupied, occupied_once);
}

#[test]
fn expansion_extends_seeded_slices() {
    // One tomato-mushroom pair is seeded as a domino; expansion then grows
    // it over the rest of the free cells within the budget.
    let p = pizza(&["TMTT"]);
    let slices = p.solve(1, 4);
    assert_eq!(slices.len(), 1);
    let s = &slices[0];
    assert_eq!((s.x, s.y, s.width, s.height), (0, 0, 4, 1));
    assert_eq!((s.tomato_count, s.mushroom_count), (3, 1));
}

#[test]
fn add_slice_marks_and_appends() {
    let p = pizza(&["TM"]);
    let mut solver = PizzaSolver::new(&p, 0, 2);
    let s = Slice { x: 1, y: 0, width: 1, height: 1, tomato_count: 0, mushroom_count: 1 };
    solver.add_slice(s);
    assert_eq!(solver.slices, vec![s]);
    assert!(!solver.occupied(0, 0));
    assert!(solver.occupied(1, 0));
}

#[test]
fn slice_valid_checks_both_minimums_and_the_budget() {
    let p = pizza(&["TM", "TM"]);
    let solver = PizzaSolver::new(&p, 1, 2);
    let pair = Slice { x: 0, y: 0, width: 2, height: 1, tomato_count: 1, mushroom_count: 1 };
    assert!(slice_valid(&solver, &pair));
    let lone = Slice { x: 0, y: 0, width: 1, height: 1, tomato_count: 1, mushroom_count: 0 };
    assert!(!slice_valid(&solver, &lone));
    let block = Slice { x: 0, y: 0, width: 2, height: 2, tomato_count: 2, mushroom_count: 2 };
    assert!(!slice_valid(&solver, &block));
}
