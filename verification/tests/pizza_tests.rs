use pizza_slicer::pizza::{Ingredient, InputError, Pizza};

fn cell(c: char) -> Ingredient {
    Ingredient::from_char(c).unwrap()
}

fn field(rows: &[&str]) -> Vec<Vec<Ingredient>> {
    rows.iter().map(|row| row.chars().map(cell).collect()).collect()
}

fn pizza(rows: &[&str]) -> Pizza {
    Pizza::new(field(rows)).unwrap()
}

#[test]
fn from_char_accepts_the_two_ingredients() {
    assert_eq!(Ingredient::from_char('T'), Ok(Ingredient::Tomato));
    assert_eq!(Ingredient::from_char('M'), Ok(Ingredient::Mushroom));
}

#[test]
fn from_char_rejects_anything_else() {
    assert_eq!(Ingredient::from_char('x'), Err(InputError::InvalidCharacter));
    assert_eq!(Ingredient::from_char(' '), Err(InputError::InvalidCharacter));
    assert_eq!(Ingredient::from_char('t'), Err(InputError::InvalidCharacter));
}

#[test]
fn new_records_the_dimensions() {
    let p = pizza(&["TMT", "MTM"]);
    assert_eq!(p.rows(), 2);
    assert_eq!(p.columns(), 3);
    assert_eq!(p.total_ingredients(), 6);
}

#[test]
fn new_rejects_an_empty_grid() {
    assert!(matches!(Pizza::new(vec![]), Err(InputError::MalformedInput)));
}

#[test]
fn new_rejects_an_empty_row() {
    assert!(matches!(
        Pizza::new(vec![vec![]]),
        Err(InputError::MalformedInput)
    ));
}

#[test]
fn new_rejects_ragged_rows() {
    let ragged = vec![
        vec![Ingredient::Tomato, Ingredient::Mushroom],
        vec![Ingredient::Tomato],
    ];
    assert!(matches!(Pizza::new(ragged), Err(InputError::MalformedInput)));
}

#[test]
fn at_reads_by_column_then_row() {
    let p = pizza(&["TMT", "MMM"]);
    assert_eq!(p.at(0, 0), Ingredient::Tomato);
    assert_eq!(p.at(1, 0), Ingredient::Mushroom);
    assert_eq!(p.at(2, 0), Ingredient::Tomato);
    assert_eq!(p.at(0, 1), Ingredient::Mushroom);
}

#[test]
fn each_yields_cells_in_row_major_order() {
    let p = pizza(&["TM", "MT"]);
    let cells = p.each();
    assert_eq!(
        cells,
        vec![
            (Ingredient::Tomato, 0, 0),
            (Ingredient::Mushroom, 1, 0),
            (Ingredient::Mushroom, 0, 1),
            (Ingredient::Tomato, 1, 1),
        ]
    );
}

#[test]
fn count_rect_counts_both_ingredients() {
    let p = pizza(&["TMT", "MMM"]);
    assert_eq!(p.count_rect(0, 3, 0, 2), (2, 4));
    assert_eq!(p.count_rect(0, 2, 0, 1), (1, 1));
    assert_eq!(p.count_rect(1, 2, 1, 2), (0, 1));
    assert_eq!(p.count_rect(1, 1, 0, 2), (0, 0));
}

#[test]
fn less_present_ingredient_picks_the_rarer_type() {
    assert_eq!(
        pizza(&["TMM", "MMM"]).less_present_ingredient(),
        Ingredient::Tomato
    );
    assert_eq!(
        pizza(&["TTT", "TTM"]).less_present_ingredient(),
        Ingredient::Mushroom
    );
}

#[test]
fn less_present_ingredient_ties_go_to_mushroom() {
    assert_eq!(pizza(&["TM"]).less_present_ingredient(), Ingredient::Mushroom);
}
