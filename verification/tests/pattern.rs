use gol::pattern::cells_from_text;

#[test]
fn empty_text_yields_no_cells() {
    assert_eq!(cells_from_text(""), Vec::new());
}

#[test]
fn single_repeated_character_yields_no_cells() {
    assert_eq!(cells_from_text("aaaa"), Vec::new());
    assert_eq!(cells_from_text("\n\n\n"), Vec::new());
}

#[test]
fn denser_character_marks_live_cells() {
    // '.' stands before 'O' in the density order, so 'O' is live
    let cells = cells_from_text(".O.\nOOO");
    assert_eq!(cells, vec![(1, 0), (0, 1), (1, 1), (2, 1)]);
}

#[test]
fn precedence_applies_whichever_character_comes_first() {
    // '#' is denser than ' ' even though '#' is seen first
    let cells = cells_from_text("#  \n ##");
    assert_eq!(cells, vec![(0, 0), (1, 1), (2, 1)]);
    // and when the text ends right after the second character, the same
    // precedence still decides
    assert_eq!(cells_from_text(".O"), vec![(1, 0)]);
}

#[test]
fn newline_can_be_the_second_character() {
    // the newline is one of the two observed characters; being absent
    // from the density order it loses, and 'O' marks live cells
    let cells = cells_from_text("OO\n.O\n");
    assert_eq!(cells, vec![(0, 0), (1, 0), (1, 1)]);
}

#[test]
fn carriage_return_line_endings_are_invisible() {
    let cells = cells_from_text(".O\r\nO.");
    assert_eq!(cells, vec![(1, 0), (0, 1)]);
}

#[test]
fn lone_carriage_return_fills_a_column() {
    let cells = cells_from_text(" #\r \n# ");
    assert_eq!(cells, vec![(1, 0), (0, 1)]);
}

#[test]
fn characters_outside_the_order_rank_lowest() {
    // '~' and '"' are both absent from the density order: no swap, the
    // first-seen character stays the live mark
    let cells = cells_from_text("~\"~");
    assert_eq!(cells, vec![(0, 0), (2, 0)]);
}
