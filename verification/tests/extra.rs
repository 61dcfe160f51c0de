use hashlife::{BasicState, HashLife, State, Tree, TreeRef, Universe};

#[test]
fn parse_rejects_unexpected_character() {
    let r = State::from_str("oxo");
    assert!(r.is_err());
    assert_eq!(r.unwrap_err(), "Unexpected character x");
    assert!(BasicState::from_str("o?o").is_err());
    assert!(HashLife::from_str("o!").is_err());
}

#[test]
fn parse_accepts_only_marks_spaces_and_newlines() {
    assert!(State::from_str("").is_ok());
    assert!(State::from_str("   \n \n").is_ok());
    assert!(State::from_str("o o\n  o").is_ok());
}

#[test]
fn parse_accepts_two_character_line_breaks() {
    let a = State::from_str("oo\r\no o").unwrap();
    let b = State::from_str("oo\no o").unwrap();
    assert_eq!(a, b);
    // a carriage return that is not part of a line break is an error
    let e = State::from_str("o\ro");
    assert!(e.is_err());
    assert!(State::from_str("o\r").is_err());
}

#[test]
fn cells_round_trip_exactly() {
    // Building a world from a cell list and iterating it gives the list back.
    let cells = vec![(0i64, 0i64), (5, 3), (-2, -7), (31, -1)];
    let hl = HashLife::from_cells(&cells);
    let mut out = hl.to_cells();
    out.sort();
    let mut expected = cells.clone();
    expected.sort();
    assert_eq!(out, expected);
}

#[test]
fn canonical_handles_are_shared() {
    // Interning the same value twice gives the same handle.
    let mut u = Universe::new();
    let e0 = u.empty_tree(0);
    let a = u.canonicalise(Tree::Branch { nw: e0, ne: e0, sw: e0, se: e0 });
    let b = u.canonicalise(Tree::Branch { nw: e0, ne: e0, sw: e0, se: e0 });
    assert_eq!(a, b);
    assert_eq!(a, u.empty_tree(1));
}

#[test]
fn expanding_the_empty_tree_is_the_empty_tree() {
    let mut u = Universe::new();
    let e2 = u.empty_tree(2);
    let r = u.expand_universe(2, e2);
    let e3 = u.empty_tree(3);
    assert_eq!(r, e3);
    assert_eq!(u.population(r), 0);
}

#[test]
fn population_counts_live_cells() {
    let boat = HashLife::from_str(
        "
        oo
        o o
         o",
    )
    .unwrap();
    assert_eq!(boat.universe.population(boat.root), 5);
    let empty = HashLife::new();
    assert_eq!(empty.universe.population(empty.root), 0);
}

#[test]
fn blinker_population_is_conserved_over_a_period() {
    // A period-two oscillator returns to its population (here: always 3).
    let mut hl = HashLife::from_str("ooo").unwrap();
    let p0 = hl.universe.population(hl.root);
    hl.step(0);
    let p1 = hl.universe.population(hl.root);
    hl.step(0);
    let p2 = hl.universe.population(hl.root);
    assert_eq!(p0, 3);
    assert_eq!(p1, 3);
    assert_eq!(p2, 3);
}

#[test]
fn display_is_sorted_into_reading_order() {
    // Inserting cells in scrambled order must not scramble the text.
    let mut st = State::new();
    st.set_bit((1, 1));
    st.set_bit((0, 1));
    st.set_bit((1, 0));
    st.set_bit((0, 0));
    assert_eq!(st.to_string(), "oo\noo");
    let mut tall = State::new();
    tall.set_bit((2, 0));
    tall.set_bit((0, 0));
    assert_eq!(tall.to_string(), "o\n\no");
}

#[test]
fn span_finds_the_bounding_box() {
    let mut st = State::new();
    st.set_bit((5, 7));
    st.set_bit((3, 4));
    assert_eq!(st.span(), Some(((3, 6), (4, 8))));
    let empty = State::new();
    assert_eq!(empty.span(), None);
}

#[test]
fn parse_then_display_round_trips() {
    // A normalised plain-text pattern survives parse and display.
    let p = "oo\no o\n o";
    assert_eq!(State::from_str(p).unwrap().to_string(), p);
    let q = "o  o\n\no  o";
    assert_eq!(State::from_str(q).unwrap().to_string(), q);
}

#[test]
fn set_bit_and_get_bit_agree() {
    let mut hl = HashLife::new();
    hl.set_bit((0, 0));
    hl.set_bit((-3, 2));
    assert!(hl.get_bit((0, 0)));
    assert!(hl.get_bit((-3, 2)));
    assert!(!hl.get_bit((1, 1)));
    assert!(!hl.get_bit((2, -3)));
}

#[test]
fn block_population_reads_subtree_counts() {
    let boat = HashLife::from_str(
        "
        oo
        o o
         o",
    )
    .unwrap();
    // descending zero levels reads the whole world
    assert_eq!(boat.block_population(0, 0, 0), 5);
    // outside the world there is nothing
    assert_eq!(boat.block_population(100, 100, 2), 0);
}

#[test]
fn empty_world_renders_and_iterates_empty() {
    let hl = HashLife::new();
    assert_eq!(hl.to_string(), "");
    assert_eq!(hl.to_cells(), Vec::<(i64, i64)>::new());
    let mut hl2 = hl.clone();
    hl2.step(3);
    assert_eq!(hl2.to_cells(), Vec::<(i64, i64)>::new());
}

#[test]
fn reference_step_matches_engine_step() {
    // One generation of the counting reference equals one engine step.
    let p = "
         o
          o
        ooo";
    let st = State::from_str(p).unwrap();
    let mut hl = HashLife::from_state(&st);
    hl.step(0);
    assert_eq!(hl.to_state().normalize(), st.step().normalize());
}

#[test]
fn superspeed_key_keeps_mixed_step_sizes_sound() {
    // Interleaving different step sizes on one universe must agree with a
    // world stepped in another order: 2^2 + 2^0 + 2^0 + 2^1 = 8 = 2^3.
    let p = "
         o
          o
        ooo";
    let mut a = HashLife::from_state(&State::from_str(p).unwrap());
    let mut b = a.clone();
    a.step(2);
    a.step(0);
    a.step(0);
    a.step(1);
    b.step(3);
    assert_eq!(a.to_state().normalize(), b.to_state().normalize());
}

#[test]
fn equality_checks_depth_and_cells() {
    let mut a = HashLife::from_str("oo").unwrap();
    let b = HashLife::from_str("oo").unwrap();
    let c = HashLife::from_str("o o").unwrap();
    assert!(a.eq(&b));
    assert!(!a.eq(&c));
    // growing the world changes its current depth, and equality sees that
    a.expand();
    assert!(!a.eq(&b));
}

#[test]
fn reference_equality_is_set_equality() {
    let mut a = State::new();
    a.set_bit((0, 0));
    a.set_bit((1, 2));
    let mut b = State::new();
    b.set_bit((1, 2));
    b.set_bit((0, 0));
    b.set_bit((1, 2));
    assert_eq!(a, b);
    b.set_bit((4, 4));
    assert_ne!(a, b);
}
