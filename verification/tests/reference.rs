use hashlife::State;

#[test]
fn state_test_boat() {
    // Boat is constant.
    let state = State::from_str(
        "
            oo
            o o
             o
        ",
    )
    .unwrap();
    assert_eq!(state.step().normalize(), state);
}

#[test]
fn state_test_blinker() {
    // Blinker blinks with period 2.
    let state_1 = State::from_str("ooo").unwrap();
    let state_2 = State::from_str(
        "
            o
            o
            o
        ",
    )
    .unwrap();
    assert_ne!(state_1, state_2);
    assert_eq!(state_1.step().normalize(), state_2);
    assert_eq!(state_2.step().normalize(), state_1);
}

#[test]
fn state_test_glider() {
    // Test that the glider moves down and right.
    let mut state = State::from_str(
        "
             o
              o
            ooo
        ",
    )
    .unwrap();
    for i in 0..100i64 {
        state = state.step();
        let Some(((y0, _), (x0, _))) = state.span() else {
            panic!();
        };
        let (dy, dx) = (1, if i % 4 >= 2 { 1 } else { 0 });
        assert_eq!((y0, x0), (i / 4 + dy, i / 4 + dx));
    }
}
