use hashlife::{HashLife, P3, State};

const GLIDER_COMBO: &str = "
   oo       o
   o o       o
    o      ooo";

const GLIDER_STATES: [&str; 6] = [
    "
   oo       o
   o o       o
    o      ooo",
    "
   oo
   o o     o o
    o       oo
            o",
    "
   oo
   o o       o
    o      o o
            oo",
    "
   oo
   o o      o
    o        oo
            oo",
    "
   oo
   o o       o
    o         o
            ooo",
    "
   oo
   o o
    o       o o
             oo
             o",
];

const L3_CROSS: &str = "
        o      o
         o    o
          o  o
           oo
           oo
          o  o
         o    o
        o      o";

#[test]
fn hashlife_test_single() {
    let state = State::from_str("o").unwrap();
    let hls = HashLife::from_state(&state);
    assert_eq!(hls.to_state().normalize(), state);
}

#[test]
fn hashlife_test_from_depth_3() {
    let state = State::from_str(L3_CROSS).unwrap();
    let hls = HashLife::from_state(&state);
    assert_eq!(hls.depth, 3);
    assert_eq!(hls.to_state().normalize(), state);
}

#[test]
fn hashlife_test_reframe() {
    let HashLife {
        mut universe, root, ..
    } = HashLife::from_state(&State::from_str(L3_CROSS).unwrap());
    let root = universe.reframe(root, P3::new(1, 1, 3), 2);
    let hls = HashLife {
        root,
        universe,
        depth: 2,
    };
    let state = State::from_str(
        "
           oo
           oo
             o
              o",
    )
    .unwrap();
    assert_eq!(hls.to_state().normalize(), state);
}

#[test]
fn hashlife_test_single_step() {
    let state = State::from_str("ooo").unwrap();
    let mut hls = HashLife::from_state(&state);
    assert_eq!(hls.depth, 2);
    hls.step(0);
    let expected = State::from_str(
        "
            o
            o
            o",
    )
    .unwrap();
    assert_eq!(hls.to_state().normalize(), expected);
}

#[test]
fn hashlife_test_glider() {
    // Test a boat + glider combo
    for w in GLIDER_STATES.windows(2) {
        let mut a = HashLife::from_state(&State::from_str(w[0]).unwrap());
        a.step(0);
        let b = State::from_str(w[1]).unwrap();
        assert_eq!(a.to_state().normalize(), b);
    }
}

#[test]
fn hashlife_test_glider_superspeed() {
    // Test that advancing once in a big step is the same as doing a small
    // step several times.
    let mut a = HashLife::from_state(&State::from_str(GLIDER_STATES[0]).unwrap());
    let mut b = a.clone();
    let log2_steps = 6;
    a.step(log2_steps);
    let a = a.to_state().normalize();
    for _ in 0..1 << log2_steps {
        b.step(0);
    }
    assert_eq!(a, b.to_state().normalize());
}

#[test]
fn test_glider_deep() {
    // Test that advancing once in a big step is the same as doing a small
    // step several times.
    let mut a = HashLife::from_state(&State::from_str(GLIDER_COMBO).unwrap());
    a.step(1_000);
}
