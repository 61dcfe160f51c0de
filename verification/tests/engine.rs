use hashlife::{BasicState, HashLife, P3};

const GLIDER: [&str; 6] = [
    "
   oo       o
   o o       o
    o      ooo",
    "
   oo
   o o     o o
    o       oo
            o",
    "
   oo
   o o       o
    o      o o
            oo",
    "
   oo
   o o      o
    o        oo
            oo",
    "
   oo
   o o       o
    o         o
            ooo",
    "
   oo
   o o
    o       o o
             oo
             o",
];

const L3_CROSS: &str = "
        o      o
         o    o
          o  o
           oo
           oo
          o  o
         o    o
        o      o";

fn dedent(s: &str) -> String {
    let s = s.trim_end();
    let mut indent = usize::MAX;
    for l in s.lines() {
        let t = l.trim_start();
        if !t.is_empty() {
            let ind = l.len() - t.len();
            if ind < indent {
                indent = ind;
            }
        }
    }
    if indent == usize::MAX {
        indent = 0;
    }
    let mut out = String::new();
    let mut first = true;
    let mut started = false;
    for l in s.lines() {
        if !started && l.trim().is_empty() {
            continue;
        }
        started = true;
        if !first {
            out.push('\n');
        }
        first = false;
        let piece = if l.len() >= indent { &l[indent..] } else { "" };
        out.push_str(piece.trim_end());
    }
    out
}

#[test]
fn tests_test_boat() {
    // Boat is constant.
    let state = BasicState::from_str(
        "
            oo
            o o
             o
        ",
    )
    .unwrap();
    assert_eq!(state.step().normalize(), state);
}

#[test]
fn tests_test_blinker() {
    // Blinker blinks with period 2.
    let state_1 = BasicState::from_str("ooo").unwrap();
    let state_2 = BasicState::from_str(
        "
            o
            o
            o
        ",
    )
    .unwrap();
    assert_ne!(state_1, state_2);
    assert_eq!(state_1.step().normalize(), state_2);
    assert_eq!(state_2.step().normalize(), state_1);
}

#[test]
fn test_glider() {
    // Test a boat + glider combo
    for w in GLIDER.windows(2) {
        let a = BasicState::from_str(w[0]).unwrap().step().normalize();
        let b = BasicState::from_str(w[1]).unwrap();
        assert_eq!(a, b);
    }
}

#[test]
fn tests_test_single() {
    let a = HashLife::from_str("o").unwrap();
    let b = HashLife::from_str("o").unwrap();
    assert!(a.eq(&b));
}

#[test]
fn tests_test_from_depth_3() {
    let hl = HashLife::from_str(L3_CROSS).unwrap();
    assert_eq!(hl.depth, 3);
    assert_eq!(hl.to_string(), dedent(L3_CROSS));
}

#[test]
fn tests_test_reframe() {
    let HashLife {
        mut universe, root, ..
    } = HashLife::from_str(L3_CROSS).unwrap();
    let root = universe.reframe(root, P3::new(1, 1, 3), 2);
    let hl = HashLife {
        root,
        universe,
        depth: 2,
    };
    let expected = dedent(
        "
           oo
           oo
             o
              o",
    );
    assert_eq!(hl.to_string(), expected);
}

#[test]
fn tests_test_single_step() {
    let mut hl = HashLife::from_str("ooo").unwrap();
    assert_eq!(hl.depth, 2);
    hl.step(0);
    assert_eq!(hl.to_string(), "o\no\no");
}

#[test]
fn tests_test_glider() {
    // Test a boat + glider combo
    for w in GLIDER.windows(2) {
        let mut a = HashLife::from_str(w[0]).unwrap();
        a.step(0);
        assert_eq!(a.to_string(), dedent(w[1]));
    }
}

#[test]
fn tests_test_glider_superspeed() {
    // Test that advancing once in a big step is the same as doing a small
    // step several times.
    let mut a = HashLife::from_str(GLIDER[0]).unwrap();
    let mut b = a.clone();
    let log2_steps = 6;
    a.step(log2_steps);
    for _ in 0..1 << log2_steps {
        b.step(0);
    }
    assert_eq!(a.to_state().normalize(), b.to_state().normalize());
}

#[test]
fn test_glider_pop() {
    // Test population is maintained over many steps.
    let mut a = HashLife::from_str(GLIDER[0]).unwrap();
    let pop1 = a.universe.population(a.root);
    a.step(50);
    a.step(50);
    let pop2 = a.universe.population(a.root);
    assert_eq!(pop1, pop2);
}
