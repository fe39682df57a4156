use setreplace::{parse_state, Pcg32, Rule};

#[test]
fn deterministic_for_seed() {
    let mut a = Pcg32::new(42);
    let mut b = Pcg32::new(42);
    for _ in 0..100 {
        assert_eq!(a.next_u32(), b.next_u32());
    }
}

#[test]
fn gen_index_in_range() {
    let mut rng = Pcg32::new(7);
    for n in 1..50 {
        for _ in 0..100 {
            assert!(rng.gen_index(n) < n);
        }
    }
}

#[test]
fn parses_growth_rule() {
    let r = Rule::parse("{{x, y}} -> {{x, y}, {y, z}}").unwrap();
    assert_eq!(r.inputs, vec![vec![-1, -2]]);
    assert_eq!(r.outputs, vec![vec![-1, -2], vec![-2, -3]]);
}

#[test]
fn parses_blank_pattern_syntax() {
    let r = Rule::parse("{{a_, b_}, {b_, c_}} :> {{a, c}}").unwrap();
    assert_eq!(r.inputs, vec![vec![-1, -2], vec![-2, -3]]);
    assert_eq!(r.outputs, vec![vec![-1, -3]]);
}

#[test]
fn integers_are_concrete() {
    let r = Rule::parse("{{1}, {2}} -> {{3}}").unwrap();
    assert_eq!(r.inputs, vec![vec![1], vec![2]]);
    assert_eq!(r.outputs, vec![vec![3]]);
}

#[test]
fn parses_empty_output() {
    let r = Rule::parse("{{x, y}} -> {}").unwrap();
    assert_eq!(r.inputs, vec![vec![-1, -2]]);
    assert!(r.outputs.is_empty());
}

#[test]
fn parses_state() {
    assert_eq!(
        parse_state("{{1, 2}, {2, 3}}").unwrap(),
        vec![vec![1, 2], vec![2, 3]]
    );
}

#[test]
fn rejects_empty_inputs() {
    assert!(Rule::parse("{} -> {{1, 2}}").is_err());
}
