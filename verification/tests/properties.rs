//! Library-wide properties on concrete values, error paths and formats.

use std::collections::HashMap;

use setreplace::{
    canonical_integer_form, enumerate_rules, parse_state, readme_style_labels, vertex_list, Connectivity,
    EnumerationOptions, Error, HypergraphSystem, Rule, RuleSignature, StepSpec,
};

type IntRule = (Vec<Vec<i64>>, Vec<Vec<i64>>);

fn path_contraction() -> HypergraphSystem {
    let rule = Rule::parse("{{x, y}, {y, z}} -> {{x, z}}").unwrap();
    let mut system = HypergraphSystem::new(vec![rule], parse_state("{{1, 2}, {2, 3}, {3, 4}}").unwrap()).unwrap();
    system.evolve(&StepSpec::default()).unwrap();
    system
}

fn growth(generations: u64) -> HypergraphSystem {
    let rule = Rule::parse("{{x, y}} -> {{x, y}, {y, z}}").unwrap();
    let mut system = HypergraphSystem::new(vec![rule], parse_state("{{1, 1}}").unwrap()).unwrap();
    system.evolve(&StepSpec::generations(generations)).unwrap();
    system
}

fn enumerate_with(inputs: &[(usize, usize)], outputs: &[(usize, usize)], options: &EnumerationOptions) -> Vec<IntRule> {
    enumerate_rules(
        &RuleSignature {
            inputs: inputs.to_vec(),
            outputs: outputs.to_vec(),
        },
        options,
    )
    .unwrap()
    .iter()
    .map(canonical_integer_form)
    .collect()
}

#[test]
fn final_state_is_state_after_last_event() {
    for system in [path_contraction(), growth(3)] {
        assert_eq!(system.final_state(), system.state_after_event(system.events_count()));
    }
}

#[test]
fn states_by_event_are_states_after_each_event() {
    let system = growth(2);
    let states = system.states_by_event();
    assert_eq!(states.len(), system.events_count() + 1);
    for (k, state) in states.iter().enumerate() {
        assert_eq!(state, &system.state_after_event(k));
    }
    assert_eq!(states[0], vec![vec![1, 1]]);
}

#[test]
fn state_past_last_generation_is_final() {
    let system = growth(3);
    let last = system.generations_count();
    assert_eq!(last, 3);
    for g in last..last + 3 {
        assert_eq!(system.state_at_generation(g), system.final_state());
    }
    assert_eq!(system.state_at_generation(0), vec![vec![1, 1]]);
}

#[test]
fn causal_edges_go_forward() {
    let system = growth(4);
    let n = system.events().len();
    for include_initial in [false, true] {
        for (from, to) in system.causal_graph_edges(include_initial) {
            assert!(from < to && to < n);
        }
    }
}

#[test]
fn causal_graph_dot_text() {
    let system = path_contraction();
    assert_eq!(system.events_count(), 2);
    assert_eq!(
        system.causal_graph_dot(false),
        "digraph causal {\n  e1 [label=\"e1 (rule 0)\"];\n  e2 [label=\"e2 (rule 0)\"];\n  e1 -> e2;\n}\n"
    );
    assert_eq!(
        system.causal_graph_dot(true),
        "digraph causal {\n  e0 [label=\"e0 (init)\"];\n  e1 [label=\"e1 (rule 0)\"];\n  e2 [label=\"e2 (rule 0)\"];\n  e0 -> e1;\n  e0 -> e1;\n  e0 -> e2;\n  e1 -> e2;\n}\n"
    );
}

#[test]
fn vertex_list_in_order_of_first_appearance() {
    let edges = vec![vec![3, 1], vec![1, 2], vec![2, 3, 5], vec![5]];
    assert_eq!(vertex_list(&edges), vec![3, 1, 2, 5]);
    assert_eq!(vertex_list(&[]), Vec::<i64>::new());
}

#[test]
fn readme_labels_name_generated_vertices() {
    let labels = readme_style_labels(&[vec![1, 9], vec![9, 10], vec![1]], 9);
    let mut expected = HashMap::new();
    expected.insert(1, "1".to_string());
    expected.insert(9, "v9".to_string());
    expected.insert(10, "v10".to_string());
    assert_eq!(labels, expected);
    let negative = readme_style_labels(&[vec![-12, 0]], 100);
    assert_eq!(negative[&-12], "-12");
    assert_eq!(negative[&0], "0");
}

#[test]
fn enumeration_rejects_zero_arity() {
    let r = enumerate_rules(
        &RuleSignature {
            inputs: vec![(1, 2)],
            outputs: vec![(1, 0)],
        },
        &EnumerationOptions::default(),
    );
    assert_eq!(r, Err(Error::InvalidRule("signature arities must be at least 1".to_string())));
}

#[test]
fn enumeration_rejects_empty_inputs() {
    for inputs in [vec![], vec![(0, 2)]] {
        let r = enumerate_rules(
            &RuleSignature {
                inputs,
                outputs: vec![(1, 2)],
            },
            &EnumerationOptions::default(),
        );
        assert_eq!(r, Err(Error::InvalidRule("signature must have at least one input edge".to_string())));
    }
}

#[test]
fn enumeration_connectivity_and_element_limit() {
    let same: IntRule = (vec![vec![1]], vec![vec![1]]);
    let fresh: IntRule = (vec![vec![1]], vec![vec![2]]);
    let unconstrained = EnumerationOptions {
        connectivity: Connectivity::NoConstraint,
        max_elements: None,
    };
    assert_eq!(enumerate_with(&[(1, 1)], &[(1, 1)], &unconstrained), vec![same.clone(), fresh]);
    assert_eq!(
        enumerate_with(&[(1, 1)], &[(1, 1)], &EnumerationOptions::default()),
        vec![same.clone()]
    );
    let one_element = EnumerationOptions {
        connectivity: Connectivity::NoConstraint,
        max_elements: Some(1),
    };
    assert_eq!(enumerate_with(&[(1, 1)], &[(1, 1)], &one_element), vec![same]);
}

#[test]
fn enumeration_all_connected_excludes_split_outputs() {
    let all = EnumerationOptions {
        connectivity: Connectivity::All,
        max_elements: None,
    };
    let left = EnumerationOptions::default();
    let with_all = enumerate_with(&[(1, 2)], &[(2, 2)], &all);
    let with_left = enumerate_with(&[(1, 2)], &[(2, 2)], &left);
    assert!(with_all.len() < with_left.len());
    assert!(!with_all.contains(&(vec![vec![1, 2]], vec![vec![1, 1], vec![2, 2]])));
    assert!(with_left.contains(&(vec![vec![1, 2]], vec![vec![1, 1], vec![2, 2]])));
}

#[test]
fn error_messages() {
    assert_eq!(Error::NonPositiveAtoms.message(), "initial-state atoms must be positive integers");
    assert_eq!(
        Error::DisconnectedInputs.message(),
        "rule inputs do not form a connected hypergraph (not supported)"
    );
    assert_eq!(Error::AtomCountOverflow.message(), "ran out of atom names");
    assert_eq!(Error::InvalidRule("x".to_string()).message(), "invalid rule: x");
    assert_eq!(Error::Parse("y".to_string()).message(), "parse error: y");
}

#[test]
fn step_spec_constructors() {
    let e = StepSpec::events(5);
    assert_eq!(e.max_events, Some(5));
    assert_eq!(e.max_generations, None);
    let g = StepSpec::generations(7);
    assert_eq!(g.max_generations, Some(7));
    assert_eq!(g.max_events, None);
    let d = StepSpec::default();
    assert_eq!(d.max_events, None);
    assert_eq!(d.max_generations, None);
    assert_eq!(d.max_vertices, None);
    assert_eq!(d.max_vertex_degree, None);
    assert_eq!(d.max_edges, None);
}

#[test]
fn default_ordering_is_seed_independent() {
    let run = |seed: u64| {
        let rule = Rule::parse("{{x, y}, {y, z}} -> {{x, z}, {z, w}}").unwrap();
        let mut system = HypergraphSystem::with_options(
            vec![rule],
            parse_state("{{1, 2}, {2, 3}, {3, 4}, {4, 1}}").unwrap(),
            setreplace::EvolutionOptions {
                event_ordering: setreplace::default_event_ordering(),
                random_seed: seed,
            },
        )
        .unwrap();
        system.evolve(&StepSpec::events(12)).unwrap();
        (system.tokens().to_vec(), system.events().to_vec())
    };
    assert_eq!(run(1), run(2));
    assert_eq!(run(3), run(12345));
}

#[test]
fn atom_count_overflow_reported() {
    let rule = Rule::parse("{{x}} -> {{x, y}}").unwrap();
    let mut system = HypergraphSystem::new(vec![rule], vec![vec![i64::MAX - 1]]).unwrap();
    assert_eq!(system.evolve(&StepSpec::events(1)), Err(Error::AtomCountOverflow));
    assert_eq!(system.events_count(), 0);
    assert_eq!(system.final_state(), vec![vec![i64::MAX - 1]]);
}

#[test]
fn connected_rules_never_report_disconnected_inputs() {
    let rule = Rule::parse("{{x, y}, {y, z}, {z, 1}} -> {{x, 1}}").unwrap();
    let mut system =
        HypergraphSystem::new(vec![rule], parse_state("{{5, 6}, {6, 7}, {7, 1}, {2, 3}}").unwrap()).unwrap();
    assert_eq!(system.evolve(&StepSpec::default()), Ok(1));
    assert_eq!(system.final_state(), vec![vec![2, 3], vec![5, 1]]);
}

#[test]
fn generation_limit_bounds_every_event() {
    let system = growth(3);
    assert!(system.events().iter().all(|e| e.generation <= 3));
    assert_eq!(system.generations_count(), 3);
    assert_eq!(system.termination_reason(), setreplace::TerminationReason::MaxGenerations);
}

#[test]
fn raising_the_generation_limit_resumes_and_still_bounds() {
    let mut system = growth(1);
    system.evolve(&StepSpec::generations(2)).unwrap();
    assert!(system.events().iter().all(|e| e.generation <= 2));
    assert_eq!(system.generations_count(), 2);
}

#[test]
fn lowering_the_generation_limit_keeps_matchable_tokens() {
    let rule = Rule::parse("{{x, y}} -> {{x, y}, {y, z}}").unwrap();
    let mut system = HypergraphSystem::new(vec![rule], parse_state("{{1, 1}}").unwrap()).unwrap();
    let mut first = StepSpec::generations(5);
    first.max_events = Some(2);
    system.evolve(&first).unwrap();
    assert_eq!(system.events().len(), 3);
    system.evolve(&StepSpec::generations(1)).unwrap();
    assert!(system.events().len() > 3);
    assert!(system.events()[3..].iter().all(|e| e.generation >= 2));
}

#[test]
fn tokens_come_from_their_creators() {
    for system in [path_contraction(), growth(3)] {
        for (t, token) in system.tokens().iter().enumerate() {
            let creator = &system.events()[token.creator_event];
            assert!(creator.outputs.contains(&t));
            assert_eq!(creator.generation, token.generation);
        }
    }
}

#[test]
fn generation_zero_is_initial_state() {
    for system in [path_contraction(), growth(3)] {
        assert_eq!(system.events()[0].generation, 0);
        assert!(system.events()[1..].iter().all(|e| e.generation >= 1));
        assert_eq!(system.state_at_generation(0), system.state_after_event(0));
    }
    assert_eq!(growth(2).state_at_generation(0), vec![vec![1, 1]]);
}

#[test]
fn each_event_replaces_its_inputs_by_its_outputs() {
    for system in [path_contraction(), growth(3)] {
        let tokens = system.tokens();
        for k in 1..=system.events_count() {
            let event = &system.events()[k];
            let mut expected: Vec<Vec<i64>> = system.state_after_event(k - 1);
            for input in &event.inputs {
                let at = expected.iter().position(|e| *e == tokens[*input].atoms).unwrap();
                expected.remove(at);
            }
            for output in &event.outputs {
                expected.push(tokens[*output].atoms.clone());
            }
            let mut actual = system.state_after_event(k);
            expected.sort();
            actual.sort();
            assert_eq!(actual, expected);
        }
    }
}

#[test]
fn run_uses_fresh_atoms_without_gaps() {
    let system = growth(5);
    let mut atoms: Vec<i64> = system.tokens().iter().flat_map(|t| t.atoms.clone()).collect();
    atoms.sort();
    atoms.dedup();
    assert_eq!(atoms, (1..=32).collect::<Vec<i64>>());
}
