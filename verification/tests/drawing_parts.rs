//! The discrete parts of drawing, rule notation and names, on concrete values.

use std::collections::HashMap;

use setreplace::distance::pseudo_diameter_hops;
use setreplace::drawing::{
    components, drawn_segments, group_members, hash_salt, hex_color, layers_by_generation,
    layout_springs, occurrence_ranks, pair_salt,
};
use setreplace::names::{rule_from_named, NamedAtom};
use setreplace::notation::rule_text;
use setreplace::{OrderingFunction, Rule, TerminationReason};

#[test]
fn layout_springs_close_each_edge() {
    let edges = vec![vec![10, 20, 30], vec![20, 20], vec![30, 10], vec![40]];
    let index: HashMap<i64, usize> = [(10, 0), (20, 1), (30, 2), (40, 3)].into_iter().collect();
    assert_eq!(
        layout_springs(&edges, &index),
        vec![(0, 1), (1, 2), (2, 0), (2, 0), (0, 2)]
    );
}

#[test]
fn drawn_segments_are_consecutive_pairs() {
    let edges = vec![vec![1, 2, 3], vec![4], vec![], vec![5, 5]];
    assert_eq!(drawn_segments(&edges), vec![(1, 2), (2, 3), (5, 5)]);
}

#[test]
fn occurrence_ranks_number_equal_keys() {
    let keys = vec![(1, 2), (3, 4), (1, 2), (1, 2), (3, 4), (5, 6)];
    assert_eq!(
        occurrence_ranks(&keys),
        vec![(0, 3), (0, 2), (1, 3), (2, 3), (1, 2), (0, 1)]
    );
    assert_eq!(occurrence_ranks(&[]), Vec::<(usize, usize)>::new());
}

#[test]
fn layers_group_events_by_generation() {
    let generations = vec![0, 1, 1, 2, 1, 3];
    assert_eq!(
        layers_by_generation(&generations, 1),
        vec![vec![1, 2, 4], vec![3], vec![5]]
    );
    assert_eq!(
        layers_by_generation(&generations, 0),
        vec![vec![0], vec![1, 2, 4], vec![3], vec![5]]
    );
    let gap = vec![1, 3];
    assert_eq!(layers_by_generation(&gap, 0), vec![vec![0], vec![], vec![1]]);
}

#[test]
fn components_numbered_by_first_vertex() {
    let springs = vec![(4, 1), (2, 5), (1, 3)];
    assert_eq!(components(6, &springs), vec![0, 1, 2, 1, 1, 2]);
    assert_eq!(components(3, &[]), vec![0, 1, 2]);
    assert_eq!(components(0, &[]), Vec::<usize>::new());
    let chain: Vec<(usize, usize)> = (0..9).map(|i| (9 - i, 8 - i)).collect();
    assert_eq!(components(10, &chain), vec![0; 10]);
}

#[test]
fn hex_color_codes() {
    assert_eq!(hex_color(168, 181, 227), "#a8b5e3");
    assert_eq!(hex_color(0, 9, 255), "#0009ff");
}

#[test]
fn rule_text_writes_variables_and_atoms() {
    let rule = Rule::parse("{{x, y}} -> {{x, y}, {y, z}}").unwrap();
    assert_eq!(rule_text(&rule), "{{x1, x2}} -> {{x1, x2}, {x2, x3}}");
    let concrete = Rule::parse("{{1}, {2}} -> {}").unwrap();
    assert_eq!(rule_text(&concrete), "{{1}, {2}} -> {}");
    let mixed = Rule::new(vec![vec![-12, 7]], vec![vec![]]).unwrap();
    assert_eq!(rule_text(&mixed), "{{x12, 7}} -> {{}}");
}

#[test]
fn ordering_names_round_trip() {
    for (name, f) in [
        ("OldestEdge", OrderingFunction::OldestEdge),
        ("LeastOldEdge", OrderingFunction::LeastOldEdge),
        ("LeastRecentEdge", OrderingFunction::LeastRecentEdge),
        ("NewestEdge", OrderingFunction::NewestEdge),
        ("RuleOrdering", OrderingFunction::RuleOrdering),
        ("ReverseRuleOrdering", OrderingFunction::ReverseRuleOrdering),
        ("RuleIndex", OrderingFunction::RuleIndex),
        ("ReverseRuleIndex", OrderingFunction::ReverseRuleIndex),
        ("Random", OrderingFunction::Random),
        ("Any", OrderingFunction::Any),
    ] {
        assert_eq!(OrderingFunction::from_name(&name.to_string()), Some(f));
    }
    assert_eq!(OrderingFunction::from_name(&"oldestEdge".to_string()), None);
    assert_eq!(OrderingFunction::from_name(&String::new()), None);
}

#[test]
fn termination_reason_names() {
    assert_eq!(TerminationReason::NotTerminated.name(), "NotTerminated");
    assert_eq!(TerminationReason::MaxEvents.name(), "MaxEvents");
    assert_eq!(TerminationReason::MaxGenerations.name(), "MaxGenerations");
    assert_eq!(TerminationReason::MaxVertices.name(), "MaxVertices");
    assert_eq!(TerminationReason::MaxVertexDegree.name(), "MaxVertexDegree");
    assert_eq!(TerminationReason::MaxEdges.name(), "MaxEdges");
    assert_eq!(TerminationReason::FixedPoint.name(), "FixedPoint");
}

#[test]
fn named_variables_numbered_by_first_appearance() {
    let v = |s: &str| NamedAtom::Variable(s.to_string());
    let inputs = vec![vec![v("y"), v("x")], vec![NamedAtom::Atom(5), v("y")]];
    let outputs = vec![vec![v("z"), v("x"), NamedAtom::Atom(7)]];
    let rule = rule_from_named(&inputs, &outputs).unwrap();
    assert_eq!(rule.inputs, vec![vec![-1, -2], vec![5, -1]]);
    assert_eq!(rule.outputs, vec![vec![-3, -2, 7]]);
    let parsed = Rule::parse("{{y, x}, {5, y}} -> {{z, x, 7}}").unwrap();
    assert_eq!(rule, parsed);
    assert!(matches!(
        rule_from_named(&vec![], &outputs),
        Err(setreplace::Error::InvalidRule(_))
    ));
    assert!(matches!(
        rule_from_named(&vec![vec![NamedAtom::Atom(0)]], &vec![]),
        Err(setreplace::Error::InvalidRule(_))
    ));
}

#[test]
fn pseudo_diameter_of_a_path() {
    assert_eq!(pseudo_diameter_hops(4, &[(0, 1), (1, 2), (2, 3)]), 3);
    assert_eq!(pseudo_diameter_hops(4, &[(2, 3), (0, 1), (1, 2)]), 3);
}

#[test]
fn pseudo_diameter_second_sweep_starts_far_away() {
    let springs = [(0, 1), (1, 2), (0, 3), (3, 4), (4, 5)];
    assert_eq!(pseudo_diameter_hops(6, &springs), 5);
}

#[test]
fn pseudo_diameter_sweeps_again_from_the_first_farthest_vertex() {
    // Vertices 1 and 3 are both two hops from 0; the search finds 3 first,
    // whose eccentricity (2) is below that of 1 (3).
    let springs = [(2, 3), (4, 0), (0, 2), (3, 4), (2, 1)];
    assert_eq!(pseudo_diameter_hops(6, &springs), 2);
}

#[test]
fn pseudo_diameter_of_star_and_cycle() {
    assert_eq!(pseudo_diameter_hops(5, &[(0, 1), (0, 2), (0, 3), (0, 4)]), 2);
    let cycle = [(0, 1), (1, 2), (2, 3), (3, 4), (4, 5), (5, 0)];
    assert_eq!(pseudo_diameter_hops(6, &cycle), 3);
}

#[test]
fn pseudo_diameter_is_at_least_one() {
    assert_eq!(pseudo_diameter_hops(0, &[]), 1);
    assert_eq!(pseudo_diameter_hops(1, &[]), 1);
    assert_eq!(pseudo_diameter_hops(5, &[]), 1);
    assert_eq!(pseudo_diameter_hops(3, &[(1, 1), (1, 2)]), 1);
}

#[test]
fn pseudo_diameter_stays_in_the_component_of_vertex_zero() {
    let springs = [(0, 1), (2, 3), (3, 4), (4, 5)];
    assert_eq!(pseudo_diameter_hops(6, &springs), 1);
}

#[test]
fn pair_salt_and_hash() {
    assert_eq!(pair_salt(3, 5), 0x0000_0003_0000_0005);
    assert_eq!(pair_salt(0, 0), 0);
    assert_eq!(hash_salt(0), 0xE220_A839_7B1D_CDAF);
    assert_eq!(hash_salt(0x9E37_79B9_7F4A_7C15), 0x6E78_9E6A_A1B9_65F4);
}

#[test]
fn group_members_split_vertices_and_springs() {
    let group = vec![0, 1, 0, 2, 1];
    let springs = [(0, 2), (1, 4), (3, 3), (2, 0)];
    let (members, grouped) = group_members(&group, &springs);
    assert_eq!(members, vec![vec![0, 2], vec![1, 4], vec![3]]);
    assert_eq!(grouped, vec![vec![(0, 2), (2, 0)], vec![(1, 4)], vec![(3, 3)]]);
    let (members, grouped) = group_members(&vec![], &[]);
    assert!(members.is_empty() && grouped.is_empty());
}
