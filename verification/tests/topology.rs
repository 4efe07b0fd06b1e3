use meshcore::sim::topology;

#[test]
fn line_has_expected_edges() {
    let g = topology::line(5);
    assert_eq!(g.edges, vec![(0, 1), (1, 2), (2, 3), (3, 4)]);
}

#[test]
fn clique_links_every_pair_once() {
    let g = topology::clique(4);
    assert_eq!(g.edges, vec![(0, 1), (0, 2), (0, 3), (1, 2), (1, 3), (2, 3)]);
    assert!(topology::line(0).edges.is_empty());
    assert!(topology::line(1).edges.is_empty());
}

#[test]
fn numbered_appends_decimal() {
    assert_eq!(meshcore::sim::numbered("flood ", 0), "flood 0");
    assert_eq!(meshcore::sim::numbered("n", 1234567890), "n1234567890");
    assert_eq!(meshcore::sim::numbered("", u64::MAX), "18446744073709551615");
}
