use quip_miner_cpu::ising::IsingGraph;
use quip_miner_cpu::mps::chain::ChainProblem;
use quip_miner_cpu::mps::order::{bandwidth, inverse, reverse_cuthill_mckee};

/// A value in thousandths; one that is not finite takes no part.
fn milli(x: f64) -> i32 {
    if x.is_finite() {
        (x * 1000.0).round() as i32
    } else {
        0
    }
}

fn graph(h: Vec<f64>, j: Vec<f64>, edges: Vec<(usize, usize)>) -> IsingGraph {
    IsingGraph::new(
        h.into_iter().map(milli).collect(),
        j.into_iter().map(milli).collect(),
        edges,
    )
}

fn assert_permutation(order: &[u32], n: usize) {
    assert_eq!(order.len(), n, "ordering must cover every node");
    let mut seen = order.to_vec();
    seen.sort_unstable();
    let want: Vec<u32> = (0..n as u32).collect();
    assert_eq!(seen, want, "ordering must be a permutation");
}

/// The `smoke` preset: an 8-node ring.
fn ring8() -> Vec<(usize, usize)> {
    vec![
        (0, 1),
        (1, 2),
        (2, 3),
        (3, 4),
        (4, 5),
        (5, 6),
        (6, 7),
        (7, 0),
    ]
}

#[test]
fn ordering_is_a_permutation_for_every_shape() {
    let cases: Vec<(usize, Vec<(usize, usize)>)> = vec![
        (0, vec![]),
        (1, vec![]),
        (1, vec![(0, 0)]),
        (4, vec![]),
        (8, ring8()),
        (6, vec![(0, 5), (5, 1), (1, 4), (4, 2), (2, 3)]),
        (5, vec![(0, 1), (0, 1), (3, 3), (2, 9)]),
    ];
    for (n, edges) in cases {
        let order = reverse_cuthill_mckee(n, &edges);
        assert_permutation(&order, n);
    }
}

#[test]
fn the_smoke_ring_gets_bandwidth_two() {
    let edges = ring8();
    let order = reverse_cuthill_mckee(8, &edges);
    let slot = inverse(&order);
    assert_eq!(bandwidth(&slot, &edges), 2);
}

#[test]
fn ordering_never_widens_the_bandwidth_of_the_committed_shapes() {
    // `as given` order against the reordered one, on the ring and on a
    // deliberately scrambled path.
    let cases: Vec<(usize, Vec<(usize, usize)>)> = vec![
        (8, ring8()),
        (
            9,
            vec![(0, 8), (8, 3), (3, 5), (5, 1), (1, 7), (7, 2), (2, 6), (6, 4)],
        ),
        (
            12,
            vec![
                (0, 1),
                (1, 2),
                (2, 3),
                (0, 4),
                (1, 5),
                (2, 6),
                (3, 7),
                (4, 5),
                (5, 6),
                (6, 7),
                (4, 8),
                (5, 9),
                (6, 10),
                (7, 11),
                (8, 9),
                (9, 10),
                (10, 11),
            ],
        ),
    ];
    for (n, edges) in cases {
        let identity: Vec<u32> = (0..n as u32).collect();
        let given = bandwidth(&identity, &edges);
        let order = reverse_cuthill_mckee(n, &edges);
        let slot = inverse(&order);
        let got = bandwidth(&slot, &edges);
        assert!(
            got <= given,
            "n={n}: reordered bandwidth {got} exceeds the given {given}"
        );
    }
}

#[test]
fn disconnected_components_land_in_contiguous_blocks() {
    // Two triangles and one isolated node.
    let edges = vec![(0, 1), (1, 2), (2, 0), (3, 4), (4, 5), (5, 3)];
    let order = reverse_cuthill_mckee(7, &edges);
    assert_permutation(&order, 7);
    let slot = inverse(&order);
    let block_a: Vec<u32> = (0..3).map(|i| slot[i]).collect();
    let block_b: Vec<u32> = (3..6).map(|i| slot[i]).collect();
    for block in [block_a, block_b] {
        let mut s = block;
        s.sort_unstable();
        assert_eq!(
            s[2] - s[0],
            2,
            "a component must occupy consecutive slots, got {s:?}"
        );
    }
}

#[test]
fn ordering_is_deterministic() {
    let edges = ring8();
    assert_eq!(
        reverse_cuthill_mckee(8, &edges),
        reverse_cuthill_mckee(8, &edges)
    );
}

#[test]
fn bandwidth_ignores_self_loops_and_out_of_range_edges() {
    let slot: Vec<u32> = (0..4).collect();
    assert_eq!(bandwidth(&slot, &vec![(0, 0), (2, 2)]), 0);
    assert_eq!(bandwidth(&slot, &vec![(0, 9), (7, 1)]), 0);
    assert_eq!(bandwidth(&slot, &vec![(0, 3), (1, 2)]), 3);
}

#[test]
fn chain_problem_permutes_fields_and_couplings_consistently() {
    let g = graph(
        vec![0.5, -1.5, 0.25, 2.0],
        vec![1.0, -2.0, 0.75],
        vec![(0, 3), (3, 1), (1, 2)],
    );
    let chain = ChainProblem::from_graph(&g);
    assert_eq!(chain.order.len(), 4);
    let slot = inverse(&chain.order);
    for (node, &k) in slot.iter().enumerate() {
        assert_eq!(chain.order[k as usize] as usize, node);
        assert_eq!(chain.h[k as usize], g.h[node]);
    }
    assert_eq!(chain.gates.len(), 3);
    // Every gate must name the slots of a real edge, with the low slot first.
    for &(a, b, j) in &chain.gates {
        assert!(a < b, "gate slots must be ordered: ({a}, {b})");
        let u = chain.order[a as usize] as usize;
        let v = chain.order[b as usize] as usize;
        let found = g.edges.iter().zip(&g.j).any(|(&(x, y), &c)| {
            ((x, y) == (u, v) || (x, y) == (v, u)) && c == j
        });
        assert!(found, "gate ({a}, {b}, {j}) has no matching edge");
    }
}

#[test]
fn gates_are_sorted_by_ascending_span() {
    // A path graph in given order, so slots follow the chain closely.
    let g = graph(
        vec![0.0; 8],
        vec![1.0, 1.0, 1.0, 1.0, 1.0],
        vec![(0, 7), (0, 1), (2, 6), (3, 4), (1, 3)],
    );
    let chain = ChainProblem::from_graph(&g);
    let spans: Vec<u32> = chain.gates.iter().map(|&(a, b, _)| b - a).collect();
    for w in spans.windows(2) {
        assert!(w[0] <= w[1], "gates not sorted by span: {spans:?}");
    }
    assert_eq!(chain.span_sum(), spans.iter().map(|&x| u64::from(x)).sum::<u64>());
}

#[test]
fn order_defensive_edges_are_dropped_exactly_as_the_scoring_drops_them() {
    // Self-loop, out-of-range edge, zero coupling, short `j`, non-finite
    // coupling, non-finite field, and a duplicate edge that must survive.
    let g = graph(
        vec![0.5, f64::NAN, -0.25, 1.0],
        vec![1.0, 2.0, 0.0, f64::INFINITY, -1.0, -1.0],
        vec![(0, 0), (1, 9), (2, 3), (0, 2), (1, 3), (1, 3), (0, 3)],
    );
    let chain = ChainProblem::from_graph(&g);
    // (0,0) self-loop, (1,9) out of range, (2,3) zero coupling,
    // (0,2) non-finite coupling, and (0,3) with a missing `j` all drop.
    // The duplicate (1,3) appears twice, both with coupling -1.
    assert_eq!(chain.gates.len(), 2, "gates: {:?}", chain.gates);
    assert!(chain.gates.iter().all(|&(_, _, j)| j == -1000));
    // A non-finite field becomes 0 so that `tanh` cannot poison the state.
    assert!(chain.h.contains(&0));
}

#[test]
fn an_empty_graph_produces_an_empty_chain() {
    let g = graph(vec![], vec![], vec![]);
    let chain = ChainProblem::from_graph(&g);
    assert!(chain.order.is_empty());
    assert!(chain.gates.is_empty());
    assert!(chain.h.is_empty());
    assert_eq!(chain.span_sum(), 0);
}

#[test]
fn a_single_node_produces_one_slot_and_no_gates() {
    let g = graph(vec![-2.0], vec![3.0], vec![(0, 0)]);
    let chain = ChainProblem::from_graph(&g);
    assert_eq!(chain.order, vec![0]);
    assert_eq!(inverse(&chain.order), vec![0]);
    assert!(chain.gates.is_empty());
    assert_eq!(chain.h, vec![-2000]);
}

#[test]
fn problems_of_ordinary_size_can_be_numbered() {
    let g = quip_miner_cpu::ising::IsingGraph::new(vec![0; 3], vec![1], vec![(0, 1), (2, 2)]);
    assert!(g.is_indexable());
}

#[test]
fn the_order_depends_on_the_links_alone() {
    let mut other: Vec<(usize, usize)> = ring8().into_iter().rev().map(|(u, v)| (v, u)).collect();
    other.extend([(3, 2), (0, 1), (5, 5), (2, 8), (9, 9)]);
    assert_eq!(reverse_cuthill_mckee(8, &other), reverse_cuthill_mckee(8, &ring8()));
}
