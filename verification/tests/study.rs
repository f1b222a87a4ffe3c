use quip_miner_cpu::arrays::{
    build_graph, check_request, flatten, ArrayError, RequestError,
};
use quip_miner_cpu::compare::{
    breadth_first_order, crossing, cut, edge_target, instance, proper_edges, random_edges, relabel,
    stitch_pairs, tile, topology_at, Kernel, Pivot,
};
use quip_miner_cpu::msa_bench::{
    case_params, cases, check_repeats, csv_header, csv_row, distinct_energies, distinct_spins,
    diversity, fingerprint, median_ns, result_hash, ring_graph, summarize, BenchError,
    Measurement, SEED, SWEEPS_PER_BETA,
};
use quip_miner_cpu::sampler_core::SamplerResult;
use quip_miner_cpu::scalar::Thousandths;
use quip_miner_cpu::sort::{arrange, stable_order};
use std::collections::HashSet;

fn undirected_key(u: usize, v: usize) -> (usize, usize) {
    (u.min(v), u.max(v))
}

#[test]
fn ring_graph_rejects_odd_degree_and_nodes_not_exceeding_degree() {
    assert!(ring_graph(8, 3).is_err());
    assert!(ring_graph(4, 4).is_err());
    assert!(ring_graph(4, 6).is_err());
}

#[test]
fn ring_graph_degree_is_regular() {
    for (nodes, degree) in [(16, 4), (512, 6), (512, 20), (256, 48)] {
        let graph = ring_graph(nodes, degree).expect("valid ring");
        assert_eq!(graph.h.len(), nodes);
        assert_eq!(graph.h.len(), nodes);
        assert!(graph.h.iter().all(|&h| h == -1000 || h == 0 || h == 1000));
        let mut adj = vec![HashSet::new(); nodes];
        for &(u, v) in &graph.edges {
            assert_ne!(u, v, "self-loop at {u}");
            assert!(adj[u].insert(v), "duplicate neighbor {v} of {u}");
            assert!(adj[v].insert(u), "duplicate neighbor {u} of {v}");
        }
        for (u, neighbors) in adj.iter().enumerate() {
            assert_eq!(
                neighbors.len(),
                degree,
                "node {u} degree {} != {degree}",
                neighbors.len()
            );
        }
    }
}

#[test]
fn ring_graph_edges_are_unique_undirected() {
    for (nodes, degree) in [(16, 4), (512, 6), (512, 20), (256, 48)] {
        let graph = ring_graph(nodes, degree).expect("valid ring");
        let mut unique = HashSet::new();
        for &(u, v) in &graph.edges {
            assert!(
                unique.insert(undirected_key(u, v)),
                "duplicate undirected edge ({u},{v})"
            );
        }
        assert_eq!(unique.len(), graph.edges.len());
        assert_eq!(graph.edges.len(), nodes * degree / 2);
        assert_eq!(graph.j.len(), graph.edges.len());
        assert!(graph.j.iter().all(|&j| j == 1000 || j == -1000));
    }
}

#[test]
fn fingerprint_changes_when_a_spin_or_energy_changes() {
    let base = vec![SamplerResult {
        spins: vec![1, -1, 1, -1],
        energy_milli: -4,
    }];
    let spin_flip = vec![SamplerResult {
        spins: vec![1, 1, 1, -1],
        energy_milli: -4,
    }];
    let energy_shift = vec![SamplerResult {
        spins: vec![1, -1, 1, -1],
        energy_milli: -3,
    }];
    let same = vec![SamplerResult {
        spins: vec![1, -1, 1, -1],
        energy_milli: -4,
    }];
    assert_eq!(fingerprint(&base), fingerprint(&same));
    assert_ne!(fingerprint(&base), fingerprint(&spin_flip));
    assert_ne!(fingerprint(&base), fingerprint(&energy_shift));
    assert_ne!(fingerprint(&spin_flip), fingerprint(&energy_shift));

    let first = SamplerResult {
        spins: vec![1, -1, 1, -1],
        energy_milli: -4,
    };
    let second = SamplerResult {
        spins: vec![-1, 1, -1, 1],
        energy_milli: 2,
    };
    let two = vec![first.clone(), second.clone()];
    let second_spin = vec![
        first.clone(),
        SamplerResult {
            spins: vec![-1, -1, -1, 1],
            energy_milli: 2,
        },
    ];
    let second_energy = vec![
        first,
        SamplerResult {
            spins: vec![-1, 1, -1, 1],
            energy_milli: 3,
        },
    ];
    assert_ne!(fingerprint(&two), fingerprint(&second_spin));
    assert_ne!(fingerprint(&two), fingerprint(&second_energy));
    assert_ne!(fingerprint(&second_spin), fingerprint(&second_energy));
}

#[test]
fn setup128_pairs_warm_and_fresh_and_quick_omits_both() {
    let full = cases(false);
    let setup = full
        .iter()
        .find(|c| c.name == "setup128")
        .expect("setup128");
    let setup_fresh = full
        .iter()
        .find(|c| c.name == "setup128_fresh")
        .expect("setup128_fresh");
    assert!(!setup.fresh_sampler);
    assert!(setup_fresh.fresh_sampler);
    assert_eq!(setup.nodes, setup_fresh.nodes);
    assert_eq!(setup.degree, setup_fresh.degree);
    assert_eq!(setup.reads, setup_fresh.reads);
    assert_eq!(setup.sweeps, setup_fresh.sweeps);
    assert_eq!(setup.beta_milli, setup_fresh.beta_milli);
    assert_eq!(setup.nodes, 4096);
    assert_eq!(setup.degree, 20);
    assert_eq!(setup.reads, 128);
    assert_eq!(setup.sweeps, 4);
    assert_eq!(setup.beta_milli, (50, 4000));
    let quick = cases(true);
    assert!(quick
        .iter()
        .all(|c| c.name != "setup128" && c.name != "setup128_fresh"));
}

fn read(spins: &[i8], energy_milli: i64) -> SamplerResult {
    SamplerResult { spins: spins.to_vec(), energy_milli }
}

/// FNV-1a over the little-endian energy and the spins.
#[test]
fn fingerprint_is_the_fnv_hash_in_hex() {
    assert_eq!(result_hash(&vec![]), 0xcbf2_9ce4_8422_2325);
    assert_eq!(fingerprint(&vec![]), "cbf29ce484222325");
    let mut hash: u64 = 0xcbf2_9ce4_8422_2325;
    for byte in (-4i64).to_le_bytes().into_iter().chain([1u8, 255]) {
        hash = (hash ^ u64::from(byte)).wrapping_mul(0x0000_0100_0000_01b3);
    }
    assert_eq!(result_hash(&vec![read(&[1, -1], -4)]), hash);
    assert_eq!(fingerprint(&vec![read(&[1, -1], -4)]), format!("{hash:016x}"));
}

#[test]
fn one_changed_spin_changes_the_hash() {
    let a = vec![read(&[1, -1, 1], 7)];
    let b = vec![read(&[1, -1, -1], 7)];
    assert_ne!(result_hash(&a), result_hash(&b));
}

#[test]
fn medians_take_the_middle_of_the_sorted_times() {
    assert_eq!(median_ns(&mut vec![]), 0);
    assert_eq!(median_ns(&mut vec![5]), 5);
    assert_eq!(median_ns(&mut vec![9, 1, 5]), 5);
    assert_eq!(median_ns(&mut vec![9, 1, 5, 8]), 6);
    assert_eq!(median_ns(&mut vec![u128::MAX, u128::MAX]), u128::MAX);
    let mut times = vec![3, 1, 2];
    median_ns(&mut times);
    assert_eq!(times, [1, 2, 3]);
}

#[test]
fn summaries_count_distinct_reads_and_keep_the_lowest_energy() {
    let results = vec![read(&[1, 1], 5), read(&[1, -1], -3), read(&[1, 1], 5), read(&[-1, 1], -3)];
    assert_eq!(summarize(&results), (-3, 3));
    assert_eq!(distinct_spins(&results), 3);
    assert_eq!(distinct_energies(&results), 2);
    let d = diversity(&results);
    assert_eq!((d.spins, d.energies, d.best, d.median), (3, 2, -3, 5));
    assert_eq!(summarize(&vec![]), (0, 0));
}

#[test]
fn cases_run_with_the_shared_seed_and_ladder() {
    for case in cases(false).iter().chain(&cases(true)) {
        let p = case_params(case);
        assert_eq!((p.num_reads, p.num_sweeps), (case.reads, case.sweeps));
        assert_eq!((p.seed, p.sweeps_per_beta), (SEED, SWEEPS_PER_BETA));
        assert!(ring_graph(case.nodes, case.degree).is_ok());
    }
}

#[test]
fn a_case_keeps_its_fingerprint_over_its_repeats() {
    let case = cases(true)[0];
    let first = vec![read(&[1, -1], -4), read(&[1, 1], 2)];
    let mut m = Measurement::start(case, &first);
    m.note(30, &first).expect("same results");
    m.note(10, &first).expect("same results");
    m.note(20, &first).expect("same results");
    let other = vec![read(&[1, 1], -4), read(&[1, 1], 2)];
    assert!(matches!(m.note(1, &other), Err(BenchError::Fingerprint(name)) if name == case.name));
    let r = m.finish();
    assert_eq!(r.median_ns, 20);
    assert_eq!(r.fingerprint, fingerprint(&first));
    assert_eq!((r.best_energy_milli, r.distinct_solution_count), (-4, 2));
    assert_eq!(
        csv_row(&r),
        format!(
            "{},{},{},{},{},20,{},-4,2",
            case.name, case.nodes, case.degree, case.reads, case.sweeps, r.fingerprint
        )
    );
    assert_eq!(csv_header().split(',').count(), 9);
}

#[test]
fn a_study_without_repeats_is_refused() {
    assert!(matches!(check_repeats(0), Err(BenchError::Repeats)));
    assert!(check_repeats(1).is_ok());
    let errors = [
        BenchError::Repeats,
        BenchError::Graph("odd"),
        BenchError::Sample("gone".to_owned()),
        BenchError::Fingerprint("small"),
    ];
    let texts: HashSet<String> = errors.iter().map(BenchError::message).collect();
    assert_eq!(texts.len(), 4);
}

#[test]
fn arrangement_is_ascending_and_stable() {
    let mut v: Vec<i64> = vec![3, -1, 2, -1];
    arrange(&mut v);
    assert_eq!(v, [-1, -1, 2, 3]);
    assert_eq!(stable_order(&vec![5, 1, 5, 0, 1]), [3, 1, 4, 0, 2]);
}

#[test]
fn labels_close_the_gaps_between_ids() {
    let edges = relabel(&vec![10, 30, 20], &vec![(10, 20), (30, 10)]);
    assert_eq!(edges, [(0, 2), (1, 0)]);
}

/// Two triangles joined by one edge.
fn pivot() -> Pivot {
    Pivot {
        num_nodes: 6,
        edges: vec![(0, 1), (1, 2), (0, 2), (2, 3), (3, 4), (4, 5), (3, 5)],
        allowed_j_milli: vec![-1000, 1000],
    }
}

#[test]
fn a_cut_keeps_the_first_nodes_of_a_breadth_first_walk() {
    assert_eq!(breadth_first_order(&pivot(), 4), [0, 1, 2, 3]);
    assert_eq!(cut(&pivot(), 3), [(0, 1), (1, 2), (0, 2)]);
    assert_eq!(cut(&pivot(), 4), [(0, 1), (1, 2), (0, 2), (2, 3)]);
    assert_eq!(topology_at(&pivot(), 4, 1, 0, 10), Some(cut(&pivot(), 4)));
}

#[test]
fn tiles_repeat_the_pivot_up_to_the_target() {
    let edges = tile(&pivot(), 8);
    assert_eq!(edges[..7], pivot().edges[..]);
    assert_eq!(edges[7..], [(6, 7)]);
}

#[test]
fn stitches_join_different_tiles() {
    let edges = topology_at(&pivot(), 12, 7, 20, 10_000).expect("enough tries");
    assert_eq!(edges.len(), 20);
    for &(u, v) in &edges[14..] {
        assert!(u < v && v < 12 && u / 6 != v / 6);
    }
    assert_eq!(topology_at(&pivot(), 12, 7, 20, 0), None);
    assert_eq!(crossing(6, 7, 2), Some((2, 7)));
    assert_eq!(crossing(6, 7, 8), None);
}

#[test]
fn instances_draw_only_allowed_couplings() {
    let g = instance(pivot().edges, 6, &vec![-500, 250], 3);
    assert_eq!(g.h, vec![0; 6]);
    assert_eq!(g.edges, pivot().edges);
    assert!(g.j.iter().all(|&j| j == -500 || j == 250));
    assert!(g.j.contains(&-500) && g.j.contains(&250));
}

#[test]
fn random_edges_bind_two_nodes() {
    let edges = random_edges(20, 4, 11);
    assert!(!edges.is_empty() && edges.len() <= 80);
    assert!(edges.iter().all(|&(u, v)| u != v && u < 20 && v < 20));
}

#[test]
fn kernels_have_their_names() {
    let all = [Kernel::Sa, Kernel::Gibbs, Kernel::Sb, Kernel::Bsb, Kernel::Mps, Kernel::Mfa];
    let names: HashSet<&str> = all.iter().map(|k| k.name()).collect();
    assert_eq!(names.len(), 6);
    assert_eq!(Kernel::Sa.name(), "cpu-sa");
}

#[test]
fn arrays_become_a_problem() {
    let g = build_graph(vec![5, 0, -5], &vec![0, 1, 2, 1], 2, vec![100, -100]).expect("graph");
    assert_eq!(g.h, [5, 0, -5]);
    assert_eq!(g.j, [100, -100]);
    assert_eq!(g.edges, [(0, 1), (2, 1)]);
}

#[test]
fn arrays_that_do_not_fit_are_refused() {
    assert_eq!(build_graph(vec![0], &vec![0, 0, 0], 3, vec![1]).unwrap_err(), ArrayError::Shape);
    assert_eq!(
        build_graph(vec![0, 0], &vec![0, 1], 2, vec![]).unwrap_err(),
        ArrayError::Couplings { couplings: 0, edges: 1 }
    );
    assert_eq!(
        build_graph(vec![0, 0], &vec![0, 1, 1, -1], 2, vec![1, 1]).unwrap_err(),
        ArrayError::Endpoint { raw: -1, nodes: 2 }
    );
    assert_eq!(
        build_graph(vec![0, 0], &vec![0, 2], 2, vec![1]).unwrap_err(),
        ArrayError::Endpoint { raw: 2, nodes: 2 }
    );
    let e = ArrayError::Endpoint { raw: -1, nodes: 2 };
    assert!(e.message().contains("-1") && e.message().contains('2'));
}

#[test]
fn requests_are_checked_in_order() {
    assert_eq!(check_request(Some(true), false, 0), Err(RequestError::StartBetaAlone));
    assert_eq!(check_request(Some(false), true, 0), Err(RequestError::StartBeta));
    assert_eq!(check_request(Some(true), true, 0), Err(RequestError::NumReads));
    assert_eq!(check_request(None, false, 0), Err(RequestError::NumReads));
    assert_eq!(check_request(None, true, 1), Ok(()));
    let texts: HashSet<&str> =
        [RequestError::StartBetaAlone, RequestError::StartBeta, RequestError::NumReads]
            .iter()
            .map(|e| e.message())
            .collect();
    assert_eq!(texts.len(), 3);
}

#[test]
fn results_flatten_row_by_row() {
    let results = vec![read(&[1, -1], -4), read(&[-1, 1], 6)];
    assert_eq!(flatten(&results, 2), (vec![1, -1, -1, 1], vec![-4, 6]));
}

/// Seven edges on six nodes make fourteen on twelve.
#[test]
fn a_grown_topology_aims_at_the_density_of_its_pivot() {
    let round = |x: Thousandths| ((x.0 + 500) / 1000) as usize;
    assert_eq!(edge_target(&pivot(), 12, &round), 14);
    assert_eq!(edge_target(&pivot(), 3, &round), 3);
    let grown = topology_at(&pivot(), 12, 1, 16, 10_000).expect("enough draws");
    assert_eq!(grown.len(), 16);
}

#[test]
fn a_pair_of_one_node_makes_no_edge() {
    assert_eq!(proper_edges(&vec![(0, 1), (2, 2), (1, 0), (0, 0)]), [(0, 1), (1, 0)]);
    assert!(random_edges(1, 5, 3).is_empty());
    assert!(random_edges(0, 5, 3).is_empty());
}

#[test]
fn stitched_pairs_are_the_first_crossings() {
    // Tiles of 3 nodes: the second and the fourth pair stay inside one.
    let pairs = vec![(4, 1), (0, 2), (2, 3), (5, 5), (4, 1), (0, 5)];
    let mut edges = vec![(0, 1)];
    stitch_pairs(&mut edges, &pairs, 3, 4);
    assert_eq!(edges, [(0, 1), (1, 4), (2, 3), (1, 4)]);
    stitch_pairs(&mut edges, &pairs, 3, 4);
    assert_eq!(edges.len(), 4);
    stitch_pairs(&mut edges, &pairs, 3, 99);
    assert_eq!(edges[4..], [(1, 4), (2, 3), (1, 4), (0, 5)]);
}
