use quip_miner_cpu::flatiron::gate::apply_zz;
use quip_miner_cpu::flatiron::graph::NetGraph;
use quip_miner_cpu::flatiron::sample::{
    copy_tensor, identity_message, msg_into, msg_out_of, SamplingNet,
};
use quip_miner_cpu::flatiron::state::SiteTensor;
use quip_miner_cpu::ising::IsingGraph as Problem;
use quip_miner_cpu::scalar::Scalar;
use quip_solver_core::IsingGraph;
use rand::rngs::SmallRng;
use rand::SeedableRng;

/// A weight in thousandths; one that is not finite is 0.
fn milli(x: f64) -> i32 {
    if x.is_finite() {
        (x * 1000.0).round() as i32
    } else {
        0
    }
}

/// A problem with its weights in thousandths.
fn problem(g: &IsingGraph) -> Problem {
    Problem::new(
        g.h.iter().map(|&x| milli(x)).collect(),
        g.j.iter().map(|&x| milli(x)).collect(),
        g.edges.to_vec(),
    )
}

#[derive(Clone, Copy, Debug, PartialEq)]
struct Double(f64);

impl Scalar for Double {
    fn from_milli(m: i32) -> Self {
        Double(f64::from(m) / 1000.0)
    }
    fn ratio(num: usize, den: usize) -> Self {
        Double(num as f64 / den as f64)
    }
    fn sum(self, other: Self) -> Self {
        Double(self.0 + other.0)
    }
    fn difference(self, other: Self) -> Self {
        Double(self.0 - other.0)
    }
    fn product(self, other: Self) -> Self {
        Double(self.0 * other.0)
    }
    fn quotient(self, other: Self) -> Self {
        Double(self.0 / other.0)
    }
    fn square_root(self) -> Self {
        Double(self.0.sqrt())
    }
    fn less(self, other: Self) -> bool {
        self.0 < other.0
    }
    fn at_least(self, other: Self) -> bool {
        self.0 >= other.0
    }
}

fn doubles(v: &[f64]) -> Vec<Double> {
    v.iter().map(|&x| Double(x)).collect()
}

fn floats(v: &[Double]) -> Vec<f64> {
    v.iter().map(|x| x.0).collect()
}

/// Tolerance of the factorizations.
const EPS: Double = Double(1e-14);

/// A draw of 53 bits as a number in `[0, 1)`.
fn unit(bits: u64) -> f64 {
    bits as f64 * (1.0 / (1u64 << 53) as f64)
}

/// The least weight that a bond is divided by.
const FLOOR: Double = Double(1e-12);

fn tensor(phys: usize, dims: Vec<usize>, data: &[f64]) -> SiteTensor<Double> {
    SiteTensor { phys, dims, data: doubles(data) }
}

fn below(bits: u64, p: Double) -> bool {
    unit(bits) < p.0
}

#[test]
fn a_clean_graph_maps_one_bond_per_edge() {
    let g = IsingGraph::new(
        vec![0.5, -0.25, 0.0],
        vec![1.0, -2.0],
        vec![(0, 1), (2, 1)],
    );
    let net = NetGraph::from_graph(&problem(&g));
    assert_eq!(net.bonds, vec![(0, 1, 1000), (1, 2, -2000)]);
    assert_eq!(net.adj[0], vec![(0, 1)]);
    assert_eq!(net.adj[1], vec![(0, 0), (1, 2)]);
    assert_eq!(net.adj[2], vec![(1, 1)]);
    assert_eq!(net.h, vec![500, -250, 0]);
    assert_eq!(net.max_degree(), 2);
    assert_eq!(net.num_nodes(), 3);
}

#[test]
fn graph_defensive_edges_are_dropped_exactly_as_the_scoring_drops_them() {
    // Self-loop, out-of-range edge, zero coupling, short `j`, non-finite
    // coupling, non-finite field.
    let g = IsingGraph::new(
        vec![0.5, f64::NAN, -0.25, 1.0],
        vec![1.0, 2.0, 0.0, f64::INFINITY, -1.0],
        vec![(0, 0), (1, 9), (2, 3), (0, 2), (1, 3), (0, 3)],
    );
    let net = NetGraph::from_graph(&problem(&g));
    assert_eq!(net.bonds, vec![(1, 3, -1000)]);
    assert_eq!(net.h, vec![500, 0, -250, 1000]);
}

#[test]
fn parallel_edges_merge_by_summing_their_couplings() {
    let g = IsingGraph::new(
        vec![0.0, 0.0],
        vec![-1.0, -1.0, 0.5],
        vec![(0, 1), (0, 1), (1, 0)],
    );
    let net = NetGraph::from_graph(&problem(&g));
    assert_eq!(net.bonds, vec![(0, 1, -1500)]);
}

#[test]
fn parallel_edges_that_cancel_leave_no_bond() {
    let g = IsingGraph::new(vec![0.0, 0.0], vec![1.0, -1.0], vec![(0, 1), (1, 0)]);
    let net = NetGraph::from_graph(&problem(&g));
    assert!(net.bonds.is_empty());
    assert!(net.adj.iter().all(Vec::is_empty));
}

#[test]
fn an_empty_graph_produces_an_empty_network() {
    let net = NetGraph::from_graph(&problem(&IsingGraph::new(vec![], vec![], vec![])));
    assert!(net.bonds.is_empty());
    assert!(net.adj.is_empty());
    assert_eq!(net.max_degree(), 0);
    assert_eq!(net.num_nodes(), 0);
}

#[test]
fn adjacency_lists_bonds_in_ascending_bond_order() {
    let g = IsingGraph::new(
        vec![0.0; 4],
        vec![1.0, 1.0, 1.0, 1.0],
        vec![(3, 2), (0, 3), (1, 0), (2, 0)],
    );
    let net = NetGraph::from_graph(&problem(&g));
    // Sorted bonds: (0,1), (0,2), (0,3), (2,3).
    assert_eq!(net.bonds.len(), 4);
    let ids: Vec<usize> = net.adj[0].iter().map(|&(e, _)| e).collect();
    assert_eq!(ids, vec![0, 1, 2]);
    assert_eq!(net.max_degree(), 3);
}

#[test]
fn matricize_round_trips_for_every_bond() {
    let t = tensor(2, vec![2, 3, 2], &(0..24).map(f64::from).collect::<Vec<f64>>());
    for b in 0..3 {
        let mut probe = copy_tensor(&t);
        let (m, rows, k) = probe.matricize(b);
        assert_eq!(rows * k, 24);
        probe.dematricize(b, &m, k);
        assert_eq!(probe.data, t.data, "bond {b}");
        assert_eq!(probe.dims, t.dims);
    }
}

#[test]
fn scale_bond_multiplies_exactly_the_matching_coordinate() {
    let mut t = tensor(1, vec![2, 2], &vec![1.0, 1.0, 1.0, 1.0]);
    t.scale_bond(0, &doubles(&[2.0, 3.0]));
    assert_eq!(floats(&t.data), vec![2.0, 2.0, 3.0, 3.0]);
    t.scale_bond(1, &doubles(&[5.0, 7.0]));
    assert_eq!(floats(&t.data), vec![10.0, 14.0, 15.0, 21.0]);
}

#[test]
fn renormalize_scrubs_non_finite_and_never_leaves_all_zero() {
    let mut t = tensor(2, vec![], &vec![f64::NAN, 4.0]);
    t.renormalize();
    assert_eq!(floats(&t.data), vec![0.0, 1.0]);
    let mut dead = tensor(2, vec![], &vec![0.0, f64::INFINITY]);
    dead.renormalize();
    assert_eq!(floats(&dead.data), vec![1.0, 1.0]);
}

/// One ZZ gate on a two-site network must reproduce exact two-spin
/// imaginary-time arithmetic: amplitudes proportional to the coupling factor
/// applied to `|+>|+>`.
#[test]
fn a_single_gate_on_two_sites_matches_exact_two_spin_evolution() {
    let mut tu: SiteTensor<Double> = SiteTensor::plus(1);
    let mut tv: SiteTensor<Double> = SiteTensor::plus(1);
    let mut lam = doubles(&[1.0]);
    let t = 0.6f64;
    let none = vec![Vec::new()];
    apply_zz(EPS, FLOOR, &mut tu, &mut tv, 0, 0, Double(t), &mut lam, &none, &none, 4);

    // Reconstruct amplitude(su, sv) = sum_c tu[su, c] lam[c] tv[sv, c].
    let k = lam.len();
    let mut amp = [[0.0f64; 2]; 2];
    for (su, row) in amp.iter_mut().enumerate() {
        for (sv, a) in row.iter_mut().enumerate() {
            for (c, &l) in lam.iter().enumerate() {
                *a += tu.data[su * k + c].0 * l.0 * tv.data[sv * k + c].0;
            }
        }
    }
    // Exact: amplitude proportional to g(z, z') = 1 -+ t.
    let same = amp[0][0];
    let diff = amp[0][1];
    assert!((amp[1][1] - same).abs() < 1e-12);
    assert!((amp[1][0] - diff).abs() < 1e-12);
    assert!(
        (diff / same - (1.0 + t) / (1.0 - t)).abs() < 1e-10,
        "ratio {} want {}",
        diff / same,
        (1.0 + t) / (1.0 - t)
    );
}

#[test]
fn the_gate_grows_the_bond_no_further_than_chi() {
    let mut tu: SiteTensor<Double> = SiteTensor::plus(2);
    let mut tv: SiteTensor<Double> = SiteTensor::plus(2);
    let mut lam = doubles(&[1.0]);
    let env = vec![Vec::new(), doubles(&[1.0])];
    apply_zz(EPS, FLOOR, &mut tu, &mut tv, 0, 0, Double(0.3), &mut lam, &env, &env, 1);
    assert_eq!(lam.len(), 1);
    assert_eq!(tu.dims[0], 1);
    assert_eq!(tv.dims[0], 1);
}

#[test]
fn field_and_transverse_gates_act_on_the_physical_index() {
    let mut t: SiteTensor<Double> = SiteTensor::plus(0);
    t.scale_phys((Double(2.0), Double(0.5)));
    let ratio = t.data[0].0 / t.data[1].0;
    assert!((ratio - 4.0).abs() < 1e-12);
    // The transverse mixer with t = 1 symmetrizes any state.
    t.apply_phys_matrix((Double(1.0), Double(1.0), Double(1.0), Double(1.0)));
    assert!((t.data[0].0 - t.data[1].0).abs() < 1e-12);
}

/// Exact per-site marginals by enumerating physical and bond indices.
fn brute_marginals(net: &NetGraph, tensors: &[SiteTensor<Double>]) -> Vec<[f64; 2]> {
    let n = net.num_nodes();
    let bond_dims: Vec<usize> = net
        .bonds
        .iter()
        .enumerate()
        .map(|(e, &(u, _, _))| {
            let pos = net.adj[u as usize]
                .iter()
                .position(|&(be, _)| be == e)
                .expect("bond listed in adjacency");
            tensors[u as usize].dims[pos]
        })
        .collect();
    let bond_total: usize = bond_dims.iter().product();
    let mut out = vec![[0.0f64; 2]; n];
    for mask in 0..(1u32 << n) {
        let spins: Vec<usize> = (0..n).map(|i| ((mask >> i) & 1) as usize).collect();
        let mut amp = 0.0f64;
        for assign in 0..bond_total {
            // Decode per-bond coordinates.
            let mut rem = assign;
            let mut coord = vec![0usize; net.bonds.len()];
            for (e, &k) in bond_dims.iter().enumerate() {
                coord[e] = rem % k;
                rem /= k;
            }
            let mut prod = 1.0f64;
            for (i, t) in tensors.iter().enumerate() {
                let mut flat = 0usize;
                for (b, &(e, _)) in net.adj[i].iter().enumerate() {
                    flat = flat * t.dims[b] + coord[e];
                }
                prod *= t.data[spins[i] * t.bond_total() + flat].0;
            }
            amp += prod;
        }
        let p = amp * amp;
        for (i, &s) in spins.iter().enumerate() {
            out[i][s] += p;
        }
    }
    out
}

fn path_net(n: usize) -> NetGraph {
    NetGraph::from_graph(&problem(&IsingGraph::new(
        vec![0.0; n],
        vec![1.0; n - 1],
        (0..n - 1).map(|i| (i, i + 1)).collect(),
    )))
}

/// Deterministic pseudo-random tensors with bond dimension 2 on a path,
/// which is a tree, so BP must be exact there.
#[test]
fn bp_marginals_are_exact_on_a_tree() {
    let net = path_net(4);
    let mut val = 0.3f64;
    let mut next = || {
        val = (val * 137.0 + 0.31).rem_euclid(2.0) - 1.0;
        val
    };
    let tensors: Vec<SiteTensor<Double>> = (0..4)
        .map(|i| {
            let dims = vec![2; net.adj[i].len()];
            let len = 2 * dims.iter().product::<usize>();
            tensor(2, dims, &(0..len).map(|_| next()).collect::<Vec<f64>>())
        })
        .collect();
    let lambdas: Vec<Vec<Double>> = net.bonds.iter().map(|_| doubles(&[1.0, 1.0])).collect();

    let mut sampling = SamplingNet::build(&net, tensors.iter().map(copy_tensor).collect(), &lambdas);
    sampling.run_bp(&net);

    let exact = brute_marginals(&net, &tensors);
    for (i, truth_pair) in exact.iter().enumerate() {
        let w = sampling.marginal(&net, i);
        let bp = w.0 .0 / (w.0 .0 + w.1 .0);
        let truth = truth_pair[0] / (truth_pair[0] + truth_pair[1]);
        assert!(
            (bp - truth).abs() < 1e-8,
            "site {i}: BP {bp} vs exact {truth}"
        );
    }
}

/// Conditioning must steer later sites: after projecting one end of a
/// perfectly correlated pair, the other end's marginal follows it.
#[test]
fn conditioning_propagates_through_the_messages() {
    let net = path_net(2);
    // A GHZ-like pair: amplitude 1 on (+,+) and on (-,-), 0 across.
    let tensors = vec![
        tensor(2, vec![2], &vec![1.0, 0.0, 0.0, 1.0]),
        tensor(2, vec![2], &vec![1.0, 0.0, 0.0, 1.0]),
    ];
    let lambdas = vec![doubles(&[1.0, 1.0])];
    let mut sampling = SamplingNet::build(&net, tensors.iter().map(copy_tensor).collect(), &lambdas);
    sampling.run_bp(&net);

    let mut rng = SmallRng::seed_from_u64(7);
    for _ in 0..8 {
        let spins = sampling.duplicate().sample_one(&net, &below, &mut rng);
        assert_eq!(spins[0], spins[1], "the pair must sample aligned");
    }
}

#[test]
fn a_graph_with_no_bonds_samples_from_the_site_weights_alone() {
    let net = NetGraph::from_graph(&problem(&IsingGraph::new(vec![0.0, 0.0], vec![], vec![])));
    let tensors = vec![
        tensor(2, vec![], &vec![1.0, 0.0]),
        tensor(2, vec![], &vec![0.0, 1.0]),
    ];
    let mut sampling = SamplingNet::build(&net, tensors, &vec![]);
    sampling.run_bp(&net);
    let mut rng = SmallRng::seed_from_u64(3);
    let spins = sampling.sample_one(&net, &below, &mut rng);
    assert_eq!(spins, vec![1, -1]);
}

#[test]
fn degenerate_marginals_fall_back_to_a_fair_coin() {
    let net = NetGraph::from_graph(&problem(&IsingGraph::new(vec![0.0], vec![], vec![])));
    let tensors = vec![tensor(2, vec![], &vec![0.0, 0.0])];
    let sampling = SamplingNet::build(&net, tensors, &vec![]);
    let mut ups = 0;
    for seed in 0..64 {
        let mut rng = SmallRng::seed_from_u64(seed);
        let spins = sampling.duplicate().sample_one(&net, &below, &mut rng);
        assert!(spins[0] == 1 || spins[0] == -1);
        if spins[0] == 1 {
            ups += 1;
        }
    }
    assert!((10..=54).contains(&ups), "coin badly biased: {ups} of 64");
}

/// The two messages of a bond run in opposite directions.
#[test]
fn messages_run_both_ways() {
    let net = path_net(3);
    assert_eq!(msg_out_of(&net, 1, 1), msg_into(&net, 1, 2));
    assert_eq!(msg_out_of(&net, 1, 2), msg_into(&net, 1, 1));
    assert_ne!(msg_into(&net, 1, 1), msg_into(&net, 1, 2));
    assert_eq!(floats(&identity_message::<Double>(2)), vec![0.5, 0.0, 0.0, 0.5]);
}

/// Parallel edges share a bond, and the network has the energy of the problem.
#[test]
fn the_network_keeps_the_energy() {
    let g = IsingGraph::new(
        vec![0.5, -0.25, 0.0, 1.0],
        vec![1.0, -2.0, 0.5, 0.5, 0.75],
        vec![(0, 1), (1, 2), (1, 0), (3, 2), (0, 9)],
    );
    let net = NetGraph::from_graph(&problem(&g));
    assert_eq!(net.bonds, vec![(0, 1, 1500), (1, 2, -2000), (2, 3, 500)]);
    for mask in 0..16u32 {
        let spins: Vec<i64> = (0..4).map(|i| if (mask >> i) & 1 == 0 { 1 } else { -1 }).collect();
        let on_net: i64 = net.h.iter().zip(&spins).map(|(&h, s)| i64::from(h) * s).sum::<i64>()
            + net
                .bonds
                .iter()
                .map(|&(a, b, w)| w * spins[a as usize] * spins[b as usize])
                .sum::<i64>();
        let bytes: Vec<i8> = spins.iter().map(|&s| s as i8).collect();
        assert_eq!(on_net, quip_protocol::scoring::energy_milli(&bytes, &g.h, &g.j, &g.edges));
    }
}
