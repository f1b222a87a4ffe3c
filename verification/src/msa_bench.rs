//! A reproducible measurement of multi-spin annealing: fixed cases, fingerprinted
//! results, and the median of the timed repeats.
use vstd::prelude::*;

use crate::ising::IsingGraph;
use crate::sampler_core::{SampleParams, SamplerResult};
use crate::sort::{arrange, arranged, runs_upward, Keyed};
use crate::text::{decimal, decimal_of, decimal_wide, signed_decimal, signed_decimal_of};

verus! {

/// Seed of every case.
pub const SEED: u64 = 19;

/// Sweeps at each rung of the temperature ladder.
pub const SWEEPS_PER_BETA: usize = 4;

/// Why a measurement stopped.
#[derive(Debug)]
pub enum BenchError {
    /// No repeats were asked for.
    Repeats,
    /// The graph of a case cannot be built.
    Graph(&'static str),
    /// A run failed.
    Sample(String),
    /// A repeat of this case gave other results than its first run.
    Fingerprint(&'static str),
}

impl BenchError {
    /// What the error says.
    pub open spec fn says(&self) -> Seq<char> {
        match self {
            BenchError::Repeats => "repeats must be a positive integer"@,
            BenchError::Graph(m) => m@,
            BenchError::Sample(m) => "sample failed: "@ + m@,
            BenchError::Fingerprint(case) => "fingerprint mismatch for "@ + case@,
        }
    }

    /// The error in words.
    pub fn message(&self) -> (r: String)
        ensures
            r@ == self.says(),
    {
        match self {
            BenchError::Repeats => String::from_str("repeats must be a positive integer"),
            BenchError::Graph(m) => String::from_str(m),
            BenchError::Sample(m) => {
                let mut r = String::from_str("sample failed: ");
                r.append(m.as_str());
                r
            },
            BenchError::Fingerprint(case) => {
                let mut r = String::from_str("fingerprint mismatch for ");
                r.append(case);
                r
            },
        }
    }
}

/// Refuse a measurement without repeats.
pub fn check_repeats(repeats: usize) -> (r: Result<(), BenchError>)
    ensures
        r is Ok <==> repeats > 0,
        r matches Err(e) ==> e is Repeats,
{
    if repeats == 0 {
        Err(BenchError::Repeats)
    } else {
        Ok(())
    }
}

/// Edge `k` of the ring with `half` edges per node: from each node to the next
/// `half` nodes.
pub open spec fn ring_edge(nodes: int, half: int, k: int) -> (int, int) {
    (k / half, (k / half + 1 + k % half) % nodes)
}

/// The coupling of edge `k`: of negative sign every third node on.
pub open spec fn ring_weight(half: int, k: int) -> int {
    if (k / half + 1 + k % half) % 3 == 0 {
        -1000
    } else {
        1000
    }
}

/// The field of node `u`: -1, 0 and 1 in turn.
pub open spec fn ring_field(u: int) -> int {
    (u % 3) * 1000 - 1000
}

/// `g` is the ring of `nodes` nodes of even degree `2 * half`.
pub open spec fn is_ring(nodes: int, half: int, g: IsingGraph) -> bool {
    &&& g.h@.len() == nodes
    &&& forall|u: int| 0 <= u < nodes ==> #[trigger] g.h@[u] == ring_field(u)
    &&& g.edges@.len() == nodes * half
    &&& g.j@.len() == nodes * half
    &&& forall|k: int|
        0 <= k < g.edges@.len() ==> {
            &&& (#[trigger] g.edges@[k]).0 == ring_edge(nodes, half, k).0
            &&& g.edges@[k].1 == ring_edge(nodes, half, k).1
        }
    &&& forall|k: int| 0 <= k < g.j@.len() ==> #[trigger] g.j@[k] == ring_weight(half, k)
}

proof fn lemma_flat(half: int, u: int, o: int)
    requires
        0 <= o < half,
        0 <= u,
    ensures
        (u * half + o) / half == u,
        (u * half + o) % half == o,
{
    vstd::arithmetic::div_mod::lemma_fundamental_div_mod_converse(u * half + o, half, u, o);
}

/// The ring in which each node is joined to its `degree` nearest nodes.
pub fn ring_graph(nodes: usize, degree: usize) -> (r: Result<IsingGraph, &'static str>)
    requires
        nodes + degree <= usize::MAX,
    ensures
        r is Ok <==> degree % 2 == 0 && nodes > degree,
        r matches Ok(g) ==> is_ring(nodes as int, (degree / 2) as int, g),
        r matches Err(m) ==> m@ == if degree % 2 != 0 {
            "degree must be even"@
        } else {
            "nodes must exceed degree"@
        },
{
    if degree % 2 != 0 {
        return Err("degree must be even");
    }
    if nodes <= degree {
        return Err("nodes must exceed degree");
    }
    let half: usize = degree / 2;
    let mut edges: Vec<(usize, usize)> = Vec::new();
    let mut couplings: Vec<i32> = Vec::new();
    let mut h: Vec<i32> = Vec::with_capacity(nodes);
    let mut u: usize = 0;
    while u < nodes
        invariant
            half == degree / 2,
            degree % 2 == 0,
            nodes > degree,
            nodes + degree <= usize::MAX,
            u <= nodes,
            h@.len() == u,
            forall|i: int| 0 <= i < u ==> #[trigger] h@[i] == ring_field(i),
            edges@.len() == u * half,
            couplings@.len() == u * half,
            forall|k: int|
                0 <= k < edges@.len() ==> {
                    &&& (#[trigger] edges@[k]).0 == ring_edge(nodes as int, half as int, k).0
                    &&& edges@[k].1 == ring_edge(nodes as int, half as int, k).1
                },
            forall|k: int|
                0 <= k < couplings@.len() ==> #[trigger] couplings@[k] == ring_weight(
                    half as int,
                    k,
                ),
        decreases nodes - u,
    {
        let mut o: usize = 0;
        while o < half
            invariant
                half == degree / 2,
                degree % 2 == 0,
                nodes > degree,
                nodes + degree <= usize::MAX,
                u < nodes,
                o <= half,
                edges@.len() == u * half + o,
                couplings@.len() == u * half + o,
                forall|k: int|
                    0 <= k < edges@.len() ==> {
                        &&& (#[trigger] edges@[k]).0 == ring_edge(nodes as int, half as int, k).0
                        &&& edges@[k].1 == ring_edge(nodes as int, half as int, k).1
                    },
                forall|k: int|
                    0 <= k < couplings@.len() ==> #[trigger] couplings@[k] == ring_weight(
                        half as int,
                        k,
                    ),
            decreases half - o,
        {
            proof {
                lemma_flat(half as int, u as int, o as int);
            }
            let far: usize = u + 1 + o;
            edges.push((u, far % nodes));
            couplings.push(
                if far % 3 == 0 {
                    -1000
                } else {
                    1000
                },
            );
            o = o + 1;
        }
        h.push((u % 3) as i32 * 1000 - 1000);
        assert((u + 1) * half == u * half + half) by (nonlinear_arith);
        u = u + 1;
    }
    Ok(IsingGraph::new(h, couplings, edges))
}

/// An edge touches node `v`.
pub open spec fn touches(e: (usize, usize), v: int) -> bool {
    e.0 == v || e.1 == v
}

/// How many of the first `k` edges touch node `v`.
pub open spec fn degree_upto(edges: Seq<(usize, usize)>, v: int, k: int) -> int
    decreases k,
{
    if k <= 0 {
        0
    } else {
        degree_upto(edges, v, k - 1) + if touches(edges[k - 1], v) {
            1int
        } else {
            0
        }
    }
}

/// The step from `u` on to `v` around the ring.
spec fn gap(nodes: int, u: int, v: int) -> int {
    if u <= v {
        v - u
    } else {
        nodes + v - u
    }
}

proof fn lemma_far(nodes: int, u: int, o: int, v: int)
    requires
        0 <= u < nodes,
        0 <= v < nodes,
        1 <= o < nodes,
    ensures
        (u + o) % nodes == v <==> gap(nodes, u, v) == o,
        0 <= (u + o) % nodes < nodes,
        (u + o) % nodes != u,
{
    if u + o < nodes {
        vstd::arithmetic::div_mod::lemma_small_mod((u + o) as nat, nodes as nat);
    } else {
        vstd::arithmetic::div_mod::lemma_small_mod((u + o - nodes) as nat, nodes as nat);
        vstd::arithmetic::div_mod::lemma_mod_add_multiples_vanish(u + o - nodes, nodes);
    }
}

/// How many of the nodes below `u` have an edge to or from `v`, counted with the
/// edges of `v` itself.
spec fn touched_below(nodes: int, half: int, v: int, u: int) -> int
    decreases u,
{
    if u <= 0 {
        0
    } else {
        touched_below(nodes, half, v, u - 1) + block_touches(nodes, half, v, u - 1, half)
    }
}

/// How many of the first `o` edges of node `u` touch `v`.
spec fn block_touches(nodes: int, half: int, v: int, u: int, o: int) -> int {
    if u == v {
        o
    } else if 1 <= gap(nodes, u, v) <= o {
        1
    } else {
        0
    }
}

proof fn lemma_touched(nodes: int, half: int, v: int, u: int)
    requires
        0 <= v < nodes,
        0 <= u <= nodes,
        0 <= half,
        2 * half < nodes,
    ensures
        touched_below(nodes, half, v, u) == (if u <= v {
            if u > v - half {
                if v > half {
                    u - (v - half)
                } else {
                    u
                }
            } else {
                0
            }
        } else {
            (if v > half {
                half
            } else {
                v
            }) + half + (if u > nodes + v - half {
                u - (nodes + v - half)
            } else {
                0
            })
        }),
    decreases u,
{
    if u > 0 {
        lemma_touched(nodes, half, v, u - 1);
    }
}

proof fn lemma_degree_flat(g: IsingGraph, nodes: int, half: int, v: int, u: int, o: int)
    requires
        is_ring(nodes, half, g),
        0 <= v < nodes,
        0 <= u < nodes,
        0 <= o <= half,
        2 * half < nodes,
    ensures
        degree_upto(g.edges@, v, u * half + o) == touched_below(nodes, half, v, u)
            + block_touches(nodes, half, v, u, o),
    decreases u, o,
{
    if o > 0 {
        lemma_degree_flat(g, nodes, half, v, u, o - 1);
        let k = u * half + o - 1;
        lemma_flat(half, u, o - 1);
        assert(u * half + o <= nodes * half) by (nonlinear_arith)
            requires
                u + 1 <= nodes,
                o <= half,
                half >= 0,
        ;
        assert(0 <= u * half) by (nonlinear_arith)
            requires
                0 <= u,
                0 <= half,
        ;
        assert(0 <= k < g.edges@.len());
        assert(g.edges@[k].0 == ring_edge(nodes, half, k).0);
        lemma_far(nodes, u, o, v);
    } else if u > 0 {
        lemma_degree_flat(g, nodes, half, v, u - 1, half);
        assert((u - 1) * half + half == u * half) by (nonlinear_arith);
    } else {
        assert(0 * half == 0) by (nonlinear_arith);
    }
}

/// Every node of a ring has the degree asked for.
pub proof fn ring_is_regular(g: IsingGraph, nodes: int, half: int, v: int)
    requires
        is_ring(nodes, half, g),
        0 <= half,
        2 * half < nodes,
        0 <= v < nodes,
    ensures
        degree_upto(g.edges@, v, g.edges@.len() as int) == 2 * half,
{
    lemma_degree_flat(g, nodes, half, v, nodes - 1, half);
    assert((nodes - 1) * half + half == nodes * half) by (nonlinear_arith);
    lemma_touched(nodes, half, v, nodes);
}

/// No edge of a ring is a loop, and no two join the same nodes.
pub proof fn ring_edges_are_distinct(g: IsingGraph, nodes: int, half: int, a: int, b: int)
    requires
        is_ring(nodes, half, g),
        0 <= half,
        2 * half < nodes,
        0 <= a < b < g.edges@.len(),
    ensures
        g.edges@[a].0 != g.edges@[a].1,
        g.edges@[a] != g.edges@[b],
        (g.edges@[a].1, g.edges@[a].0) != g.edges@[b],
{
    assert(half > 0) by (nonlinear_arith)
        requires
            nodes * half > 0,
            half >= 0,
    ;
    let (ua, oa) = (a / half, a % half + 1);
    let (ub, ob) = (b / half, b % half + 1);
    vstd::arithmetic::div_mod::lemma_fundamental_div_mod(a, half);
    vstd::arithmetic::div_mod::lemma_fundamental_div_mod(b, half);
    assert(0 <= ua < nodes && 0 <= ub < nodes) by (nonlinear_arith)
        requires
            a == half * ua + (oa - 1),
            b == half * ub + (ob - 1),
            1 <= oa <= half,
            1 <= ob <= half,
            0 <= a,
            0 <= b,
            a < nodes * half,
            b < nodes * half,
            half > 0,
    ;
    assert(g.edges@[a].0 == ua && g.edges@[b].0 == ub);
    let (va, vb) = ((ua + oa) % nodes, (ub + ob) % nodes);
    assert(g.edges@[a].1 == va && g.edges@[b].1 == vb);
    lemma_far(nodes, ua, oa, va);
    lemma_far(nodes, ub, ob, vb);
    if ua == ub && va == vb {
        assert(oa == ob);
    }
    if va == ub && ua == vb {
        assert(gap(nodes, ua, ub) == oa && gap(nodes, ub, ua) == ob);
    }
}

/// One byte of a fingerprint: exclusive or, then a multiplication by an odd prime
/// that wraps.
pub open spec fn absorbed_byte(hash: u64, byte: u8) -> u64 {
    (((hash ^ byte as u64) * 0x0100_0000_01b3) % 0x1_0000_0000_0000_0000) as u64
}

/// A fingerprint with bytes added.
pub open spec fn absorbed_bytes(hash: u64, bytes: Seq<u8>) -> u64
    decreases bytes.len(),
{
    if bytes.len() == 0 {
        hash
    } else {
        absorbed_byte(absorbed_bytes(hash, bytes.drop_last()), bytes.last())
    }
}

/// Byte `k` of an energy, the lowest first.
pub open spec fn energy_byte(energy: i64, k: int) -> u8 {
    ((energy as u64 >> ((8 * k) as u64)) & 0xff) as u8
}

/// The bytes of a result: its energy, then its spins.
pub open spec fn result_bytes(r: SamplerResult) -> Seq<u8> {
    Seq::new(8, |k: int| energy_byte(r.energy_milli, k)) + Seq::new(
        r.spins@.len(),
        |i: int| r.spins@[i] as u8,
    )
}

/// The fingerprint of the first `k` results.
pub open spec fn hash_upto(results: Seq<SamplerResult>, k: int) -> u64
    decreases k,
{
    if k <= 0 {
        0xcbf2_9ce4_8422_2325
    } else {
        absorbed_bytes(hash_upto(results, k - 1), result_bytes(results[k - 1]))
    }
}

/// The fingerprint of results.
pub open spec fn hash_of(results: Seq<SamplerResult>) -> u64 {
    hash_upto(results, results.len() as int)
}

fn absorb(hash: u64, byte: u8) -> (r: u64)
    ensures
        r == absorbed_byte(hash, byte),
{
    (hash ^ byte as u64).wrapping_mul(0x0100_0000_01b3)
}

/// The fingerprint of results: energies and spins in order.
pub fn result_hash(results: &Vec<SamplerResult>) -> (hash: u64)
    ensures
        hash == hash_of(results@),
{
    let mut hash: u64 = 0xcbf2_9ce4_8422_2325;
    let mut i: usize = 0;
    while i < results.len()
        invariant
            i <= results@.len(),
            hash == hash_upto(results@, i as int),
        decreases results@.len() - i,
    {
        let ghost start = hash;
        let ghost bytes = result_bytes(results@[i as int]);
        let bits: u64 = results[i].energy_milli as u64;
        assert(bytes.take(0) =~= Seq::empty());
        let mut k: usize = 0;
        while k < 8
            invariant
                i < results@.len(),
                bits == results@[i as int].energy_milli as u64,
                bytes == result_bytes(results@[i as int]),
                k <= 8,
                hash == absorbed_bytes(start, bytes.take(k as int)),
            decreases 8 - k,
        {
            let shift: u64 = 8 * k as u64;
            let byte: u8 = ((bits >> shift) & 0xff) as u8;
            proof {
                assert(byte == bytes[k as int]);
                let next = bytes.take(k + 1);
                assert(next.drop_last() =~= bytes.take(k as int));
                assert(next.last() == byte);
            }
            hash = absorb(hash, byte);
            k = k + 1;
        }
        let mut v: usize = 0;
        while v < results[i].spins.len()
            invariant
                i < results@.len(),
                bytes == result_bytes(results@[i as int]),
                v <= results@[i as int].spins@.len(),
                hash == absorbed_bytes(start, bytes.take(8 + v)),
            decreases results@[i as int].spins@.len() - v,
        {
            let byte: u8 = results[i].spins[v] as u8;
            proof {
                assert(byte == bytes[8 + v]);
                let next = bytes.take(8 + v + 1);
                assert(next.drop_last() =~= bytes.take(8 + v));
                assert(next.last() == byte);
            }
            hash = absorb(hash, byte);
            v = v + 1;
        }
        assert(bytes.take(bytes.len() as int) =~= bytes);
        i = i + 1;
    }
    hash
}

/// The character of a hexadecimal digit.
pub open spec fn hex_char(d: int) -> char {
    if d == 0 {
        '0'
    } else if d == 1 {
        '1'
    } else if d == 2 {
        '2'
    } else if d == 3 {
        '3'
    } else if d == 4 {
        '4'
    } else if d == 5 {
        '5'
    } else if d == 6 {
        '6'
    } else if d == 7 {
        '7'
    } else if d == 8 {
        '8'
    } else if d == 9 {
        '9'
    } else if d == 10 {
        'a'
    } else if d == 11 {
        'b'
    } else if d == 12 {
        'c'
    } else if d == 13 {
        'd'
    } else if d == 14 {
        'e'
    } else {
        'f'
    }
}

/// The last `width` hexadecimal digits of `n`.
pub open spec fn hex_of(n: int, width: nat) -> Seq<char>
    decreases width,
{
    if width == 0 {
        Seq::empty()
    } else {
        hex_of(n / 16, (width - 1) as nat).push(hex_char(n % 16))
    }
}

fn hex_digit(d: u64) -> (r: &'static str)
    requires
        d < 16,
    ensures
        r@ == seq![hex_char(d as int)],
{
    proof {
        reveal_strlit("0");
        reveal_strlit("1");
        reveal_strlit("2");
        reveal_strlit("3");
        reveal_strlit("4");
        reveal_strlit("5");
        reveal_strlit("6");
        reveal_strlit("7");
        reveal_strlit("8");
        reveal_strlit("9");
        reveal_strlit("a");
        reveal_strlit("b");
        reveal_strlit("c");
        reveal_strlit("d");
        reveal_strlit("e");
        reveal_strlit("f");
    }
    let r = match d {
        0 => "0",
        1 => "1",
        2 => "2",
        3 => "3",
        4 => "4",
        5 => "5",
        6 => "6",
        7 => "7",
        8 => "8",
        9 => "9",
        10 => "a",
        11 => "b",
        12 => "c",
        13 => "d",
        14 => "e",
        _ => "f",
    };
    assert(r@ =~= seq![hex_char(d as int)]);
    r
}

/// The last `width` hexadecimal digits of `n`.
fn hex(n: u64, width: usize) -> (r: String)
    ensures
        r@ == hex_of(n as int, width as nat),
    decreases width,
{
    if width == 0 {
        proof {
            reveal_strlit("");
        }
        let r = String::from_str("");
        assert(r@ =~= Seq::empty());
        r
    } else {
        let mut r = hex(n / 16, width - 1);
        r.append(hex_digit(n % 16));
        assert(r@ =~= hex_of(n as int, width as nat));
        r
    }
}

/// The fingerprint of results as sixteen hexadecimal digits.
pub fn fingerprint(results: &Vec<SamplerResult>) -> (r: String)
    ensures
        r@ == hex_of(hash_of(results@) as int, 16),
{
    hex(result_hash(results), 16)
}

proof fn lemma_prime_is_odd(a: u64, b: u64)
    requires
        (a * 0x0100_0000_01b3) % 0x1_0000_0000_0000_0000 == (b * 0x0100_0000_01b3)
            % 0x1_0000_0000_0000_0000,
    ensures
        a == b,
{
    lemma_unprime(a);
    lemma_unprime(b);
}

proof fn lemma_unprime(a: u64)
    ensures
        (((a * 0x0100_0000_01b3) % 0x1_0000_0000_0000_0000) * 0xce96_5057_aff6_957b)
            % 0x1_0000_0000_0000_0000 == a,
{
    let m: int = 0x1_0000_0000_0000_0000;
    let x: int = a * 0x0100_0000_01b3;
    vstd::arithmetic::div_mod::lemma_mul_mod_noop_left(x, 0xce96_5057_aff6_957b, m);
    assert(x * 0xce96_5057_aff6_957b == m * (a * 887285111055) + a) by (nonlinear_arith)
        requires
            x == a * 0x0100_0000_01b3,
            m == 0x1_0000_0000_0000_0000,
    ;
    vstd::arithmetic::div_mod::lemma_mod_multiples_vanish(a * 887285111055, a as int, m);
    vstd::arithmetic::div_mod::lemma_small_mod(a as nat, m as nat);
}

proof fn lemma_absorb_apart(a: u64, b: u64, x: u8, y: u8)
    requires
        absorbed_byte(a, x) == absorbed_byte(b, y),
    ensures
        a == b ==> x == y,
        x == y ==> a == b,
{
    lemma_prime_is_odd(a ^ x as u64, b ^ y as u64);
    assert(a ^ x as u64 == b ^ y as u64 ==> (a == b ==> x == y) && (x == y ==> a == b))
        by (bit_vector);
}

proof fn lemma_bytes_apart(a: u64, b: u64, bytes: Seq<u8>)
    requires
        a != b,
    ensures
        absorbed_bytes(a, bytes) != absorbed_bytes(b, bytes),
    decreases bytes.len(),
{
    if bytes.len() > 0 {
        lemma_bytes_apart(a, b, bytes.drop_last());
        if absorbed_bytes(a, bytes) == absorbed_bytes(b, bytes) {
            lemma_absorb_apart(
                absorbed_bytes(a, bytes.drop_last()),
                absorbed_bytes(b, bytes.drop_last()),
                bytes.last(),
                bytes.last(),
            );
        }
    }
}

proof fn lemma_one_byte(hash: u64, a: Seq<u8>, b: Seq<u8>, i: int)
    requires
        a.len() == b.len(),
        0 <= i < a.len(),
        a[i] != b[i],
        forall|t: int| 0 <= t < a.len() && t != i ==> a[t] == b[t],
    ensures
        absorbed_bytes(hash, a) != absorbed_bytes(hash, b),
    decreases a.len(),
{
    let (p, q) = (absorbed_bytes(hash, a.drop_last()), absorbed_bytes(hash, b.drop_last()));
    if i == a.len() - 1 {
        assert(a.drop_last() =~= b.drop_last());
    } else {
        lemma_one_byte(hash, a.drop_last(), b.drop_last(), i);
    }
    if absorbed_bytes(hash, a) == absorbed_bytes(hash, b) {
        lemma_absorb_apart(p, q, a.last(), b.last());
    }
}

proof fn lemma_hash_same(a: Seq<SamplerResult>, b: Seq<SamplerResult>, k: int)
    requires
        0 <= k <= a.len(),
        k <= b.len(),
        forall|t: int| 0 <= t < k ==> result_bytes(a[t]) == result_bytes(b[t]),
    ensures
        hash_upto(a, k) == hash_upto(b, k),
    decreases k,
{
    if k > 0 {
        lemma_hash_same(a, b, k - 1);
    }
}

proof fn lemma_hash_apart(a: Seq<SamplerResult>, b: Seq<SamplerResult>, r: int, k: int)
    requires
        0 <= r < k <= a.len(),
        k <= b.len(),
        hash_upto(a, r + 1) != hash_upto(b, r + 1),
        forall|t: int| r < t < k ==> result_bytes(a[t]) == result_bytes(b[t]),
    ensures
        hash_upto(a, k) != hash_upto(b, k),
    decreases k,
{
    if k > r + 1 {
        lemma_hash_apart(a, b, r, k - 1);
        lemma_bytes_apart(hash_upto(a, k - 1), hash_upto(b, k - 1), result_bytes(a[k - 1]));
    }
}

proof fn lemma_hex_apart(a: int, b: int, width: nat, bound: int)
    requires
        0 <= a < bound,
        0 <= b < bound,
        bound == vstd::arithmetic::power::pow(16, width),
        hex_of(a, width) == hex_of(b, width),
    ensures
        a == b,
    decreases width,
{
    vstd::arithmetic::power::lemma_pow0(16);
    if width > 0 {
        let less = (width - 1) as nat;
        reveal(vstd::arithmetic::power::pow);
        let (x, y) = (hex_of(a, width), hex_of(b, width));
        assert(x.drop_last() =~= hex_of(a / 16, less));
        assert(y.drop_last() =~= hex_of(b / 16, less));
        assert(x.last() == hex_char(a % 16) && y.last() == hex_char(b % 16));
        lemma_hex_apart(a / 16, b / 16, less, vstd::arithmetic::power::pow(16, less));
        assert(a % 16 == b % 16);
    }
}

/// Two lists of results that differ in one spin have different fingerprints.
pub proof fn one_spin_changes_the_fingerprint(
    a: Seq<SamplerResult>,
    b: Seq<SamplerResult>,
    r: int,
    v: int,
)
    requires
        a.len() == b.len(),
        0 <= r < a.len(),
        forall|t: int|
            0 <= t < a.len() && t != r ==> (#[trigger] a[t]).spins@ == b[t].spins@
                && a[t].energy_milli == b[t].energy_milli,
        a[r].energy_milli == b[r].energy_milli,
        a[r].spins@.len() == b[r].spins@.len(),
        0 <= v < a[r].spins@.len(),
        a[r].spins@[v] != b[r].spins@[v],
        forall|t: int|
            0 <= t < a[r].spins@.len() && t != v ==> a[r].spins@[t] == b[r].spins@[t],
    ensures
        hex_of(hash_of(a) as int, 16) != hex_of(hash_of(b) as int, 16),
{
    assert forall|t: int| 0 <= t < a.len() && t != r implies result_bytes(a[t]) == result_bytes(
        b[t],
    ) by {
        assert(a[t].spins@ == b[t].spins@);
        assert(result_bytes(a[t]) =~= result_bytes(b[t]));
    }
    lemma_hash_same(a, b, r);
    let (x, y) = (result_bytes(a[r]), result_bytes(b[r]));
    let (s, t) = (a[r].spins@[v], b[r].spins@[v]);
    assert(s != t ==> s as u8 != t as u8) by (bit_vector);
    assert(x[8 + v] == s as u8 && y[8 + v] == t as u8);
    lemma_one_byte(hash_upto(a, r), x, y, 8 + v);
    lemma_hash_apart(a, b, r, a.len() as int);
    if hex_of(hash_of(a) as int, 16) == hex_of(hash_of(b) as int, 16) {
        reveal_with_fuel(vstd::arithmetic::power::pow, 17);
        lemma_hex_apart(hash_of(a) as int, hash_of(b) as int, 16, 0x1_0000_0000_0000_0000);
    }
}

/// The middle of values that run upward: of an even number of them the mean of the
/// two in the middle, 0 of none.
pub open spec fn middle(s: Seq<u128>) -> int {
    let n = s.len() as int;
    if n == 0 {
        0
    } else if n % 2 == 0 {
        (s[n / 2 - 1] + s[n / 2]) / 2
    } else {
        s[n / 2] as int
    }
}

/// The median stands in the middle: no more than half of the values lie below it
/// and no more than half above, and twice the median is the sum of the two values
/// in the middle, or one less. Of an odd number of values those two are one.
pub proof fn the_median_stands_in_the_middle(s: Seq<u128>, i: int)
    requires
        runs_upward(s),
        0 <= i < s.len(),
    ensures
        2 * i + 1 <= s.len() ==> s[i] <= middle(s),
        s.len() <= 2 * i + 1 ==> middle(s) <= s[i],
        ({
            let both = s[(s.len() - 1) / 2] + s[s.len() as int / 2];
            2 * middle(s) <= both <= 2 * middle(s) + 1
        }),
{
    let n = s.len() as int;
    assert forall|a: int, b: int| 0 <= a <= b < n implies #[trigger] s[a] <= #[trigger] s[b] by {
        if a < b {
            assert(s[a].key() <= s[b].key());
        }
    }
}

/// The median of times. The times are put in order.
pub fn median_ns(samples: &mut Vec<u128>) -> (m: u128)
    ensures
        arranged(old(samples)@, final(samples)@),
        m == middle(final(samples)@),
{
    arrange(samples);
    let n: usize = samples.len();
    if n == 0 {
        0
    } else if n % 2 == 0 {
        let a: u128 = samples[n / 2 - 1];
        let b: u128 = samples[n / 2];
        a / 2 + b / 2 + (a % 2 + b % 2) / 2
    } else {
        samples[n / 2]
    }
}

/// The lowest energy of the first `k` results.
pub open spec fn lowest_upto(results: Seq<SamplerResult>, k: int) -> i64
    decreases k,
{
    if k <= 1 {
        results[0].energy_milli
    } else {
        let before = lowest_upto(results, k - 1);
        if results[k - 1].energy_milli < before {
            results[k - 1].energy_milli
        } else {
            before
        }
    }
}

/// The lowest energy of results; 0 where there is none.
pub open spec fn lowest(results: Seq<SamplerResult>) -> i64 {
    if results.len() == 0 {
        0
    } else {
        lowest_upto(results, results.len() as int)
    }
}

/// The spins of results.
pub open spec fn spins_of(results: Seq<SamplerResult>) -> Seq<Seq<i8>> {
    Seq::new(results.len(), |i: int| results[i].spins@)
}

/// The energies of results.
pub open spec fn energies_of(results: Seq<SamplerResult>) -> Seq<i64> {
    Seq::new(results.len(), |i: int| results[i].energy_milli)
}

/// Whether two spin vectors are equal.
fn same_spins(a: &Vec<i8>, b: &Vec<i8>) -> (r: bool)
    ensures
        r <==> a@ == b@,
{
    if a.len() != b.len() {
        return false;
    }
    let mut i: usize = 0;
    while i < a.len()
        invariant
            a@.len() == b@.len(),
            i <= a@.len(),
            forall|k: int| 0 <= k < i ==> a@[k] == b@[k],
        decreases a@.len() - i,
    {
        if a[i] != b[i] {
            return false;
        }
        i = i + 1;
    }
    assert(a@ =~= b@);
    true
}

proof fn lemma_set_grows<A>(s: Seq<A>, k: int)
    requires
        0 <= k < s.len(),
    ensures
        s.take(k + 1).to_set() == s.take(k).to_set().insert(s[k]),
        s.take(k).to_set().finite(),
{
    let (a, b) = (s.take(k), s.take(k + 1));
    vstd::seq_lib::seq_to_set_is_finite(a);
    assert forall|x: A| b.to_set().contains(x) <==> a.to_set().insert(s[k]).contains(x) by {
        if b.contains(x) {
            let i = choose|i: int| 0 <= i < b.len() && b[i] == x;
            if i < k {
                assert(a[i] == x);
            }
        }
        if a.contains(x) {
            let i = choose|i: int| 0 <= i < a.len() && a[i] == x;
            assert(b[i] == x);
        }
        assert(b[k] == s[k]);
    }
    assert(b.to_set() =~= a.to_set().insert(s[k]));
}

/// How many different values a sequence holds, by a test that tells whether two
/// of its places hold the same value.
fn count_distinct<T, F: Fn(usize, usize) -> bool>(
    Ghost(all): Ghost<Seq<T>>,
    len: usize,
    same: F,
) -> (n: usize)
    requires
        len == all.len(),
        forall|k: usize, i: usize| k < len && i < len ==> call_requires(same, (k, i)),
        forall|k: usize, i: usize, r: bool|
            k < len && i < len && call_ensures(same, (k, i), r) ==> r == (all[k as int]
                == all[i as int]),
    ensures
        n == all.to_set().len(),
{
    let mut n: usize = 0;
    let mut i: usize = 0;
    assert(all.take(0).to_set() =~= Set::empty());
    while i < len
        invariant
            len == all.len(),
            forall|k: usize, i: usize| k < len && i < len ==> call_requires(same, (k, i)),
            forall|k: usize, i: usize, r: bool|
                k < len && i < len && call_ensures(same, (k, i), r) ==> r == (all[k as int]
                    == all[i as int]),
            i <= len,
            n <= i,
            n == all.take(i as int).to_set().len(),
        decreases len - i,
    {
        let mut seen: bool = false;
        let mut k: usize = 0;
        while k < i
            invariant
                len == all.len(),
                forall|k: usize, i: usize| k < len && i < len ==> call_requires(same, (k, i)),
                forall|k: usize, i: usize, r: bool|
                    k < len && i < len && call_ensures(same, (k, i), r) ==> r == (all[k as int]
                        == all[i as int]),
                i < len,
                k <= i,
                seen <==> exists|t: int| 0 <= t < k && #[trigger] all[t] == all[i as int],
            decreases i - k,
        {
            if same(k, i) {
                assert(all[k as int] == all[i as int]);
                seen = true;
            }
            k = k + 1;
        }
        proof {
            lemma_set_grows(all, i as int);
            let before = all.take(i as int);
            if seen {
                let t = choose|t: int| 0 <= t < i && #[trigger] all[t] == all[i as int];
                assert(before[t] == all[i as int]);
                assert(before.to_set().insert(all[i as int]) =~= before.to_set());
            } else if before.contains(all[i as int]) {
                let t = choose|t: int| 0 <= t < before.len() && before[t] == all[i as int];
                assert(all[t] == all[i as int]);
            }
        }
        if !seen {
            n = n + 1;
        }
        i = i + 1;
    }
    assert(all.take(all.len() as int) =~= all);
    n
}

/// How many different spin vectors the results hold.
pub fn distinct_spins(results: &Vec<SamplerResult>) -> (n: usize)
    ensures
        n == spins_of(results@).to_set().len(),
{
    let same = |k: usize, i: usize| -> (r: bool)
        requires
            k < results@.len(),
            i < results@.len(),
        ensures
            r == (spins_of(results@)[k as int] == spins_of(results@)[i as int]),
        { same_spins(&results[k].spins, &results[i].spins) };
    count_distinct::<Seq<i8>, _>(Ghost(spins_of(results@)), results.len(), same)
}

/// How many different energies the results hold.
pub fn distinct_energies(results: &Vec<SamplerResult>) -> (n: usize)
    ensures
        n == energies_of(results@).to_set().len(),
{
    let same = |k: usize, i: usize| -> (r: bool)
        requires
            k < results@.len(),
            i < results@.len(),
        ensures
            r == (energies_of(results@)[k as int] == energies_of(results@)[i as int]),
        { results[k].energy_milli == results[i].energy_milli };
    count_distinct::<i64, _>(Ghost(energies_of(results@)), results.len(), same)
}

/// The lowest energy, and how many different spin vectors the results hold.
pub fn summarize(results: &Vec<SamplerResult>) -> (r: (i64, usize))
    ensures
        r.0 == lowest(results@),
        r.1 == spins_of(results@).to_set().len(),
{
    let mut best: i64 = 0;
    let mut i: usize = 0;
    while i < results.len()
        invariant
            i <= results@.len(),
            i == 0 ==> best == 0,
            i > 0 ==> best == lowest_upto(results@, i as int),
        decreases results@.len() - i,
    {
        if i == 0 || results[i].energy_milli < best {
            best = results[i].energy_milli;
        }
        i = i + 1;
    }
    (best, distinct_spins(results))
}

/// The lowest energy is one of the energies, and no energy lies below it.
pub proof fn lowest_is_a_minimum(results: Seq<SamplerResult>, k: int)
    requires
        0 < k <= results.len(),
    ensures
        exists|i: int| 0 <= i < k && (#[trigger] results[i]).energy_milli == lowest_upto(results, k),
        forall|i: int| 0 <= i < k ==> lowest_upto(results, k) <= (#[trigger] results[i]).energy_milli,
    decreases k,
{
    if k == 1 {
        assert(results[0].energy_milli == lowest_upto(results, k));
    } else {
        lowest_is_a_minimum(results, k - 1);
        if results[k - 1].energy_milli < lowest_upto(results, k - 1) {
            assert(results[k - 1].energy_milli == lowest_upto(results, k));
        }
    }
}

/// How much the results of one job differ.
#[derive(Debug, Clone, Copy, PartialEq, Eq, Structural)]
pub struct Diversity {
    /// Different spin vectors.
    pub spins: usize,
    /// Different energies.
    pub energies: usize,
    /// The lowest energy.
    pub best: i64,
    /// The energy in the middle, the upper one of two.
    pub median: i64,
}

/// `d` describes results whose energies in upward order are `s`.
pub open spec fn diverse(results: Seq<SamplerResult>, s: Seq<i64>, d: Diversity) -> bool {
    &&& arranged(energies_of(results), s)
    &&& d.spins == spins_of(results).to_set().len()
    &&& d.energies == energies_of(results).to_set().len()
    &&& d.best == s[0]
    &&& d.median == s[(s.len() / 2) as int]
}

/// How much the results of one job differ.
pub fn diversity(results: &Vec<SamplerResult>) -> (d: Diversity)
    requires
        results@.len() > 0,
    ensures
        exists|s: Seq<i64>| diverse(results@, s, d),
{
    let mut energies: Vec<i64> = Vec::with_capacity(results.len());
    let mut i: usize = 0;
    while i < results.len()
        invariant
            i <= results@.len(),
            energies@ == energies_of(results@).take(i as int),
        decreases results@.len() - i,
    {
        energies.push(results[i].energy_milli);
        i = i + 1;
        assert(energies@ =~= energies_of(results@).take(i as int));
    }
    assert(energies@ =~= energies_of(results@));
    arrange(&mut energies);
    let d = Diversity {
        spins: distinct_spins(results),
        energies: distinct_energies(results),
        best: energies[0],
        median: energies[energies.len() / 2],
    };
    assert(diverse(results@, energies@, d));
    d
}

/// One case of the measurement.
#[derive(Debug, Clone, Copy)]
pub struct Case {
    /// Its name.
    pub name: &'static str,
    /// Nodes of its ring.
    pub nodes: usize,
    /// Degree of its ring.
    pub degree: usize,
    /// Solutions per run.
    pub reads: usize,
    /// Sweeps per read.
    pub sweeps: usize,
    /// Inverse temperatures of the ladder, in thousandths.
    pub beta_milli: (u32, u32),
    /// Whether each repeat starts with a sampler of its own.
    pub fresh_sampler: bool,
}

/// The cases by number; a quick measurement has a smaller `mixed128` and none of
/// the two setup cases.
pub open spec fn case_of(quick: bool, i: int) -> Case {
    if i == 0 {
        Case {
            name: "hot64",
            nodes: 512,
            degree: 20,
            reads: 64,
            sweeps: 128,
            beta_milli: (5, 20),
            fresh_sampler: false,
        }
    } else if i == 1 {
        Case {
            name: "mixed128",
            nodes: if quick {
                512
            } else {
                4096
            },
            degree: 20,
            reads: 128,
            sweeps: if quick {
                64
            } else {
                256
            },
            beta_milli: (50, 4000),
            fresh_sampler: false,
        }
    } else if i == 2 {
        Case {
            name: "cold128",
            nodes: 512,
            degree: 20,
            reads: 128,
            sweeps: 128,
            beta_milli: (2000, 8000),
            fresh_sampler: false,
        }
    } else if i == 3 {
        Case {
            name: "sparse64",
            nodes: 512,
            degree: 6,
            reads: 64,
            sweeps: 128,
            beta_milli: (50, 4000),
            fresh_sampler: false,
        }
    } else if i == 4 {
        Case {
            name: "dense64",
            nodes: 256,
            degree: 48,
            reads: 64,
            sweeps: 128,
            beta_milli: (50, 4000),
            fresh_sampler: false,
        }
    } else {
        Case {
            name: if i == 5 {
                "setup128"
            } else {
                "setup128_fresh"
            },
            nodes: 4096,
            degree: 20,
            reads: 128,
            sweeps: 4,
            beta_milli: (50, 4000),
            fresh_sampler: i != 5,
        }
    }
}

fn case(
    name: &'static str,
    nodes: usize,
    degree: usize,
    reads: usize,
    sweeps: usize,
    beta_milli: (u32, u32),
    fresh_sampler: bool,
) -> (c: Case)
    ensures
        c == (Case { name, nodes, degree, reads, sweeps, beta_milli, fresh_sampler }),
{
    Case { name, nodes, degree, reads, sweeps, beta_milli, fresh_sampler }
}

/// The cases of a measurement.
pub fn cases(quick: bool) -> (out: Vec<Case>)
    ensures
        out@.len() == if quick {
            5int
        } else {
            7
        },
        forall|i: int| 0 <= i < out@.len() ==> #[trigger] out@[i] == case_of(quick, i),
{
    let mixed_nodes: usize = if quick {
        512
    } else {
        4096
    };
    let mixed_sweeps: usize = if quick {
        64
    } else {
        256
    };
    let mut out: Vec<Case> = Vec::with_capacity(7);
    out.push(case("hot64", 512, 20, 64, 128, (5, 20), false));
    out.push(case("mixed128", mixed_nodes, 20, 128, mixed_sweeps, (50, 4000), false));
    out.push(case("cold128", 512, 20, 128, 128, (2000, 8000), false));
    out.push(case("sparse64", 512, 6, 64, 128, (50, 4000), false));
    out.push(case("dense64", 256, 48, 64, 128, (50, 4000), false));
    if !quick {
        out.push(case("setup128", 4096, 20, 128, 4, (50, 4000), false));
        out.push(case("setup128_fresh", 4096, 20, 128, 4, (50, 4000), true));
    }
    out
}

/// The parameters of a case.
pub fn case_params(case: &Case) -> (p: SampleParams)
    ensures
        p.num_reads == case.reads,
        p.num_sweeps == case.sweeps,
        p.sweeps_per_beta == SWEEPS_PER_BETA,
        p.seed == SEED,
{
    SampleParams {
        num_reads: case.reads,
        num_sweeps: case.sweeps,
        sweeps_per_beta: SWEEPS_PER_BETA,
        seed: SEED,
    }
}

/// The measurement of a case as far as it has come: what the first run gave, and
/// the times of the repeats.
#[derive(Debug)]
pub struct Measurement {
    /// The case.
    pub case: Case,
    /// Fingerprint of the first run.
    pub expected: u64,
    /// Lowest energy of the first run.
    pub best_energy_milli: i64,
    /// Different spin vectors of the first run.
    pub distinct_solution_count: usize,
    /// Times of the repeats in nanoseconds.
    pub times: Vec<u128>,
}

/// What a case came to.
#[derive(Debug)]
pub struct CaseResult {
    /// The case.
    pub case: Case,
    /// Median time of the repeats in nanoseconds.
    pub median_ns: u128,
    /// Fingerprint of every run.
    pub fingerprint: String,
    /// Lowest energy.
    pub best_energy_milli: i64,
    /// Different spin vectors.
    pub distinct_solution_count: usize,
}

impl Measurement {
    /// Start a measurement from the results of the first run.
    pub fn start(case: Case, first: &Vec<SamplerResult>) -> (m: Self)
        ensures
            m.case == case,
            m.expected == hash_of(first@),
            m.best_energy_milli == lowest(first@),
            m.distinct_solution_count == spins_of(first@).to_set().len(),
            m.times@.len() == 0,
    {
        let (best_energy_milli, distinct_solution_count) = summarize(first);
        Measurement {
            case,
            expected: result_hash(first),
            best_energy_milli,
            distinct_solution_count,
            times: Vec::new(),
        }
    }

    /// Note a timed repeat, unless its results differ from those of the first run.
    pub fn note(&mut self, elapsed_ns: u128, results: &Vec<SamplerResult>) -> (r: Result<
        (),
        BenchError,
    >)
        ensures
            r is Ok <==> hash_of(results@) == old(self).expected,
            r matches Err(e) ==> e == BenchError::Fingerprint(old(self).case.name),
            final(self).times@ == if r is Ok {
                old(self).times@.push(elapsed_ns)
            } else {
                old(self).times@
            },
            final(self).case == old(self).case,
            final(self).expected == old(self).expected,
            final(self).best_energy_milli == old(self).best_energy_milli,
            final(self).distinct_solution_count == old(self).distinct_solution_count,
    {
        if result_hash(results) != self.expected {
            return Err(BenchError::Fingerprint(self.case.name));
        }
        self.times.push(elapsed_ns);
        Ok(())
    }

    /// What the measurement came to.
    pub fn finish(self) -> (r: CaseResult)
        ensures
            r.case == self.case,
            r.fingerprint@ == hex_of(self.expected as int, 16),
            r.best_energy_milli == self.best_energy_milli,
            r.distinct_solution_count == self.distinct_solution_count,
            exists|s: Seq<u128>| arranged(self.times@, s) && r.median_ns == #[trigger] middle(s),
    {
        let fingerprint = hex(self.expected, 16);
        let (case, best_energy_milli, distinct_solution_count) = (
            self.case,
            self.best_energy_milli,
            self.distinct_solution_count,
        );
        let mut times = self.times;
        let m: u128 = median_ns(&mut times);
        assert(m == middle(times@));
        CaseResult {
            case,
            median_ns: m,
            fingerprint,
            best_energy_milli,
            distinct_solution_count,
        }
    }
}

/// The columns of the report.
pub fn csv_header() -> (r: &'static str)
    ensures
        r@
            == "case,nodes,degree,reads,sweeps,median_ns,fingerprint,best_energy_milli,distinct_solution_count"@,
{
    "case,nodes,degree,reads,sweeps,median_ns,fingerprint,best_energy_milli,distinct_solution_count"
}

/// The row of a case.
pub open spec fn csv_row_of(r: CaseResult) -> Seq<char> {
    r.case.name@ + ","@ + decimal_of(r.case.nodes as nat) + ","@ + decimal_of(r.case.degree as nat)
        + ","@ + decimal_of(r.case.reads as nat) + ","@ + decimal_of(r.case.sweeps as nat) + ","@
        + decimal_of(r.median_ns as nat) + ","@ + r.fingerprint@ + ","@ + signed_decimal_of(
        r.best_energy_milli as int,
    ) + ","@ + decimal_of(r.distinct_solution_count as nat)
}

/// The row of a case, its columns parted by commas.
pub fn csv_row(r: &CaseResult) -> (row: String)
    ensures
        row@ == csv_row_of(*r),
{
    let mut row = String::from_str(r.case.name);
    row.append(",");
    row.append(decimal(r.case.nodes as u64).as_str());
    row.append(",");
    row.append(decimal(r.case.degree as u64).as_str());
    row.append(",");
    row.append(decimal(r.case.reads as u64).as_str());
    row.append(",");
    row.append(decimal(r.case.sweeps as u64).as_str());
    row.append(",");
    row.append(decimal_wide(r.median_ns).as_str());
    row.append(",");
    row.append(r.fingerprint.as_str());
    row.append(",");
    row.append(signed_decimal(r.best_energy_milli).as_str());
    row.append(",");
    row.append(decimal(r.distinct_solution_count as u64).as_str());
    row
}

} // verus!
