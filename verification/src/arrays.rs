//! Problems and requests that arrive as arrays, checked before a run.
use vstd::prelude::*;

use crate::ising::IsingGraph;
use crate::sampler_core::SamplerResult;
use crate::text::{decimal, decimal_of, signed_decimal, signed_decimal_of};

verus! {

/// Why arrays do not make a problem.
#[derive(Debug, Clone, Copy, PartialEq, Eq, Structural)]
pub enum ArrayError {
    /// An edge does not have two ends.
    Shape,
    /// There is not one coupling per edge.
    Couplings {
        /// Couplings.
        couplings: usize,
        /// Edges.
        edges: usize,
    },
    /// An edge ends at no node.
    Endpoint {
        /// The end.
        raw: i64,
        /// Nodes.
        nodes: usize,
    },
}

impl ArrayError {
    /// What the error says.
    pub open spec fn says(&self) -> Seq<char> {
        match self {
            ArrayError::Shape => "edges must have shape (m, 2)"@,
            ArrayError::Couplings { couplings, edges } => decimal_of(*couplings as nat)
                + " couplings for "@ + decimal_of(*edges as nat) + " edges"@,
            ArrayError::Endpoint { raw, nodes } => "edge endpoint "@ + signed_decimal_of(
                *raw as int,
            ) + " is outside 0.."@ + decimal_of(*nodes as nat) + "; edges index into h"@,
        }
    }

    /// The error in words.
    pub fn message(&self) -> (r: String)
        ensures
            r@ == self.says(),
    {
        match self {
            ArrayError::Shape => String::from_str("edges must have shape (m, 2)"),
            ArrayError::Couplings { couplings, edges } => {
                let mut r = decimal(*couplings as u64);
                r.append(" couplings for ");
                r.append(decimal(*edges as u64).as_str());
                r.append(" edges");
                r
            },
            ArrayError::Endpoint { raw, nodes } => {
                let mut r = String::from_str("edge endpoint ");
                r.append(signed_decimal(*raw).as_str());
                r.append(" is outside 0..");
                r.append(decimal(*nodes as u64).as_str());
                r.append("; edges index into h");
                r
            },
        }
    }
}

/// End `i` of the flat edge list is a node.
pub open spec fn is_node(nodes: int, flat: Seq<i64>, i: int) -> bool {
    0 <= flat[i] < nodes
}

/// End `i` is the first that is no node.
pub open spec fn first_stray(nodes: int, flat: Seq<i64>, i: int) -> bool {
    &&& 0 <= i < flat.len()
    &&& !is_node(nodes, flat, i)
    &&& forall|k: int| 0 <= k < i ==> #[trigger] is_node(nodes, flat, k)
}

/// Build a problem from a field per node, edges as a flat array with `cols` ends
/// each, and a coupling per edge.
pub fn build_graph(h: Vec<i32>, flat: &Vec<i64>, cols: usize, j: Vec<i32>) -> (r: Result<
    IsingGraph,
    ArrayError,
>)
    requires
        cols == 2 ==> flat@.len() % 2 == 0,
    ensures
        r matches Err(ArrayError::Shape) <==> cols != 2,
        r matches Err(ArrayError::Couplings { .. }) <==> cols == 2 && j@.len() * 2 != flat@.len(),
        r matches Err(ArrayError::Couplings { couplings, edges }) ==> couplings == j@.len() && edges
            == flat@.len() / 2,
        r is Ok <==> cols == 2 && j@.len() * 2 == flat@.len() && forall|i: int|
            0 <= i < flat@.len() ==> #[trigger] is_node(h@.len() as int, flat@, i),
        r matches Err(ArrayError::Endpoint { raw, nodes }) ==> nodes == h@.len() && exists|i: int|
            #[trigger] first_stray(h@.len() as int, flat@, i) && raw == flat@[i],
        r matches Ok(g) ==> {
            &&& g.h@ == h@
            &&& g.j@ == j@
            &&& g.edges@.len() == j@.len()
            &&& forall|k: int|
                0 <= k < g.edges@.len() ==> (#[trigger] g.edges@[k]).0 == flat@[2 * k]
                    && g.edges@[k].1 == flat@[2 * k + 1]
        },
{
    if cols != 2 {
        return Err(ArrayError::Shape);
    }
    let total: usize = flat.len();
    let rows: usize = total / 2;
    if rows != j.len() {
        return Err(ArrayError::Couplings { couplings: j.len(), edges: rows });
    }
    let nodes: usize = h.len();
    let ghost n = nodes as int;
    let mut edges: Vec<(usize, usize)> = Vec::with_capacity(rows);
    let mut k: usize = 0;
    while k < rows
        invariant
            n == nodes,
            nodes == h@.len(),
            cols == 2,
            rows == j@.len(),
            2 * rows == total,
            total == flat@.len(),
            k <= rows,
            edges@.len() == k,
            forall|i: int| 0 <= i < 2 * k ==> #[trigger] is_node(n, flat@, i),
            forall|i: int|
                0 <= i < k ==> (#[trigger] edges@[i]).0 == flat@[2 * i] && edges@[i].1
                    == flat@[2 * i + 1],
        decreases rows - k,
    {
        let a: i64 = flat[2 * k];
        let b: i64 = flat[2 * k + 1];
        if a < 0 || a as u64 >= nodes as u64 {
            assert(!is_node(n, flat@, 2 * k));
            assert(first_stray(n, flat@, 2 * k));
            return Err(ArrayError::Endpoint { raw: a, nodes });
        }
        assert(is_node(n, flat@, 2 * k));
        if b < 0 || b as u64 >= nodes as u64 {
            assert(!is_node(n, flat@, 2 * k + 1));
            assert(first_stray(n, flat@, 2 * k + 1));
            return Err(ArrayError::Endpoint { raw: b, nodes });
        }
        assert(is_node(n, flat@, 2 * k + 1));
        edges.push((a as usize, b as usize));
        k = k + 1;
    }
    Ok(IsingGraph::new(h, j, edges))
}

/// Why a request is refused before its problem is read.
#[derive(Debug, Clone, Copy, PartialEq, Eq, Structural)]
pub enum RequestError {
    /// A start temperature came without start spins.
    StartBetaAlone,
    /// The start temperature is not a finite number above 0.
    StartBeta,
    /// No reads were asked for.
    NumReads,
}

impl RequestError {
    /// What the error says; the value follows where the words end in one.
    pub open spec fn says(&self) -> Seq<char> {
        match self {
            RequestError::StartBetaAlone =>
                "start_beta applies to a seeded run; pass initial_spins too"@,
            RequestError::StartBeta =>
                "start_beta must be a finite inverse temperature above zero; got "@,
            RequestError::NumReads => "num_reads must be at least 1; got 0"@,
        }
    }

    /// The error in words.
    pub fn message(&self) -> (r: &'static str)
        ensures
            r@ == self.says(),
    {
        match self {
            RequestError::StartBetaAlone =>
                "start_beta applies to a seeded run; pass initial_spins too",
            RequestError::StartBeta =>
                "start_beta must be a finite inverse temperature above zero; got ",
            RequestError::NumReads => "num_reads must be at least 1; got 0",
        }
    }
}

/// Check a request. `start_beta` tells of a start temperature, where there is one,
/// whether it is a finite number above 0.
pub fn check_request(start_beta: Option<bool>, seeded: bool, num_reads: usize) -> (r: Result<
    (),
    RequestError,
>)
    ensures
        r == if start_beta is Some && !seeded {
            Err(RequestError::StartBetaAlone)
        } else if start_beta == Some(false) {
            Err(RequestError::StartBeta)
        } else if num_reads == 0 {
            Err(RequestError::NumReads)
        } else {
            Ok::<(), RequestError>(())
        },
{
    match start_beta {
        Some(fine) => {
            if !seeded {
                return Err(RequestError::StartBetaAlone);
            }
            if !fine {
                return Err(RequestError::StartBeta);
            }
        },
        None => {},
    }
    if num_reads < 1 {
        return Err(RequestError::NumReads);
    }
    Ok(())
}

/// The spins of all results in one array of `nodes` columns, and their energies.
pub fn flatten(results: &Vec<SamplerResult>, nodes: usize) -> (r: (Vec<i8>, Vec<i64>))
    requires
        forall|i: int| 0 <= i < results@.len() ==> (#[trigger] results@[i]).spins@.len() == nodes,
    ensures
        r.0@.len() == results@.len() * nodes,
        forall|i: int, v: int|
            0 <= i < results@.len() && 0 <= v < nodes ==> r.0@[i * nodes + v]
                == #[trigger] results@[i].spins@[v],
        r.1@.len() == results@.len(),
        forall|i: int|
            0 <= i < results@.len() ==> #[trigger] r.1@[i] == results@[i].energy_milli,
{
    let mut flat: Vec<i8> = Vec::new();
    let mut energies: Vec<i64> = Vec::with_capacity(results.len());
    let mut i: usize = 0;
    assert(0 * nodes == 0) by (nonlinear_arith);
    while i < results.len()
        invariant
            forall|i: int|
                0 <= i < results@.len() ==> (#[trigger] results@[i]).spins@.len() == nodes,
            i <= results@.len(),
            flat@.len() == i * nodes,
            forall|k: int, v: int|
                0 <= k < i && 0 <= v < nodes ==> flat@[k * nodes + v]
                    == #[trigger] results@[k].spins@[v],
            energies@.len() == i,
            forall|k: int| 0 <= k < i ==> #[trigger] energies@[k] == results@[k].energy_milli,
        decreases results@.len() - i,
    {
        let ghost base = flat@;
        let mut v: usize = 0;
        assert(results@[i as int].spins@.len() == nodes);
        while v < nodes
            invariant
                i < results@.len(),
                results@[i as int].spins@.len() == nodes,
                v <= nodes,
                flat@.len() == base.len() + v,
                forall|k: int| 0 <= k < base.len() ==> flat@[k] == base[k],
                forall|k: int|
                    0 <= k < v ==> flat@[base.len() + k] == results@[i as int].spins@[k],
            decreases nodes - v,
        {
            flat.push(results[i].spins[v]);
            v = v + 1;
        }
        energies.push(results[i].energy_milli);
        proof {
            assert((i + 1) * nodes == i * nodes + nodes) by (nonlinear_arith);
            assert forall|k: int, v: int| 0 <= k < i + 1 && 0 <= v < nodes implies flat@[k * nodes
                + v] == #[trigger] results@[k].spins@[v] by {
                if k < i {
                    assert(k * nodes + v < i * nodes) by (nonlinear_arith)
                        requires
                            k + 1 <= i,
                            0 <= v < nodes,
                    ;
                    assert(0 <= k * nodes) by (nonlinear_arith)
                        requires
                            0 <= k,
                            0 <= nodes,
                    ;
                    assert(base[k * nodes + v] == results@[k].spins@[v]);
                } else {
                    assert(k * nodes + v == base.len() + v);
                }
            }
        }
        i = i + 1;
    }
    (flat, energies)
}

} // verus!
