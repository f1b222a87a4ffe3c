//! Where benchmark models come from.
//!
//! A corpus entry names either a nonce, which is redrawn against a topology, or
//! explicit weights, which are used as they stand.
use quip_protocol::chacha8::DrawError;
use rand::rngs::SmallRng;
use vstd::prelude::*;
use vstd::string::{StringExecFns, StringSliceAdditionalSpecFns};

use crate::ising::{binds, IsingGraph};
use crate::rng::{seeded, Draw, Source};
use crate::sampler_core::{copy_edges, copy_i32};
use crate::text::{decimal, decimal_of};

verus! {

/// The graph and the weight sets that nonce entries are redrawn against.
#[derive(Debug)]
pub struct Topology {
    /// Nodes.
    pub n_nodes: usize,
    /// Edges.
    pub n_edges: usize,
    /// Allowed fields, in thousandths.
    pub allowed_h_milli: Vec<i32>,
    /// Allowed couplings, in thousandths.
    pub allowed_j_milli: Vec<i32>,
    /// Edge list.
    pub edges: Vec<(usize, usize)>,
}

/// A model that is ready to run.
#[derive(Debug)]
pub struct ModelSpec {
    /// Corpus id or synthetic label.
    pub model_id: String,
    /// The problem.
    pub graph: IsingGraph,
}

/// Why a model source fails.
#[derive(Debug)]
pub enum SourceError {
    /// The corpus cannot be read.
    Io(String),
    /// A line is no entry.
    Parse {
        /// The line, from 1.
        line: usize,
        /// What is wrong with it.
        reason: String,
    },
    /// An entry has neither a nonce nor weights, or both.
    Ambiguous {
        /// The line, from 1.
        line: usize,
    },
    /// An entry has a nonce and there is no topology.
    MissingTopology {
        /// The line, from 1.
        line: usize,
    },
    /// A nonce is no 32 bytes of hex.
    BadNonce {
        /// The line, from 1.
        line: usize,
    },
    /// The topology has nothing to draw from.
    Draw {
        /// The line, from 1.
        line: usize,
        /// What is wrong with it.
        reason: String,
    },
}

/// `line` and a number.
pub open spec fn at_line(line: usize) -> Seq<char> {
    "line "@ + decimal_of(line as nat)
}

impl SourceError {
    /// What the operator is told.
    pub open spec fn message_of(&self) -> Seq<char> {
        match self {
            SourceError::Io(m) => "read corpus: "@ + m@,
            SourceError::Parse { line, reason } => at_line(*line) + ": "@ + reason@,
            SourceError::Ambiguous { line } => at_line(*line)
                + ": entry needs exactly one of `nonce` or `h_milli`"@,
            SourceError::MissingTopology { line } => at_line(*line)
                + ": nonce-ref entry requires --manifest topology"@,
            SourceError::BadNonce { line } => at_line(*line) + ": nonce must be 32 bytes hex"@,
            SourceError::Draw { line, reason } => at_line(*line) + ": draw failed: "@ + reason@,
        }
    }

    /// What the operator is told.
    pub fn message(&self) -> (r: String)
        ensures
            r@ == self.message_of(),
    {
        match self {
            SourceError::Io(m) => {
                let mut r = String::from_str("read corpus: ");
                r.append(m.as_str());
                r
            },
            SourceError::Parse { line, reason } => {
                let mut r = line_text(*line);
                r.append(": ");
                r.append(reason.as_str());
                r
            },
            SourceError::Ambiguous { line } => {
                let mut r = line_text(*line);
                r.append(": entry needs exactly one of `nonce` or `h_milli`");
                r
            },
            SourceError::MissingTopology { line } => {
                let mut r = line_text(*line);
                r.append(": nonce-ref entry requires --manifest topology");
                r
            },
            SourceError::BadNonce { line } => {
                let mut r = line_text(*line);
                r.append(": nonce must be 32 bytes hex");
                r
            },
            SourceError::Draw { line, reason } => {
                let mut r = line_text(*line);
                r.append(": draw failed: ");
                r.append(reason.as_str());
                r
            },
        }
    }
}

fn line_text(line: usize) -> (r: String)
    ensures
        r@ == at_line(line),
{
    let mut r = String::from_str("line ");
    r.append(decimal(line as u64).as_str());
    r
}

/// One entry of a corpus.
#[derive(Debug)]
pub struct Entry {
    /// Id, where it has one.
    pub model_id: Option<String>,
    /// Nonce in hex.
    pub nonce: Option<String>,
    /// Fields, in thousandths.
    pub h_milli: Option<Vec<i32>>,
    /// Couplings, in thousandths.
    pub j_milli: Option<Vec<i32>>,
    /// Edge list.
    pub edges: Option<Vec<(usize, usize)>>,
}

/// The value of a hexadecimal digit.
pub open spec fn hex_value(b: u8) -> Option<u8> {
    if 48 <= b <= 57 {
        Some((b - 48) as u8)
    } else if 97 <= b <= 102 {
        Some((b - 87) as u8)
    } else if 65 <= b <= 70 {
        Some((b - 55) as u8)
    } else {
        None
    }
}

fn hex_digit(b: u8) -> (r: Option<u8>)
    ensures
        r == hex_value(b),
        r matches Some(v) ==> v < 16,
{
    if 48 <= b && b <= 57 {
        Some(b - 48)
    } else if 97 <= b && b <= 102 {
        Some(b - 87)
    } else if 65 <= b && b <= 70 {
        Some(b - 55)
    } else {
        None
    }
}

/// The byte of two hexadecimal digits.
pub open spec fn hex_byte(a: u8, b: u8) -> Option<u8> {
    match (hex_value(a), hex_value(b)) {
        (Some(high), Some(low)) => Some((16 * high + low) as u8),
        _ => None,
    }
}

/// The nonce that 64 bytes of text spell.
pub open spec fn spells_nonce(text: Seq<u8>) -> bool {
    text.len() == 64 && forall|i: int|
        0 <= i < 32 ==> (#[trigger] hex_byte(text[2 * i], text[2 * i + 1])) is Some
}

/// Read a nonce of 32 bytes in hex.
pub fn parse_nonce(hex: &str, line: usize) -> (r: Result<[u8; 32], SourceError>)
    ensures
        r is Ok <==> spells_nonce(hex.spec_bytes()),
        r matches Ok(nonce) ==> forall|i: int|
            0 <= i < 32 ==> Some(#[trigger] nonce@[i]) == hex_byte(
                hex.spec_bytes()[2 * i],
                hex.spec_bytes()[2 * i + 1],
            ),
        r matches Err(e) ==> e == (SourceError::BadNonce { line }),
{
    let text = hex.as_bytes();
    if text.len() != 64 {
        return Err(SourceError::BadNonce { line });
    }
    let mut out: [u8; 32] = [0u8;32];
    let mut i: usize = 0;
    while i < 32
        invariant
            text@ == hex.spec_bytes(),
            text@.len() == 64,
            i <= 32,
            forall|k: int|
                0 <= k < i ==> Some(#[trigger] out@[k]) == hex_byte(
                    text@[2 * k],
                    text@[2 * k + 1],
                ),
            forall|k: int|
                0 <= k < i ==> (#[trigger] hex_byte(text@[2 * k], text@[2 * k + 1])) is Some,
        decreases 32 - i,
    {
        let a: u8 = text[2 * i];
        let b: u8 = text[2 * i + 1];
        let byte: u8 = match (hex_digit(a), hex_digit(b)) {
            (Some(high), Some(low)) => 16 * high + low,
            _ => {
                assert(hex_byte(text@[2 * i as int], text@[2 * i + 1]) is None);
                return Err(SourceError::BadNonce { line });
            },
        };
        out[i] = byte;
        i = i + 1;
    }
    Ok(out)
}

/// Why a draw from a nonce is refused.
#[verifier::external_type_specification]
#[verifier::external_body]
pub struct ExDrawError(quip_protocol::chacha8::DrawError);

/// Word `index` of the ChaCha8 stream of a nonce.
pub uninterp spec fn stream_word(nonce: Seq<u8>, index: nat) -> u32;

/// `out` is drawn from `allowed` with the words of the stream from `first` on.
pub open spec fn drawn_from(nonce: Seq<u8>, first: nat, allowed: Seq<i32>, out: Seq<i32>) -> bool {
    forall|i: int|
        0 <= i < out.len() ==> #[trigger] out[i] == allowed[stream_word(nonce, (first + i) as nat)
            as int % allowed.len() as int]
}

/// Draw the weights of a model from a nonce, from
/// `quip_protocol::chacha8::draw_ising_milli`.
///
/// Claimed of it: it refuses exactly when values are asked of an empty set; else
/// it returns one field per node and one coupling per edge, each picked from its
/// set by the stream word at its place modulo the size of the set, the couplings
/// after the fields. The stream itself is left to the crate.
#[verifier::external_body]
pub(crate) fn draw_milli(
    nonce: [u8; 32],
    n_nodes: usize,
    n_edges: usize,
    allowed_h: &[i32],
    allowed_j: &[i32],
) -> (r: Result<(Vec<i32>, Vec<i32>), DrawError>)
    ensures
        r is Err <==> (n_nodes > 0 && allowed_h@.len() == 0) || (n_edges > 0 && allowed_j@.len()
            == 0),
        r matches Ok(x) ==> {
            &&& x.0@.len() == n_nodes
            &&& x.1@.len() == n_edges
            &&& forall|i: int|
                0 <= i < n_nodes ==> #[trigger] x.0@[i] == allowed_h@[stream_word(
                    nonce@,
                    i as nat,
                ) as int % allowed_h@.len() as int]
            &&& forall|i: int|
                0 <= i < n_edges ==> #[trigger] x.1@[i] == allowed_j@[stream_word(
                    nonce@,
                    (n_nodes + i) as nat,
                ) as int % allowed_j@.len() as int]
        },
{
    quip_protocol::chacha8::draw_ising_milli(nonce, n_nodes, n_edges, allowed_h, allowed_j)
}

/// What a refused draw says, from the `Display` of
/// `quip_protocol::chacha8::DrawError`.
///
/// Claimed of it: its one variant reads as below.
#[verifier::external_body]
pub(crate) fn draw_reason(e: &DrawError) -> (r: String)
    ensures
        r@ == "allowed-value set is empty; cannot draw an Ising model"@,
{
    e.to_string()
}

/// A copy of a list that may be absent; an absent list is empty.
pub open spec fn or_empty<T>(v: Option<Vec<T>>) -> Seq<T> {
    match v {
        Some(x) => x@,
        None => Seq::empty(),
    }
}

/// The id of an entry, or a label made of `kind` and the line.
pub open spec fn label(id: Option<String>, kind: Seq<char>, line: usize) -> Seq<char> {
    match id {
        Some(x) => x@,
        None => kind + decimal_of(line as nat),
    }
}

fn entry_label(id: &Option<String>, kind: &str, line: usize) -> (r: String)
    ensures
        r@ == label(*id, kind@, line),
{
    match id {
        Some(x) => x.clone(),
        None => {
            let mut r = String::from_str(kind);
            r.append(decimal(line as u64).as_str());
            r
        },
    }
}

fn weights(v: &Option<Vec<i32>>) -> (r: Vec<i32>)
    ensures
        r@ == or_empty(*v),
{
    match v {
        Some(x) => copy_i32(x),
        None => Vec::new(),
    }
}

/// A model with the weights of the entry.
pub fn build_explicit(e: &Entry, line: usize) -> (m: ModelSpec)
    ensures
        m.model_id@ == label(e.model_id, "explicit-"@, line),
        m.graph.h@ == or_empty(e.h_milli),
        m.graph.j@ == or_empty(e.j_milli),
        m.graph.edges@ == or_empty(e.edges),
{
    let edges = match &e.edges {
        Some(x) => copy_edges(x),
        None => Vec::new(),
    };
    ModelSpec {
        model_id: entry_label(&e.model_id, "explicit-", line),
        graph: IsingGraph::new(weights(&e.h_milli), weights(&e.j_milli), edges),
    }
}

/// The bytes of an entry's nonce; none where it has none.
pub open spec fn nonce_text(e: Entry) -> Seq<u8> {
    match e.nonce {
        Some(x) => vstd::utf8::encode_utf8(x@),
        None => Seq::empty(),
    }
}

/// The topology has values to draw wherever it asks for some.
pub open spec fn drawable(t: Topology) -> bool {
    (t.n_nodes == 0 || t.allowed_h_milli@.len() > 0) && (t.n_edges == 0
        || t.allowed_j_milli@.len() > 0)
}

/// The byte values of a nonce text.
pub open spec fn nonce_bytes(text: Seq<u8>) -> Seq<u8> {
    Seq::new(
        32,
        |i: int|
            match hex_byte(text[2 * i], text[2 * i + 1]) {
                Some(b) => b,
                None => 0u8,
            },
    )
}

/// A model redrawn from the nonce of the entry.
pub fn build_nonce(e: &Entry, topology: Option<&Topology>, line: usize) -> (r: Result<
    ModelSpec,
    SourceError,
>)
    ensures
        topology is None ==> r == Err::<ModelSpec, SourceError>(
            SourceError::MissingTopology { line },
        ),
        topology matches Some(t) ==> {
            &&& r is Ok <==> spells_nonce(nonce_text(*e)) && drawable(*t)
            &&& !spells_nonce(nonce_text(*e)) ==> r == Err::<ModelSpec, SourceError>(
                SourceError::BadNonce { line },
            )
            &&& spells_nonce(nonce_text(*e)) && !drawable(*t) ==> (r matches Err(
                SourceError::Draw { line: at, reason },
            ) && at == line && reason@
                == "allowed-value set is empty; cannot draw an Ising model"@)
            &&& r matches Ok(m) ==> {
                &&& m.model_id@ == label(e.model_id, "nonce-"@, line)
                &&& m.graph.h@.len() == t.n_nodes
                &&& m.graph.j@.len() == t.n_edges
                &&& m.graph.edges@ == t.edges@
                &&& drawn_from(
                    nonce_bytes(nonce_text(*e)),
                    0,
                    t.allowed_h_milli@,
                    m.graph.h@,
                )
                &&& drawn_from(
                    nonce_bytes(nonce_text(*e)),
                    t.n_nodes as nat,
                    t.allowed_j_milli@,
                    m.graph.j@,
                )
            }
        },
{
    let topo = match topology {
        Some(t) => t,
        None => {
            return Err(SourceError::MissingTopology { line });
        },
    };
    let nonce = match &e.nonce {
        Some(text) => match parse_nonce(text.as_str(), line) {
            Ok(nonce) => nonce,
            Err(err) => {
                return Err(err);
            },
        },
        None => {
            return Err(SourceError::BadNonce { line });
        },
    };
    assert(nonce@ =~= nonce_bytes(nonce_text(*e)));
    match draw_milli(
        nonce,
        topo.n_nodes,
        topo.n_edges,
        topo.allowed_h_milli.as_slice(),
        topo.allowed_j_milli.as_slice(),
    ) {
        Ok((h, j)) => Ok(
            ModelSpec {
                model_id: entry_label(&e.model_id, "nonce-", line),
                graph: IsingGraph::new(h, j, copy_edges(&topo.edges)),
            },
        ),
        Err(err) => Err(SourceError::Draw { line, reason: draw_reason(&err) }),
    }
}

/// The entry is one of the two kinds, and its model can be made.
pub open spec fn buildable(e: Entry, topology: Option<&Topology>) -> bool {
    if e.nonce is Some {
        e.h_milli is None && (topology matches Some(t) && spells_nonce(nonce_text(e)) && drawable(
            *t,
        ))
    } else {
        e.h_milli is Some
    }
}

/// `m` is the model of an entry that can be built.
pub open spec fn model_of(m: ModelSpec, e: Entry, topology: Option<&Topology>, line: usize) -> bool {
    if e.nonce is None {
        &&& m.model_id@ == label(e.model_id, "explicit-"@, line)
        &&& m.graph.h@ == or_empty(e.h_milli)
        &&& m.graph.j@ == or_empty(e.j_milli)
        &&& m.graph.edges@ == or_empty(e.edges)
    } else {
        topology matches Some(t) && {
            &&& m.model_id@ == label(e.model_id, "nonce-"@, line)
            &&& m.graph.h@.len() == t.n_nodes
            &&& m.graph.j@.len() == t.n_edges
            &&& m.graph.edges@ == t.edges@
            &&& drawn_from(nonce_bytes(nonce_text(e)), 0, t.allowed_h_milli@, m.graph.h@)
            &&& drawn_from(
                nonce_bytes(nonce_text(e)),
                t.n_nodes as nat,
                t.allowed_j_milli@,
                m.graph.j@,
            )
        }
    }
}

/// `err` is what is wrong with an entry that cannot be built.
pub open spec fn fault_of(
    err: SourceError,
    e: Entry,
    topology: Option<&Topology>,
    line: usize,
) -> bool {
    if (e.nonce is Some) == (e.h_milli is Some) {
        err == (SourceError::Ambiguous { line })
    } else if topology is None {
        err == (SourceError::MissingTopology { line })
    } else if !spells_nonce(nonce_text(e)) {
        err == (SourceError::BadNonce { line })
    } else {
        err matches SourceError::Draw { line: at, reason } && at == line && reason@
            == "allowed-value set is empty; cannot draw an Ising model"@
    }
}

/// Build the model of one entry: redrawn from its nonce or with its weights,
/// whichever of the two it has.
pub fn build_entry(e: &Entry, topology: Option<&Topology>, line: usize) -> (r: Result<
    ModelSpec,
    SourceError,
>)
    ensures
        r is Ok <==> buildable(*e, topology),
        r matches Ok(m) ==> model_of(m, *e, topology, line),
        r matches Err(err) ==> fault_of(err, *e, topology, line),
{
    match (&e.nonce, &e.h_milli) {
        (Some(_), None) => build_nonce(e, topology, line),
        (None, Some(_)) => Ok(build_explicit(e, line)),
        _ => Err(SourceError::Ambiguous { line }),
    }
}

/// A line of a corpus: its number, and the entry on it or why it is none.
pub type CorpusLine = (usize, Result<Entry, String>);

/// The line holds an entry whose model can be made.
pub open spec fn sound(l: CorpusLine, topology: Option<&Topology>) -> bool {
    l.1 matches Ok(e) && buildable(e, topology)
}

/// `err` is what is wrong with a line that is not sound.
pub open spec fn line_fault(err: SourceError, l: CorpusLine, topology: Option<&Topology>) -> bool {
    match l.1 {
        Ok(e) => fault_of(err, e, topology, l.0),
        Err(why) => err matches SourceError::Parse { line, reason } && line == l.0 && reason@
            == why@,
    }
}

/// Build the models of a corpus, in order. The first line that is not sound
/// fails the whole.
pub fn build_models(lines: &Vec<CorpusLine>, topology: Option<&Topology>) -> (r: Result<
    Vec<ModelSpec>,
    SourceError,
>)
    ensures
        r is Ok <==> forall|k: int| 0 <= k < lines@.len() ==> sound(#[trigger] lines@[k], topology),
        r matches Ok(models) ==> {
            &&& models@.len() == lines@.len()
            &&& forall|k: int|
                #![trigger models@[k]]
                0 <= k < lines@.len() ==> (lines@[k].1 matches Ok(e) && model_of(
                    models@[k],
                    e,
                    topology,
                    lines@[k].0,
                ))
        },
        r matches Err(err) ==> exists|k: int|
            0 <= k < lines@.len() && !sound(#[trigger] lines@[k], topology) && line_fault(
                err,
                lines@[k],
                topology,
            ) && forall|i: int| 0 <= i < k ==> sound(#[trigger] lines@[i], topology),
{
    let mut models: Vec<ModelSpec> = Vec::new();
    let mut k: usize = 0;
    while k < lines.len()
        invariant
            k <= lines@.len(),
            models@.len() == k,
            forall|i: int| 0 <= i < k ==> sound(#[trigger] lines@[i], topology),
            forall|i: int|
                #![trigger models@[i]]
                0 <= i < k ==> (lines@[i].1 matches Ok(e) && model_of(
                    models@[i],
                    e,
                    topology,
                    lines@[i].0,
                )),
        decreases lines@.len() - k,
    {
        let line: usize = lines[k].0;
        match &lines[k].1 {
            Ok(e) => match build_entry(e, topology, line) {
                Ok(m) => models.push(m),
                Err(err) => {
                    assert(!sound(lines@[k as int], topology));
                    return Err(err);
                },
            },
            Err(why) => {
                assert(!sound(lines@[k as int], topology));
                return Err(SourceError::Parse { line, reason: why.clone() });
            },
        }
        k = k + 1;
    }
    Ok(models)
}

/// A number below `n`, from `rand::Rng::gen_range`.
///
/// Claimed of it: the number lies in the range. Which one it is depends on the
/// state of a platform-dependent generator.
#[verifier::external_body]
pub(crate) fn next_below(rng: &mut SmallRng, n: usize) -> (r: usize)
    requires
        n > 0,
    ensures
        r < n,
{
    rand::Rng::gen_range(rng, 0..n)
}

/// A weight of one unit with the sign of a coin.
fn unit_weight(up: bool) -> (w: i32)
    ensures
        w == if up {
            1000i32
        } else {
            -1000i32
        },
{
    if up {
        1000
    } else {
        -1000
    }
}

/// The label of a synthetic model.
pub open spec fn synthetic_label(n_nodes: usize, n_edges: usize, seed: u64) -> Seq<char> {
    "synthetic-n"@ + decimal_of(n_nodes as nat) + "-e"@ + decimal_of(n_edges as nat) + "-s"@
        + decimal_of(seed as nat)
}

/// Every pair names two of `n` nodes, which may be the same.
pub open spec fn pairs_inside(n: int, pairs: Seq<(usize, usize)>) -> bool {
    forall|k: int| 0 <= k < pairs.len() ==> (#[trigger] pairs[k]).0 < n && pairs[k].1 < n
}

/// Some edge joins `u` and `v`, in whichever order.
pub open spec fn joins(edges: Seq<(usize, usize)>, u: usize, v: usize) -> bool {
    exists|k: int| 0 <= k < edges.len() && same_pair(#[trigger] edges[k], (u, v))
}

/// The same two nodes, in whichever order.
pub open spec fn same_pair(a: (usize, usize), b: (usize, usize)) -> bool {
    a == b || a == (b.1, b.0)
}

/// No two edges join the same two nodes.
pub open spec fn pairs_once(edges: Seq<(usize, usize)>) -> bool {
    forall|i: int, k: int|
        0 <= i < k < edges.len() ==> !same_pair(#[trigger] edges[i], #[trigger] edges[k])
}

/// A pair that makes a new edge: two different nodes that no edge joins yet.
pub open spec fn usable(edges: Seq<(usize, usize)>, p: (usize, usize)) -> bool {
    p.0 != p.1 && !joins(edges, p.0, p.1)
}

/// The first `most` usable pairs among the first `k`, in order.
pub open spec fn chosen_pairs(pairs: Seq<(usize, usize)>, most: nat, k: int) -> Seq<(usize, usize)>
    decreases k,
{
    if k <= 0 {
        Seq::empty()
    } else {
        let before = chosen_pairs(pairs, most, k - 1);
        if before.len() < most && usable(before, pairs[k - 1]) {
            before.push(pairs[k - 1])
        } else {
            before
        }
    }
}

/// The weights of one unit that coins stand for.
pub open spec fn coin_weights(ups: Seq<bool>, n: nat) -> Seq<i32> {
    Seq::new(
        n,
        |k: int|
            if ups[k] {
                1000i32
            } else {
                -1000i32
            },
    )
}

proof fn lemma_chosen(n: int, pairs: Seq<(usize, usize)>, most: nat, k: int)
    requires
        0 <= k <= pairs.len(),
        pairs_inside(n, pairs),
    ensures
        chosen_pairs(pairs, most, k).len() <= k,
        chosen_pairs(pairs, most, k).len() <= most,
        pairs_once(chosen_pairs(pairs, most, k)),
        forall|i: int|
            0 <= i < chosen_pairs(pairs, most, k).len() ==> binds(
                n,
                #[trigger] chosen_pairs(pairs, most, k)[i],
            ),
    decreases k,
{
    if k > 0 {
        lemma_chosen(n, pairs, most, k - 1);
        let before = chosen_pairs(pairs, most, k - 1);
        let after = chosen_pairs(pairs, most, k);
        let p = pairs[k - 1];
        assert forall|i: int| 0 <= i < after.len() implies binds(n, #[trigger] after[i]) by {
            if i < before.len() {
                assert(after[i] == before[i]);
            }
        }
        assert forall|i: int, m: int| 0 <= i < m < after.len() implies !same_pair(
            #[trigger] after[i],
            #[trigger] after[m],
        ) by {
            assert(after[i] == before[i]);
            if m < before.len() {
                assert(after[m] == before[m]);
            } else {
                assert(!joins(before, p.0, p.1));
                assert(!same_pair(before[i], (p.0, p.1)));
            }
        }
    }
}

/// Pairs that come one after another do not depend on those that follow.
proof fn lemma_chosen_prefix(
    short: Seq<(usize, usize)>,
    long: Seq<(usize, usize)>,
    most: nat,
    k: int,
)
    requires
        0 <= k <= short.len(),
        k <= long.len(),
        forall|i: int| 0 <= i < k ==> short[i] == long[i],
    ensures
        chosen_pairs(short, most, k) == chosen_pairs(long, most, k),
    decreases k,
{
    if k > 0 {
        lemma_chosen_prefix(short, long, most, k - 1);
        assert(short[k - 1] == long[k - 1]);
    }
}

/// Edges with the nodes that each lower end is joined to.
struct Bonds {
    edges: Vec<(usize, usize)>,
    /// The upper ends, by lower end.
    upper: Vec<Vec<usize>>,
}

/// The lower and the upper of two nodes.
spec fn sorted_pair(p: (usize, usize)) -> (usize, usize) {
    if p.0 < p.1 {
        p
    } else {
        (p.1, p.0)
    }
}

fn sort_pair(p: (usize, usize)) -> (r: (usize, usize))
    ensures
        r == sorted_pair(p),
{
    if p.0 < p.1 {
        p
    } else {
        (p.1, p.0)
    }
}

impl Bonds {
    /// The lists hold the ends of the edges and nothing else.
    spec fn wf(&self) -> bool {
        &&& forall|k: int|
            0 <= k < self.edges@.len() ==> self.lists(sorted_pair(#[trigger] self.edges@[k]))
        &&& forall|a: int, i: int|
            #![trigger self.upper@[a]@[i]]
            0 <= a < self.upper@.len() && 0 <= i < self.upper@[a]@.len() ==> exists|k: int|
                0 <= k < self.edges@.len() && sorted_pair(#[trigger] self.edges@[k]) == (
                    a as usize,
                    self.upper@[a]@[i],
                )
    }

    /// The upper end stands in the list of the lower.
    spec fn lists(&self, p: (usize, usize)) -> bool {
        p.0 < self.upper@.len() && self.upper@[p.0 as int]@.contains(p.1)
    }

    fn new() -> (r: Self)
        ensures
            r.wf(),
            r.edges@.len() == 0,
    {
        Bonds { edges: Vec::new(), upper: Vec::new() }
    }

    /// Whether a pair makes a new edge.
    fn takes(&self, p: (usize, usize)) -> (r: bool)
        requires
            self.wf(),
        ensures
            r == usable(self.edges@, p),
    {
        if p.0 == p.1 {
            return false;
        }
        let (a, b) = sort_pair(p);
        if a >= self.upper.len() {
            proof {
                if joins(self.edges@, p.0, p.1) {
                    let k = choose|k: int|
                        0 <= k < self.edges@.len() && same_pair(#[trigger] self.edges@[k], p);
                    assert(sorted_pair(self.edges@[k]) == (a, b));
                    assert(self.lists(sorted_pair(self.edges@[k])));
                }
            }
            return true;
        }
        let mut i: usize = 0;
        while i < self.upper[a].len()
            invariant
                self.wf(),
                p.0 != p.1,
                (a, b) == sorted_pair(p),
                a < self.upper@.len(),
                i <= self.upper@[a as int]@.len(),
                forall|m: int| 0 <= m < i ==> #[trigger] self.upper@[a as int]@[m] != b,
            decreases self.upper@[a as int]@.len() - i,
        {
            if self.upper[a][i] == b {
                proof {
                    let at = self.upper@[a as int]@[i as int];
                    let k = choose|k: int|
                        0 <= k < self.edges@.len() && sorted_pair(#[trigger] self.edges@[k]) == (
                            a,
                            at,
                        );
                    assert(same_pair(self.edges@[k], (p.0, p.1)));
                    assert(joins(self.edges@, p.0, p.1));
                }
                return false;
            }
            i = i + 1;
        }
        proof {
            if joins(self.edges@, p.0, p.1) {
                let k = choose|k: int|
                    0 <= k < self.edges@.len() && same_pair(#[trigger] self.edges@[k], (p.0, p.1));
                assert(sorted_pair(self.edges@[k]) == (a, b));
                assert(self.lists(sorted_pair(self.edges@[k])));
            }
        }
        true
    }

    /// Add an edge.
    fn push(&mut self, p: (usize, usize))
        requires
            old(self).wf(),
            p.0 != p.1,
        ensures
            final(self).wf(),
            final(self).edges@ == old(self).edges@.push(p),
    {
        let (a, b) = sort_pair(p);
        let ghost before = *self;
        while self.upper.len() <= a
            invariant
                a < usize::MAX,
                before.wf(),
                self.edges@ == before.edges@,
                self.upper@.len() >= before.upper@.len(),
                forall|i: int|
                    0 <= i < before.upper@.len() ==> #[trigger] self.upper@[i] == before.upper@[i],
                forall|i: int|
                    before.upper@.len() <= i < self.upper@.len() ==> (
                    #[trigger] self.upper@[i])@.len() == 0,
            decreases a + 1 - self.upper@.len(),
        {
            self.upper.push(Vec::new());
        }
        let ghost mid = self.upper@;
        self.upper[a].push(b);
        self.edges.push(p);
        proof {
            let n = before.edges@.len() as int;
            assert(self.edges@[n] == p);
            assert(self.upper@[a as int]@ == mid[a as int]@.push(b));
            assert forall|k: int| 0 <= k < self.edges@.len() implies self.lists(
                sorted_pair(#[trigger] self.edges@[k]),
            ) by {
                let s = sorted_pair(self.edges@[k]);
                if k < n {
                    assert(self.edges@[k] == before.edges@[k]);
                    assert(before.lists(s));
                    let i = choose|i: int|
                        0 <= i < before.upper@[s.0 as int]@.len()
                            && before.upper@[s.0 as int]@[i] == s.1;
                    assert(mid[s.0 as int] == before.upper@[s.0 as int]);
                    assert(self.upper@[s.0 as int]@[i] == s.1);
                } else {
                    assert(self.upper@[a as int]@[mid[a as int]@.len() as int] == b);
                }
            }
            assert forall|c: int, i: int|
                #![trigger self.upper@[c]@[i]]
                0 <= c < self.upper@.len() && 0 <= i < self.upper@[c]@.len() implies exists|k: int|
                0 <= k < self.edges@.len() && sorted_pair(#[trigger] self.edges@[k]) == (
                    c as usize,
                    self.upper@[c]@[i],
                ) by {
                if c == a && i == mid[a as int]@.len() {
                    assert(sorted_pair(self.edges@[n]) == (a, b));
                } else {
                    assert(mid[c]@[i] == self.upper@[c]@[i]);
                    assert(c < before.upper@.len());
                    assert(before.upper@[c]@[i] == self.upper@[c]@[i]);
                    let k = choose|k: int|
                        0 <= k < before.edges@.len() && sorted_pair(#[trigger] before.edges@[k])
                            == (c as usize, before.upper@[c]@[i]);
                    assert(self.edges@[k] == before.edges@[k]);
                }
            }
        }
    }
}

/// A field of one unit up, one unit down or nothing, by a pick below 3.
pub open spec fn field_of(pick: usize) -> i32 {
    if pick == 0 {
        0
    } else if pick == 1 {
        1000
    } else {
        -1000i32
    }
}

/// The fields that drawn picks make.
pub fn synthetic_fields(picks: &Vec<usize>) -> (h: Vec<i32>)
    ensures
        h@.len() == picks@.len(),
        forall|i: int| 0 <= i < picks@.len() ==> #[trigger] h@[i] == field_of(picks@[i]),
{
    let mut h: Vec<i32> = Vec::with_capacity(picks.len());
    let mut i: usize = 0;
    while i < picks.len()
        invariant
            i <= picks@.len(),
            h@.len() == i,
            forall|k: int| 0 <= k < i ==> #[trigger] h@[k] == field_of(picks@[k]),
        decreases picks@.len() - i,
    {
        h.push(
            if picks[i] == 0 {
                0
            } else if picks[i] == 1 {
                1000
            } else {
                -1000
            },
        );
        i = i + 1;
    }
    h
}

/// The edges and the couplings that drawn pairs and coins make: the first
/// `n_edges` usable pairs, in order, each with a unit coupling of the sign of its
/// coin.
pub fn synthetic_bonds(pairs: &Vec<(usize, usize)>, ups: &Vec<bool>, n_edges: usize) -> (r: (
    Vec<(usize, usize)>,
    Vec<i32>,
))
    requires
        chosen_pairs(pairs@, n_edges as nat, pairs@.len() as int).len() <= ups@.len(),
    ensures
        r.0@ == chosen_pairs(pairs@, n_edges as nat, pairs@.len() as int),
        r.1@ == coin_weights(ups@, r.0@.len()),
{
    let mut bonds = Bonds::new();
    let mut k: usize = 0;
    while k < pairs.len()
        invariant
            bonds.wf(),
            k <= pairs@.len(),
            bonds.edges@ == chosen_pairs(pairs@, n_edges as nat, k as int),
        decreases pairs@.len() - k,
    {
        let p = pairs[k];
        assert(p == (p.0, p.1));
        if bonds.edges.len() < n_edges && bonds.takes(p) {
            bonds.push(p);
        }
        k = k + 1;
    }
    let mut j: Vec<i32> = Vec::new();
    let count: usize = bonds.edges.len();
    while j.len() < count
        invariant
            count <= ups@.len(),
            j@.len() <= count,
            j@ == coin_weights(ups@, j@.len()),
        decreases count - j@.len(),
    {
        let ghost before = j@;
        j.push(unit_weight(ups[j.len()]));
        assert(j@ =~= coin_weights(ups@, j@.len()));
    }
    (bonds.edges, j)
}

/// `edges` come from drawn pairs of `n` nodes: at most eight draws per edge, and
/// all of them where there are fewer than `most` edges.
pub open spec fn drawn_edges(
    n: int,
    most: nat,
    edges: Seq<(usize, usize)>,
    pairs: Seq<(usize, usize)>,
) -> bool {
    &&& pairs_inside(n, pairs)
    &&& pairs.len() <= 8 * most
    &&& edges == chosen_pairs(pairs, most, pairs.len() as int)
    &&& edges.len() == most || n < 2 || pairs.len() == 8 * most
}

/// `h` holds the fields of `n` picks, each below 3.
pub open spec fn drawn_fields(n: nat, h: Seq<i32>, picks: Seq<usize>) -> bool {
    &&& picks.len() == n
    &&& h.len() == n
    &&& forall|i: int| 0 <= i < n ==> #[trigger] picks[i] < 3
    &&& forall|i: int| 0 <= i < n ==> #[trigger] h[i] == field_of(picks[i])
}

/// Pick `i` is draw `i` of `log`, a number below 3.
pub open spec fn picks_on(log: Seq<Draw>, picks: Seq<usize>) -> bool {
    &&& picks.len() <= log.len()
    &&& forall|i: int| 0 <= i < picks.len() ==> log[i] == Draw::Below(3, #[trigger] picks[i])
}

/// Pair `k` makes an edge.
pub open spec fn chosen_at(pairs: Seq<(usize, usize)>, most: nat, k: int) -> bool {
    chosen_pairs(pairs, most, k + 1).len() > chosen_pairs(pairs, most, k).len()
}

/// Pair `k` is two draws of `log` from place `at` on, each a number below `n`. A
/// pair that makes an edge is followed by the coin of its coupling. The next pair
/// starts at `next`.
pub open spec fn pair_drawn(
    n: usize,
    most: nat,
    log: Seq<Draw>,
    at: int,
    next: int,
    pairs: Seq<(usize, usize)>,
    ups: Seq<bool>,
    k: int,
) -> bool {
    &&& 0 <= at
    &&& next <= log.len()
    &&& at + 1 < log.len()
    &&& log[at] == Draw::Below(n, pairs[k].0)
    &&& log[at + 1] == Draw::Below(n, pairs[k].1)
    &&& if chosen_at(pairs, most, k) {
        next == at + 3 && log[at + 2] == Draw::Coin(
            ups[chosen_pairs(pairs, most, k).len() as int],
        )
    } else {
        next == at + 2
    }
}

/// The pairs and the coins of the chosen ones are what `log` holds from place
/// `from` on, one after another; `marks` counts what was drawn before each pair.
pub open spec fn edges_on(
    n: usize,
    most: nat,
    log: Seq<Draw>,
    from: int,
    marks: Seq<int>,
    pairs: Seq<(usize, usize)>,
    ups: Seq<bool>,
) -> bool {
    &&& marks.len() == pairs.len() + 1
    &&& marks[0] == from
    &&& marks.last() == log.len()
    &&& ups.len() == chosen_pairs(pairs, most, pairs.len() as int).len()
    &&& forall|k: int|
        0 <= k < pairs.len() ==> pair_drawn(
            n,
            most,
            log,
            #[trigger] marks[k],
            marks[k + 1],
            pairs,
            ups,
            k,
        )
}

/// The model that `log` makes: first the picks of the fields, then the pairs, each
/// chosen one followed by the coin of its coupling.
pub open spec fn model_on(n: usize, most: nat, log: Seq<Draw>, g: IsingGraph) -> bool {
    exists|picks: Seq<usize>, pairs: Seq<(usize, usize)>, ups: Seq<bool>, marks: Seq<int>|
        {
            &&& #[trigger] drawn_fields(n as nat, g.h@, picks)
            &&& picks_on(log, picks)
            &&& drawn_edges(n as int, most, g.edges@, pairs)
            &&& #[trigger] edges_on(n, most, log, n as int, marks, pairs, ups)
            &&& g.j@ == coin_weights(ups, g.edges@.len())
        }
}

/// The record of the pairs grows by one pair, and its coin where it is chosen.
proof fn lemma_edges_push(
    n: usize,
    most: nat,
    log: Seq<Draw>,
    more: Seq<Draw>,
    from: int,
    marks: Seq<int>,
    pairs: Seq<(usize, usize)>,
    ups: Seq<bool>,
    pair: (usize, usize),
    longer: Seq<bool>,
)
    requires
        0 <= from,
        edges_on(n, most, log, from, marks, pairs, ups),
        log.len() <= more.len(),
        forall|i: int| 0 <= i < log.len() ==> #[trigger] more[i] == log[i],
        longer.len() == chosen_pairs(pairs.push(pair), most, pairs.len() as int + 1).len(),
        ups.len() <= longer.len(),
        forall|e: int| 0 <= e < ups.len() ==> #[trigger] longer[e] == ups[e],
        log.len() + 1 < more.len(),
        more[log.len() as int] == Draw::Below(n, pair.0),
        more[log.len() as int + 1] == Draw::Below(n, pair.1),
        longer.len() > ups.len() ==> more.len() == log.len() + 3 && more[log.len() as int + 2]
            == Draw::Coin(longer[ups.len() as int]),
        longer.len() == ups.len() ==> more.len() == log.len() + 2,
    ensures
        edges_on(n, most, more, from, marks.push(more.len() as int), pairs.push(pair), longer),
{
    let all = pairs.push(pair);
    let reached = marks.push(more.len() as int);
    let last = pairs.len() as int;
    lemma_chosen_prefix(pairs, all, most, last);
    assert forall|k: int| 0 <= k < all.len() implies pair_drawn(
        n,
        most,
        more,
        #[trigger] reached[k],
        reached[k + 1],
        all,
        longer,
        k,
    ) by {
        if k < last {
            assert(pair_drawn(n, most, log, marks[k], marks[k + 1], pairs, ups, k));
            lemma_chosen_prefix(pairs, all, most, k);
            lemma_chosen_prefix(pairs, all, most, k + 1);
            lemma_chosen_grows(pairs, most, k + 1, last);
            assert(all[k] == pairs[k]);
            assert(reached[k] == marks[k]);
            assert(reached[k + 1] == marks[k + 1]);
        } else {
            assert(reached[k] == log.len());
        }
    }
}

/// The chosen pairs grow with the pairs.
proof fn lemma_chosen_grows(pairs: Seq<(usize, usize)>, most: nat, i: int, k: int)
    requires
        0 <= i <= k <= pairs.len(),
    ensures
        chosen_pairs(pairs, most, i).len() <= chosen_pairs(pairs, most, k).len(),
    decreases k,
{
    if i < k {
        lemma_chosen_grows(pairs, most, i, k - 1);
    }
}

/// A random model: fields of one unit up, one unit down or nothing, and up to
/// `n_edges` random edges with unit couplings of random sign. Draws that repeat
/// a pair or give one node twice are skipped, up to eight draws per edge.
pub fn synthetic(n_nodes: usize, n_edges: usize, seed: u64) -> (m: ModelSpec)
    ensures
        m.model_id@ == synthetic_label(n_nodes, n_edges, seed),
        m.graph.h@.len() == n_nodes,
        exists|picks: Seq<usize>| #[trigger] drawn_fields(n_nodes as nat, m.graph.h@, picks),
        exists|pairs: Seq<(usize, usize)>| #[trigger]
            drawn_edges(n_nodes as int, n_edges as nat, m.graph.edges@, pairs),
        m.graph.edges@.len() == m.graph.j@.len(),
        m.graph.edges@.len() <= n_edges,
        n_nodes < 2 ==> m.graph.edges@.len() == 0,
        pairs_once(m.graph.edges@),
        forall|k: int|
            0 <= k < m.graph.edges@.len() ==> binds(n_nodes as int, #[trigger] m.graph.edges@[k]),
        forall|k: int|
            0 <= k < m.graph.j@.len() ==> #[trigger] m.graph.j@[k] == 1000 || m.graph.j@[k]
                == -1000,
        exists|log: Seq<Draw>| #[trigger]
            crate::rng::drawn_from(seed, log) && model_on(n_nodes, n_edges as nat, log, m.graph),
{
    let mut src = Source::seeded(seed);
    let mut picks: Vec<usize> = Vec::with_capacity(n_nodes);
    while picks.len() < n_nodes
        invariant
            picks@.len() <= n_nodes,
            forall|i: int| 0 <= i < picks@.len() ==> #[trigger] picks@[i] < 3,
            src.wf(),
            seeded(seed, src.start()),
            src.log().len() == picks@.len(),
            picks_on(src.log(), picks@),
        decreases n_nodes - picks@.len(),
    {
        let ghost before = picks@;
        let ghost held = src.log();
        picks.push(src.below(3));
        assert forall|i: int| 0 <= i < picks@.len() implies src.log()[i] == Draw::Below(
            3,
            #[trigger] picks@[i],
        ) by {
            if i < before.len() {
                assert(picks@[i] == before[i]);
                assert(held[i] == Draw::Below(3, before[i]));
            }
        }
    }
    let h = synthetic_fields(&picks);
    assert(drawn_fields(n_nodes as nat, h@, picks@));
    let mut bonds = Bonds::new();
    let mut j: Vec<i32> = Vec::new();
    let ghost mut pairs: Seq<(usize, usize)> = Seq::empty();
    let ghost mut ups: Seq<bool> = Seq::empty();
    let ghost mut marks: Seq<int> = seq![n_nodes as int];
    assert(j@ =~= coin_weights(ups, j@.len()));
    let limit: u128 = 8 * (n_edges as u128);
    let mut drawn: u128 = 0;
    while bonds.edges.len() < n_edges && n_nodes >= 2 && drawn < limit
        invariant
            limit == 8 * n_edges,
            drawn <= limit,
            drawn == pairs.len(),
            n_nodes < 2 ==> pairs.len() == 0,
            pairs_inside(n_nodes as int, pairs),
            bonds.wf(),
            bonds.edges@ == chosen_pairs(pairs, n_edges as nat, pairs.len() as int),
            j@.len() == bonds.edges@.len(),
            forall|k: int| 0 <= k < j@.len() ==> #[trigger] j@[k] == 1000 || j@[k] == -1000,
            src.wf(),
            seeded(seed, src.start()),
            picks@.len() == n_nodes,
            picks_on(src.log(), picks@),
            edges_on(
                n_nodes,
                n_edges as nat,
                src.log(),
                n_nodes as int,
                marks,
                pairs,
                ups,
            ),
            j@ == coin_weights(ups, j@.len()),
        decreases limit - drawn,
    {
        let ghost held = src.log();
        let ghost tossed = ups;
        let u: usize = src.below(n_nodes);
        let v: usize = src.below(n_nodes);
        drawn = drawn + 1;
        let ghost before = pairs;
        proof {
            pairs = pairs.push((u, v));
            lemma_chosen_prefix(before, pairs, n_edges as nat, before.len() as int);
        }
        if bonds.takes((u, v)) {
            bonds.push((u, v));
            let up: bool = src.coin();
            j.push(unit_weight(up));
            proof {
                ups = ups.push(up);
                assert(j@ =~= coin_weights(ups, j@.len()));
            }
        }
        proof {
            lemma_edges_push(
                n_nodes,
                n_edges as nat,
                held,
                src.log(),
                n_nodes as int,
                marks,
                before,
                tossed,
                (u, v),
                ups,
            );
            marks = marks.push(src.log().len() as int);
            assert forall|i: int| 0 <= i < picks@.len() implies src.log()[i] == Draw::Below(
                3,
                #[trigger] picks@[i],
            ) by {
                assert(held[i] == Draw::Below(3, picks@[i]));
            }
        }
    }
    let mut model_id = String::from_str("synthetic-n");
    model_id.append(decimal(n_nodes as u64).as_str());
    model_id.append("-e");
    model_id.append(decimal(n_edges as u64).as_str());
    model_id.append("-s");
    model_id.append(decimal(seed).as_str());
    proof {
        lemma_chosen(n_nodes as int, pairs, n_edges as nat, pairs.len() as int);
        assert(drawn_edges(n_nodes as int, n_edges as nat, bonds.edges@, pairs));
        src.lemma_record(seed);
    }
    let graph = IsingGraph::new(h, j, bonds.edges);
    assert(model_on(n_nodes, n_edges as nat, src.log(), graph));
    ModelSpec { model_id, graph }
}

} // verus!
