# quip-miner-cpu

CPU samplers for Ising problems: Metropolis annealing, chromatic Gibbs sampling,
integer and multi-spin annealing, simulated bifurcation (plain, guided, on rings
of replicas) and tensor networks (in chain order and on the problem graph).

`src/` is the library. It is written in Verus: every function carries a contract
and is proved against it, but for the calls into other crates below, and for the
functions that draw random words, of which nothing is claimed. `app/` is the
program around it, in ordinary Rust: the session backends, the bench, the study
and the comparisons.

## What is believed

The contracts of these calls into other crates are believed, not proved. Each says
above it what is claimed of the call.

| item | call | claim |
|------|------|-------|
| `rng::seed_rng`, `next_word`, `next_half`, `next_coin` | `rand`'s `SmallRng` | nothing: any words may come |
| `bench::source::next_below` | `rand::Rng::gen_range` | the number lies in the range |
| `CancelToken::is_cancelled` | `quip_solver_core` | a job without a watermark is never cancelled |
| `ising::energy_from_milli` | `quip_protocol::scoring` | the exact energy, clamped to 64 bits |
| `bench::source::draw_milli` | `quip_protocol::chacha8` | weights picked by the words of a named stream |
| `bench::source::draw_reason` | `quip_protocol::chacha8` | the text of a refused draw |
| `text::toml_integer` | `toml` | a function of the text and the key |

A scalar or a closure that a caller hands in is believed in the same way: see
`scalar::Scalar` for what that leaves unsaid of a machine float.

## How a problem is held

A problem is a list of biases, a list of couplings and a list of edges
(`ising::IsingGraph`). Weights are integer thousandths, so fields and energies are
exact, and an energy is the one that
`quip_protocol::scoring::energy_from_milli` gives. An edge from a node to itself,
or to a node that does not exist, binds nothing.

## What enters through arguments

- Chance. Kernels draw words from `rand`'s `SmallRng`, or from a counter-based
  stream (`gibbs_parallel`). A closure compares a draw with a probability. Contracts
  hold for whatever words come.
- Floating point. Probabilities and continuous kernels are generic over
  `scalar::Scalar`. The program implements it for `f32` and `f64`. Exponentials and
  other transcendental functions come from closures; what they are applied to stands
  in the library (`accept::Odds`, `sb_sbqa::RingMath`).
- Time and the host. Cores, clocks and settings files are the program's; the
  library takes the values.
- Shared state. What the clones of a sampler share, its core budget and its last
  colouring, stands in a value of its own (`cpu_sampler::CoreBudget`,
  `sa_sampler::SaShared`) that every clone is handed. The program puts it behind
  a lock.

## Layout

| module | what it holds |
|--------|---------------|
| `ising`, `csr`, `sweep` | problems, fields, energies, greedy descent |
| `accept` | Metropolis and heat-bath rules |
| `sampler_core`, `sa_int`, `sa_msc`, `planes`, `sa_sampler` | annealing kernels |
| `coloring`, `gibbs_parallel` | colour classes and Gibbs sampling |
| `sb_core`, `sb_ggsb`, `sb_sbqa`, `sb_sampler` | simulated bifurcation |
| `matrix`, `mps`, `mps_sampler` | tensor network in chain order |
| `flatiron`, `flatiron_sampler` | tensor network on the problem graph |
| `cpu_sampler`, `identity`, `pump` | stream widths, envelopes, streaming decisions |
| `bench`, `msa_bench`, `compare`, `arrays` | reports, studies, comparisons, array input |
| `mix`, `rng`, `scalar`, `sort`, `sums`, `text` | shared pieces |

Laws that relate several functions stand as public proof functions beside the
functions that they speak of.
