//! CPU samplers for Ising problems in integer thousandths.
//!
//! Weights are whole thousandths and energies are exact. What is drawn at random
//! or computed in floating point enters through arguments: a closure decides a
//! draw against a probability, and the continuous kernels run on any number type
//! that implements [`scalar::Scalar`].

pub mod accept;
pub mod arrays;
pub mod bench;
pub mod coloring;
pub mod compare;
pub mod cpu_sampler;
pub mod csr;
pub mod flatiron;
pub mod flatiron_sampler;
pub mod gibbs_parallel;
pub mod identity;
pub mod ising;
pub mod matrix;
pub mod mix;
pub mod mps;
pub mod mps_sampler;
pub mod msa_bench;
pub mod planes;
pub mod pump;
pub mod reals;
pub mod rng;
pub mod sa_int;
pub mod sa_msc;
pub mod sa_sampler;
pub mod sampler_core;
pub mod sb_core;
pub mod sb_ggsb;
pub mod sb_sampler;
pub mod sb_sbqa;
pub mod scalar;
pub mod sort;
pub mod sums;
pub mod sweep;
pub mod text;

pub use cpu_sampler::{CoreBudget, CpuSampler, GibbsCpuSampler};
pub use flatiron::sampler::{
    sample_ising_bptns as sample_ising_flatiron, BptnsConfig as FlatironConfig,
};
pub use flatiron_sampler::FlatironSampler;
pub use gibbs_parallel::{ConfigError, GibbsConfig, GibbsParallelism};
pub use ising::IsingGraph;
pub use mps::sampler::{sample_ising_mps, InitMode, MpsConfig};
pub use mps_sampler::MpsSampler;
pub use sa_sampler::{SaSampler, SaShared, SaVariant};
pub use sampler_core::{sample_ising, Algorithm, SampleParams, SamplerResult};
pub use sb_core::{sample_sb, sample_sb_with_workers, Coupling, SbVariant};
pub use sb_ggsb::GgsbConfig;
pub use sb_sampler::SbSampler;
pub use sb_sbqa::SbqaConfig;
