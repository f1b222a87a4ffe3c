use quip_miner_cpu::cpu_sampler::resolve_core_budget;
use quip_miner_cpu::identity::{
    cpu_adapt, cpu_flatiron_identity, cpu_fsa_identity, cpu_mfa_identity, cpu_mps_identity,
    cpu_msa_identity, cpu_sb_adapt, cpu_sb_identity,
};

#[test]
fn resolve_core_budget_clamps_oversized() {
    assert_eq!(resolve_core_budget(32, 8), 8);
    assert_eq!(resolve_core_budget(4, 8), 4);
    assert_eq!(resolve_core_budget(1, 8), 1);
}

#[test]
fn identities_advertise_their_algorithms() {
    assert_eq!(cpu_fsa_identity().backend, "cpu");
    assert_eq!(cpu_fsa_identity().algorithm, "fsa");
    assert_eq!(cpu_msa_identity().backend, "cpu");
    assert_eq!(cpu_msa_identity().algorithm, "msa");
    assert_eq!(cpu_fsa_identity().adapt.min_reads, cpu_adapt().min_reads);
    assert_eq!(cpu_fsa_identity().adapt.min_sweeps, 64);
    assert_eq!(cpu_fsa_identity().adapt.max_sweeps, 1024);
    assert_eq!(cpu_msa_identity().adapt.min_sweeps, 7392);
    assert_eq!(cpu_msa_identity().adapt.max_sweeps, 29568);
    assert_eq!(cpu_msa_identity().adapt.min_reads, 128);
    assert_eq!(cpu_msa_identity().adapt.max_reads, 128);
    assert_eq!(cpu_msa_identity().adapt.reads_solution_min_factor, 0);
    assert_eq!(cpu_msa_identity().adapt.reads_solution_max_factor, 0);
    assert_eq!(cpu_msa_identity().adapt.reads_solution_floor_factor, 0);
}

#[test]
fn sb_identity_advertises_the_sb_algorithm_and_adapt_envelope() {
    assert_eq!(cpu_sb_identity().backend, "cpu");
    assert_eq!(cpu_sb_identity().algorithm, "sb");
    assert_eq!(cpu_sb_identity().max_nodes, 100_000);
    assert_eq!(cpu_sb_identity().max_edges, 1_000_000);
    assert_eq!(cpu_sb_identity().adapt.min_sweeps, 256);
    assert_eq!(cpu_sb_identity().adapt.max_sweeps, 8192);
    assert_eq!(cpu_sb_identity().adapt.min_reads, 64);
    assert_eq!(cpu_sb_identity().adapt.max_reads, 512);
    assert_eq!(cpu_sb_identity().adapt.reads_solution_min_factor, 4);
    assert_eq!(cpu_sb_identity().adapt.reads_solution_max_factor, 8);
    assert_eq!(cpu_sb_identity().adapt.reads_solution_floor_factor, 0);
}

#[test]
fn sb_reads_envelope_matches_the_sa_envelope() {
    assert_eq!(cpu_sb_adapt().min_reads, cpu_adapt().min_reads);
    assert_eq!(cpu_sb_adapt().max_reads, cpu_adapt().max_reads);
    assert_eq!(
        cpu_sb_adapt().reads_solution_min_factor,
        cpu_adapt().reads_solution_min_factor
    );
    assert_eq!(
        cpu_sb_adapt().reads_solution_max_factor,
        cpu_adapt().reads_solution_max_factor
    );
    assert_eq!(
        cpu_sb_adapt().reads_solution_floor_factor,
        cpu_adapt().reads_solution_floor_factor
    );
}

#[test]
fn mps_identity_advertises_the_documented_envelope() {
    assert_eq!(cpu_mps_identity().backend, "cpu");
    assert_eq!(cpu_mps_identity().algorithm, "mps");
    // Memory bounds, not quality bounds: at 65536 nodes a bond-4 model is
    // 16.8 MB, and 16 of them fit in 268 MB.
    assert_eq!(cpu_mps_identity().max_nodes, 65_536);
    assert_eq!(cpu_mps_identity().max_edges, 524_288);
    assert_eq!(cpu_mps_identity().adapt.min_sweeps, 64);
    assert_eq!(cpu_mps_identity().adapt.max_sweeps, 1024);
    assert_eq!(cpu_mps_identity().adapt.min_reads, 64);
    assert_eq!(cpu_mps_identity().adapt.max_reads, 512);
    assert_eq!(cpu_mps_identity().adapt.reads_solution_min_factor, 4);
    assert_eq!(cpu_mps_identity().adapt.reads_solution_max_factor, 8);
    assert_eq!(cpu_mps_identity().adapt.reads_solution_floor_factor, 0);
}

#[test]
fn cpu_mfa_identity_fields() {
    assert_eq!(cpu_mfa_identity().backend, "cpu");
    assert_eq!(cpu_mfa_identity().algorithm, "mfa");
    assert_eq!(cpu_mfa_identity().max_nodes, 65_536);
    assert_eq!(cpu_mfa_identity().max_edges, 524_288);
}

#[test]
fn flatiron_identity_advertises_the_documented_envelope() {
    assert_eq!(cpu_flatiron_identity().backend, "cpu");
    assert_eq!(cpu_flatiron_identity().algorithm, "flatiron");
    assert_eq!(cpu_flatiron_identity().max_nodes, 65_536);
    assert_eq!(cpu_flatiron_identity().max_edges, 524_288);
    assert_eq!(cpu_flatiron_identity().adapt.min_sweeps, 64);
    assert_eq!(cpu_flatiron_identity().adapt.max_sweeps, 1024);
}
