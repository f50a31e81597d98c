use std::collections::HashSet;
use stir::field::{Fp, MULTIPLICATIVE_GENERATOR};
use stir::params::StirParams;
use stir::stir_domain::StirDomain;

#[test]
fn domain_count_equals_num_rounds_plus_1() {
    let params = StirParams::new(6, 16, 4).with_num_rounds(3);
    let sd = StirDomain::new(&params);
    assert_eq!(sd.round_domains.len(), 4);
    assert_eq!(sd.num_rounds(), 3);
}

#[test]
fn successive_domains_halve_in_size() {
    let params = StirParams::new(5, 4, 4).with_num_rounds(3);
    let sd = StirDomain::new(&params);
    for i in 0..sd.num_rounds() {
        assert_eq!(sd.round_domain(i).size(), 2 * sd.round_domain(i + 1).size(), "round {i}: |L_{i}| should be twice |L_{}|", i + 1);
    }
    assert_eq!(sd.round_domain(0).size(), 32);
    assert_eq!(sd.round_domain(3).size(), 4);
}

#[test]
fn initial_domain_is_subgroup_not_coset() {
    let params = StirParams::new(6, 16, 4);
    let sd = StirDomain::new(&params);
    assert_eq!(sd.initial_domain().offset(), Fp::one());
    assert_eq!(sd.initial_domain().element(0), Fp::one());
}

#[test]
fn later_domains_are_cosets() {
    let params = StirParams::new(6, 16, 4);
    let sd = StirDomain::new(&params);
    assert!(sd.num_rounds() >= 1);
    for i in 1..=sd.num_rounds() {
        assert_ne!(sd.round_domain(i).offset(), Fp::one(), "round {i}: L_i should be a proper coset, offset != 1");
    }
}

#[test]
fn worked_example_sizes_match_module_doc() {
    let params = StirParams::new(6, 16, 4);
    assert_eq!(params.num_rounds, 2);
    let sd = StirDomain::new(&params);
    assert_eq!(sd.round_domains.len(), 3, "M + 1 = 3 domains");
    assert_eq!(sd.round_domain(0).size(), 64);
    assert_eq!(sd.round_domain(1).size(), 32);
    assert_eq!(sd.round_domain(2).size(), 16);
}

#[test]
fn consecutive_domains_are_disjoint() {
    let params = StirParams::new(6, 16, 4);
    let sd = StirDomain::new(&params);
    let sets: Vec<HashSet<Fp>> = (0..=sd.num_rounds())
        .map(|i| {
            let d = sd.round_domain(i);
            (0..d.size()).map(|j| d.element(j)).collect()
        })
        .collect();
    for i in 0..sets.len() {
        for j in (i + 1)..sets.len() {
            let overlap: Vec<&Fp> = sets[i].intersection(&sets[j]).collect();
            assert!(overlap.is_empty(), "L_{i} and L_{j} overlap on {} point(s); first witness: {:?}", overlap.len(), overlap.first());
        }
    }
}

#[test]
fn round_generator_is_omega_zero_squared_per_round() {
    let params = StirParams::new(6, 16, 4);
    let sd = StirDomain::new(&params);
    let n0 = params.log_initial_domain_size;
    let omega_0 = Fp::primitive_root_of_unity(n0);
    let mut expected = omega_0;
    for i in 0..=sd.num_rounds() {
        assert_eq!(sd.round_domain(i).generator(), expected, "round {i}: generator should be ω_0^{{2^{i}}}");
        expected = expected * expected;
    }
}

#[test]
fn offset_schedule_is_successive_squarings_of_g() {
    let params = StirParams::new(6, 16, 4).with_num_rounds(3);
    let sd = StirDomain::new(&params);
    let g = Fp::new(MULTIPLICATIVE_GENERATOR);
    assert_eq!(sd.round_domain(0).offset(), Fp::one(), "c_0 = 1");
    let mut expected = g;
    for i in 1..=sd.num_rounds() {
        assert_eq!(sd.round_domain(i).offset(), expected, "round {i}: offset should be g^{{2^{}}}", i - 1);
        expected = expected * expected;
    }
}

#[test]
fn final_domain_is_the_last_round_domain() {
    let params = StirParams::new(6, 16, 4);
    let sd = StirDomain::new(&params);
    assert_eq!(sd.final_domain().size(), 16);
    assert_eq!(sd.final_domain().offset(), sd.round_domain(2).offset());
}
