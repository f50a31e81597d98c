use stir::domain::EvaluationDomain;
use stir::field::Fp;

fn collect(domain: &EvaluationDomain) -> Vec<Fp> {
    let mut it = domain.iter();
    let mut out = Vec::new();
    while let Some(x) = it.next() {
        out.push(x);
    }
    out
}

#[test]
fn subgroup_first_element_is_one() {
    let domain = EvaluationDomain::new_subgroup(3);
    assert_eq!(domain.element(0), Fp::one());
}

#[test]
fn subgroup_elements_are_powers_of_generator() {
    let domain = EvaluationDomain::new_subgroup(3);
    for i in 0..8 {
        assert_eq!(domain.element(i), domain.generator().pow(i as u64));
    }
}

#[test]
fn iter_matches_element() {
    let domain = EvaluationDomain::new_subgroup(3);
    let iter_elements: Vec<Fp> = collect(&domain);
    let expected_elements: Vec<Fp> = (0..domain.size()).map(|i| domain.element(i)).collect();
    assert_eq!(iter_elements, expected_elements);
}

#[test]
fn iter_length_matches_size() {
    let domain = EvaluationDomain::new_subgroup(3);
    assert_eq!(collect(&domain).len(), domain.size());
}

#[test]
fn iter_implements_exact_size() {
    let domain = EvaluationDomain::new_subgroup(3);
    assert_eq!(domain.iter().len(), domain.size());
}

#[test]
fn coset_first_element_is_offset() {
    let domain = EvaluationDomain::new_coset(3, Fp::new(7));
    assert_eq!(domain.element(0), domain.offset());
}

#[test]
fn generator_has_correct_order() {
    let domain = EvaluationDomain::new_subgroup(4);
    assert_eq!(domain.generator().pow(16), Fp::one());
    assert_eq!(domain.generator().pow(8), -Fp::one());
}

#[test]
fn element_wraps_around() {
    let domain = EvaluationDomain::new_subgroup(3);
    assert_eq!(domain.element(domain.size()), domain.element(0));
}

#[test]
fn iter_len_counts_down() {
    let domain = EvaluationDomain::new_subgroup(2);
    let mut it = domain.iter();
    assert_eq!(it.len(), 4);
    it.next();
    assert_eq!(it.len(), 3);
    it.next();
    it.next();
    it.next();
    assert_eq!(it.len(), 0);
    assert_eq!(it.next(), None);
}

#[test]
fn coset_elements_scale_subgroup_elements() {
    let sub = EvaluationDomain::new_subgroup(3);
    let coset = EvaluationDomain::new_coset(3, Fp::new(7));
    for i in 0..8 {
        assert_eq!(coset.element(i), Fp::new(7) * sub.element(i));
    }
    assert_eq!(coset.log_size(), 3);
}
