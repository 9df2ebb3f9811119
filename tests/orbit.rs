use perm_orbit::orbit::{g, orbit};
use perm_orbit::permutation::Permutation;

fn p(text: &str) -> Permutation {
    Permutation::parse(text).unwrap()
}

fn reached(table: &[Option<Permutation>; 32]) -> Vec<u8> {
    (0..32u8).filter(|&i| table[i as usize].is_some()).collect()
}

#[test]
fn loader_keeps_parsed_generators_in_order() {
    let gens = g(&["(12)", "(1", "(z)", "(34)"]);
    assert_eq!(gens, vec![p("(12)"), p("(34)")]);
}

#[test]
fn loader_of_nothing_is_empty() {
    assert!(g(&[]).is_empty());
}

#[test]
fn base_point_has_identity_representative() {
    for base in [0u8, 7, 31] {
        let table = orbit(&g(&["(12)", "(07)(3v)"]), base);
        assert_eq!(table[base as usize], Some(Permutation::identity()));
    }
    let table = orbit(&vec![], 5);
    assert_eq!(table[5], Some(Permutation::identity()));
    assert_eq!(reached(&table), vec![5]);
}

#[test]
fn single_swap_orbit() {
    let table = orbit(&g(&["(01)"]), 0);
    assert_eq!(table[0], Some(Permutation::identity()));
    assert_eq!(table[1], Some(p("(01)")));
    for i in 2..32 {
        assert_eq!(table[i], None);
    }
}

#[test]
fn two_generator_orbit() {
    let table = orbit(&g(&["(12)", "(14)(25)(36)"]), 1);
    let points = reached(&table);
    for x in [1u8, 2, 4, 5] {
        assert!(points.contains(&x));
    }
    assert_eq!(table[2], Some(Permutation::identity().mul(&p("(12)"))));
    assert_eq!(table[2], Some(p("(12)")));
}

#[test]
fn representatives_carry_base_to_their_point() {
    let base = 1u8;
    let table = orbit(&g(&["(123)", "(12)", "(14)(25)(36)"]), base);
    assert_eq!(reached(&table), vec![1, 2, 3, 4, 5, 6]);
    for x in 0..32u8 {
        if let Some(rep) = table[x as usize] {
            assert_eq!(rep.index(base), x);
        }
    }
}

#[test]
fn orbit_is_closed_under_last_generator() {
    let gens = g(&["(123)", "(12)", "(14)(25)(36)"]);
    let table = orbit(&gens, 1);
    let last = gens.last().unwrap();
    for x in 0..32u8 {
        if table[x as usize].is_some() {
            assert!(table[last.index(x) as usize].is_some());
        }
    }
}

#[test]
fn later_generator_reaches_through_earlier_discoveries() {
    let table = orbit(&g(&["(12)", "(23)(45)"]), 1);
    assert_eq!(reached(&table), vec![1, 2, 3]);
    assert_eq!(table[3].unwrap().index(1), 3);
}

#[test]
fn earlier_generators_apply_to_later_discoveries() {
    let table = orbit(&g(&["(23)", "(12)"]), 1);
    assert_eq!(reached(&table), vec![1, 2, 3]);
    assert_eq!(table[3].unwrap().index(1), 3);
}

#[test]
fn multi_hop_orbit_reaches_through_second_generator() {
    let table = orbit(&g(&["(12)", "(01)"]), 0);
    assert_eq!(table[0], Some(Permutation::identity()));
    assert_eq!(table[1], Some(p("(01)")));
    assert!(table[2].is_some());
    assert_eq!(table[2].unwrap().index(0), 2);
    assert_eq!(reached(&table), vec![0, 1, 2]);
}

#[test]
fn orbit_does_not_depend_on_generator_order() {
    let a = orbit(&g(&["(12)", "(01)"]), 0);
    let b = orbit(&g(&["(01)", "(12)"]), 0);
    assert_eq!(reached(&a), reached(&b));
}

#[test]
fn orbit_is_closed_under_every_generator() {
    let gens = g(&["(5v)", "(23)", "(12)(45)", "(34)"]);
    let table = orbit(&gens, 1);
    assert_eq!(reached(&table), vec![1, 2, 3, 4, 5, 31]);
    for gen in &gens {
        for x in 0..32u8 {
            if table[x as usize].is_some() {
                assert!(table[gen.index(x) as usize].is_some());
            }
        }
    }
}

#[test]
fn representatives_follow_first_discovery() {
    let table = orbit(&g(&["(12)", "(14)(25)(36)"]), 1);
    assert_eq!(table[1], Some(Permutation::identity()));
    assert_eq!(table[2], Some(p("(12)")));
    assert_eq!(table[4], Some(p("(14)(25)(36)")));
    assert_eq!(table[5], Some(p("(1524)(36)")));
    assert_eq!(reached(&table), vec![1, 2, 4, 5]);
}
