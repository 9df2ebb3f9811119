use perm_orbit::permutation::Permutation;

fn p(text: &str) -> Permutation {
    Permutation::parse(text).unwrap()
}

fn images(perm: &Permutation) -> Vec<u8> {
    perm.to_array().to_vec()
}

fn is_bijection(perm: &Permutation) -> bool {
    let mut seen = [false; 32];
    for v in perm.to_array() {
        if v >= 32 || seen[v as usize] {
            return false;
        }
        seen[v as usize] = true;
    }
    true
}

#[test]
fn identity_maps_every_point_to_itself() {
    let id = Permutation::identity();
    for i in 0..32u8 {
        assert_eq!(id.index(i), i);
    }
}

#[test]
fn identity_laws_hold() {
    let id = Permutation::identity();
    for text in ["(0123)(45)", "(1v)(a5c)", "()", "(0)"] {
        let q = p(text);
        assert_eq!(q.mul(&id), q);
        assert_eq!(id.mul(&q), q);
    }
}

#[test]
fn composition_looks_up_right_operand_through_left() {
    let a = p("(01)");
    let b = p("(12)");
    let ab = a.mul(&b);
    assert_eq!(ab.index(0), 2);
    assert_eq!(ab.index(1), 0);
    assert_eq!(ab.index(2), 1);
    assert_eq!(ab.index(3), 3);
    let ba = b.mul(&a);
    assert_eq!(ba.index(0), 1);
    assert_eq!(ba.index(1), 2);
    assert_eq!(ba.index(2), 0);
}

#[test]
fn from_array_fills_missing_positions_with_identity() {
    let q = Permutation::from_array(&[1, 0]);
    let mut want: Vec<u8> = (0..32).collect();
    want[0] = 1;
    want[1] = 0;
    assert_eq!(images(&q), want);
}

#[test]
fn from_array_defaults_out_of_range_values() {
    let q = Permutation::from_array(&[40, 2, 1]);
    assert_eq!(q.index(0), 0);
    assert_eq!(q.index(1), 2);
    assert_eq!(q.index(2), 1);
}

#[test]
fn from_array_takes_at_most_32_values() {
    let mut arr: Vec<u8> = (0..32).rev().collect();
    arr.push(7);
    let q = Permutation::from_array(&arr);
    assert_eq!(q.index(0), 31);
    assert_eq!(q.index(31), 0);
}

#[test]
fn from_cycles_links_each_point_to_the_next() {
    let q = Permutation::from_cycles(&vec![vec![1, 2, 3], vec![7, 9]]);
    assert_eq!(q.index(1), 2);
    assert_eq!(q.index(2), 3);
    assert_eq!(q.index(3), 1);
    assert_eq!(q.index(7), 9);
    assert_eq!(q.index(9), 7);
    assert_eq!(q.index(0), 0);
    assert_eq!(q.index(31), 31);
}

#[test]
fn from_cycles_of_nothing_is_identity() {
    assert_eq!(Permutation::from_cycles(&vec![]), Permutation::identity());
    assert_eq!(Permutation::from_cycles(&vec![vec![], vec![5]]), Permutation::identity());
}

#[test]
fn constructed_permutations_are_bijections() {
    assert!(is_bijection(&Permutation::identity()));
    assert!(is_bijection(&Permutation::from_array(&[3, 0, 1, 2])));
    assert!(is_bijection(&Permutation::from_cycles(&vec![vec![0, 31, 16]])));
    let q = p("(0123)(45)").mul(&p("(1v)(a5c)"));
    assert!(is_bijection(&q));
}

#[test]
fn cycles_start_at_smallest_point_in_ascending_order() {
    let q = Permutation::from_cycles(&vec![vec![5, 4], vec![3, 1], vec![9, 2, 8]]);
    assert_eq!(q.cycles(), vec![vec![1, 3], vec![2, 8, 9], vec![4, 5]]);
}

#[test]
fn cycles_of_identity_are_empty() {
    assert!(Permutation::identity().cycles().is_empty());
}

#[test]
fn cycle_length_is_the_return_time() {
    let q = p("(0123)(45)(6v)");
    for cycle in q.cycles() {
        for &start in &cycle {
            let mut x = start;
            for step in 1..=cycle.len() {
                x = q.index(x);
                if step < cycle.len() {
                    assert_ne!(x, start);
                }
            }
            assert_eq!(x, start);
        }
    }
    assert_eq!(q.index(7), 7);
}

#[test]
fn from_cycles_later_cycle_overwrites_shared_points() {
    let q = Permutation::from_cycles(&vec![vec![1, 2], vec![2, 1]]);
    assert_eq!(q.index(1), 2);
    assert_eq!(q.index(2), 1);
    assert_eq!(Permutation::from_cycles(&vec![vec![5, 5]]), Permutation::identity());
}

#[test]
fn checks_which_cycles_give_a_bijection() {
    assert!(Permutation::cycles_form_bijection(&vec![vec![1, 2], vec![2, 1]]));
    assert!(Permutation::cycles_form_bijection(&vec![vec![0, 31, 16]]));
    assert!(!Permutation::cycles_form_bijection(&vec![vec![1, 2], vec![2, 3]]));
    assert!(!Permutation::cycles_form_bijection(&vec![vec![1, 2, 1]]));
}

#[test]
fn checks_which_arrays_give_a_bijection() {
    assert!(Permutation::is_valid_array(&[1, 0]));
    assert!(Permutation::is_valid_array(&[40, 2, 1]));
    assert!(Permutation::is_valid_array(&[]));
    assert!(!Permutation::is_valid_array(&[1]));
    assert!(!Permutation::is_valid_array(&[40, 0]));
    assert!(!Permutation::is_valid_array(&[3, 3, 2, 0]));
}
