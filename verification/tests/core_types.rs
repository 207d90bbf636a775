//! Unit checks of the small building blocks: canonical pair sorting, the
//! sorted row set, dense tensors, and the bit-pattern scalar model.

use rascaline::bits::{check_cutoff, neg_bits, Vector3Bits};
use rascaline::neighbor_list::sort_pair;
use rascaline::sorted_set::SortedVecSet;
use rascaline::species::triplets_around;
use rascaline::system::{Pair, SystemData};
use rascaline::tensor::DenseTensor;

#[test]
fn sort_pair_canonicalises_species() {
    assert_eq!(sort_pair((1, 6)), ((1, 6), false));
    assert_eq!(sort_pair((6, 1)), ((1, 6), true));
    assert_eq!(sort_pair((-42, 1)), ((-42, 1), false));
    // equal species are never swapped
    assert_eq!(sort_pair((1, 1)), ((1, 1), false));
}

#[test]
fn negation_flips_the_sign_bit() {
    for x in [0.0_f64, -0.0, 1.5, -2.25, 1e300, f64::INFINITY] {
        assert_eq!(neg_bits(x.to_bits()), (-x).to_bits());
        assert_eq!(neg_bits(neg_bits(x.to_bits())), x.to_bits());
    }
}

#[test]
fn cutoff_validity_matches_the_numbers() {
    for (x, valid) in [
        (2.0_f64, true),
        (1e-300, true),
        (0.0, false),
        (-0.0, false),
        (-1.0, false),
        (f64::INFINITY, false),
        (f64::NAN, false),
    ] {
        assert_eq!(check_cutoff(x.to_bits()), valid, "cutoff {}", x);
    }
}

#[test]
fn sorted_set_keeps_rows_sorted_and_unique() {
    let mut set = SortedVecSet::new();
    set.insert(vec![1, 6]);
    set.insert(vec![-42, 1]);
    set.insert(vec![1, 1]);
    set.insert(vec![1, 6]);
    assert_eq!(set.len(), 3);
    assert_eq!(set.row(0), &vec![-42, 1]);
    assert_eq!(set.row(1), &vec![1, 1]);
    assert_eq!(set.row(2), &vec![1, 6]);
}

#[test]
fn dense_tensor_reads_back_what_was_written() {
    let mut t = DenseTensor::zeros(vec![2, 3, 1]).unwrap();
    assert_eq!(t.shape(), &vec![2, 3, 1]);
    assert_eq!(t.get(&vec![1, 2, 0]), 0);
    t.set(&vec![1, 2, 0], 99);
    t.set(&vec![0, 0, 0], 7);
    assert_eq!(t.get(&vec![1, 2, 0]), 99);
    assert_eq!(t.get(&vec![0, 0, 0]), 7);
    assert_eq!(t.get(&vec![0, 2, 0]), 0);
}

fn pair(first: usize, second: usize) -> Pair {
    Pair {
        first,
        second,
        vector: Vector3Bits { x: 0, y: 0, z: 0 },
        distance: 0,
    }
}

#[test]
fn triplets_are_the_product_of_the_pairs_around_a_center() {
    let data = SystemData {
        species: vec![8, 1, 1],
        pairs: vec![pair(0, 1), pair(0, 2), pair(1, 2)],
    };
    // around the center 0: pairs (0,1) and (0,2), far ends 1 and 2
    let triplets = triplets_around(&data, 0);
    assert_eq!(triplets, vec![(1, 1), (1, 2), (2, 1), (2, 2)]);
    // around the center 1: pairs (0,1) and (1,2), far ends 0 and 2
    let triplets = triplets_around(&data, 1);
    assert_eq!(triplets, vec![(0, 0), (0, 2), (2, 0), (2, 2)]);
}
