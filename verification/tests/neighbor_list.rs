//! End-to-end checks of the neighbor-list calculator on a small water
//! molecule.

use rascaline::bits::Vector3Bits;
use rascaline::labels::{Labels, LabelsBuilder};
use rascaline::tensormap::{BasicBlock, Block};
use rascaline::neighbor_list::NeighborList;
use rascaline::system::{Pair, System};
use rascaline::tensormap::TensorMap;
use rascaline::Error;

/// A system holding atoms in memory, computing neighbor lists by brute
/// force over all atom pairs.
struct TestSystem {
    species: Vec<i32>,
    positions: Vec<[f64; 3]>,
    current: Option<u64>,
    pairs: Vec<Pair>,
}

impl TestSystem {
    fn new(species: Vec<i32>, positions: Vec<[f64; 3]>) -> TestSystem {
        TestSystem { species, positions, current: None, pairs: Vec::new() }
    }
}

impl System for TestSystem {
    fn size(&self) -> usize {
        self.species.len()
    }

    fn species(&self) -> Vec<i32> {
        self.species.clone()
    }

    fn positions(&self) -> Vec<Vector3Bits> {
        self.positions
            .iter()
            .map(|p| Vector3Bits { x: p[0].to_bits(), y: p[1].to_bits(), z: p[2].to_bits() })
            .collect()
    }

    fn cell(&self) -> [[u64; 3]; 3] {
        [[0; 3]; 3]
    }

    fn compute_neighbors(&mut self, cutoff: u64) -> Result<(), Error> {
        let cutoff = f64::from_bits(cutoff);
        self.pairs.clear();
        for i in 0..self.positions.len() {
            for j in (i + 1)..self.positions.len() {
                let dx = self.positions[j][0] - self.positions[i][0];
                let dy = self.positions[j][1] - self.positions[i][1];
                let dz = self.positions[j][2] - self.positions[i][2];
                let d = (dx * dx + dy * dy + dz * dz).sqrt();
                if d < cutoff {
                    self.pairs.push(Pair {
                        first: i,
                        second: j,
                        vector: Vector3Bits {
                            x: dx.to_bits(),
                            y: dy.to_bits(),
                            z: dz.to_bits(),
                        },
                        distance: d.to_bits(),
                    });
                }
            }
        }
        self.current = Some(cutoff.to_bits());
        Ok(())
    }

    fn pairs(&self) -> Result<Vec<Pair>, Error> {
        Ok(self.pairs.clone())
    }

    fn pairs_containing(&self, center: usize) -> Result<Vec<Pair>, Error> {
        Ok(self
            .pairs
            .iter()
            .filter(|p| p.first == center || p.second == center)
            .cloned()
            .collect())
    }
}

fn water() -> TestSystem {
    TestSystem::new(
        vec![-42, 1, 1],
        vec![[0.0, 0.0, 0.0], [0.0, 0.75545, -0.58895], [0.0, -0.75545, -0.58895]],
    )
}

fn assert_rows(labels: &Labels, expected: &[Vec<i32>]) {
    assert_eq!(labels.count(), expected.len());
    for (i, row) in expected.iter().enumerate() {
        assert_eq!(labels.row(i), row);
    }
}

fn value_at(tm: &TensorMap, block: usize, sample: usize, component: usize) -> f64 {
    let b = tm.block_by_id(block);
    f64::from_bits(b.values.data.get(&vec![sample, component, 0]))
}

fn assert_close(a: f64, b: f64) {
    let scale = 1.0_f64.max(a.abs().max(b.abs()));
    assert!((a - b).abs() <= 1e-6 * scale, "{} != {}", a, b);
}

#[test]
fn half_neighbor_list() {
    let calculator = NeighborList { cutoff: 2.0_f64.to_bits(), full_neighbor_list: false };
    let mut systems = vec![water()];
    let descriptor = calculator.compute_descriptor(&mut systems, false).unwrap();

    assert_eq!(
        descriptor.keys().names(),
        &vec!["species_first_atom".to_owned(), "species_second_atom".to_owned()]
    );
    assert_rows(descriptor.keys(), &[vec![-42, 1], vec![1, 1]]);

    // O-H block
    let block = &descriptor.block_by_id(0).values;
    assert_rows(&block.properties, &[vec![0]]);
    assert_eq!(block.components.len(), 1);
    assert_rows(&block.components[0], &[vec![0], vec![1], vec![2]]);
    assert_eq!(
        block.samples.names(),
        &vec![
            "structure".to_owned(),
            "pair_id".to_owned(),
            "first_atom".to_owned(),
            "second_atom".to_owned()
        ]
    );
    assert_rows(&block.samples, &[vec![0, 0, 0, 1], vec![0, 1, 0, 2]]);

    let expected = [[0.0, 0.75545, -0.58895], [0.0, -0.75545, -0.58895]];
    for (i, row) in expected.iter().enumerate() {
        for (c, x) in row.iter().enumerate() {
            assert_close(value_at(&descriptor, 0, i, c), *x);
        }
    }

    // H-H block
    let block = &descriptor.block_by_id(1).values;
    assert_rows(&block.samples, &[vec![0, 2, 1, 2]]);
    let expected = [[0.0, -1.5109, 0.0]];
    for (i, row) in expected.iter().enumerate() {
        for (c, x) in row.iter().enumerate() {
            assert_close(value_at(&descriptor, 1, i, c), *x);
        }
    }
}

#[test]
fn full_neighbor_list() {
    let calculator = NeighborList { cutoff: 2.0_f64.to_bits(), full_neighbor_list: true };
    let mut systems = vec![water()];
    let descriptor = calculator.compute_descriptor(&mut systems, false).unwrap();

    assert_rows(descriptor.keys(), &[vec![-42, 1], vec![1, -42], vec![1, 1]]);

    // O-H block
    let block = &descriptor.block_by_id(0).values;
    assert_rows(&block.properties, &[vec![0]]);
    assert_eq!(block.components.len(), 1);
    assert_rows(&block.components[0], &[vec![0], vec![1], vec![2]]);
    assert_rows(&block.samples, &[vec![0, 0, 0, 1], vec![0, 1, 0, 2]]);
    let expected = [[0.0, 0.75545, -0.58895], [0.0, -0.75545, -0.58895]];
    for (i, row) in expected.iter().enumerate() {
        for (c, x) in row.iter().enumerate() {
            assert_close(value_at(&descriptor, 0, i, c), *x);
        }
    }

    // H-O block
    let block = &descriptor.block_by_id(1).values;
    assert_rows(&block.properties, &[vec![0]]);
    assert_eq!(block.components.len(), 1);
    assert_rows(&block.components[0], &[vec![0], vec![1], vec![2]]);
    assert_rows(&block.samples, &[vec![0, 0, 1, 0], vec![0, 1, 2, 0]]);
    let expected = [[0.0, -0.75545, 0.58895], [0.0, 0.75545, 0.58895]];
    for (i, row) in expected.iter().enumerate() {
        for (c, x) in row.iter().enumerate() {
            assert_close(value_at(&descriptor, 1, i, c), *x);
        }
    }

    // H-H block
    let block = &descriptor.block_by_id(2).values;
    assert_rows(&block.samples, &[vec![0, 2, 1, 2], vec![0, 2, 2, 1]]);
    let expected = [[0.0, -1.5109, 0.0], [0.0, 1.5109, 0.0]];
    for (i, row) in expected.iter().enumerate() {
        for (c, x) in row.iter().enumerate() {
            assert_close(value_at(&descriptor, 2, i, c), *x);
        }
    }
}

fn finite_differences_for(full: bool) {
    let cutoff = 1.0_f64.to_bits();
    let calculator = NeighborList { cutoff, full_neighbor_list: full };
    let mut systems = vec![water()];
    let descriptor = calculator.compute_descriptor(&mut systems, true).unwrap();
    let displacement = 1e-6;
    let max_relative = 1e-9;
    let epsilon = 1e-16;

    for b in 0..descriptor.blocks_count() {
        let block = descriptor.block_by_id(b);
        let gradient = block.gradient("positions").expect("missing gradient");
        for g in 0..gradient.samples.count() {
            let grow = gradient.samples.row(g);
            let sample = grow[0] as usize;
            let atom = grow[2] as usize;
            let sample_row = block.values.samples.row(sample).clone();
            for spatial in 0..3 {
                // displace `atom` along `spatial` and recompute
                let mut plus = water();
                plus.positions[atom][spatial] += displacement;
                let mut minus = water();
                minus.positions[atom][spatial] -= displacement;
                let mut plus_systems = vec![plus];
                let mut minus_systems = vec![minus];
                let plus_d = calculator.compute_descriptor(&mut plus_systems, false).unwrap();
                let minus_d = calculator.compute_descriptor(&mut minus_systems, false).unwrap();
                let pb = &plus_d.block_by_id(b).values;
                let mb = &minus_d.block_by_id(b).values;
                let pi = pb.samples.position(&sample_row).expect("missing sample");
                let mi = mb.samples.position(&sample_row).expect("missing sample");
                for component in 0..3 {
                    let analytic = f64::from_bits(
                        gradient.data.get(&vec![g, spatial, component, 0]),
                    );
                    let above = f64::from_bits(pb.data.get(&vec![pi, component, 0]));
                    let below = f64::from_bits(mb.data.get(&vec![mi, component, 0]));
                    let numeric = (above - below) / (2.0 * displacement);
                    let diff = (analytic - numeric).abs();
                    let scale = analytic.abs().max(numeric.abs());
                    assert!(
                        diff <= epsilon + max_relative * scale,
                        "block {} gradient row {} spatial {} component {}: {} != {}",
                        b,
                        g,
                        spatial,
                        component,
                        analytic,
                        numeric
                    );
                }
            }
        }
    }
}

#[test]
fn finite_differences_positions() {
    // half neighbor list
    finite_differences_for(false);
    // full neighbor list
    finite_differences_for(true);
}

/// Build a descriptor holding only the sample rows selected by
/// `(structure, first_atom)` pairs, and the full `distance` property.
fn restricted_descriptor(
    calculator: &NeighborList,
    systems: &mut Vec<TestSystem>,
    selected: &[(i32, i32)],
) -> TensorMap {
    let reference = calculator.compute_descriptor(systems, false).unwrap();
    let mut blocks = Vec::new();
    for b in 0..reference.blocks_count() {
        let full_block = &reference.block_by_id(b).values;
        let mut samples = LabelsBuilder::new(vec![
            "structure".to_owned(),
            "pair_id".to_owned(),
            "first_atom".to_owned(),
            "second_atom".to_owned(),
        ]);
        for i in 0..full_block.samples.count() {
            let row = full_block.samples.row(i);
            if selected.iter().any(|(s, f)| row[0] == *s && row[2] == *f) {
                samples.add(row).unwrap();
            }
        }
        let mut components = LabelsBuilder::new(vec!["pair_direction".to_owned()]);
        components.add(&vec![0]).unwrap();
        components.add(&vec![1]).unwrap();
        components.add(&vec![2]).unwrap();
        let mut properties = LabelsBuilder::new(vec!["distance".to_owned()]);
        properties.add(&vec![0]).unwrap();
        let values =
            BasicBlock::new(samples.finish(), vec![components.finish()], properties.finish())
                .unwrap();
        blocks.push(Block { values, positions_gradient: None });
    }
    let mut keys = LabelsBuilder::new(vec![
        "species_first_atom".to_owned(),
        "species_second_atom".to_owned(),
    ]);
    for b in 0..reference.keys().count() {
        keys.add(reference.keys().row(b)).unwrap();
    }
    TensorMap::new(keys.finish(), blocks)
}

#[test]
fn compute_partial() {
    // restrict the samples to the rows of structure 0 whose first atom is 1,
    // with the full `distance` property, and check that exactly those rows
    // are filled with the reference values
    for full in [false, true] {
        let calculator = NeighborList { cutoff: 1.0_f64.to_bits(), full_neighbor_list: full };
        let mut systems = vec![water()];
        let reference = calculator.compute_descriptor(&mut systems, false).unwrap();
        let mut partial = restricted_descriptor(&calculator, &mut systems, &[(0, 1)]);
        calculator.compute(&mut systems, &mut partial).unwrap();

        assert_eq!(partial.keys(), reference.keys());
        for b in 0..reference.blocks_count() {
            let full_block = &reference.block_by_id(b).values;
            let part_block = &partial.block_by_id(b).values;
            for i in 0..part_block.samples.count() {
                let row = part_block.samples.row(i);
                assert_eq!(row[0], 0);
                assert_eq!(row[2], 1);
                let j = full_block.samples.position(row).expect("row must exist");
                for c in 0..3 {
                    assert_eq!(
                        part_block.data.get(&vec![i, c, 0]),
                        full_block.data.get(&vec![j, c, 0]),
                    );
                }
            }
            // every selected row of the full block is present
            for j in 0..full_block.samples.count() {
                let row = full_block.samples.row(j);
                if row[0] == 0 && row[2] == 1 {
                    assert!(part_block.samples.position(row).is_some());
                }
            }
        }
    }
}

#[test]
fn full_list_antisymmetry() {
    // the two orientations of every pair hold exactly opposite vectors
    let calculator = NeighborList { cutoff: 2.0_f64.to_bits(), full_neighbor_list: true };
    let mut systems = vec![water()];
    let descriptor = calculator.compute_descriptor(&mut systems, false).unwrap();
    let mut checked = 0;
    for b in 0..descriptor.blocks_count() {
        let block = &descriptor.block_by_id(b).values;
        let key = descriptor.keys().row(b);
        let reversed = vec![key[1], key[0]];
        let rb = descriptor.position(&reversed).unwrap();
        let rblock = &descriptor.block_by_id(rb).values;
        for i in 0..block.samples.count() {
            let row = block.samples.row(i);
            if row[2] == row[3] {
                continue;
            }
            let swapped = vec![row[0], row[1], row[3], row[2]];
            let j = rblock.samples.position(&swapped).unwrap();
            for c in 0..3 {
                let x = f64::from_bits(block.data.get(&vec![i, c, 0]));
                let y = f64::from_bits(rblock.data.get(&vec![j, c, 0]));
                assert_eq!(x, -y);
                checked += 1;
            }
        }
    }
    assert!(checked > 0);
}

#[test]
fn half_full_consistency() {
    // every half-list entry appears identically in the full list; every
    // full-list entry is a half-list entry or its negation
    let cutoff = 2.0_f64.to_bits();
    let half = NeighborList { cutoff, full_neighbor_list: false };
    let full = NeighborList { cutoff, full_neighbor_list: true };
    let mut systems = vec![water()];
    let half_d = half.compute_descriptor(&mut systems, false).unwrap();
    let full_d = full.compute_descriptor(&mut systems, false).unwrap();

    for b in 0..half_d.blocks_count() {
        let hblock = &half_d.block_by_id(b).values;
        let key = half_d.keys().row(b);
        let fb = full_d.position(key).expect("half key must be a full key");
        let fblock = &full_d.block_by_id(fb).values;
        for i in 0..hblock.samples.count() {
            let row = hblock.samples.row(i);
            let j = fblock.samples.position(row).expect("half sample must be a full sample");
            for c in 0..3 {
                assert_eq!(
                    hblock.data.get(&vec![i, c, 0]),
                    fblock.data.get(&vec![j, c, 0]),
                );
            }
        }
    }
    for b in 0..full_d.blocks_count() {
        let fblock = &full_d.block_by_id(b).values;
        for i in 0..fblock.samples.count() {
            let row = fblock.samples.row(i);
            let mut found = false;
            for hb in 0..half_d.blocks_count() {
                let hblock = &half_d.block_by_id(hb).values;
                for j in 0..hblock.samples.count() {
                    let hrow = hblock.samples.row(j);
                    if hrow[0] != row[0] || hrow[1] != row[1] {
                        continue;
                    }
                    let same = (0..3).all(|c| {
                        hblock.data.get(&vec![j, c, 0]) == fblock.data.get(&vec![i, c, 0])
                    });
                    let negated = (0..3).all(|c| {
                        f64::from_bits(hblock.data.get(&vec![j, c, 0]))
                            == -f64::from_bits(fblock.data.get(&vec![i, c, 0]))
                    });
                    if same || negated {
                        found = true;
                    }
                }
            }
            assert!(found, "full entry without a half counterpart");
        }
    }
}

#[test]
fn gradient_rows_are_unit_diagonals() {
    // each sample of two distinct atoms has exactly two non-zero gradient
    // rows, one +1 diagonal and one -1 diagonal
    let calculator = NeighborList { cutoff: 2.0_f64.to_bits(), full_neighbor_list: false };
    let mut systems = vec![water()];
    let descriptor = calculator.compute_descriptor(&mut systems, true).unwrap();
    for b in 0..descriptor.blocks_count() {
        let block = descriptor.block_by_id(b);
        let gradient = block.gradient("positions").unwrap();
        for i in 0..block.values.samples.count() {
            let srow = block.values.samples.row(i);
            assert_ne!(srow[2], srow[3], "no self pairs in this system");
            let mut nonzero_rows = 0;
            for g in 0..gradient.samples.count() {
                let grow = gradient.samples.row(g);
                if grow[0] != i as i32 {
                    continue;
                }
                let mut all_zero = true;
                for d1 in 0..3 {
                    for d2 in 0..3 {
                        let v = f64::from_bits(gradient.data.get(&vec![g, d1, d2, 0]));
                        if d1 == d2 {
                            let expected = if grow[2] == srow[3] { 1.0 } else { -1.0 };
                            assert_eq!(v, expected);
                            all_zero = false;
                        } else {
                            assert_eq!(v, 0.0);
                        }
                    }
                }
                if !all_zero {
                    nonzero_rows += 1;
                }
            }
            assert_eq!(nonzero_rows, 2);
        }
    }
}

#[test]
fn empty_cutoff_gives_empty_blocks() {
    // a cutoff below any bond distance yields a valid, empty tensor map
    let calculator = NeighborList { cutoff: 0.5_f64.to_bits(), full_neighbor_list: false };
    let mut systems = vec![water()];
    let descriptor = calculator.compute_descriptor(&mut systems, true).unwrap();
    assert_eq!(descriptor.keys().count(), 0);
    assert_eq!(descriptor.blocks_count(), 0);
}

#[test]
fn calculator_name_and_gradients() {
    let calculator = NeighborList { cutoff: 2.0_f64.to_bits(), full_neighbor_list: false };
    assert_eq!(calculator.name(), "neighbors list");
    assert!(calculator.supports_gradient("positions"));
    assert!(!calculator.supports_gradient("cell"));
    assert_eq!(
        calculator.samples_names(),
        vec![
            "structure".to_owned(),
            "pair_id".to_owned(),
            "first_atom".to_owned(),
            "second_atom".to_owned()
        ]
    );
    assert_eq!(calculator.properties_names(), vec!["distance".to_owned()]);
}

/// A system that refuses to compute neighbor lists.
struct BrokenSystem;

impl System for BrokenSystem {
    fn size(&self) -> usize {
        1
    }

    fn species(&self) -> Vec<i32> {
        vec![1]
    }

    fn positions(&self) -> Vec<Vector3Bits> {
        vec![Vector3Bits { x: 0, y: 0, z: 0 }]
    }

    fn cell(&self) -> [[u64; 3]; 3] {
        [[0; 3]; 3]
    }

    fn compute_neighbors(&mut self, _cutoff: u64) -> Result<(), Error> {
        Err(Error::NeighborList("this system has no neighbor list".to_owned()))
    }

    fn pairs(&self) -> Result<Vec<Pair>, Error> {
        Err(Error::NeighborList("this system has no neighbor list".to_owned()))
    }

    fn pairs_containing(&self, _center: usize) -> Result<Vec<Pair>, Error> {
        Err(Error::NeighborList("this system has no neighbor list".to_owned()))
    }
}

#[test]
fn invalid_cutoff_is_rejected() {
    let mut systems = vec![water()];
    for bad in [0.0_f64, -1.0, f64::INFINITY, f64::NAN] {
        let calculator = NeighborList { cutoff: bad.to_bits(), full_neighbor_list: false };
        let r = calculator.compute_descriptor_checked(&mut systems, false);
        assert!(matches!(r, Err(Error::InvalidParameter(_))), "cutoff {}", bad);
    }
    let calculator = NeighborList { cutoff: 2.0_f64.to_bits(), full_neighbor_list: false };
    assert!(calculator.check_parameters().is_ok());
    assert!(calculator.compute_descriptor_checked(&mut systems, false).is_ok());
}

#[test]
fn system_errors_propagate() {
    let calculator = NeighborList { cutoff: 2.0_f64.to_bits(), full_neighbor_list: false };
    let mut systems = vec![BrokenSystem];
    let r = calculator.compute_descriptor(&mut systems, false);
    assert!(matches!(r, Err(Error::NeighborList(_))));
}

#[test]
fn incomplete_descriptors_are_refused() {
    // a descriptor without the needed key aborts with an internal error; a
    // descriptor whose gradient rows are absent reports the missing sample
    let calculator = NeighborList { cutoff: 2.0_f64.to_bits(), full_neighbor_list: false };
    let mut systems = vec![water()];

    let mut empty_keys = LabelsBuilder::new(vec![
        "species_first_atom".to_owned(),
        "species_second_atom".to_owned(),
    ]);
    empty_keys.add(&vec![7, 7]).unwrap();
    let mut samples = LabelsBuilder::new(vec![
        "structure".to_owned(),
        "pair_id".to_owned(),
        "first_atom".to_owned(),
        "second_atom".to_owned(),
    ]);
    samples.add(&vec![0, 0, 0, 1]).unwrap();
    let mut components = LabelsBuilder::new(vec!["pair_direction".to_owned()]);
    components.add(&vec![0]).unwrap();
    components.add(&vec![1]).unwrap();
    components.add(&vec![2]).unwrap();
    let mut properties = LabelsBuilder::new(vec!["distance".to_owned()]);
    properties.add(&vec![0]).unwrap();
    let values =
        BasicBlock::new(samples.finish(), vec![components.finish()], properties.finish()).unwrap();
    let block = Block { values, positions_gradient: None };
    let mut wrong_keys = TensorMap::new(empty_keys.finish(), vec![block]);
    let r = calculator.compute(&mut systems, &mut wrong_keys);
    assert!(matches!(r, Err(Error::Internal(_))));

    // now the right keys and samples, but an empty gradient sample list
    let reference = calculator.compute_descriptor(&mut systems, true).unwrap();
    let mut keys = LabelsBuilder::new(vec![
        "species_first_atom".to_owned(),
        "species_second_atom".to_owned(),
    ]);
    for b in 0..reference.keys().count() {
        keys.add(reference.keys().row(b)).unwrap();
    }
    let mut blocks = Vec::new();
    for b in 0..reference.blocks_count() {
        let rblock = &reference.block_by_id(b).values;
        let mut samples = LabelsBuilder::new(vec![
            "structure".to_owned(),
            "pair_id".to_owned(),
            "first_atom".to_owned(),
            "second_atom".to_owned(),
        ]);
        for i in 0..rblock.samples.count() {
            samples.add(rblock.samples.row(i)).unwrap();
        }
        let mut components = LabelsBuilder::new(vec!["pair_direction".to_owned()]);
        components.add(&vec![0]).unwrap();
        components.add(&vec![1]).unwrap();
        components.add(&vec![2]).unwrap();
        let mut properties = LabelsBuilder::new(vec!["distance".to_owned()]);
        properties.add(&vec![0]).unwrap();
        let values = BasicBlock::new(
            samples.finish(),
            vec![components.finish()],
            properties.finish(),
        )
        .unwrap();
        // no gradient rows at all, although samples are present
        let gsamples = LabelsBuilder::new(vec![
            "sample".to_owned(),
            "structure".to_owned(),
            "atom".to_owned(),
        ]);
        let mut gcomponents1 = LabelsBuilder::new(vec!["spatial".to_owned()]);
        gcomponents1.add(&vec![0]).unwrap();
        gcomponents1.add(&vec![1]).unwrap();
        gcomponents1.add(&vec![2]).unwrap();
        let mut gcomponents2 = LabelsBuilder::new(vec!["pair_direction".to_owned()]);
        gcomponents2.add(&vec![0]).unwrap();
        gcomponents2.add(&vec![1]).unwrap();
        gcomponents2.add(&vec![2]).unwrap();
        let mut gproperties = LabelsBuilder::new(vec!["distance".to_owned()]);
        gproperties.add(&vec![0]).unwrap();
        let gradient = BasicBlock::new(
            gsamples.finish(),
            vec![gcomponents1.finish(), gcomponents2.finish()],
            gproperties.finish(),
        )
        .unwrap();
        blocks.push(Block { values, positions_gradient: Some(gradient) });
    }
    let mut missing_gradients = TensorMap::new(keys.finish(), blocks);
    let r = calculator.compute(&mut systems, &mut missing_gradients);
    assert!(matches!(r, Err(Error::MissingGradientSample(_))));
}
