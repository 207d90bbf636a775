//! Checks of the species-based sample builders on small molecules.

use rascaline::bits::Vector3Bits;
use rascaline::labels::{Labels, LabelsBuilder};
use rascaline::species::{AtomSpeciesSamples, StructureSpeciesSamples, ThreeBodiesSpeciesSamples};
use rascaline::system::{Pair, System};
use rascaline::Error;

struct TestSystem {
    species: Vec<i32>,
    positions: Vec<[f64; 3]>,
    current: Option<u64>,
    pairs: Vec<Pair>,
}

impl TestSystem {
    fn new(species: Vec<i32>, positions: Vec<[f64; 3]>) -> TestSystem {
        TestSystem { species, positions, current: None, pairs: Vec::new() }
    }
}

impl System for TestSystem {
    fn size(&self) -> usize {
        self.species.len()
    }

    fn species(&self) -> Vec<i32> {
        self.species.clone()
    }

    fn positions(&self) -> Vec<Vector3Bits> {
        self.positions
            .iter()
            .map(|p| Vector3Bits { x: p[0].to_bits(), y: p[1].to_bits(), z: p[2].to_bits() })
            .collect()
    }

    fn cell(&self) -> [[u64; 3]; 3] {
        [[0; 3]; 3]
    }

    fn compute_neighbors(&mut self, cutoff: u64) -> Result<(), Error> {
        let cutoff = f64::from_bits(cutoff);
        self.pairs.clear();
        for i in 0..self.positions.len() {
            for j in (i + 1)..self.positions.len() {
                let dx = self.positions[j][0] - self.positions[i][0];
                let dy = self.positions[j][1] - self.positions[i][1];
                let dz = self.positions[j][2] - self.positions[i][2];
                let d = (dx * dx + dy * dy + dz * dz).sqrt();
                if d < cutoff {
                    self.pairs.push(Pair {
                        first: i,
                        second: j,
                        vector: Vector3Bits {
                            x: dx.to_bits(),
                            y: dy.to_bits(),
                            z: dz.to_bits(),
                        },
                        distance: d.to_bits(),
                    });
                }
            }
        }
        self.current = Some(cutoff.to_bits());
        Ok(())
    }

    fn pairs(&self) -> Result<Vec<Pair>, Error> {
        Ok(self.pairs.clone())
    }

    fn pairs_containing(&self, center: usize) -> Result<Vec<Pair>, Error> {
        Ok(self
            .pairs
            .iter()
            .filter(|p| p.first == center || p.second == center)
            .cloned()
            .collect())
    }
}

/// Water with the oxygen under the artificial species 123456.
fn water() -> TestSystem {
    TestSystem::new(
        vec![123456, 1, 1],
        vec![[0.0, 0.0, 0.0], [0.0, 0.75545, -0.58895], [0.0, -0.75545, -0.58895]],
    )
}

/// A single C-H pair, with the hydrogen first, 1.2 apart.
fn ch() -> TestSystem {
    TestSystem::new(vec![1, 6], vec![[0.0, 0.0, 0.0], [0.0, 0.0, 1.2]])
}

/// Methane; only its species matter to these tests.
fn methane() -> TestSystem {
    TestSystem::new(
        vec![6, 1, 1, 1, 1],
        vec![
            [0.0, 0.0, 0.0],
            [0.63, 0.63, 0.63],
            [-0.63, -0.63, 0.63],
            [0.63, -0.63, -0.63],
            [-0.63, 0.63, -0.63],
        ],
    )
}

fn assert_rows(labels: &Labels, expected: &[Vec<i32>]) {
    assert_eq!(labels.count(), expected.len());
    for (i, row) in expected.iter().enumerate() {
        assert_eq!(labels.row(i), row, "row {}", i);
    }
}

fn bits(x: f64) -> u64 {
    x.to_bits()
}

#[test]
fn structure() {
    let systems = vec![methane(), methane(), water()];
    let indexes = StructureSpeciesSamples.indexes(&systems);
    assert_eq!(indexes.count(), 6);
    assert_eq!(indexes.names(), &vec!["structure".to_owned(), "species".to_owned()]);
    assert_rows(
        &indexes,
        &[
            vec![0, 1],
            vec![0, 6],
            vec![1, 1],
            vec![1, 6],
            vec![2, 1],
            vec![2, 123456],
        ],
    );
}

#[test]
fn structure_gradient() {
    let systems = vec![ch(), water()];
    let (_, gradients) = StructureSpeciesSamples.with_gradients(&systems);
    let gradients = gradients.unwrap();
    assert_eq!(gradients.count(), 15);
    assert_eq!(
        gradients.names(),
        &vec![
            "structure".to_owned(),
            "species".to_owned(),
            "atom".to_owned(),
            "spatial".to_owned()
        ]
    );
    assert_rows(
        &gradients,
        &[
            // H channel in CH
            vec![0, 1, 0, 0],
            vec![0, 1, 0, 1],
            vec![0, 1, 0, 2],
            // C channel in CH
            vec![0, 6, 1, 0],
            vec![0, 6, 1, 1],
            vec![0, 6, 1, 2],
            // H channel in water
            vec![1, 1, 1, 0],
            vec![1, 1, 1, 1],
            vec![1, 1, 1, 2],
            vec![1, 1, 2, 0],
            vec![1, 1, 2, 1],
            vec![1, 1, 2, 2],
            // O channel in water
            vec![1, 123456, 0, 0],
            vec![1, 123456, 0, 1],
            vec![1, 123456, 0, 2],
        ],
    );
}

#[test]
fn partial_structure_gradient() {
    let mut indexes = LabelsBuilder::new(vec!["structure".to_owned(), "species".to_owned()]);
    indexes.add(&vec![2, 1]).unwrap();
    indexes.add(&vec![0, 6]).unwrap();

    let systems = vec![ch(), water(), ch()];
    let gradients = StructureSpeciesSamples.gradients_for(&systems, &indexes.finish());
    assert_eq!(
        gradients.names(),
        &vec![
            "structure".to_owned(),
            "species".to_owned(),
            "atom".to_owned(),
            "spatial".to_owned()
        ]
    );
    assert_rows(
        &gradients,
        &[
            // H channel in the second CH
            vec![2, 1, 0, 0],
            vec![2, 1, 0, 1],
            vec![2, 1, 0, 2],
            // C channel in the first CH
            vec![0, 6, 1, 0],
            vec![0, 6, 1, 1],
            vec![0, 6, 1, 2],
        ],
    );
}

#[test]
fn atoms() {
    let mut systems = vec![ch(), water()];
    let strategy = AtomSpeciesSamples::new(bits(2.0));
    let indexes = strategy.indexes(&mut systems).unwrap();
    assert_eq!(indexes.count(), 7);
    assert_eq!(
        indexes.names(),
        &vec![
            "structure".to_owned(),
            "center".to_owned(),
            "species_center".to_owned(),
            "species_neighbor".to_owned()
        ]
    );
    assert_rows(
        &indexes,
        &[
            // H in CH
            vec![0, 0, 1, 6],
            // C in CH
            vec![0, 1, 6, 1],
            // O in water
            vec![1, 0, 123456, 1],
            // first H in water
            vec![1, 1, 1, 1],
            vec![1, 1, 1, 123456],
            // second H in water
            vec![1, 2, 1, 1],
            vec![1, 2, 1, 123456],
        ],
    );
}

#[test]
fn atoms_self_contribution() {
    let mut systems = vec![ch()];
    let strategy = AtomSpeciesSamples::new(bits(2.0));
    let indexes = strategy.indexes(&mut systems).unwrap();
    assert_eq!(indexes.count(), 2);
    assert_rows(
        &indexes,
        &[
            // H in CH
            vec![0, 0, 1, 6],
            // C in CH
            vec![0, 1, 6, 1],
        ],
    );

    let strategy = AtomSpeciesSamples::with_self_contribution(bits(2.0));
    let indexes = strategy.indexes(&mut systems).unwrap();
    assert_eq!(indexes.count(), 4);
    assert_rows(
        &indexes,
        &[
            // H in CH
            vec![0, 0, 1, 1],
            vec![0, 0, 1, 6],
            // C in CH
            vec![0, 1, 6, 1],
            vec![0, 1, 6, 6],
        ],
    );

    // entries exist even without proper neighbors
    let strategy = AtomSpeciesSamples::with_self_contribution(bits(1.0));
    let indexes = strategy.indexes(&mut systems).unwrap();
    assert_eq!(indexes.count(), 2);
    assert_rows(
        &indexes,
        &[
            // H in CH
            vec![0, 0, 1, 1],
            // C in CH
            vec![0, 1, 6, 6],
        ],
    );
}

#[test]
fn atoms_gradient() {
    let mut systems = vec![ch(), water()];
    let strategy = AtomSpeciesSamples::new(bits(2.0));
    let (_, gradients) = strategy.with_gradients(&mut systems).unwrap();
    let gradients = gradients.unwrap();

    assert_eq!(gradients.count(), 24);
    assert_eq!(
        gradients.names(),
        &vec![
            "structure".to_owned(),
            "center".to_owned(),
            "species_center".to_owned(),
            "species_neighbor".to_owned(),
            "neighbor".to_owned(),
            "spatial".to_owned()
        ]
    );
    assert_rows(
        &gradients,
        &[
            // H-C channel in CH
            vec![0, 0, 1, 6, 1, 0],
            vec![0, 0, 1, 6, 1, 1],
            vec![0, 0, 1, 6, 1, 2],
            // C-H channel in CH
            vec![0, 1, 6, 1, 0, 0],
            vec![0, 1, 6, 1, 0, 1],
            vec![0, 1, 6, 1, 0, 2],
            // O-H channel in water
            vec![1, 0, 123456, 1, 1, 0],
            vec![1, 0, 123456, 1, 1, 1],
            vec![1, 0, 123456, 1, 1, 2],
            vec![1, 0, 123456, 1, 2, 0],
            vec![1, 0, 123456, 1, 2, 1],
            vec![1, 0, 123456, 1, 2, 2],
            // H-H channel in water, first atom
            vec![1, 1, 1, 1, 2, 0],
            vec![1, 1, 1, 1, 2, 1],
            vec![1, 1, 1, 1, 2, 2],
            // H-O channel in water, first atom
            vec![1, 1, 1, 123456, 0, 0],
            vec![1, 1, 1, 123456, 0, 1],
            vec![1, 1, 1, 123456, 0, 2],
            // H-H channel in water, second atom
            vec![1, 2, 1, 1, 1, 0],
            vec![1, 2, 1, 1, 1, 1],
            vec![1, 2, 1, 1, 1, 2],
            // H-O channel in water, second atom
            vec![1, 2, 1, 123456, 0, 0],
            vec![1, 2, 1, 123456, 0, 1],
            vec![1, 2, 1, 123456, 0, 2],
        ],
    );
}

#[test]
fn partial_atoms_gradient() {
    let mut indexes = LabelsBuilder::new(vec![
        "structure".to_owned(),
        "center".to_owned(),
        "species_center".to_owned(),
        "species_neighbor".to_owned(),
    ]);
    indexes.add(&vec![1, 0, 123456, 1]).unwrap();
    indexes.add(&vec![0, 0, 1, 6]).unwrap();
    indexes.add(&vec![1, 1, 1, 1]).unwrap();

    let mut systems = vec![ch(), water()];
    let strategy = AtomSpeciesSamples::new(bits(2.0));
    let gradients = strategy.gradients_for(&mut systems, &indexes.finish()).unwrap();

    assert_rows(
        &gradients,
        &[
            // O-H channel in water
            vec![1, 0, 123456, 1, 1, 0],
            vec![1, 0, 123456, 1, 1, 1],
            vec![1, 0, 123456, 1, 1, 2],
            vec![1, 0, 123456, 1, 2, 0],
            vec![1, 0, 123456, 1, 2, 1],
            vec![1, 0, 123456, 1, 2, 2],
            // H-C channel in CH
            vec![0, 0, 1, 6, 1, 0],
            vec![0, 0, 1, 6, 1, 1],
            vec![0, 0, 1, 6, 1, 2],
            // H-H channel in water, first atom
            vec![1, 1, 1, 1, 2, 0],
            vec![1, 1, 1, 1, 2, 1],
            vec![1, 1, 1, 1, 2, 2],
        ],
    );
}

#[test]
fn three_bodies() {
    let mut systems = vec![ch(), water()];
    let strategy = ThreeBodiesSpeciesSamples::new(bits(2.0));
    let indexes = strategy.indexes(&mut systems).unwrap();
    assert_eq!(indexes.count(), 9);
    assert_eq!(
        indexes.names(),
        &vec![
            "structure".to_owned(),
            "center".to_owned(),
            "species_center".to_owned(),
            "species_neighbor_1".to_owned(),
            "species_neighbor_2".to_owned()
        ]
    );
    assert_rows(
        &indexes,
        &[
            // C-H-C in CH
            vec![0, 0, 1, 6, 6],
            // H-C-H in CH
            vec![0, 1, 6, 1, 1],
            // H-O-H in water
            vec![1, 0, 123456, 1, 1],
            // first H in water
            vec![1, 1, 1, 1, 1],
            vec![1, 1, 1, 1, 123456],
            vec![1, 1, 1, 123456, 123456],
            // second H in water
            vec![1, 2, 1, 1, 1],
            vec![1, 2, 1, 1, 123456],
            vec![1, 2, 1, 123456, 123456],
        ],
    );
}

#[test]
fn three_bodies_self_contribution() {
    let mut systems = vec![water()];
    // only the O-H neighbors are within 1.2
    let strategy = ThreeBodiesSpeciesSamples::with_self_contribution(bits(1.2));
    let indexes = strategy.indexes(&mut systems).unwrap();
    assert_eq!(indexes.count(), 9);
    assert_rows(
        &indexes,
        &[
            // around the oxygen
            vec![0, 0, 123456, 1, 1],
            vec![0, 0, 123456, 1, 123456],
            vec![0, 0, 123456, 123456, 123456],
            // first H in water
            vec![0, 1, 1, 1, 1],
            vec![0, 1, 1, 1, 123456],
            vec![0, 1, 1, 123456, 123456],
            // second H in water
            vec![0, 2, 1, 1, 1],
            vec![0, 2, 1, 1, 123456],
            vec![0, 2, 1, 123456, 123456],
        ],
    );
}

#[test]
fn three_bodies_gradients() {
    let mut systems = vec![water()];
    let strategy = ThreeBodiesSpeciesSamples::new(bits(2.0));
    let (_, gradients) = strategy.with_gradients(&mut systems).unwrap();
    let gradients = gradients.unwrap();

    assert_eq!(gradients.count(), 30);
    assert_eq!(
        gradients.names(),
        &vec![
            "structure".to_owned(),
            "center".to_owned(),
            "species_center".to_owned(),
            "species_neighbor_1".to_owned(),
            "species_neighbor_2".to_owned(),
            "neighbor".to_owned(),
            "spatial".to_owned()
        ]
    );
    assert_rows(
        &gradients,
        &[
            // H-O-H in water
            vec![0, 0, 123456, 1, 1, 1, 0],
            vec![0, 0, 123456, 1, 1, 1, 1],
            vec![0, 0, 123456, 1, 1, 1, 2],
            vec![0, 0, 123456, 1, 1, 2, 0],
            vec![0, 0, 123456, 1, 1, 2, 1],
            vec![0, 0, 123456, 1, 1, 2, 2],
            // O-H-O, first H
            vec![0, 1, 1, 123456, 123456, 0, 0],
            vec![0, 1, 1, 123456, 123456, 0, 1],
            vec![0, 1, 1, 123456, 123456, 0, 2],
            // H-H-O, first H
            vec![0, 1, 1, 1, 123456, 0, 0],
            vec![0, 1, 1, 1, 123456, 0, 1],
            vec![0, 1, 1, 1, 123456, 0, 2],
            vec![0, 1, 1, 1, 123456, 2, 0],
            vec![0, 1, 1, 1, 123456, 2, 1],
            vec![0, 1, 1, 1, 123456, 2, 2],
            // H-H-H, first H
            vec![0, 1, 1, 1, 1, 2, 0],
            vec![0, 1, 1, 1, 1, 2, 1],
            vec![0, 1, 1, 1, 1, 2, 2],
            // O-H-O, second H
            vec![0, 2, 1, 123456, 123456, 0, 0],
            vec![0, 2, 1, 123456, 123456, 0, 1],
            vec![0, 2, 1, 123456, 123456, 0, 2],
            // H-H-O, second H
            vec![0, 2, 1, 1, 123456, 0, 0],
            vec![0, 2, 1, 1, 123456, 0, 1],
            vec![0, 2, 1, 1, 123456, 0, 2],
            vec![0, 2, 1, 1, 123456, 1, 0],
            vec![0, 2, 1, 1, 123456, 1, 1],
            vec![0, 2, 1, 1, 123456, 1, 2],
            // H-H-H, second H
            vec![0, 2, 1, 1, 1, 1, 0],
            vec![0, 2, 1, 1, 1, 1, 1],
            vec![0, 2, 1, 1, 1, 1, 2],
        ],
    );
}
