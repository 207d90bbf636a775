//! Checks of descriptor preparation and densification.

use rascaline::bits::Vector3Bits;
use rascaline::descriptor::Descriptor;
use rascaline::labels::{Labels, LabelsBuilder};
use rascaline::species::StructureSpeciesSamples;
use rascaline::system::{Pair, System};
use rascaline::tensor::DenseTensor;
use rascaline::Error;

struct TestSystem {
    species: Vec<i32>,
    positions: Vec<[f64; 3]>,
    current: Option<u64>,
    pairs: Vec<Pair>,
}

impl TestSystem {
    fn new(species: Vec<i32>, positions: Vec<[f64; 3]>) -> TestSystem {
        TestSystem { species, positions, current: None, pairs: Vec::new() }
    }
}

impl System for TestSystem {
    fn size(&self) -> usize {
        self.species.len()
    }

    fn species(&self) -> Vec<i32> {
        self.species.clone()
    }

    fn positions(&self) -> Vec<Vector3Bits> {
        self.positions
            .iter()
            .map(|p| Vector3Bits { x: p[0].to_bits(), y: p[1].to_bits(), z: p[2].to_bits() })
            .collect()
    }

    fn cell(&self) -> [[u64; 3]; 3] {
        [[0; 3]; 3]
    }

    fn compute_neighbors(&mut self, cutoff: u64) -> Result<(), Error> {
        let cutoff = f64::from_bits(cutoff);
        self.pairs.clear();
        for i in 0..self.positions.len() {
            for j in (i + 1)..self.positions.len() {
                let dx = self.positions[j][0] - self.positions[i][0];
                let dy = self.positions[j][1] - self.positions[i][1];
                let dz = self.positions[j][2] - self.positions[i][2];
                let d = (dx * dx + dy * dy + dz * dz).sqrt();
                if d < cutoff {
                    self.pairs.push(Pair {
                        first: i,
                        second: j,
                        vector: Vector3Bits {
                            x: dx.to_bits(),
                            y: dy.to_bits(),
                            z: dz.to_bits(),
                        },
                        distance: d.to_bits(),
                    });
                }
            }
        }
        self.current = Some(cutoff.to_bits());
        Ok(())
    }

    fn pairs(&self) -> Result<Vec<Pair>, Error> {
        Ok(self.pairs.clone())
    }

    fn pairs_containing(&self, center: usize) -> Result<Vec<Pair>, Error> {
        Ok(self
            .pairs
            .iter()
            .filter(|p| p.first == center || p.second == center)
            .cloned()
            .collect())
    }
}

fn water() -> TestSystem {
    TestSystem::new(
        vec![123456, 1, 1],
        vec![[0.0, 0.0, 0.0], [0.0, 0.75545, -0.58895], [0.0, -0.75545, -0.58895]],
    )
}

fn ch() -> TestSystem {
    TestSystem::new(vec![1, 6], vec![[0.0, 0.0, 0.0], [0.0, 0.0, 1.2]])
}

fn features() -> Labels {
    let mut features = LabelsBuilder::new(vec![
        "foo".to_owned(),
        "bar".to_owned(),
        "baz".to_owned(),
    ]);
    features.add(&vec![0, 1, 3]).unwrap();
    features.add(&vec![4, 2, 33]).unwrap();
    features.add(&vec![1, 0, 23]).unwrap();
    features.finish()
}

fn do_prepare(gradients: bool) -> Descriptor {
    let systems = vec![water(), ch()];
    let environments = StructureSpeciesSamples;
    let mut descriptor = Descriptor::new();
    if gradients {
        let (samples, gradient_samples) = environments.with_gradients(&systems);
        let gradient_samples = gradient_samples.unwrap();
        descriptor.prepare_gradients(samples, gradient_samples, features()).unwrap();
    } else {
        let samples = environments.indexes(&systems);
        descriptor.prepare(samples, features()).unwrap();
    }
    descriptor
}

fn set2(t: &mut DenseTensor, i: usize, j: usize, x: f64) {
    t.set(&vec![i, j], x.to_bits());
}

fn get2(t: &DenseTensor, i: usize, j: usize) -> f64 {
    f64::from_bits(t.get(&vec![i, j]))
}

fn assign(t: &mut DenseTensor, rows: &[Vec<f64>]) {
    for (i, row) in rows.iter().enumerate() {
        for (j, x) in row.iter().enumerate() {
            set2(t, i, j, *x);
        }
    }
}

fn assert_matrix(t: &DenseTensor, rows: &[Vec<f64>]) {
    assert_eq!(t.shape(), &vec![rows.len(), rows[0].len()]);
    for (i, row) in rows.iter().enumerate() {
        for (j, x) in row.iter().enumerate() {
            assert_eq!(get2(t, i, j), *x, "at ({}, {})", i, j);
        }
    }
}

#[test]
fn prepare() {
    let descriptor = do_prepare(false);

    assert_eq!(descriptor.values.shape(), &vec![4, 3]);

    assert_eq!(
        descriptor.environments.names(),
        &vec!["structure".to_owned(), "species".to_owned()]
    );
    assert_eq!(descriptor.environments.row(0), &vec![0, 1]);
    assert_eq!(descriptor.environments.row(1), &vec![0, 123456]);
    assert_eq!(descriptor.environments.row(2), &vec![1, 1]);
    assert_eq!(descriptor.environments.row(3), &vec![1, 6]);

    assert!(descriptor.gradients.is_none());
}

#[test]
fn prepare_gradients() {
    let descriptor = do_prepare(true);

    let gradients = descriptor.gradients.unwrap();
    assert_eq!(gradients.shape(), &vec![15, 3]);

    let gradients_indexes = descriptor.gradients_indexes.as_ref().unwrap();
    assert_eq!(
        gradients_indexes.names(),
        &vec![
            "structure".to_owned(),
            "species".to_owned(),
            "atom".to_owned(),
            "spatial".to_owned()
        ]
    );

    // the same (structure, species, atom) triple for each spatial direction
    let expected = [
        vec![0, 1, 1],
        vec![0, 1, 2],
        vec![0, 123456, 0],
        vec![1, 1, 0],
        vec![1, 6, 1],
    ];
    for (i, value) in expected.iter().enumerate() {
        for spatial in 0..3 {
            let row = gradients_indexes.row(3 * i + spatial);
            assert_eq!(&row[..3], &value[..]);
            assert_eq!(row[3], spatial as i32);
        }
    }
}

#[test]
fn densify() {
    let mut descriptor = do_prepare(true);

    assign(
        &mut descriptor.values,
        &[
            vec![1.0, 2.0, 3.0],
            vec![4.0, 5.0, 6.0],
            vec![7.0, 8.0, 9.0],
            vec![10.0, 11.0, 12.0],
        ],
    );

    let gradients = descriptor.gradients.as_mut().unwrap();
    assign(
        gradients,
        &[
            vec![1.0, 2.0, 3.0],
            vec![0.1, 0.2, 0.3],
            vec![-1.0, -2.0, -3.0],
            vec![4.0, 5.0, 6.0],
            vec![0.4, 0.5, 0.6],
            vec![-4.0, -5.0, -6.0],
            vec![7.0, 8.0, 9.0],
            vec![0.7, 0.8, 0.9],
            vec![-7.0, -8.0, -9.0],
            vec![10.0, 11.0, 12.0],
            vec![0.10, 0.11, 0.12],
            vec![-10.0, -11.0, -12.0],
            vec![13.0, 14.0, 15.0],
            vec![0.13, 0.14, 0.15],
            vec![-13.0, -14.0, -15.0],
        ],
    );

    // where the magic happens
    descriptor.densify("species").unwrap();

    assert_eq!(descriptor.values.shape(), &vec![2, 9]);
    assert_eq!(descriptor.environments.names(), &vec!["structure".to_owned()]);
    assert_eq!(descriptor.environments.row(0), &vec![0]);
    assert_eq!(descriptor.environments.row(1), &vec![1]);

    assert_matrix(
        &descriptor.values,
        &[
            vec![1.0, 2.0, 3.0, 4.0, 5.0, 6.0, 0.0, 0.0, 0.0],
            vec![7.0, 8.0, 9.0, 0.0, 0.0, 0.0, 10.0, 11.0, 12.0],
        ],
    );

    let gradients = descriptor.gradients.as_ref().unwrap();
    assert_eq!(gradients.shape(), &vec![15, 9]);
    let gradients_indexes = descriptor.gradients_indexes.as_ref().unwrap();
    assert_eq!(
        gradients_indexes.names(),
        &vec!["structure".to_owned(), "atom".to_owned(), "spatial".to_owned()]
    );
    let expected = [vec![0, 1], vec![0, 2], vec![0, 0], vec![1, 0], vec![1, 1]];
    for (i, value) in expected.iter().enumerate() {
        for spatial in 0..3 {
            let row = gradients_indexes.row(3 * i + spatial);
            assert_eq!(&row[..2], &value[..]);
            assert_eq!(row[2], spatial as i32);
        }
    }

    assert_matrix(
        gradients,
        &[
            vec![1.0, 2.0, 3.0, 0.0, 0.0, 0.0, 0.0, 0.0, 0.0],
            vec![0.1, 0.2, 0.3, 0.0, 0.0, 0.0, 0.0, 0.0, 0.0],
            vec![-1.0, -2.0, -3.0, 0.0, 0.0, 0.0, 0.0, 0.0, 0.0],
            vec![4.0, 5.0, 6.0, 0.0, 0.0, 0.0, 0.0, 0.0, 0.0],
            vec![0.4, 0.5, 0.6, 0.0, 0.0, 0.0, 0.0, 0.0, 0.0],
            vec![-4.0, -5.0, -6.0, 0.0, 0.0, 0.0, 0.0, 0.0, 0.0],
            vec![0.0, 0.0, 0.0, 7.0, 8.0, 9.0, 0.0, 0.0, 0.0],
            vec![0.0, 0.0, 0.0, 0.7, 0.8, 0.9, 0.0, 0.0, 0.0],
            vec![0.0, 0.0, 0.0, -7.0, -8.0, -9.0, 0.0, 0.0, 0.0],
            vec![10.0, 11.0, 12.0, 0.0, 0.0, 0.0, 0.0, 0.0, 0.0],
            vec![0.1, 0.11, 0.12, 0.0, 0.0, 0.0, 0.0, 0.0, 0.0],
            vec![-10.0, -11.0, -12.0, 0.0, 0.0, 0.0, 0.0, 0.0, 0.0],
            vec![0.0, 0.0, 0.0, 0.0, 0.0, 0.0, 13.0, 14.0, 15.0],
            vec![0.0, 0.0, 0.0, 0.0, 0.0, 0.0, 0.13, 0.14, 0.15],
            vec![0.0, 0.0, 0.0, 0.0, 0.0, 0.0, -13.0, -14.0, -15.0],
        ],
    );
}

#[test]
fn labels_builder_rejects_duplicates() {
    let mut builder = LabelsBuilder::new(vec!["structure".to_owned(), "species".to_owned()]);
    builder.add(&vec![0, 1]).unwrap();
    let duplicate = builder.add(&vec![0, 1]);
    assert!(matches!(duplicate, Err(Error::DuplicateRow(_))));
    let wrong_width = builder.add(&vec![0, 1, 2]);
    assert!(matches!(wrong_width, Err(Error::LabelShape(_))));
    let labels = builder.finish();
    assert_eq!(labels.count(), 1);
    assert_eq!(labels.position(&vec![0, 1]), Some(0));
    assert_eq!(labels.position(&vec![5, 5]), None);
}
