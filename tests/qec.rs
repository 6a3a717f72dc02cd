use qecstruct::css_code::{hypergraph_product, shor_code, steane_code, CssCode};
use qecstruct::decoder::FlipDecoder;
use qecstruct::error::QecError;
use qecstruct::linear_code::{hamming_code, random_regular_code, regular_code_from_swaps, repetition_code, LinearCode};
use qecstruct::matrix::BinaryMatrix;
use qecstruct::noise::{BinarySymmetricChannel, DepolarizingNoise, Probability};
use qecstruct::pauli::{Pauli, PauliOperator};
use qecstruct::rng::Rng;
use qecstruct::vector::BinaryVector;

fn vector(length: usize, positions: Vec<usize>) -> BinaryVector {
    BinaryVector::new(length, positions).unwrap()
}

fn matrix(num_columns: usize, rows: Vec<Vec<usize>>) -> BinaryMatrix {
    BinaryMatrix::new(num_columns, rows).unwrap()
}

fn rows_of(m: &BinaryMatrix) -> Vec<Vec<usize>> {
    m.rows().iter().map(|r| r.non_trivial_positions().to_vec()).collect()
}

fn operator(length: usize, positions: Vec<usize>, paulis: Vec<Pauli>) -> PauliOperator {
    PauliOperator::new(length, positions, paulis).unwrap()
}

#[test]
fn vector_sorts_positions() {
    let v = vector(5, vec![4, 0, 2]);
    assert_eq!(v.non_trivial_positions(), &[0, 2, 4]);
    assert_eq!(v.len(), 5);
    assert_eq!(v.weight(), 3);
    assert!(!v.is_zero());
    assert!(!v.is_empty());
}

#[test]
fn vector_rejects_bad_positions() {
    assert_eq!(BinaryVector::new(3, vec![3]), Err(QecError::InvalidConstruction));
    assert_eq!(BinaryVector::new(3, vec![1, 1]), Err(QecError::InvalidConstruction));
}

#[test]
fn vector_elements_and_bounds() {
    let v = vector(3, vec![0, 2]);
    assert_eq!(v.element(0), Ok(1));
    assert_eq!(v.element(1), Ok(0));
    assert_eq!(v.is_one_at(2), Ok(true));
    assert_eq!(v.is_zero_at(1), Ok(true));
    assert_eq!(v.element(3), Err(QecError::OutOfBounds));
    assert_eq!(v.non_trivial_position(1), Ok(2));
    assert_eq!(v.non_trivial_position(2), Err(QecError::OutOfBounds));
}

#[test]
fn vector_zeros_and_empty() {
    let z = BinaryVector::zeros(4);
    assert!(z.is_zero());
    assert_eq!(z.len(), 4);
    assert!(BinaryVector::empty().is_empty());
}

#[test]
fn vector_concat() {
    let left = vector(5, vec![0, 2, 4]);
    let right = vector(4, vec![1, 3]);
    let both = left.concat(&right);
    assert_eq!(both.len(), 9);
    assert_eq!(both.non_trivial_positions(), &[0, 2, 4, 6, 8]);
}

#[test]
fn vector_dot() {
    let left = vector(5, vec![0, 2, 4]);
    let right = vector(5, vec![1, 3]);
    assert_eq!(left.dot_with_vector(&right), Ok(0));
    let other = vector(5, vec![2, 3]);
    assert_eq!(left.dot_with_vector(&other), Ok(1));
    assert_eq!(left.dot_with_vector(&vector(4, vec![])), Err(QecError::DimensionMismatch));
}

#[test]
fn vector_xor() {
    let left = vector(5, vec![0, 2, 4]);
    let right = vector(5, vec![1, 2, 3]);
    let sum = left.bitwise_xor(&right).unwrap();
    assert_eq!(sum.non_trivial_positions(), &[0, 1, 3, 4]);
    assert_eq!(left.bitwise_xor(&vector(6, vec![])), Err(QecError::DimensionMismatch));
}

#[test]
fn vector_xor_symmetric_and_self_inverse() {
    let a = vector(8, vec![0, 3, 5, 7]);
    let b = vector(8, vec![1, 3, 6]);
    assert_eq!(a.bitwise_xor(&b).unwrap(), b.bitwise_xor(&a).unwrap());
    assert!(a.bitwise_xor(&a).unwrap().is_zero());
    assert_eq!(a.bitwise_xor(&a).unwrap(), BinaryVector::zeros(8));
}

#[test]
fn vector_dot_with_matrix() {
    let v = vector(3, vec![0, 2]);
    let m = matrix(3, vec![vec![0, 1], vec![0, 2], vec![1, 2], vec![2]]);
    let r = m.dot_with_vector(&v).unwrap();
    assert_eq!(r.non_trivial_positions(), &[0, 2, 3]);
}

#[test]
fn matrix_construction() {
    let m = matrix(3, vec![vec![0, 2], vec![1], vec![0, 1]]);
    assert_eq!(m.shape(), (3, 3));
    assert_eq!(m.element(0, 2), Ok(1));
    assert_eq!(m.element(1, 0), Ok(0));
    assert_eq!(m.is_one_at(2, 1), Ok(true));
    assert_eq!(m.is_zero_at(2, 2), Ok(true));
    assert_eq!(m.element(3, 0), Err(QecError::OutOfBounds));
    assert_eq!(m.element(0, 3), Err(QecError::OutOfBounds));
    assert_eq!(m.row(1).unwrap().non_trivial_positions(), &[1]);
    assert_eq!(m.row(3).map(|_| ()), Err(QecError::OutOfBounds));
    assert_eq!(BinaryMatrix::new(3, vec![vec![3]]).map(|_| ()), Err(QecError::InvalidConstruction));
}

#[test]
fn matrix_identity_zeros_empty() {
    let i = BinaryMatrix::identity(3);
    assert_eq!(rows_of(&i), vec![vec![0], vec![1], vec![2]]);
    let z = BinaryMatrix::zeros(2, 3);
    assert_eq!(z.shape(), (2, 3));
    assert!(z.is_zero());
    assert!(!i.is_zero());
    assert!(BinaryMatrix::empty().is_empty());
}

#[test]
fn matrix_non_trivial_elements() {
    let m = matrix(3, vec![vec![0, 2], vec![1], vec![0, 1]]);
    assert_eq!(m.non_trivial_elements(), vec![(0, 0), (0, 2), (1, 1), (2, 0), (2, 1)]);
}

#[test]
fn matrix_transposed() {
    let m = matrix(3, vec![vec![0, 2], vec![1], vec![0, 1]]);
    assert_eq!(rows_of(&m.transposed()), vec![vec![0, 2], vec![1, 2], vec![0]]);
}

#[test]
fn matrix_rank_and_echelon_form() {
    let m = matrix(4, vec![vec![0, 1, 2], vec![1, 3], vec![0, 2], vec![0, 2, 3]]);
    assert_eq!(m.rank(), 3);
    assert_eq!(rows_of(&m.echelon_form()), vec![vec![0, 2], vec![1], vec![3]]);
    assert_eq!(BinaryMatrix::zeros(3, 3).rank(), 0);
    assert_eq!(BinaryMatrix::identity(5).rank(), 5);
}

#[test]
fn matrix_rank_of_transpose() {
    let cases = vec![
        matrix(4, vec![vec![0, 1, 2], vec![1, 3], vec![0, 2], vec![0, 2, 3]]),
        matrix(5, vec![vec![0, 1], vec![1, 2], vec![0, 2], vec![3, 4]]),
        matrix(3, vec![vec![0, 2], vec![1], vec![0, 1]]),
        matrix(6, vec![vec![0, 5], vec![0, 5]]),
        BinaryMatrix::zeros(2, 7),
    ];
    for m in cases.iter() {
        assert_eq!(m.rank(), m.transposed().rank());
    }
}

#[test]
fn matrix_nullspace() {
    let m = matrix(4, vec![vec![0, 1, 2], vec![1, 2, 3]]);
    let n = m.nullspace();
    assert_eq!(rows_of(&n), vec![vec![1, 2], vec![0, 1, 3]]);
}

#[test]
fn matrix_nullspace_orthogonal_and_counted() {
    let cases = vec![
        matrix(4, vec![vec![0, 1, 2], vec![1, 3], vec![0, 2], vec![0, 2, 3]]),
        matrix(7, vec![vec![0, 1, 2, 4], vec![0, 1, 3, 5], vec![0, 2, 3, 6]]),
        matrix(5, vec![vec![0, 1], vec![1, 2], vec![0, 2]]),
        BinaryMatrix::zeros(2, 3),
    ];
    for m in cases.iter() {
        let n = m.nullspace();
        assert_eq!(n.num_rows(), m.num_columns() - m.rank());
        assert_eq!(n.num_columns(), m.num_columns());
        for row in n.rows() {
            for check in m.rows() {
                assert_eq!(row.dot_with_vector(check), Ok(0));
            }
        }
    }
}

#[test]
fn matrix_products() {
    let m = matrix(4, vec![vec![0, 1, 2], vec![1, 2, 3], vec![1, 2]]);
    let v = vector(4, vec![1, 3]);
    assert_eq!(m.dot_with_vector(&v).unwrap().non_trivial_positions(), &[0, 2]);
    let other = matrix(3, vec![vec![0, 1], vec![1, 2], vec![0, 1], vec![1, 2]]);
    let p = m.dot_with_matrix(&other).unwrap();
    assert_eq!(rows_of(&p), vec![vec![1, 2], vec![0, 1], vec![0, 2]]);
    assert_eq!(m.dot_with_vector(&vector(3, vec![])).map(|_| ()), Err(QecError::DimensionMismatch));
    assert_eq!(m.dot_with_matrix(&m).map(|_| ()), Err(QecError::DimensionMismatch));
}

#[test]
fn matrix_xor() {
    let a = matrix(4, vec![vec![0, 1, 2], vec![1, 2, 3], vec![1, 2]]);
    let b = matrix(4, vec![vec![0, 1], vec![1, 2], vec![0, 1, 3]]);
    assert_eq!(rows_of(&a.bitwise_xor(&b).unwrap()), vec![vec![2], vec![3], vec![0, 2, 3]]);
    assert_eq!(a.bitwise_xor(&BinaryMatrix::zeros(2, 4)).map(|_| ()), Err(QecError::DimensionMismatch));
}

#[test]
fn matrix_concatenation() {
    let m = matrix(4, vec![vec![0, 1, 2], vec![1, 2, 3]]);
    let h = m.horizontal_concat_with(&BinaryMatrix::identity(3));
    assert_eq!(h.shape(), (3, 7));
    assert_eq!(rows_of(&h), vec![vec![0, 1, 2, 4], vec![1, 2, 3, 5], vec![6]]);
    let v = m.vertical_concat_with(&BinaryMatrix::identity(3));
    assert_eq!(v.shape(), (5, 4));
    assert_eq!(rows_of(&v), vec![vec![0, 1, 2], vec![1, 2, 3], vec![0], vec![1], vec![2]]);
}

#[test]
fn matrix_equality() {
    let a = matrix(3, vec![vec![0, 2], vec![1]]);
    let b = matrix(3, vec![vec![2, 0], vec![1]]);
    let c = matrix(3, vec![vec![1], vec![0, 2]]);
    assert!(a == b);
    assert!(a != c);
    assert!(a.clone() == a);
}

#[test]
fn hamming_code_parameters() {
    let code = hamming_code();
    assert_eq!(code.length(), 7);
    assert_eq!(code.dimension(), 4);
    assert_eq!(code.num_checks(), 3);
    assert_eq!(code.minimal_distance(), Some(3));
}

#[test]
fn repetition_code_parameters() {
    let code = repetition_code(5);
    assert_eq!(code.length(), 5);
    assert_eq!(code.dimension(), 1);
    assert_eq!(code.num_checks(), 4);
    assert_eq!(code.minimal_distance(), Some(5));
}

#[test]
fn empty_code_has_no_distance() {
    let code = LinearCode::empty();
    assert_eq!(code.length(), 0);
    assert_eq!(code.dimension(), 0);
    assert_eq!(code.minimal_distance(), None);
}

#[test]
fn code_syndromes_and_codewords() {
    let code = hamming_code();
    let word = vector(7, vec![0, 1, 2, 3, 4, 5, 6]);
    assert!(code.has_codeword(&word));
    let error = vector(7, vec![0]);
    assert_eq!(code.syndrome_of(&error).unwrap().non_trivial_positions(), &[0, 1, 2]);
    assert!(!code.has_codeword(&error));
    assert!(!code.has_codeword(&vector(6, vec![])));
    assert_eq!(code.syndrome_of(&vector(6, vec![])).map(|_| ()), Err(QecError::DimensionMismatch));
}

#[test]
fn code_from_either_matrix() {
    let h = matrix(7, vec![vec![0, 1, 2, 4], vec![0, 1, 3, 5], vec![0, 2, 3, 6]]);
    let g = matrix(7, vec![vec![0, 4, 5, 6], vec![1, 4, 5], vec![2, 4, 6], vec![3, 5, 6]]);
    let from_h = LinearCode::new(Some(h.clone()), None).unwrap();
    let from_g = LinearCode::new(None, Some(g.clone())).unwrap();
    assert!(from_h.has_same_codespace(&from_g));
    let both = LinearCode::new(Some(h), Some(g)).unwrap();
    assert_eq!(both.dimension(), 4);
    assert!(!from_h.has_same_codespace(&repetition_code(7)));
}

#[test]
fn code_rejects_non_orthogonal_matrices() {
    let h = matrix(3, vec![vec![0, 1]]);
    let g = matrix(3, vec![vec![0]]);
    assert_eq!(LinearCode::new(Some(h.clone()), Some(g)).map(|_| ()), Err(QecError::NotOrthogonal));
    let g4 = matrix(4, vec![vec![0]]);
    assert_eq!(LinearCode::new(Some(h), Some(g4)).map(|_| ()), Err(QecError::DimensionMismatch));
}

#[test]
fn random_regular_code_degrees() {
    let mut rng = Rng::from_seed(123);
    let code = random_regular_code(12, 9, 3, 4, &mut rng).unwrap();
    let h = code.par_mat();
    assert_eq!(h.shape(), (9, 12));
    for row in h.rows() {
        assert_eq!(row.weight(), 4);
    }
    for column in h.transposed().rows() {
        assert_eq!(column.weight(), 3);
    }
}

#[test]
fn random_regular_code_incompatible_degrees() {
    let mut rng = Rng::from_seed(1);
    assert_eq!(random_regular_code(4, 3, 3, 3, &mut rng).map(|_| ()), Err(QecError::IncompatibleDegrees));
    assert_eq!(random_regular_code(2, 1, 2, 4, &mut rng).map(|_| ()), Err(QecError::IncompatibleDegrees));
}

#[test]
fn pauli_operator_construction() {
    let op = operator(5, vec![3, 0, 1], vec![Pauli::Z, Pauli::X, Pauli::Y]);
    assert_eq!(op.len(), 5);
    assert_eq!(op.weight(), 3);
    assert_eq!(op.non_trivial_positions(), vec![0, 1, 3]);
    assert_eq!(op.get(0), Ok(Pauli::X));
    assert_eq!(op.get(1), Ok(Pauli::Y));
    assert_eq!(op.get(2), Ok(Pauli::I));
    assert_eq!(op.get(3), Ok(Pauli::Z));
    assert_eq!(op.get(5), Err(QecError::OutOfBounds));
    assert_eq!(
        PauliOperator::new(3, vec![0, 0], vec![Pauli::X, Pauli::Z]).map(|_| ()),
        Err(QecError::InvalidConstruction)
    );
    assert_eq!(
        PauliOperator::new(3, vec![0], vec![Pauli::X, Pauli::Z]).map(|_| ()),
        Err(QecError::InvalidConstruction)
    );
}

#[test]
fn pauli_commutation() {
    let x = operator(2, vec![0], vec![Pauli::X]);
    let z = operator(2, vec![0], vec![Pauli::Z]);
    let xx = operator(2, vec![0, 1], vec![Pauli::X, Pauli::X]);
    let zz = operator(2, vec![0, 1], vec![Pauli::Z, Pauli::Z]);
    assert_eq!(x.commutes_with(&z), Ok(false));
    assert_eq!(x.anticommutes_with(&z), Ok(true));
    assert_eq!(xx.commutes_with(&zz), Ok(true));
    assert_eq!(x.commutes_with(&xx), Ok(true));
    assert_eq!(x.commutes_with(&operator(3, vec![], vec![])), Err(QecError::DimensionMismatch));
}

#[test]
fn pauli_products() {
    let a = operator(4, vec![0, 1, 2], vec![Pauli::X, Pauli::Y, Pauli::Z]);
    let b = operator(4, vec![0, 1, 2, 3], vec![Pauli::Y, Pauli::Z, Pauli::X, Pauli::Z]);
    let p = a.apply(&b).unwrap();
    assert_eq!(p.get(0), Ok(Pauli::Z));
    assert_eq!(p.get(1), Ok(Pauli::X));
    assert_eq!(p.get(2), Ok(Pauli::Y));
    assert_eq!(p.get(3), Ok(Pauli::Z));
    assert_eq!(a.apply(&operator(3, vec![], vec![])).map(|_| ()), Err(QecError::DimensionMismatch));
}

#[test]
fn pauli_apply_self_is_identity() {
    let a = operator(6, vec![0, 2, 3, 5], vec![Pauli::X, Pauli::Y, Pauli::Z, Pauli::Y]);
    let p = a.apply(&a).unwrap();
    assert_eq!(p.len(), 6);
    assert_eq!(p.weight(), 0);
    assert_eq!(p, operator(6, vec![], vec![]));
}

#[test]
fn pauli_parts() {
    let a = operator(3, vec![0, 1, 2], vec![Pauli::X, Pauli::Y, Pauli::Z]);
    let (x, z) = a.partition_x_and_z();
    assert_eq!(x, operator(3, vec![0, 1], vec![Pauli::X, Pauli::X]));
    assert_eq!(z, operator(3, vec![1, 2], vec![Pauli::Z, Pauli::Z]));
    assert_eq!(a.x_part(), x);
    assert_eq!(a.z_part(), z);
}

#[test]
fn steane_code_parameters() {
    let code = steane_code();
    assert_eq!(code.length(), 7);
    assert_eq!(code.num_x_stabs(), 3);
    assert_eq!(code.num_z_stabs(), 3);
    assert_eq!(code.num_x_logicals(), 1);
    assert_eq!(code.num_z_logicals(), 1);
}

#[test]
fn shor_code_parameters() {
    let code = shor_code();
    assert_eq!(code.length(), 9);
    assert_eq!(code.num_x_stabs(), 2);
    assert_eq!(code.num_z_stabs(), 6);
    assert_eq!(code.num_x_logicals(), 1);
    assert_eq!(code.num_z_logicals(), 1);
}

#[test]
fn css_syndromes() {
    let code = steane_code();
    let error = operator(7, vec![0], vec![Pauli::Z]);
    let (x, z) = code.syndrome_of(&error).unwrap();
    assert_eq!(x.non_trivial_positions(), &[0, 1, 2]);
    assert!(z.is_zero());
    let error = operator(7, vec![6], vec![Pauli::Y]);
    let (x, z) = code.syndrome_of(&error).unwrap();
    assert_eq!(x.non_trivial_positions(), &[2]);
    assert_eq!(z.non_trivial_positions(), &[2]);
    assert_eq!(code.syndrome_of(&operator(6, vec![], vec![])).map(|_| ()), Err(QecError::DimensionMismatch));
}

#[test]
fn css_stabilizers_and_logicals() {
    let code = steane_code();
    let stabilizer = operator(7, vec![0, 1, 2, 4], vec![Pauli::X, Pauli::X, Pauli::X, Pauli::X]);
    assert!(code.has_stabilizer(&stabilizer));
    assert!(!code.has_logical(&stabilizer));
    let logical = operator(7, (0..7).collect(), vec![Pauli::X; 7]);
    assert!(code.has_logical(&logical));
    assert!(!code.has_stabilizer(&logical));
    let error = operator(7, vec![0], vec![Pauli::X]);
    assert!(!code.has_logical(&error));
    assert!(!code.has_stabilizer(&error));
}

#[test]
fn css_rejects_non_orthogonal_codes() {
    let a = LinearCode::new(Some(matrix(3, vec![vec![0, 1]])), None).unwrap();
    let b = LinearCode::new(Some(matrix(3, vec![vec![0]])), None).unwrap();
    assert_eq!(CssCode::new(a, b).map(|_| ()), Err(QecError::NotOrthogonal));
    assert_eq!(CssCode::new(repetition_code(3), repetition_code(4)).map(|_| ()), Err(QecError::DimensionMismatch));
}

#[test]
fn hypergraph_product_of_repetition_codes() {
    let code = hypergraph_product(&repetition_code(3), &repetition_code(3));
    assert_eq!(code.length(), 13);
    assert_eq!(code.num_x_stabs(), 6);
    assert_eq!(code.num_z_stabs(), 6);
    let hx = code.x_stabs_binary();
    let hz = code.z_stabs_binary();
    assert!(hx.dot_with_matrix(&hz.transposed()).unwrap().is_zero());
    assert_eq!(code.num_x_logicals(), 1);
    assert_eq!(code.num_z_logicals(), 1);
}

#[test]
fn flip_decoder_corrects_one_flip() {
    let decoder = FlipDecoder::new(repetition_code(5), String::from("FLIP"));
    let received = vector(5, vec![2]);
    assert!(decoder.decode(&received).unwrap().is_zero());
    let codeword = vector(5, vec![0, 1, 2, 3, 4]);
    assert_eq!(decoder.decode(&codeword).unwrap(), codeword);
    assert_eq!(decoder.decode(&vector(4, vec![])).map(|_| ()), Err(QecError::DimensionMismatch));
}

#[test]
fn binary_symmetric_channel_extremes() {
    let mut rng = Rng::from_seed(7);
    let never = BinarySymmetricChannel::new(0, 1).unwrap();
    let always = BinarySymmetricChannel::new(1, 1).unwrap();
    for n in [0usize, 1, 5, 40] {
        assert!(never.sample(n, &mut rng).is_zero());
        assert_eq!(always.sample(n, &mut rng).weight(), n);
    }
    assert_eq!(BinarySymmetricChannel::new(3, 2).map(|_| ()), Err(QecError::InvalidProbability));
    assert_eq!(BinarySymmetricChannel::new(0, 0).map(|_| ()), Err(QecError::InvalidProbability));
}

#[test]
fn binary_symmetric_channel_rate() {
    let mut rng = Rng::from_seed(11);
    let channel = BinarySymmetricChannel::new(1, 4).unwrap();
    let flips = channel.sample(4000, &mut rng).weight();
    assert!(flips > 800 && flips < 1200);
    assert_eq!(channel.error_probability().numerator(), 1);
    assert_eq!(channel.error_probability().denominator(), 4);
}

#[test]
fn depolarizing_noise_extremes() {
    let mut rng = Rng::from_seed(3);
    let never = DepolarizingNoise::new(0, 5).unwrap();
    let always = DepolarizingNoise::new(5, 5).unwrap();
    assert_eq!(never.sample(10, &mut rng).weight(), 0);
    assert_eq!(always.sample(10, &mut rng).weight(), 10);
    assert_eq!(DepolarizingNoise::new(6, 5).map(|_| ()), Err(QecError::InvalidProbability));
}

#[test]
fn probability_bounds() {
    assert!(Probability::try_new(0, 1).is_ok());
    assert!(Probability::try_new(1, 1).is_ok());
    assert_eq!(Probability::try_new(2, 1), Err(QecError::InvalidProbability));
}

#[test]
fn rng_is_reproducible_and_splits() {
    let mut a = Rng::from_seed(42);
    let mut b = Rng::new(Some(42)).unwrap();
    assert!(Rng::new(None).is_some());
    let xs: Vec<u64> = (0..5).map(|_| a.rand_int(None)).collect();
    let ys: Vec<u64> = (0..5).map(|_| b.rand_int(None)).collect();
    assert_eq!(xs, ys);
    let mut c = Rng::from_seed(42);
    let mut stream = c.jump();
    let mut fresh = Rng::from_seed(42);
    assert_eq!(stream.rand_int(None), fresh.rand_int(None));
    assert_ne!(c.rand_int(None), Rng::from_seed(42).rand_int(None));
    let mut d = Rng::from_seed(42);
    let mut far = d.long_jump();
    assert_eq!(far.rand_int(None), Rng::from_seed(42).rand_int(None));
    assert_ne!(d.rand_int(None), Rng::from_seed(42).rand_int(None));
    for _ in 0..100 {
        let v = a.rand_int(Some((3, 9)));
        assert!((3..9).contains(&v));
    }
}

#[test]
fn matrix_counts_ones_and_zeros() {
    let m = matrix(4, vec![vec![0, 1, 2], vec![1, 3], vec![]]);
    assert_eq!(m.num_ones(), 5);
    assert_eq!(m.num_zeros(), 7);
    assert_eq!(BinaryMatrix::empty().num_ones(), 0);
}

#[test]
fn matrix_row_space_membership() {
    let m = matrix(4, vec![vec![0, 1], vec![1, 2]]);
    assert!(m.row_space_contains(&vector(4, vec![0, 2])));
    assert!(m.row_space_contains(&vector(4, vec![])));
    assert!(!m.row_space_contains(&vector(4, vec![3])));
    assert!(!m.row_space_contains(&vector(4, vec![0])));
}

#[test]
fn matrix_rows_orthogonal() {
    let h = matrix(7, vec![vec![0, 1, 2, 4], vec![0, 1, 3, 5], vec![0, 2, 3, 6]]);
    assert!(h.rows_orthogonal_to(&h));
    assert!(!h.rows_orthogonal_to(&BinaryMatrix::identity(7)));
}

#[test]
fn vector_product_with_matrix() {
    let v = vector(3, vec![0, 2]);
    let m = matrix(4, vec![vec![0, 3], vec![0, 1, 2], vec![1, 3]]);
    let r = v.dot_with_matrix(&m).unwrap();
    assert_eq!(r.len(), 4);
    assert_eq!(r.non_trivial_positions(), &[0, 1]);
    assert_eq!(vector(4, vec![]).dot_with_matrix(&m).map(|_| ()), Err(QecError::DimensionMismatch));
}

#[test]
fn vector_common_count() {
    let a = vector(6, vec![0, 1, 3, 5]);
    let b = vector(6, vec![1, 2, 3, 5]);
    assert_eq!(a.common_count(&b), 3);
    assert!(a.dot(&b));
    assert_eq!(a.union(&b).non_trivial_positions(), &[0, 1, 2, 3, 5]);
    assert_eq!(a.xor(&b).non_trivial_positions(), &[0, 2]);
}

#[test]
fn flip_decoder_on_hamming_code() {
    let decoder = FlipDecoder::new(hamming_code(), String::from("FLIP"));
    let codeword = vector(7, vec![0, 1, 2, 3, 4, 5, 6]);
    assert_eq!(decoder.decode(&codeword).unwrap(), codeword);
    let received = vector(7, vec![1, 2, 3, 4, 5, 6]);
    let decoded = decoder.decode(&received).unwrap();
    assert_eq!(decoded.len(), 7);
    assert!(hamming_code().has_codeword(&decoded));
}

#[test]
fn hypergraph_product_of_hamming_and_repetition() {
    let code = hypergraph_product(&hamming_code(), &repetition_code(3));
    assert_eq!(code.length(), 7 * 3 + 3 * 2);
    let hx = code.x_stabs_binary();
    let hz = code.z_stabs_binary();
    assert_eq!(hx.num_rows(), 3 * 3);
    assert_eq!(hz.num_rows(), 7 * 2);
    assert!(hx.rows_orthogonal_to(hz));
    assert_eq!(code.num_x_logicals(), code.num_z_logicals());
}

#[test]
fn linear_code_from_generator_matrix() {
    let g = matrix(3, vec![vec![0, 1, 2]]);
    let code = LinearCode::new(None, Some(g)).unwrap();
    assert_eq!(code.dimension(), 1);
    assert_eq!(code.num_checks(), 2);
    assert_eq!(code.minimal_distance(), Some(3));
    assert!(code.has_same_codespace(&repetition_code(3)));
}

#[test]
fn code_from_both_matrices_keeps_a_basis() {
    let h = BinaryMatrix::zeros(0, 1);
    let g = matrix(1, vec![vec![0], vec![0]]);
    let code = LinearCode::new(Some(h), Some(g)).unwrap();
    assert_eq!(code.dimension(), 1);
    assert_eq!(code.minimal_distance(), Some(1));
}

#[test]
fn same_codespace_without_generators() {
    let empty = LinearCode::empty();
    let trivial = LinearCode::new(Some(BinaryMatrix::identity(1)), None).unwrap();
    assert_eq!(trivial.dimension(), 0);
    assert!(empty.has_same_codespace(&trivial));
    assert!(trivial.has_same_codespace(&empty));
    assert!(!empty.has_same_codespace(&repetition_code(2)));
}

#[test]
fn code_from_dependent_generators() {
    let g = matrix(4, vec![vec![0, 1], vec![2, 3], vec![0, 1, 2, 3]]);
    let code = LinearCode::new(None, Some(g)).unwrap();
    assert_eq!(code.dimension(), 2);
    assert_eq!(code.num_checks(), 2);
    assert!(code.has_codeword(&vector(4, vec![0, 1, 2, 3])));
    assert!(!code.has_codeword(&vector(4, vec![0, 2])));
    assert_eq!(code.minimal_distance(), Some(2));
}

#[test]
fn regular_code_from_given_swaps() {
    let code = regular_code_from_swaps(4, 2, 1, 2, &vec![0, 0, 0]).unwrap();
    let h = code.par_mat();
    assert_eq!(rows_of(h), vec![vec![1, 2], vec![0, 3]]);
    assert_eq!(regular_code_from_swaps(4, 2, 1, 3, &vec![0, 0, 0]).map(|_| ()), Err(QecError::IncompatibleDegrees));
}

#[test]
fn flip_decoder_round_choice() {
    let h = matrix(3, vec![vec![0, 1], vec![1, 2]]);
    let decoder = FlipDecoder::new(LinearCode::new(Some(h), None).unwrap(), String::from("FLIP"));
    assert_eq!(decoder.tag(), "FLIP");
    assert_eq!(decoder.to_json(), "Flip decoder");
    let decoded = decoder.decode(&vector(3, vec![0])).unwrap();
    assert!(decoded.is_zero());
    let decoded = decoder.decode(&vector(3, vec![1])).unwrap();
    assert!(decoded.is_zero());
}

#[test]
fn rng_seeding_and_jumps_are_deterministic() {
    let mut a = Rng::from_seed(5);
    let mut b = Rng::from_seed(5);
    let _ = a.jump();
    let _ = b.jump();
    assert_eq!(a.rand_int(None), b.rand_int(None));
    let _ = a.long_jump();
    let _ = b.long_jump();
    assert_eq!(a.rand_int(None), b.rand_int(None));
}

#[test]
fn samplers_from_draws() {
    let channel = BinarySymmetricChannel::new(1, 4).unwrap();
    let flips = channel.flips_from_draws(&vec![0, 1, 3, 0]);
    assert_eq!(flips.non_trivial_positions(), &[0, 3]);
    let noise = DepolarizingNoise::new(1, 2).unwrap();
    let error = noise.error_from_draws(&vec![(0, 0), (1, 2), (0, 1), (0, 2)]);
    assert_eq!(error.get(0), Ok(Pauli::X));
    assert_eq!(error.get(1), Ok(Pauli::I));
    assert_eq!(error.get(2), Ok(Pauli::Y));
    assert_eq!(error.get(3), Ok(Pauli::Z));
}
