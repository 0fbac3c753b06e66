use rand::distr::{Distribution, Uniform};
use vec_utils::hilbert::{
    axes_to_hilbert_index, axes_to_transpose, hilbert_index_to_axes, transpose,
    transpose_to_axes, untranspose,
};

#[test]
fn hilbert_test_transpose() {
    let num: u16 = 25676;
    let transposed = transpose(u64::from(num), 3, 8);
    assert_eq!(transposed[0], 17);
    assert_eq!(transposed[1], 24);
    assert_eq!(transposed[2], 6);

    let range = Uniform::try_from(u16::MIN..u16::MAX).unwrap();
    let mut rng = rand::rng();
    for _ in 0..1000 {
        let num = range.sample(&mut rng);

        let transposed_two = transpose(u64::from(num), 2, 8);
        let untransposed_two = untranspose(&transposed_two, 8);
        assert_eq!(
            format!("{:#018b}", num),
            format!("{:#018b}", untransposed_two)
        );

        let transposed_three = transpose(u64::from(num), 3, 8);
        let untransposed_three = untranspose(&transposed_three, 8);
        assert_eq!(u64::from(num), untransposed_three);

        let transposed_four = transpose(u64::from(num), 4, 8);
        let untransposed_four = untranspose(&transposed_four, 8);
        assert_eq!(u64::from(num), untransposed_four);

        let transposed_five = transpose(u64::from(num), 5, 8);
        let untransposed_five = untranspose(&transposed_five, 8);
        assert_eq!(u64::from(num), untransposed_five);
    }
}

#[test]
fn test_hilbert() {
    let range = Uniform::try_from(u32::MIN..u32::MAX).unwrap();
    let mut rng = rand::rng();
    for _ in 0..100 {
        let index = range.sample(&mut rng);
        let axes = hilbert_index_to_axes(u64::from(index), 4, 8);
        let calc_index = axes_to_hilbert_index(axes, 8);
        assert_eq!(u64::from(index), calc_index);
    }
}

#[test]
fn transpose_drops_bits_beyond_coordinates() {
    // two coordinates of two bits hold the low four bits only
    let t = transpose(0b1_0110, 2, 2);
    assert_eq!(t, vec![0b01, 0b10]);
    assert_eq!(untranspose(&t, 2), 0b0110);
}

#[test]
fn hilbert_curve_in_two_dimensions() {
    let expected: Vec<Vec<u64>> = vec![
        vec![0, 0], vec![1, 0], vec![1, 1], vec![0, 1],
        vec![0, 2], vec![0, 3], vec![1, 3], vec![1, 2],
        vec![2, 2], vec![2, 3], vec![3, 3], vec![3, 2],
        vec![3, 1], vec![2, 1], vec![2, 0], vec![3, 0],
    ];
    for (index, point) in expected.iter().enumerate() {
        assert_eq!(&hilbert_index_to_axes(index as u64, 2, 2), point);
        assert_eq!(axes_to_hilbert_index(point.clone(), 2), index as u64);
    }
}

#[test]
fn hilbert_neighbours_are_adjacent_in_three_dimensions() {
    let mut previous = hilbert_index_to_axes(0, 3, 3);
    for index in 1..512u64 {
        let point = hilbert_index_to_axes(index, 3, 3);
        let step: u64 = previous.iter().zip(point.iter()).map(|(a, b)| a.abs_diff(*b)).sum();
        assert_eq!(step, 1);
        previous = point;
    }
}

#[test]
fn axes_to_transpose_undoes_transpose_to_axes() {
    let transposed = vec![0b1011, 0b0110, 0b1111];
    let axes = transpose_to_axes(transposed.clone(), 4);
    assert_ne!(axes, transposed);
    assert_eq!(axes_to_transpose(axes, 4), transposed);
}

#[test]
fn one_dimensional_curve_is_the_index() {
    for index in 0..16u64 {
        assert_eq!(hilbert_index_to_axes(index, 1, 4), vec![index]);
    }
}
