use polyglot_bridge::arena::{Arena, ArenaView, KernelError};
use polyglot_bridge::image::{
    adjust_brightness, box_blur, grayscale_rgba, invert_colors, sepia_filter, sobel_edge_detect,
    threshold,
};
use polyglot_bridge::matrix::{
    add_arrays, dot_product, matrix_add, matrix_multiply, matrix_transpose_square, multiply_arrays,
};
use polyglot_bridge::search::{binary_search_i32, checksum, find_all_indices, reverse_array};
use polyglot_bridge::sorting::{
    heapsort_i32, mergesort_i32, mergesort_records, partial_sort_smallest_k, quicksort_i32,
    radixsort_i32, sort_i32_array,
};

#[test]
fn test_quicksort() {
    let mut data = vec![5, 2, 8, 1, 9, 3];
    quicksort_i32(&mut data);
    assert_eq!(data, vec![1, 2, 3, 5, 8, 9]);
}

#[test]
fn test_mergesort() {
    let mut data = vec![5, 2, 8, 1, 9, 3];
    mergesort_i32(&mut data);
    assert_eq!(data, vec![1, 2, 3, 5, 8, 9]);
}

#[test]
fn test_heapsort() {
    let mut data = vec![5, 2, 8, 1, 9, 3];
    heapsort_i32(&mut data);
    assert_eq!(data, vec![1, 2, 3, 5, 8, 9]);
}

#[test]
fn test_sort_f32() {
    let mut data = vec![5, 2, 8, 1, 9];
    sort_i32_array(&mut data);
    assert_eq!(data, vec![1, 2, 5, 8, 9]);
}

#[test]
fn test_grayscale() {
    let mut data = vec![255, 0, 0, 255];
    grayscale_rgba(&mut data, 1, 1).unwrap();
    let expected = (0.299 * 255.0) as u8;
    assert_eq!(data[0], expected);
    assert_eq!(data[1], expected);
    assert_eq!(data[2], expected);
}

#[test]
fn test_invert() {
    let mut data = vec![100, 150, 200, 255];
    invert_colors(&mut data, 1, 1).unwrap();
    assert_eq!(data, vec![155, 105, 55, 255]);
}

#[test]
fn test_dot_product() {
    let a = vec![1, 2, 3];
    let b = vec![4, 5, 6];
    assert_eq!(dot_product(&a, &b), Ok(32));
}

#[test]
fn test_matrix_multiply() {
    let a = vec![1, 2, 3, 4];
    let b = vec![5, 6, 7, 8];
    let mut c = vec![0i128; 4];
    matrix_multiply(&a, 2, 2, &b, 2, &mut c).unwrap();
    assert_eq!(c, vec![19, 22, 43, 50]);
}

#[test]
fn test_binary_search() {
    let data = vec![1, 3, 5, 7, 9];
    assert_eq!(binary_search_i32(&data, 5), 2);
    assert_eq!(binary_search_i32(&data, 4), -1);
}

#[test]
fn sorts_agree_on_duplicates_and_negatives() {
    let input = vec![3, -1, 3, 0, -7, 12, 3, -1, 5];
    let mut expected = input.clone();
    expected.sort();
    for sorter in [quicksort_i32, mergesort_i32, heapsort_i32, sort_i32_array] {
        let mut v = input.clone();
        sorter(&mut v);
        assert_eq!(v, expected);
    }
}

#[test]
fn sorts_handle_empty_and_single() {
    for sorter in [quicksort_i32, mergesort_i32, heapsort_i32, radixsort_i32] {
        let mut e: Vec<i32> = vec![];
        sorter(&mut e);
        assert!(e.is_empty());
        let mut one = vec![42];
        sorter(&mut one);
        assert_eq!(one, vec![42]);
    }
}

#[test]
fn quicksort_on_descending_input() {
    let mut v: Vec<i32> = (0..200).rev().collect();
    quicksort_i32(&mut v);
    assert_eq!(v, (0..200).collect::<Vec<i32>>());
}

#[test]
fn radix_sorts_non_negative_values() {
    let mut v = vec![170, 45, 75, 90, 802, 24, 2, 66, 0, 2147483647];
    radixsort_i32(&mut v);
    assert_eq!(v, vec![0, 2, 24, 45, 66, 75, 90, 170, 802, 2147483647]);
}

#[test]
fn radix_orders_mixed_signs_by_magnitude() {
    let mut v = vec![-5, 3, -1, 2];
    radixsort_i32(&mut v);
    assert_eq!(v, vec![-1, 2, 3, -5]);
    let mut w = vec![i32::MIN, 1];
    radixsort_i32(&mut w);
    assert_eq!(w, vec![1, i32::MIN]);
}

#[test]
fn partial_sort_moves_smallest_to_front() {
    let mut v = vec![9, 4, 7, 1, 8, 2, 6];
    partial_sort_smallest_k(&mut v, 3);
    assert_eq!(&v[..3], &[1, 2, 4]);
    let mut rest = v[3..].to_vec();
    rest.sort();
    assert_eq!(rest, vec![6, 7, 8, 9]);
}

#[test]
fn partial_sort_clamps_k() {
    let mut v = vec![3, 1, 2];
    partial_sort_smallest_k(&mut v, 10);
    assert_eq!(v, vec![1, 2, 3]);
    let mut w = vec![3, 1, 2];
    partial_sort_smallest_k(&mut w, 0);
    assert_eq!(w, vec![3, 1, 2]);
}

#[test]
fn grayscale_twice_equals_once() {
    let mut once = vec![10, 200, 30, 7, 255, 255, 255, 0];
    grayscale_rgba(&mut once, 2, 1).unwrap();
    let mut twice = once.clone();
    grayscale_rgba(&mut twice, 2, 1).unwrap();
    assert_eq!(once, twice);
    assert_eq!(once[4], 255);
    assert_eq!(once[3], 7);
}

#[test]
fn invert_twice_is_identity() {
    let orig = vec![0, 1, 128, 9, 255, 254, 3, 200];
    let mut v = orig.clone();
    invert_colors(&mut v, 2, 1).unwrap();
    invert_colors(&mut v, 2, 1).unwrap();
    assert_eq!(v, orig);
}

#[test]
fn threshold_twice_equals_once() {
    let mut once = vec![200, 200, 200, 1, 10, 20, 30, 2];
    threshold(&mut once, 2, 1, 100).unwrap();
    assert_eq!(once, vec![255, 255, 255, 1, 0, 0, 0, 2]);
    let mut twice = once.clone();
    threshold(&mut twice, 2, 1, 100).unwrap();
    assert_eq!(once, twice);
}

#[test]
fn image_ops_reject_wrong_length() {
    let mut v = vec![1, 2, 3];
    assert_eq!(grayscale_rgba(&mut v, 1, 1), Err(KernelError::InvalidArgument));
    assert_eq!(v, vec![1, 2, 3]);
    assert_eq!(invert_colors(&mut v, 1, 1), Err(KernelError::InvalidArgument));
    assert_eq!(sepia_filter(&mut v, usize::MAX, 2), Err(KernelError::InvalidArgument));
}

#[test]
fn sepia_values() {
    let mut v = vec![100, 100, 100, 50, 255, 255, 255, 9];
    sepia_filter(&mut v, 2, 1).unwrap();
    // 0.393+0.769+0.189 = 1.351; 0.349+0.686+0.168 = 1.203; 0.272+0.534+0.131 = 0.937
    assert_eq!(v, vec![135, 120, 93, 50, 255, 255, 238, 9]);
}

#[test]
fn brightness_clamps() {
    let mut v = vec![250, 10, 128, 77];
    adjust_brightness(&mut v, 1, 1, 10).unwrap();
    assert_eq!(v, vec![255, 20, 138, 77]);
    adjust_brightness(&mut v, 1, 1, -30).unwrap();
    assert_eq!(v, vec![225, 0, 108, 77]);
}

#[test]
fn blur_of_uniform_image_is_unchanged() {
    let src: Vec<u8> = [12u8, 34, 56, 78].iter().cycle().take(4 * 5 * 3).copied().collect();
    for radius in [0usize, 1, 2, 7] {
        let mut dst = vec![0u8; src.len()];
        box_blur(&src, &mut dst, 5, 3, radius).unwrap();
        assert_eq!(dst, src);
    }
}

#[test]
fn blur_averages_with_clamped_edges() {
    // 3x1 image, red channel 0, 30, 90; radius 1.
    let src = vec![0, 0, 0, 255, 30, 0, 0, 255, 90, 0, 0, 255];
    let mut dst = vec![0u8; 12];
    box_blur(&src, &mut dst, 3, 1, 1).unwrap();
    // left: rows all clamp to row 0; columns (0,0,30) -> 3*(0+0+30)/9 = 10
    assert_eq!(dst[0], 10);
    // middle: (0+30+90)*3/9 = 40
    assert_eq!(dst[4], 40);
    // right: (30+90+90)*3/9 = 70
    assert_eq!(dst[8], 70);
    assert_eq!(dst[3], 255);
    let mut short = vec![0u8; 4];
    assert_eq!(box_blur(&src, &mut short, 3, 1, 1), Err(KernelError::InvalidArgument));
}

#[test]
fn sobel_interior_and_border() {
    // 3x3 image with a vertical edge: left column red 0, others 100.
    let mut src = vec![0u8; 36];
    for y in 0..3 {
        for x in 1..3 {
            src[(y * 3 + x) * 4] = 100;
        }
    }
    let mut dst = vec![7u8; 36];
    sobel_edge_detect(&src, &mut dst, 3, 3).unwrap();
    let c = (1 * 3 + 1) * 4;
    // gx = 100*(1+2+1) = 400, gy = 0; sqrt saturates at 255.
    assert_eq!(&dst[c..c + 4], &[255, 255, 255, 255]);
    assert_eq!(dst[0], 7);
    assert_eq!(dst[35], 7);
}

#[test]
fn sobel_small_gradient() {
    let mut src = vec![0u8; 36];
    for y in 0..3 {
        src[(y * 3 + 2) * 4] = 10;
    }
    let mut dst = vec![0u8; 36];
    sobel_edge_detect(&src, &mut dst, 3, 3).unwrap();
    // gx = 10*(1+2+1) = 40
    assert_eq!(dst[(1 * 3 + 1) * 4], 40);
}

#[test]
fn matrix_multiply_rectangular_and_mismatch() {
    let a = vec![1, 2, 3, 4, 5, 6]; // 2x3
    let b = vec![7, 8, 9, 10, 11, 12]; // 3x2
    let mut c = vec![0i128; 4];
    matrix_multiply(&a, 2, 3, &b, 2, &mut c).unwrap();
    assert_eq!(c, vec![58, 64, 139, 154]);
    let mut bad = vec![0i128; 3];
    assert_eq!(matrix_multiply(&a, 2, 3, &b, 2, &mut bad), Err(KernelError::InvalidArgument));
}

#[test]
fn matrix_multiply_large_values_exact() {
    let a = vec![i32::MAX, i32::MAX];
    let b = vec![i32::MAX, i32::MAX];
    let mut c = vec![0i128; 1];
    matrix_multiply(&a, 1, 2, &b, 1, &mut c).unwrap();
    assert_eq!(c[0], 2 * (i32::MAX as i128) * (i32::MAX as i128));
}

#[test]
fn transpose_square() {
    let mut m = vec![1, 2, 3, 4, 5, 6, 7, 8, 9];
    matrix_transpose_square(&mut m, 3).unwrap();
    assert_eq!(m, vec![1, 4, 7, 2, 5, 8, 3, 6, 9]);
    assert_eq!(matrix_transpose_square(&mut m, 2), Err(KernelError::InvalidArgument));
}

#[test]
fn matrix_add_and_overflow() {
    let mut a = vec![1, 2, 3, 4];
    matrix_add(&mut a, &vec![10, 20, 30, 40], 2, 2).unwrap();
    assert_eq!(a, vec![11, 22, 33, 44]);
    let mut big = vec![i32::MAX, 0];
    assert_eq!(matrix_add(&mut big, &vec![1, 0], 1, 2), Err(KernelError::Overflow));
    assert_eq!(big, vec![i32::MAX, 0]);
    assert_eq!(matrix_add(&mut a, &vec![1], 2, 2), Err(KernelError::InvalidArgument));
}

#[test]
fn elementwise_ops() {
    let mut a = vec![1, -2, 3];
    add_arrays(&mut a, &vec![4, 5, 6]).unwrap();
    assert_eq!(a, vec![5, 3, 9]);
    multiply_arrays(&mut a, &vec![2, -1, 0]).unwrap();
    assert_eq!(a, vec![10, -3, 0]);
    assert_eq!(multiply_arrays(&mut a, &vec![1]), Err(KernelError::InvalidArgument));
    let mut m = vec![i32::MAX];
    assert_eq!(multiply_arrays(&mut m, &vec![2]), Err(KernelError::Overflow));
    assert_eq!(dot_product(&vec![1], &vec![]), Err(KernelError::InvalidArgument));
}

#[test]
fn search_helpers() {
    assert_eq!(binary_search_i32(&vec![], 3), -1);
    assert_eq!(binary_search_i32(&vec![1, 3, 5, 7, 9], 9), 4);
    assert_eq!(find_all_indices(&vec![4, 1, 4, 4, 2], 4), vec![0, 2, 3]);
    assert_eq!(find_all_indices(&vec![4, 1], 7), Vec::<usize>::new());
    let mut r = vec![1, 2, 3, 4, 5];
    reverse_array(&mut r);
    assert_eq!(r, vec![5, 4, 3, 2, 1]);
    assert_eq!(checksum(&vec![255, 255, 2]), 512);
}

#[test]
fn arena_allocation_round_trip() {
    let mut arena = Arena::new(64);
    let off = arena.allocate(40).unwrap();
    assert_eq!(off, 0);
    assert_eq!(arena.allocate(40), Err(KernelError::OutOfMemory));
    arena.deallocate(off, 40).unwrap();
    assert_eq!(arena.allocate(40), Ok(0));
}

#[test]
fn arena_rejects_misuse() {
    let mut arena = Arena::new(32);
    assert_eq!(arena.allocate(0), Err(KernelError::InvalidArgument));
    let a = arena.allocate(8).unwrap();
    let b = arena.allocate(8).unwrap();
    assert_eq!(b, 8);
    assert_eq!(arena.deallocate(a, 4), Err(KernelError::InvalidRelease));
    assert_eq!(arena.deallocate(3, 8), Err(KernelError::InvalidRelease));
    arena.deallocate(a, 8).unwrap();
    assert_eq!(arena.deallocate(a, 8), Err(KernelError::InvalidRelease));
    // freed ranges below the top are not reused
    assert_eq!(arena.cursor(), 16);
    assert_eq!(arena.live_count(), 1);
}

#[test]
fn arena_views_are_bounds_checked() {
    let mut arena = Arena::new(100);
    let off = arena.allocate(16).unwrap();
    let v = arena.view_at(off, 4, 4).unwrap();
    assert_eq!(v, ArenaView { offset: 0, count: 4, element_size: 4 });
    assert_eq!(arena.view_at(off, 5, 4), Err(KernelError::OutOfBounds));
    assert_eq!(arena.view_at(20, 1, 1), Err(KernelError::OutOfBounds));
    assert_eq!(arena.view_at(0, usize::MAX, 2), Err(KernelError::OutOfBounds));
}

#[test]
fn mergesort_is_stable_on_tied_keys() {
    let keys = [3, 1, 3, 2, 1, 3, 2, 1];
    let mut recs: Vec<(i32, u64)> = keys.iter().enumerate().map(|(i, &k)| (k, i as u64)).collect();
    mergesort_records(&mut recs);
    assert_eq!(
        recs,
        vec![(1, 1), (1, 4), (1, 7), (2, 3), (2, 6), (3, 0), (3, 2), (3, 5)]
    );
}

#[test]
fn mergesort_records_keeps_payloads_with_keys() {
    let mut recs = vec![(5, 50), (-2, 7), (5, 1), (0, 0)];
    mergesort_records(&mut recs);
    assert_eq!(recs, vec![(-2, 7), (0, 0), (5, 50), (5, 1)]);
}

#[test]
fn radix_output_is_permutation_of_input() {
    let input = vec![31, 7, 0, 31, 1000, 5, 7];
    let mut v = input.clone();
    radixsort_i32(&mut v);
    let mut a = input.clone();
    a.sort();
    let mut b = v.clone();
    b.sort();
    assert_eq!(a, b);
    assert_eq!(v, vec![0, 5, 7, 7, 31, 31, 1000]);
}
