use packcdc::{ceil_div, center_size};

#[test]
fn ceil_div_rounds_up() {
    assert_eq!(ceil_div(0, 2), 0);
    assert_eq!(ceil_div(1, 2), 1);
    assert_eq!(ceil_div(2, 2), 1);
    assert_eq!(ceil_div(5, 2), 3);
    assert_eq!(ceil_div(7, 7), 1);
    assert_eq!(ceil_div(8, 7), 2);
    assert_eq!(ceil_div(8192, 2), 4096);
    assert_eq!(ceil_div(8193, 2), 4097);
}

#[test]
fn ceil_div_by_one_is_identity() {
    assert_eq!(ceil_div(0, 1), 0);
    assert_eq!(ceil_div(12345, 1), 12345);
}

#[test]
fn ceil_div_at_the_top_of_the_range() {
    assert_eq!(ceil_div(usize::MAX, 1), usize::MAX);
    assert_eq!(ceil_div(usize::MAX, 2), usize::MAX / 2 + 1);
    assert_eq!(ceil_div(usize::MAX, usize::MAX), 1);
    assert_eq!(ceil_div(usize::MAX - 1, usize::MAX), 1);
}

#[test]
fn ceil_div_is_least_multiple_count() {
    for x in 0usize..200 {
        for y in 1usize..20 {
            let q = ceil_div(x, y);
            assert!(q * y >= x);
            if x > 0 {
                assert!((q - 1) * y < x);
            } else {
                assert_eq!(q, 0);
            }
        }
    }
}

#[test]
fn center_size_of_default_sizes() {
    // 8192 + 4096 = 12288 off the average of 32768.
    assert_eq!(center_size(32768, 8192, 65536), 20480);
    assert_eq!(center_size(32768, 8192, 20480), 20480);
    assert_eq!(center_size(32768, 8192, 20481), 20480);
}

#[test]
fn center_size_is_capped_at_the_window() {
    assert_eq!(center_size(32768, 8192, 20479), 20479);
    assert_eq!(center_size(32768, 8192, 10000), 10000);
    assert_eq!(center_size(32768, 8192, 0), 0);
}

#[test]
fn center_size_rounds_half_of_minimum_up() {
    // 3 + 2 = 5 off 8.
    assert_eq!(center_size(8, 3, 100), 3);
    // 2 + 1 = 3 off 8.
    assert_eq!(center_size(8, 2, 100), 5);
    // 1 + 1 = 2 off 8.
    assert_eq!(center_size(8, 1, 100), 6);
    assert_eq!(center_size(8, 0, 100), 8);
}

#[test]
fn center_size_offset_is_capped_at_average() {
    assert_eq!(center_size(10, 8, 100), 0);
    assert_eq!(center_size(10, 10, 100), 0);
    assert_eq!(center_size(12, 8, 100), 0);
    assert_eq!(center_size(13, 8, 100), 1);
    assert_eq!(center_size(5, 100, 100), 0);
}

#[test]
fn center_size_with_sizes_that_do_not_fit_when_added() {
    assert_eq!(center_size(usize::MAX, usize::MAX, 5), 0);
    assert_eq!(center_size(usize::MAX, usize::MAX - 1, usize::MAX), 0);
    assert_eq!(center_size(100, usize::MAX, 7), 0);
    assert_eq!(center_size(usize::MAX, 2, usize::MAX), usize::MAX - 3);
}

#[test]
fn center_size_lies_between_minimum_and_average_when_there_is_room() {
    for minimum in 1usize..50 {
        let average = 2 * minimum + ceil_div(minimum, 2) + 1;
        let size = center_size(average, minimum, average);
        assert!(minimum < size && size < average);
        // One less of room and it touches the minimum.
        assert_eq!(center_size(average - 1, minimum, average), minimum);
    }
}
