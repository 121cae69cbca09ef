use dpp::util::radix::{count_leading_zeros, rebase};

#[test]
fn rebase_writes_the_same_number() {
    assert_eq!(rebase(&[1, 0], 256, 10), vec![2, 5, 6]);
    assert_eq!(rebase(&[2, 5, 6], 10, 256), vec![1, 0]);
    assert_eq!(rebase(&[255, 255], 256, 10), vec![6, 5, 5, 3, 5]);
    assert_eq!(rebase(&[1, 0, 1], 2, 10), vec![5]);
    assert_eq!(rebase(&[9, 9], 10, 2), vec![1, 1, 0, 0, 0, 1, 1]);
    assert_eq!(rebase(&[255], 256, 256), vec![255]);
    assert_eq!(rebase(&[1, 0], 256, 58), vec![4, 24]);
}

#[test]
fn rebase_keeps_leading_zeros() {
    assert_eq!(rebase(&[], 256, 58), Vec::<u8>::new());
    assert_eq!(rebase(&[0], 256, 58), vec![0]);
    assert_eq!(rebase(&[0, 0, 0], 10, 2), vec![0, 0, 0]);
    assert_eq!(rebase(&[0, 0, 1, 0], 256, 10), vec![0, 0, 2, 5, 6]);
    assert_eq!(rebase(&[0, 7, 0], 10, 10), vec![0, 7, 0]);
}

#[test]
fn rebase_there_and_back() {
    let digits: Vec<u8> = vec![0, 0, 3, 1, 4, 1, 5, 9, 2, 6, 5, 3, 5, 8, 9, 7, 9, 3, 0];
    for to in [2u32, 3, 7, 10, 16, 58, 64, 255, 256] {
        let there = rebase(&digits, 10, to);
        assert!(there.iter().all(|digit| (*digit as u32) < to));
        assert_eq!(rebase(&there, to, 10), digits, "base {}", to);
    }
}

#[test]
fn count_leading_zeros_stops_at_first_nonzero() {
    assert_eq!(count_leading_zeros(&[]), 0);
    assert_eq!(count_leading_zeros(&[1]), 0);
    assert_eq!(count_leading_zeros(&[0]), 1);
    assert_eq!(count_leading_zeros(&[0, 0, 5, 0]), 2);
    assert_eq!(count_leading_zeros(&[0; 32]), 32);
}
