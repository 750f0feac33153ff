use ai_training::train::{get_batch, is_report_step, split_tokens, take_windows};

#[test]
fn nine_tenths_are_trained_on() {
    for n in [0usize, 1, 9, 10, 11, 99, 1000, 13_700_001] {
        let tokens: Vec<i32> = vec![7; n];
        let (train, val) = split_tokens(&tokens);
        assert_eq!(train.len(), (n as f64 * 0.9) as usize);
        assert_eq!(train.len() + val.len(), n);
    }
    let (train, val) = split_tokens(&(0..11).collect());
    assert_eq!(train, vec![0, 1, 2, 3, 4, 5, 6, 7, 8]);
    assert_eq!(val, vec![9, 10]);
}

#[test]
fn progress_is_reported_first_and_every_so_often() {
    let steps: Vec<usize> = (1..=10).filter(|&s| is_report_step(s, 4)).collect();
    assert_eq!(steps, vec![1, 4, 8]);
    assert!(is_report_step(1, 0));
}

#[test]
fn targets_are_the_next_tokens() {
    let data: Vec<i32> = (0..10).collect();
    let w = take_windows(&data, &vec![5, 0], 3);
    assert_eq!((w.rows, w.width), (2, 3));
    assert_eq!(w.inputs, vec![5, 6, 7, 0, 1, 2]);
    assert_eq!(w.targets, vec![6, 7, 8, 1, 2, 3]);
}

#[test]
fn random_windows_are_contiguous() {
    let data: Vec<i32> = (0..50).collect();
    let w = get_batch(&data, 4, 20, &mut rand::thread_rng());
    assert_eq!(w.inputs.len(), 80);
    for (x, y) in w.inputs.iter().zip(w.targets.iter()) {
        assert_eq!(x + 1, *y);
    }
    for row in w.inputs.chunks(4) {
        assert!(row[0] < 45);
        assert_eq!(row[3], row[0] + 3);
    }
    let w = get_batch(&data, 49, 0, &mut rand::thread_rng());
    assert_eq!(w.rows, 0);
}
