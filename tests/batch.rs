use neuron::batch::{add_mod, TrainingBatch};
use neuron::mat::Mat;

fn column(values: &[f64]) -> Mat<f64> {
    Mat::new(values, values.len(), 1)
}

fn numbered(n: usize) -> TrainingBatch<f64> {
    let xs: Vec<f64> = (0..n).map(|i| i as f64).collect();
    let ys: Vec<f64> = (0..n).map(|i| 100.0 + i as f64).collect();
    TrainingBatch::new(column(&xs), column(&ys))
}

#[test]
fn add_mod_wraps() {
    assert_eq!(add_mod(3, 4, 5), 2);
    assert_eq!(add_mod(0, 0, 1), 0);
    assert_eq!(add_mod(4, 1, 5), 0);
    assert_eq!(add_mod(2, 13, 5), 0);
    assert_eq!(add_mod(usize::MAX - 1, usize::MAX, usize::MAX), usize::MAX - 1);
    assert_eq!(add_mod(usize::MAX - 1, usize::MAX - 1, usize::MAX), usize::MAX - 2);
}

#[test]
fn chunk_at_is_a_wrapping_window() {
    let b = numbered(5);
    let c = b.chunk_at(3, 4);
    assert_eq!(c.len(), 4);
    assert_eq!(c.input().as_slice(), &[3.0, 4.0, 0.0, 1.0]);
    assert_eq!(c.expected().as_slice(), &[103.0, 104.0, 100.0, 101.0]);
    let d = b.chunk_at(12, 2);
    assert_eq!(d.input().as_slice(), &[2.0, 3.0]);
}

#[test]
fn chunk_longer_than_the_batch_repeats_samples() {
    let b = numbered(3);
    let c = b.chunk_at(1, 7);
    assert_eq!(c.input().as_slice(), &[1.0, 2.0, 0.0, 1.0, 2.0, 0.0, 1.0]);
}

#[test]
fn random_chunk_is_a_window_of_the_source() {
    let b = numbered(6);
    for size in [0usize, 1, 4, 6, 9] {
        let c = b.random_chunk(size);
        assert_eq!(c.len(), size);
        if size > 0 {
            let o = c.input().get(0, 0) as usize;
            for i in 0..size {
                let (x, y) = c.sample(i);
                let k = (o + i) % 6;
                assert_eq!(x, b.sample(k).0);
                assert_eq!(y, b.sample(k).1);
            }
        }
    }
}

#[test]
fn random_chunk_of_an_empty_batch() {
    let b: TrainingBatch<f64> = TrainingBatch::new(Mat::empty(2), Mat::empty(1));
    let c = b.random_chunk(0);
    assert_eq!(c.len(), 0);
    assert_eq!(c.input().cols(), 2);
}

#[test]
fn next_chunk_strides_from_the_cursor() {
    let mut b = numbered(10);
    let c = b.next_chunk(3);
    assert_eq!(c.len(), 3);
    for i in 0..3 {
        let x = c.input().get(i, 0) as usize;
        let d = (x + 10 - 2 * i) % 10;
        assert!(d < 3);
        assert_eq!(c.expected().get(i, 0), 100.0 + x as f64);
    }
    let c2 = b.next_chunk(1);
    let x = c2.input().get(0, 0) as usize;
    assert!((x + 10 - 3) % 10 < 3);
}

#[test]
fn batch_samples_and_length() {
    let b = TrainingBatch::new(Mat::new(&[1.0, 2.0, 3.0, 4.0], 2, 2), column(&[5.0, 6.0]));
    assert_eq!(b.len(), 2);
    assert_eq!(b.sample(1), (&[3.0, 4.0][..], &[6.0][..]));
}
