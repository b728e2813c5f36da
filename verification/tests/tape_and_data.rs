//! The tape's ledger discipline, the dataset bookkeeping and the padding
//! modes, exercised on concrete values.

use tactics::data::{Dataset, LabeledDataset};
use tactics::history::{History, HistoryId};
use tactics::pad::{pad, pad_backward, Constant, Reflective, Replicative, Zero};
use tactics::tensor::{matmul2d, transpose2d, Tensor};

#[test]
fn insert_is_idempotent_per_node() {
    let mut h: History<u64> = History::new();
    h.insert(HistoryId::new(3, 3), 30);
    h.insert(HistoryId::new(1, 1), 10);
    h.insert(HistoryId::new(3, 3), 99);
    assert_eq!(h.len(), 2);
    assert_eq!(h.to_vec(), vec![10, 30]);
}

#[test]
fn merge_unions_without_duplicates() {
    let mut a: History<u64> = History::new();
    a.insert(HistoryId::new(1, 1), 10);
    a.insert(HistoryId::new(3, 3), 30);
    let mut b: History<u64> = History::new();
    b.insert(HistoryId::new(2, 2), 20);
    b.insert(HistoryId::new(3, 3), 30);
    a.merge(b);
    assert_eq!(a.len(), 3);
    assert_eq!(a.to_vec(), vec![10, 20, 30]);
}

#[test]
fn buffer_caches_the_ledger_until_an_insert() {
    let mut h: History<u64> = History::new();
    h.insert(HistoryId::new(1, 1), 10);
    assert_eq!(h.buffer_len(), 0);
    h.fill_buffer();
    assert_eq!(h.buffer_len(), 1);
    assert_eq!(h.buffer(), &vec![10]);
    h.insert(HistoryId::new(2, 2), 20);
    assert_eq!(h.buffer_len(), 0);
    let extra = h.buffer_mut();
    extra.push(7);
    assert_eq!(h.buffer_len(), 1);
}

#[test]
fn ordering_follows_sequence_numbers() {
    let a = HistoryId::new(5, 1);
    let b = HistoryId::new(2, 4);
    assert!(a.before(&b));
    assert!(!b.before(&a));
    assert_eq!(a.node(), 5);
    assert_eq!(a.seq(), 1);
}

#[test]
fn split_cuts_at_the_requested_lengths() {
    let d = Dataset::new(4, vec![2], vec![1i64, 2, 3, 4, 5, 6, 7, 8]).unwrap();
    let parts = d.split(&vec![1, 3]).unwrap();
    assert_eq!(parts.len(), 2);
    assert_eq!(parts[0].len(), 1);
    assert_eq!(parts[0].records(), &vec![1, 2]);
    assert_eq!(parts[1].len(), 3);
    assert_eq!(parts[1].records(), &vec![3, 4, 5, 6, 7, 8]);
}

#[test]
fn split_rejects_lengths_that_do_not_cover() {
    let d = Dataset::new(4, vec![2], vec![0i64; 8]).unwrap();
    assert!(d.split(&vec![1, 2]).is_err());
}

#[test]
fn shuffle_keeps_the_records_and_is_reproducible() {
    let mut a = Dataset::new(5, vec![1], vec![10i64, 20, 30, 40, 50]).unwrap();
    let mut b = Dataset::new(5, vec![1], vec![10i64, 20, 30, 40, 50]).unwrap();
    a.shuffle_with_seed(42);
    b.shuffle_with_seed(42);
    assert_eq!(a.records(), b.records());
    let mut sorted = a.records().clone();
    sorted.sort();
    assert_eq!(sorted, vec![10, 20, 30, 40, 50]);
}

#[test]
fn labeled_shuffle_keeps_rows_paired() {
    let records = Dataset::new(4, vec![1], vec![1i64, 2, 3, 4]).unwrap();
    let labels = Dataset::new(4, vec![1], vec![10i64, 20, 30, 40]).unwrap();
    let mut d = LabeledDataset::new(records, labels).unwrap();
    d.shuffle_with_seed(7);
    for q in 0..4usize {
        let r = d.record().records()[q];
        let l = d.labels().records()[q];
        assert_eq!(l, 10 * r);
    }
}

#[test]
fn kfold_validation_slices_tile_the_dataset() {
    let d = Dataset::new(5, vec![1], vec![0i64, 1, 2, 3, 4]).unwrap();
    let mut folds = d.kfold(2);
    // step = 1 + (5 - 1) / 2 = 3
    let (train0, test0) = folds.next().unwrap();
    assert_eq!(test0.records(), &vec![0, 1, 2]);
    assert_eq!(train0.records(), &vec![3, 4]);
    let (train1, test1) = folds.next().unwrap();
    assert_eq!(test1.records(), &vec![3, 4]);
    assert_eq!(train1.records(), &vec![0, 1, 2]);
    assert!(folds.next().is_none());
}

#[test]
fn labeled_kfold_pairs_the_stores() {
    let records = Dataset::new(4, vec![1], vec![1i64, 2, 3, 4]).unwrap();
    let labels = Dataset::new(4, vec![1], vec![10i64, 20, 30, 40]).unwrap();
    let d = LabeledDataset::new(records, labels).unwrap();
    let mut folds = d.kfold(2);
    let (train, test) = folds.next().unwrap();
    assert_eq!(test.record().records(), &vec![1, 2]);
    assert_eq!(test.labels().records(), &vec![10, 20]);
    assert_eq!(train.record().records(), &vec![3, 4]);
    assert_eq!(train.labels().records(), &vec![30, 40]);
}

#[test]
fn batches_chunk_the_rows_and_drop_last_trims() {
    let d = Dataset::new(5, vec![1], vec![0i64, 1, 2, 3, 4]).unwrap();
    let mut b = d.batch(2);
    assert_eq!(b.next().unwrap().records(), &vec![0, 1]);
    assert_eq!(b.next().unwrap().records(), &vec![2, 3]);
    assert_eq!(b.next().unwrap().records(), &vec![4]);
    assert!(b.next().is_none());
    let mut trimmed = d.batch(2).drop_last();
    assert_eq!(trimmed.next().unwrap().records(), &vec![0, 1]);
    assert_eq!(trimmed.next().unwrap().records(), &vec![2, 3]);
    assert!(trimmed.next().is_none());
}

#[test]
fn zero_padding_fills_the_border_with_zeros() {
    let t = Tensor::from_vec(vec![3], vec![1i64, 2, 3]).unwrap();
    let p = pad(&t, 2, 1, &Zero);
    assert_eq!(p.values(), &vec![0, 0, 1, 2, 3, 0]);
}

#[test]
fn constant_padding_fills_the_border_with_the_value() {
    let t = Tensor::from_vec(vec![3], vec![1i64, 2, 3]).unwrap();
    let p = pad(&t, 1, 2, &Constant(9i64));
    assert_eq!(p.values(), &vec![9, 1, 2, 3, 9, 9]);
}

#[test]
fn reflective_padding_mirrors_without_repeating_the_edge() {
    let t = Tensor::from_vec(vec![4], vec![1i64, 2, 3, 4]).unwrap();
    let p = pad(&t, 2, 2, &Reflective);
    assert_eq!(p.values(), &vec![3, 2, 1, 2, 3, 4, 3, 2]);
}

#[test]
fn replicative_padding_repeats_the_edge() {
    let t = Tensor::from_vec(vec![3], vec![1i64, 2, 3]).unwrap();
    let p = pad(&t, 2, 2, &Replicative);
    assert_eq!(p.values(), &vec![1, 1, 1, 2, 3, 3, 3]);
}

#[test]
fn padding_backward_routes_and_discards_per_mode() {
    // gradient ones over the padded buffer: each source receives one
    // contribution per padded position that read it
    let g7 = Tensor::from_vec(vec![7], vec![1i64; 7]).unwrap();
    let back_zero = pad_backward(&g7, 3, 2, 2, &Zero);
    assert_eq!(back_zero.values(), &vec![1, 1, 1]);
    let back_repl = pad_backward(&g7, 3, 2, 2, &Replicative);
    assert_eq!(back_repl.values(), &vec![3, 1, 3]);
    let g8 = Tensor::from_vec(vec![8], vec![1i64; 8]).unwrap();
    let back_refl = pad_backward(&g8, 4, 2, 2, &Reflective);
    assert_eq!(back_refl.values(), &vec![1, 3, 3, 1]);
}

#[test]
fn transpose_and_matmul_values() {
    let a = Tensor::from_vec(vec![2, 3], vec![1i64, 2, 3, 4, 5, 6]).unwrap();
    let at = transpose2d(&a);
    assert_eq!(at.shape(), &vec![3, 2]);
    assert_eq!(at.values(), &vec![1, 4, 2, 5, 3, 6]);
    let prod = matmul2d(&a, &at);
    assert_eq!(prod.shape(), &vec![2, 2]);
    assert_eq!(prod.values(), &vec![14, 32, 32, 77]);
}
