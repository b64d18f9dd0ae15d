use hephaistos::bytes::{push_le, read_le};
use hephaistos::data::{encode_ids, split_ids, write_u16_le, DataLoader};
use rand::rngs::StdRng;
use rand::SeedableRng;

#[test]
fn num_tokens_counts_pairs() {
    let loader = DataLoader::from_bin(&[1, 0, 2, 0, 3, 1, 4, 0], 1, 2);
    assert_eq!(loader.num_tokens(), 4);
    assert_eq!(loader.data, vec![1, 2, 259, 4]);
}

#[test]
fn ids_keep_their_low_bits() {
    assert_eq!(encode_ids(&[0, 65535, 65536, 65541]), vec![0, 65535, 0, 5]);
    assert_eq!(encode_ids(&[]), Vec::<u16>::new());
}

#[test]
fn stream_round_trip() {
    let ids: Vec<u16> = vec![0, 1, 255, 256, 4660, 65535];
    let bytes = write_u16_le(&ids);
    assert_eq!(bytes, vec![0, 0, 1, 0, 255, 0, 0, 1, 0x34, 0x12, 255, 255]);
    assert_eq!(DataLoader::from_bin(&bytes, 1, 4).data, ids);
}

#[test]
fn little_endian_numbers() {
    let mut out = vec![9];
    push_le(&mut out, 0x0102_0304_0506_0708, 8);
    push_le(&mut out, 0x0102_0304_0506_0708, 2);
    assert_eq!(out, vec![9, 8, 7, 6, 5, 4, 3, 2, 1, 8, 7]);
    assert_eq!(read_le(&out[1..9]), 0x0102_0304_0506_0708);
    assert_eq!(read_le(&[]), 0);
    assert_eq!(read_le(&[255; 8]), u64::MAX);
}

#[test]
fn batches_are_windows_and_targets_are_shifted() {
    let ids: Vec<u16> = (0..50).map(|i| i * 3).collect();
    let loader = DataLoader::from_bin(&write_u16_le(&ids), 4, 6);
    let (x, y) = loader.batch_at(&[0, 43, 7]);
    assert_eq!(x[..6], ids[..6]);
    assert_eq!(y[..6], ids[1..7]);
    assert_eq!(x[6..12], ids[43..49]);
    assert_eq!(y[6..12], ids[44..50]);
    assert_eq!(x[12..], ids[7..13]);

    let mut rng = StdRng::seed_from_u64(4);
    for _ in 0..20 {
        let (x, y) = loader.next_batch(&mut rng);
        assert_eq!(x.len(), 24);
        for r in 0..4 {
            assert_eq!(x[r * 6 + 1..r * 6 + 6], y[r * 6..r * 6 + 5]);
            let start = (x[r * 6] / 3) as usize;
            assert_eq!(x[r * 6..r * 6 + 6], ids[start..start + 6]);
        }
    }
}

#[test]
fn batches_reach_the_end_of_the_stream() {
    let loader = DataLoader::from_bin(&write_u16_le(&[5, 6, 7, 8]), 1, 2);
    let mut rng = StdRng::seed_from_u64(8);
    let mut seen = [false; 2];
    for _ in 0..50 {
        let (x, y) = loader.next_batch(&mut rng);
        assert_eq!(y, vec![x[0] + 1, x[0] + 2]);
        seen[(x[0] - 5) as usize] = true;
    }
    assert_eq!(seen, [true, true]);
}

#[test]
fn nine_tenths_are_for_training() {
    let ids: Vec<u16> = (0..19).collect();
    let (train, val) = split_ids(&ids);
    assert_eq!((train.len(), val.len()), (17, 2));
    assert_eq!([train, val].concat(), ids);
    assert_eq!(split_ids(&[]), (vec![], vec![]));
    assert_eq!(split_ids(&[7]), (vec![], vec![7]));
}
