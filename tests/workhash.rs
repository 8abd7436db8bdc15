use bc4py_extension::plotname::parse_plot_name;
use bc4py_extension::utils::{bytes_to_u32, python_hash, u32_to_bytes, work_check};
use bc4py_extension::workhash::{
    checkpoint, first_success, get_scope_index, get_work_hash, partition_areas, scope_offset, seek_area, SeekError,
};
use std::sync::atomic::AtomicBool;
use std::time::{Duration, Instant};

#[test]
fn scope_index_of_one() {
    let mut prev = [0u8; 32];
    prev[0] = 1;
    assert_eq!(get_scope_index(&prev), 1);
}

#[test]
fn scope_index_wraps_at_scope_count() {
    let mut prev = [0u8; 32];
    prev[1] = 0x40;
    assert_eq!(get_scope_index(&prev), 0);
    prev[0] = 5;
    prev[1] = 0x41;
    assert_eq!(get_scope_index(&prev), 256 + 5);
    assert_eq!(get_scope_index(&[0xffu8; 32]), 16383);
    let mut high = [0u8; 32];
    high[31] = 0x80;
    assert_eq!(get_scope_index(&high), 0);
}

#[test]
fn work_compare_little_endian() {
    let mut work = [0u8; 32];
    work[0] = 0xff;
    let mut target = [0u8; 32];
    target[31] = 0x01;
    assert!(work_check(&work, &target));
    assert!(!work_check(&target, &work));
}

#[test]
fn work_compare_equal_is_not_below() {
    let a = [3u8; 32];
    assert!(!work_check(&a, &a));
    let mut b = a;
    b[0] = 2;
    assert!(work_check(&b, &a));
    assert!(work_check(&[], &[]) == false);
}

#[test]
fn work_hash_matches_blake2b() {
    let scope: Vec<u8> = (0..32).collect();
    let prev = [7u8; 32];
    let d = get_work_hash(1234, &scope, &prev);
    assert_eq!(d.len(), 64);
    assert_eq!(
        &d[..32],
        &[
            88, 238, 96, 217, 198, 40, 8, 197, 227, 109, 244, 71, 158, 27, 162, 189, 153, 18, 131, 238, 223, 148,
            60, 162, 41, 34, 66, 131, 144, 241, 209, 164
        ]
    );
}

fn region() -> Vec<u8> {
    let mut buf = Vec::new();
    for k in 0..3u8 {
        buf.extend_from_slice(&[k; 32]);
    }
    buf
}

#[test]
fn seek_area_finds_the_valid_nonce() {
    let target = [
        76u8, 33, 95, 224, 246, 122, 21, 10, 76, 67, 197, 19, 61, 202, 131, 218, 75, 68, 148, 85, 181, 4, 42,
        112, 53, 70, 225, 187, 202, 37, 219, 114,
    ];
    let prev = [9u8; 32];
    let cancel = AtomicBool::new(false);
    let r = seek_area(&region(), 10, 13, &prev, &target, 1, &Instant::now(), &cancel);
    let (nonce, work) = r.unwrap();
    assert_eq!(nonce, 12);
    assert_eq!(work, get_work_hash(1, &[2u8; 32], &prev)[..32].to_vec());
    assert!(work_check(&work, &target));
}

#[test]
fn seek_area_exhausts_without_hit() {
    let cancel = AtomicBool::new(false);
    let r = seek_area(&region(), 10, 13, &[9u8; 32], &[0u8; 32], 1, &Instant::now(), &cancel);
    assert_eq!(r, Err(SeekError::Exhausted));
}

#[test]
fn seek_area_short_buffer() {
    let cancel = AtomicBool::new(false);
    let r = seek_area(&region(), 10, 15, &[9u8; 32], &[0u8; 32], 1, &Instant::now(), &cancel);
    assert_eq!(r, Err(SeekError::ShortBuffer { nonce: 13 }));
}

#[test]
fn seek_area_times_out_at_checkpoint() {
    let cancel = AtomicBool::new(false);
    let old = Instant::now().checked_sub(Duration::from_secs(5)).unwrap();
    let r = seek_area(&region(), 2000, 2003, &[9u8; 32], &[0xffu8; 32], 1, &old, &cancel);
    assert_eq!(r, Err(SeekError::Timeout { nonce: 2000 }));
}

#[test]
fn seek_area_stops_when_cancelled() {
    let cancel = AtomicBool::new(true);
    let r = seek_area(&region(), 0, 3, &[9u8; 32], &[0xffu8; 32], 1, &Instant::now(), &cancel);
    assert_eq!(r, Err(SeekError::Cancelled { nonce: 0 }));
}

#[test]
fn partition_into_equal_slices() {
    assert_eq!(partition_areas(0, 10, 3), vec![(0, 3), (3, 6), (6, 9)]);
    assert_eq!(partition_areas(5, 9, 1), vec![(5, 9)]);
}

#[test]
fn scope_offset_formula() {
    assert_eq!(scope_offset(3, 100, 110), 3 * 32 * 10);
    assert_eq!(scope_offset(16383, 0, u32::MAX), 16383u64 * 32 * u32::MAX as u64);
}

#[test]
fn first_success_picks_first_ok() {
    let results = vec![
        Err(SeekError::Cancelled { nonce: 0 }),
        Ok((5u32, vec![1u8])),
        Ok((9u32, vec![2u8])),
    ];
    assert_eq!(first_success(results), Some((5, vec![1])));
    assert_eq!(first_success(vec![Err(SeekError::Exhausted)]), None);
}

#[test]
fn plot_names() {
    let p = parse_plot_name(b"optimized.abc123-0-100.dat").unwrap();
    assert_eq!(p.address, b"abc123".to_vec());
    assert_eq!((p.start, p.end), (0, 100));
    assert!(parse_plot_name(b"optimized.ABC-0-100.dat").is_none());
    assert!(parse_plot_name(b"optimized.abc-100-100.dat").is_none());
    assert!(parse_plot_name(b"optimized.abc-0-100.dat.tmp").is_none());
    assert!(parse_plot_name(b"optimized.abc-0-4294967296.dat").is_none());
    assert!(parse_plot_name(b"optimized.-0-1.dat").is_none());
    assert!(parse_plot_name(b"plot.abc-0-1.dat").is_none());
    let q = parse_plot_name(b"optimized.x-007-4294967295.dat").unwrap();
    assert_eq!((q.start, q.end), (7, u32::MAX));
}

#[test]
fn python_hash_folds() {
    assert_eq!(python_hash(0), -(i64::MAX));
    assert_eq!(python_hash(u64::MAX), -(i64::MAX));
    assert_eq!(python_hash(1u64 << 63), 1);
    assert_eq!(python_hash(u64::MAX - 1), i64::MAX);
}

#[test]
fn u32_byte_conversions() {
    assert_eq!(u32_to_bytes(0x01020304), [4, 3, 2, 1]);
    assert_eq!(bytes_to_u32(&[4, 3, 2, 1]), 0x01020304);
    assert_eq!(bytes_to_u32(&[1, 2]), 0x0201);
    assert_eq!(bytes_to_u32(&[1, 0, 0, 0, 9]), 1);
}

#[test]
fn blake2b_hash_head() {
    assert_eq!(
        bc4py_extension::workhash::blake2b_hash(b"abc"),
        vec![
            186u8, 128, 165, 63, 152, 28, 77, 13, 106, 39, 151, 182, 159, 18, 246, 233, 76, 33, 47, 20, 104, 90, 196,
            183, 75, 18, 187, 111, 219, 255, 162, 209
        ]
    );
}

#[test]
fn poc_work_is_digest_head() {
    let scope: Vec<u8> = (0..32).collect();
    let prev = [7u8; 32];
    let w = bc4py_extension::workhash::poc_work(1234, &scope, &prev);
    assert_eq!(w, get_work_hash(1234, &scope, &prev)[..32].to_vec());
    assert_eq!(w[0], 88);
    assert_eq!(w[31], 164);
}

#[test]
fn checkpoint_decisions() {
    assert_eq!(checkpoint(4000, 1501, false), Some(SeekError::Timeout { nonce: 4000 }));
    assert_eq!(checkpoint(4000, 1500, false), None);
    assert_eq!(checkpoint(4001, 99999, false), None);
    assert_eq!(checkpoint(4002, 0, true), Some(SeekError::Cancelled { nonce: 4002 }));
    assert_eq!(checkpoint(4003, 0, true), None);
    assert_eq!(checkpoint(0, 2000, true), Some(SeekError::Timeout { nonce: 0 }));
    assert_eq!(checkpoint(0, 0, true), Some(SeekError::Cancelled { nonce: 0 }));
}

#[test]
fn seek_area_within_budget_runs_out() {
    let cancel = AtomicBool::new(false);
    let r = seek_area(&region(), 4000, 4003, &[9u8; 32], &[0u8; 32], 1, &Instant::now(), &cancel);
    assert_eq!(r, Err(SeekError::Exhausted));
}
