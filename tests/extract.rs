use payload_dumper::cmd::Cmd;
use payload_dumper::error::{ExtractError, ManifestField};
use payload_dumper::integrity::{digest_matches, verify_sha256};
use payload_dumper::manifest::{DeltaArchiveManifest, Extent, InstallOperation, PartitionUpdate};
use payload_dumper::stream::ByteRange;
use payload_dumper::tiling::check_tiling;
use sha2::Digest;
use std::io::Read;

fn cmd(partitions: Vec<&str>, skip_hash_check: bool) -> Cmd {
    Cmd {
        payload: String::from("payload.bin"),
        concurrency: None,
        output_dir: None,
        partitions: partitions.into_iter().map(String::from).collect(),
        skip_hash_check,
    }
}

fn ext(start: u64, num: u64) -> Extent {
    Extent { start_block: Some(start), num_blocks: Some(num) }
}

fn op(op_type: i32, offset: u64, length: u64, extents: Vec<Extent>, hash: Option<Vec<u8>>) -> InstallOperation {
    InstallOperation {
        op_type,
        data_offset: Some(offset),
        data_length: Some(length),
        dst_extents: extents,
        data_sha256_hash: hash,
    }
}

fn pattern(n: usize) -> Vec<u8> {
    (0..n).map(|i| (i * 7 + i / 251) as u8).collect()
}

fn sha(data: &[u8]) -> Vec<u8> {
    sha2::Sha256::digest(data).to_vec()
}

#[test]
fn replace_two_extents_fills_partition() {
    let src = pattern(8192);
    let o = op(0, 0, 8192, vec![ext(0, 1), ext(1, 1)], Some(sha(&src)));
    let mut out = vec![0u8; 8192];
    let r = cmd(vec![], false).run_op(&o, &src, &mut out, 4096);
    assert!(r.is_ok());
    assert_eq!(out, src);
}

#[test]
fn hash_mismatch_aborts_before_writing() {
    let src = pattern(8192);
    let mut wrong = sha(&src);
    wrong[0] ^= 1;
    let o = op(0, 0, 8192, vec![ext(0, 1), ext(1, 1)], Some(wrong.clone()));
    let mut out = vec![0u8; 8192];
    let r = cmd(vec![], false).run_op(&o, &src, &mut out, 4096);
    match r {
        Err(ExtractError::HashMismatch { expected, computed }) => {
            assert_eq!(expected, wrong);
            assert_eq!(computed, sha(&src));
        }
        other => panic!("unexpected {:?}", other),
    }
    assert!(out.iter().all(|b| *b == 0));
}

#[test]
fn hash_check_can_be_skipped() {
    let src = pattern(4096);
    let o = op(0, 0, 4096, vec![ext(0, 1)], Some(vec![0u8; 32]));
    let mut out = vec![0u8; 4096];
    assert!(cmd(vec![], true).run_op(&o, &src, &mut out, 4096).is_ok());
    assert_eq!(out, src);
}

#[test]
fn missing_partition_in_allow_list() {
    let m = DeltaArchiveManifest {
        block_size: Some(4096),
        partitions: vec![PartitionUpdate {
            partition_name: String::from("boot"),
            new_partition_size: Some(8192),
            operations: vec![],
        }],
    };
    match cmd(vec!["boot", "vendor"], false).check_partitions_exist(&m) {
        Err(ExtractError::PartitionNotFound(name)) => assert_eq!(name, "vendor"),
        other => panic!("unexpected {:?}", other),
    }
    assert!(cmd(vec!["boot"], false).check_partitions_exist(&m).is_ok());
    assert!(cmd(vec![], false).check_partitions_exist(&m).is_ok());
}

#[test]
fn alignment_exact_length_succeeds() {
    let c = cmd(vec![], false);
    let dst = vec![ByteRange { start: 0, len: 8 }, ByteRange { start: 8, len: 8 }];
    let src = pattern(16);
    let mut out = vec![0u8; 16];
    assert!(c.run_op_replace(&src, &mut out, &dst, 8).is_ok());
    assert_eq!(out, src);
}

#[test]
fn alignment_padded_last_block_succeeds() {
    let c = cmd(vec![], false);
    let dst = vec![ByteRange { start: 0, len: 8 }, ByteRange { start: 8, len: 8 }];
    let src = pattern(15);
    let mut out = vec![0xAAu8; 16];
    assert!(c.run_op_replace(&src, &mut out, &dst, 8).is_ok());
    assert_eq!(&out[..15], &src[..]);
    assert_eq!(out[15], 0xAA);
}

#[test]
fn alignment_excess_byte_fails() {
    let c = cmd(vec![], false);
    let dst = vec![ByteRange { start: 0, len: 8 }, ByteRange { start: 8, len: 8 }];
    let src = pattern(17);
    let mut out = vec![0u8; 16];
    assert!(matches!(c.run_op_replace(&src, &mut out, &dst, 8), Err(ExtractError::ExcessSourceData)));
    assert!(out.iter().all(|b| *b == 0));
}

#[test]
fn alignment_short_stream_fails() {
    let c = cmd(vec![], false);
    let dst = vec![ByteRange { start: 0, len: 8 }, ByteRange { start: 8, len: 8 }];
    let mut out = vec![0u8; 16];
    // ends a whole block short
    assert!(matches!(
        c.run_op_replace(&pattern(8), &mut out, &dst, 8),
        Err(ExtractError::InsufficientSourceData)
    ));
    // does not fill the first range
    assert!(matches!(
        c.run_op_replace(&pattern(5), &mut out, &dst, 8),
        Err(ExtractError::InsufficientSourceData)
    ));
}

#[test]
fn round_trip_through_scattered_extents() {
    let c = cmd(vec![], false);
    let dst = vec![ByteRange { start: 8, len: 4 }, ByteRange { start: 0, len: 4 }];
    let src = pattern(8);
    let mut out = vec![0u8; 12];
    assert!(c.run_op_replace(&src, &mut out, &dst, 4).is_ok());
    let mut back = Vec::new();
    for r in &dst {
        back.extend_from_slice(&out[r.start..r.start + r.len]);
    }
    assert_eq!(back, src);
    assert_eq!(&out[4..8], &[0u8; 4]);
}

#[test]
fn read_best_effort_stops_at_stream_end() {
    let c = cmd(vec![], false);
    let src = pattern(10);
    let mut out = vec![0u8; 8];
    let n = c.read_exact_best_effort(&src, 6, &mut out, ByteRange { start: 2, len: 6 });
    assert_eq!(n, 4);
    assert_eq!(&out[2..6], &src[6..10]);
    assert_eq!(&out[6..8], &[0u8, 0u8]);
}

#[test]
fn verification_is_repeatable() {
    let data = pattern(100);
    let good = sha(&data);
    assert_eq!(verify_sha256(&data, &good).is_ok(), verify_sha256(&data, &good).is_ok());
    assert!(verify_sha256(&data, &good).is_ok());
    let bad = vec![0u8; 32];
    assert!(verify_sha256(&data, &bad).is_err());
    assert!(verify_sha256(&data, &bad).is_err());
    assert!(digest_matches(&good, &good));
    assert!(!digest_matches(&good, &good[..31]));
}

#[test]
fn disjoint_operations_commute() {
    let c = cmd(vec![], false);
    let src = pattern(8192);
    let a = op(0, 0, 4096, vec![ext(1, 1)], None);
    let b = op(0, 4096, 4096, vec![ext(0, 1)], None);
    let mut first = vec![0u8; 8192];
    c.run_op(&a, &src, &mut first, 4096).unwrap();
    c.run_op(&b, &src, &mut first, 4096).unwrap();
    let mut second = vec![0u8; 8192];
    c.run_op(&b, &src, &mut second, 4096).unwrap();
    c.run_op(&a, &src, &mut second, 4096).unwrap();
    assert_eq!(first, second);
    assert_eq!(&first[4096..], &src[..4096]);
    assert_eq!(&first[..4096], &src[4096..]);
}

#[test]
fn tiling_accepts_exact_cover_and_rejects_overlap_and_gap() {
    assert!(check_tiling(&vec![ByteRange { start: 4, len: 4 }, ByteRange { start: 0, len: 4 }], 8));
    assert!(!check_tiling(&vec![ByteRange { start: 0, len: 6 }, ByteRange { start: 4, len: 4 }], 8));
    assert!(!check_tiling(&vec![ByteRange { start: 0, len: 4 }], 8));
    assert!(!check_tiling(&vec![ByteRange { start: 0, len: 12 }], 8));
    assert!(check_tiling(&vec![], 0));
}

#[test]
fn partition_preflight() {
    let c = cmd(vec![], false);
    let good = PartitionUpdate {
        partition_name: String::from("boot"),
        new_partition_size: Some(8192),
        operations: vec![op(0, 0, 4096, vec![ext(1, 1)], None), op(6, 0, 0, vec![ext(0, 1)], None)],
    };
    assert!(c.check_partition_extents(&good, 8192, 4096).is_ok());
    let overlap = PartitionUpdate {
        partition_name: String::from("boot"),
        new_partition_size: Some(8192),
        operations: vec![op(0, 0, 8192, vec![ext(0, 2)], None), op(6, 0, 0, vec![ext(1, 1)], None)],
    };
    assert!(matches!(c.check_partition_extents(&overlap, 8192, 4096), Err(ExtractError::ExtentsDoNotTile)));
    let outside = PartitionUpdate {
        partition_name: String::from("boot"),
        new_partition_size: Some(8192),
        operations: vec![op(0, 0, 4096, vec![ext(2, 1)], None)],
    };
    assert!(matches!(c.check_partition_extents(&outside, 8192, 4096), Err(ExtractError::ExtentOutOfBounds)));
}

#[test]
fn executor_errors() {
    let c = cmd(vec![], false);
    let src = pattern(4096);
    let mut out = vec![0u8; 4096];
    assert!(matches!(
        c.run_op(&op(0, 0, 4096, vec![ext(1, 1)], None), &src, &mut out, 4096),
        Err(ExtractError::ExtentOutOfBounds)
    ));
    assert!(matches!(
        c.run_op(&op(0, 1, 4096, vec![ext(0, 1)], None), &src, &mut out, 4096),
        Err(ExtractError::SourceRangeOutOfBounds)
    ));
    let mut no_len = op(0, 0, 4096, vec![ext(0, 1)], None);
    no_len.data_length = None;
    assert!(matches!(
        c.run_op(&no_len, &src, &mut out, 4096),
        Err(ExtractError::MalformedManifest(ManifestField::DataLength))
    ));
    let half = op(0, 0, 4096, vec![Extent { start_block: Some(0), num_blocks: None }], None);
    assert!(matches!(
        c.run_op(&half, &src, &mut out, 4096),
        Err(ExtractError::MalformedManifest(ManifestField::NumBlocks))
    ));
    assert!(matches!(
        c.run_op(&op(99, 0, 4096, vec![ext(0, 1)], None), &src, &mut out, 4096),
        Err(ExtractError::InvalidOperation(99))
    ));
    assert!(matches!(
        c.run_op(&op(4, 0, 4096, vec![ext(0, 1)], None), &src, &mut out, 4096),
        Err(ExtractError::UnimplementedOperation(4))
    ));
    assert!(matches!(
        c.run_op(&op(1, 0, 4096, vec![ext(0, 1)], None), &src, &mut out, 4096),
        Err(ExtractError::DecompressFailed)
    ));
    assert!(out.iter().all(|b| *b == 0));
}

#[test]
fn zero_operation_writes_nothing() {
    let c = cmd(vec![], false);
    let mut out = vec![5u8; 4096];
    let mut z = op(6, 0, 0, vec![ext(0, 1)], None);
    z.data_offset = None;
    z.data_length = None;
    assert!(c.run_op(&z, &[], &mut out, 4096).is_ok());
    assert!(out.iter().all(|b| *b == 5));
}

#[test]
fn bzip2_replace_decompresses() {
    let c = cmd(vec![], false);
    let plain = pattern(8000);
    let mut packed = Vec::new();
    bzip2::read::BzEncoder::new(&plain[..], bzip2::Compression::best()).read_to_end(&mut packed).unwrap();
    let o = op(1, 0, packed.len() as u64, vec![ext(0, 2)], Some(sha(&packed)));
    let mut out = vec![0u8; 8192];
    assert!(c.run_op(&o, &packed, &mut out, 4096).is_ok());
    assert_eq!(&out[..8000], &plain[..]);
    assert!(out[8000..].iter().all(|b| *b == 0));
}

#[test]
fn xz_replace_decompresses() {
    let c = cmd(vec![], false);
    let plain = pattern(4096);
    let packed = lzma::compress(&plain, 6).unwrap();
    let o = op(8, 0, packed.len() as u64, vec![ext(0, 1)], None);
    let mut out = vec![0u8; 4096];
    assert!(c.run_op(&o, &packed, &mut out, 4096).is_ok());
    assert_eq!(out, plain);
}

#[test]
fn compressed_stream_too_long_is_excess() {
    let c = cmd(vec![], false);
    let plain = pattern(5000);
    let mut packed = Vec::new();
    bzip2::read::BzEncoder::new(&plain[..], bzip2::Compression::best()).read_to_end(&mut packed).unwrap();
    let o = op(1, 0, packed.len() as u64, vec![ext(0, 1)], None);
    let mut out = vec![0u8; 4096];
    assert!(matches!(c.run_op(&o, &packed, &mut out, 4096), Err(ExtractError::ExcessSourceData)));
}

#[test]
fn three_operations_in_any_order() {
    let c = cmd(vec![], false);
    let src = pattern(3 * 512);
    let ops = [
        op(0, 0, 512, vec![ext(2, 1)], None),
        op(0, 512, 512, vec![ext(0, 1)], None),
        op(0, 1024, 512, vec![ext(1, 1)], None),
    ];
    let orders = [[0, 1, 2], [2, 1, 0], [1, 2, 0], [2, 0, 1]];
    let mut images = Vec::new();
    for order in orders.iter() {
        let mut out = vec![0u8; 3 * 512];
        for &k in order.iter() {
            c.run_op(&ops[k], &src, &mut out, 512).unwrap();
        }
        images.push(out);
    }
    for image in &images[1..] {
        assert_eq!(image, &images[0]);
    }
    assert_eq!(&images[0][1024..], &src[..512]);
    assert_eq!(&images[0][..512], &src[512..1024]);
}

#[test]
fn kind_is_rejected_after_source_hash_and_extents() {
    let c = cmd(vec![], false);
    let src = pattern(4096);
    let mut out = vec![0u8; 8192];
    assert!(matches!(
        c.run_op(&op(-1, 0, 4096, vec![ext(2, 1)], None), &src, &mut out, 4096),
        Err(ExtractError::ExtentOutOfBounds)
    ));
    assert!(matches!(
        c.run_op(&op(4, 8192, 4096, vec![ext(0, 1)], None), &src, &mut out, 4096),
        Err(ExtractError::SourceRangeOutOfBounds)
    ));
    assert!(matches!(
        c.run_op(&op(-1, 0, 4096, vec![ext(0, 1)], Some(vec![0u8; 32])), &src, &mut out, 4096),
        Err(ExtractError::HashMismatch { .. })
    ));
    assert!(matches!(
        c.run_op(&op(-1, 0, 4096, vec![ext(0, 1)], None), &src, &mut out, 4096),
        Err(ExtractError::InvalidOperation(-1))
    ));
    assert!(out.iter().all(|b| *b == 0));
}
