use payload_dumper::cmd::Cmd;
use payload_dumper::error::{ExtractError, ManifestField};
use payload_dumper::manifest::{DeltaArchiveManifest, PartitionUpdate};
use payload_dumper::payload::parse_header;
use payload_dumper::plan::{block_size_of, partition_len};

fn part(name: &str, size: Option<u64>) -> PartitionUpdate {
    PartitionUpdate { partition_name: String::from(name), new_partition_size: size, operations: vec![] }
}

fn settings(partitions: Vec<&str>) -> Cmd {
    Cmd {
        payload: String::from("payload.bin"),
        concurrency: Some(2),
        output_dir: None,
        partitions: partitions.into_iter().map(String::from).collect(),
        skip_hash_check: false,
    }
}

#[test]
fn block_size_must_be_present_and_positive() {
    let mut m = DeltaArchiveManifest { block_size: Some(4096), partitions: vec![] };
    assert_eq!(block_size_of(&m).unwrap(), 4096);
    m.block_size = None;
    assert!(matches!(block_size_of(&m), Err(ExtractError::MalformedManifest(ManifestField::BlockSize))));
    m.block_size = Some(0);
    assert!(matches!(block_size_of(&m), Err(ExtractError::MalformedManifest(ManifestField::BlockSize))));
}

#[test]
fn partition_size_must_be_declared() {
    assert_eq!(partition_len(&part("boot", Some(8192))).unwrap(), 8192);
    assert!(matches!(partition_len(&part("boot", None)), Err(ExtractError::SizeUnspecified)));
}

#[test]
fn selection_follows_allow_list() {
    let m = DeltaArchiveManifest {
        block_size: Some(4096),
        partitions: vec![part("boot", Some(1)), part("system", Some(1)), part("vendor", Some(1))],
    };
    assert_eq!(settings(vec![]).selected_partitions(&m), vec![0, 1, 2]);
    assert_eq!(settings(vec!["vendor", "boot"]).selected_partitions(&m), vec![0, 2]);
    assert!(settings(vec!["system"]).is_selected(&String::from("system")));
    assert!(!settings(vec!["system"]).is_selected(&String::from("boot")));
}

fn header(version: u64, manifest: &[u8], sig: &[u8], data: &[u8]) -> Vec<u8> {
    let mut b = b"CrAU".to_vec();
    b.extend_from_slice(&version.to_be_bytes());
    b.extend_from_slice(&(manifest.len() as u64).to_be_bytes());
    if version > 1 {
        b.extend_from_slice(&(sig.len() as u32).to_be_bytes());
    }
    b.extend_from_slice(manifest);
    b.extend_from_slice(sig);
    b.extend_from_slice(data);
    b
}

#[test]
fn payload_header_locates_parts() {
    let b = header(2, &[1, 2, 3], &[9, 9], &[7, 7, 7, 7]);
    let h = parse_header(&b).unwrap();
    assert_eq!(h.file_format_version, 2);
    assert_eq!(h.manifest_offset, 24);
    assert_eq!(h.manifest_len, 3);
    assert_eq!(h.data_offset, 29);
    let b1 = header(1, &[1, 2, 3], &[], &[7]);
    let h1 = parse_header(&b1).unwrap();
    assert_eq!(h1.manifest_offset, 20);
    assert_eq!(h1.data_offset, 23);
}

#[test]
fn payload_header_errors() {
    let mut b = header(2, &[1, 2, 3], &[], &[]);
    b[0] = b'X';
    assert!(matches!(parse_header(&b), Err(ExtractError::InvalidMagic)));
    let b = header(2, &[1, 2, 3], &[], &[]);
    assert!(matches!(parse_header(&b[..25]), Err(ExtractError::TruncatedPayload)));
    assert!(matches!(parse_header(b"CrAU"), Err(ExtractError::TruncatedPayload)));
}
