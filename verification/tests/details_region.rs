use spotrank::SpotError;
use spotrank::details::{InstanceRecord, instance_spec_from_records, join_with_comma};
use spotrank::region::check_region;

#[test]
fn missing_fields_default_to_empty_and_zero() {
    let records = vec![InstanceRecord { architectures: None, vcpus: None, memory_mib: None }];
    let spec = instance_spec_from_records(&records).unwrap();
    assert_eq!(spec.architecture, b"".to_vec());
    assert_eq!(spec.vcpus, 0);
    assert_eq!(spec.memory_mib, 0);
    assert_eq!(spec.memory_mib as f64 / 1024.0, 0.0);
}

#[test]
fn present_fields_carry_over() {
    let records = vec![InstanceRecord {
        architectures: Some(vec![b"x86_64".to_vec(), b"arm64".to_vec()]),
        vcpus: Some(4),
        memory_mib: Some(16384),
    }];
    let spec = instance_spec_from_records(&records).unwrap();
    assert_eq!(spec.architecture, b"x86_64, arm64".to_vec());
    assert_eq!(spec.vcpus, 4);
    assert_eq!(spec.memory_mib, 16384);
    assert_eq!(spec.memory_mib as f64 / 1024.0, 16.0);
}

#[test]
fn first_record_wins() {
    let records = vec![
        InstanceRecord { architectures: None, vcpus: Some(2), memory_mib: None },
        InstanceRecord { architectures: None, vcpus: Some(8), memory_mib: None },
    ];
    let spec = instance_spec_from_records(&records).unwrap();
    assert_eq!(spec.vcpus, 2);
}

#[test]
fn no_records_is_not_found() {
    assert_eq!(instance_spec_from_records(&vec![]).unwrap_err(), SpotError::NotFound);
}

#[test]
fn join_handles_empty_and_single() {
    let empty: Vec<Vec<u8>> = vec![];
    assert_eq!(join_with_comma(&empty), b"".to_vec());
    assert_eq!(join_with_comma(&vec![b"arm64".to_vec()]), b"arm64".to_vec());
    assert_eq!(
        join_with_comma(&vec![b"a".to_vec(), b"b".to_vec(), b"c".to_vec()]),
        b"a, b, c".to_vec()
    );
}

#[test]
fn known_region_is_accepted() {
    assert!(check_region("us-west-2").is_ok());
    assert!(check_region("eu-central-1").is_ok());
}

#[test]
fn unknown_region_is_invalid() {
    assert_eq!(check_region("mars-central-7").unwrap_err(), SpotError::InvalidRegion);
    assert_eq!(check_region("").unwrap_err(), SpotError::InvalidRegion);
}
