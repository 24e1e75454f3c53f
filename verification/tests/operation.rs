use rados::operation::{WriteAction, MAX_SUB_OPERATIONS};
use rados::osd::messages::{Operation, OP_FLAG_FAIL_OK};
use rados::{OmapEntry, ReadOp, SubOperationFlags, WriteOp};

#[test]
fn write_builder_owns_input_and_checks_ranges() {
    let mut source = b"payload".to_vec();
    let operation = WriteOp::new().write(5, &source).expect("write");
    source.fill(b'x');
    assert!(matches!(
        operation.actions.as_slice(),
        [WriteAction::Write { offset: 5, data }] if data == b"payload"
    ));
    assert!(WriteOp::new().write(u64::MAX, &[0, 1]).is_err());
    assert!(ReadOp::new().read(u64::MAX, 1).is_err());
}

#[test]
fn metadata_builders_sort_copy_validate_and_preserve_create_flags() {
    let operation = WriteOp::new()
        .create(true)
        .expect("create")
        .set_flags(0, SubOperationFlags::fail_ok())
        .expect("flags")
        .set_omap(vec![
            OmapEntry {
                key: b"b".to_vec(),
                value: b"2".to_vec(),
            },
            OmapEntry {
                key: b"a".to_vec(),
                value: b"1".to_vec(),
            },
        ])
        .expect("omap")
        .into_operations()
        .expect("operations");
    assert!(matches!(
        &operation[0],
        Operation::WithFlags { operation, flags }
            if **operation == Operation::Create { exclusive: true }
                && *flags == OP_FLAG_FAIL_OK
    ));
    assert!(
        matches!(&operation[1], Operation::OmapSetValues(data) if &data[4..9] == b"\x01\0\0\0a")
    );
    assert!(WriteOp::new().set_xattr(&[], &[]).is_err());
    assert!(WriteOp::new().remove_omap_range(b"z", b"a").is_err());
}

#[test]
fn builders_enforce_the_certified_operation_limit() {
    let mut operation = ReadOp::new();
    for _ in 0..MAX_SUB_OPERATIONS {
        operation = operation.stat().expect("within bound");
    }
    assert!(operation.stat().is_err());
    assert!(ReadOp::new().into_operations().is_err());
    assert!(WriteOp::new().into_operations().is_err());
}

#[test]
fn setting_flags_replaces_the_existing_wrapper() {
    let operations = WriteOp::new()
        .create(true)
        .expect("create")
        .set_flags(0, SubOperationFlags::fail_ok())
        .expect("set")
        .set_flags(0, SubOperationFlags::empty())
        .expect("replace")
        .into_operations()
        .expect("operations");
    assert!(matches!(
        operations.as_slice(),
        [Operation::WithFlags { operation, flags }]
            if **operation == Operation::Create { exclusive: true } && *flags == 0
    ));
}

#[test]
fn class_builders_copy_and_validate_names_and_mutation_intent() {
    let mut input = b"input".to_vec();
    let read = ReadOp::new()
        .exec(b"class", b"method", &input)
        .expect("read class")
        .into_operations()
        .expect("operations");
    input.fill(b'x');
    assert!(matches!(
        read.as_slice(),
        [Operation::Call { data, mutation: false, .. }] if data == b"classmethodinput"
    ));
    let write = WriteOp::new()
        .exec(b"class", b"method", b"input")
        .expect("write class")
        .into_operations()
        .expect("operations");
    assert!(write[0].is_mutation());
    assert!(ReadOp::new().exec(&[], b"method", &[]).is_err());
    assert!(WriteOp::new().exec(b"class", b"bad\0name", &[]).is_err());
}

#[test]
fn the_last_flags_of_each_operation_win() {
    let build = || ReadOp::new().stat().expect("stat").stat().expect("stat");
    let replaced = build()
        .set_flags(1, SubOperationFlags::empty())
        .expect("first")
        .set_flags(1, SubOperationFlags::fail_ok())
        .expect("second")
        .into_operations()
        .expect("operations");
    let single = build()
        .set_flags(1, SubOperationFlags::fail_ok())
        .expect("flags")
        .into_operations()
        .expect("operations");
    assert_eq!(replaced, single);
    assert_eq!(replaced[0], Operation::Stat);
    let one_way = build()
        .set_flags(0, SubOperationFlags::fail_ok())
        .expect("first")
        .set_flags(1, SubOperationFlags::empty())
        .expect("second")
        .into_operations()
        .expect("operations");
    let other_way = build()
        .set_flags(1, SubOperationFlags::empty())
        .expect("first")
        .set_flags(0, SubOperationFlags::fail_ok())
        .expect("second")
        .into_operations()
        .expect("operations");
    assert_eq!(one_way, other_way);
    let mut full = ReadOp::new();
    for _ in 0..MAX_SUB_OPERATIONS {
        full = full.stat().expect("within bound");
    }
    assert!(full.set_flags(0, SubOperationFlags::fail_ok()).is_ok());
    assert!(build().set_flags(2, SubOperationFlags::empty()).is_err());
}

#[test]
fn the_order_of_map_entries_does_not_matter() {
    let entry = |key: &[u8], value: &[u8]| OmapEntry {
        key: key.to_vec(),
        value: value.to_vec(),
    };
    let build = |entries: Vec<OmapEntry>| {
        WriteOp::new()
            .set_omap(entries)
            .expect("omap")
            .into_operations()
            .expect("operations")
    };
    let ordered = build(vec![entry(b"a", b"1"), entry(b"b", b"2"), entry(b"c", b"3")]);
    let shuffled = build(vec![entry(b"c", b"3"), entry(b"a", b"1"), entry(b"b", b"2")]);
    assert_eq!(ordered, shuffled);
    assert!(WriteOp::new()
        .set_omap(vec![entry(b"a", b"1"), entry(b"b", b"2"), entry(b"a", b"1")])
        .is_err());
}
