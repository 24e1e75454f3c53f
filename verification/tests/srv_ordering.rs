use rados::mon::ordering::sort_srv_records;
use rados::mon::seeds::SrvRecord;

#[test]
fn sorts_srv_records_by_priority_and_leaves_zero_weight_order_stable() {
    let mut records = vec![
        SrvRecord {
            target: "second".to_owned(),
            port: 3300,
            priority: 2,
            weight: 0,
        },
        SrvRecord {
            target: "first-a".to_owned(),
            port: 3300,
            priority: 1,
            weight: 0,
        },
        SrvRecord {
            target: "first-b".to_owned(),
            port: 3300,
            priority: 1,
            weight: 0,
        },
    ];
    sort_srv_records(&mut records).unwrap();
    assert_eq!(
        records
            .iter()
            .map(|record| record.target.as_str())
            .collect::<Vec<_>>(),
        ["first-a", "first-b", "second"]
    );
}
