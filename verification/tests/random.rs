use rados::mon::ordering::{
    place_drawn, shuffle_by_draws, shuffle_srv_weights, sort_srv_records,
};
use rados::mon::seeds::{SeedError, SrvRecord};
use rados::osd::client::{client_incarnation, random_cookie};
use rados::random::{
    draw, draw_next, incarnation_from, incarnation_of, nonzero, number_from, random_below,
    random_nonzero, Drawing,
};

fn record(target: &str, priority: u16, weight: u16) -> SrvRecord {
    SrvRecord {
        target: target.to_owned(),
        port: 3300,
        priority,
        weight,
    }
}

fn targets(records: &[SrvRecord]) -> Vec<&str> {
    records
        .iter()
        .map(|record| record.target.as_str())
        .collect()
}

#[test]
fn random_numbers_differ_and_keep_their_bounds() {
    let first: Vec<u64> = (0..4)
        .map(|_| random_nonzero().expect("random"))
        .collect();
    assert!(first.iter().any(|value| *value != first[0]));
    for _ in 0..64 {
        assert!(random_below(3).expect("random") < 3);
        assert_ne!(random_nonzero().expect("random"), 0);
        assert_ne!(random_cookie().expect("random"), 0);
    }
}

#[test]
fn draws_below_a_bound_are_fair() {
    assert_eq!(draw(0, 3), None);
    assert_eq!(draw(1, 3), Some(1));
    assert_eq!(draw(5, 3), Some(2));
    assert_eq!(draw(0, 4), Some(0));
    assert_eq!(draw(u64::MAX, 10), Some(5));
    assert_eq!(draw_next(None, 3), Drawing::Failed);
    assert_eq!(draw_next(Some(0), 3), Drawing::Again);
    assert_eq!(draw_next(Some(5), 3), Drawing::Drawn(2));
    assert_eq!(number_from(true, &[2, 1, 0, 0, 0, 0, 0, 0]), Some(0x102));
    assert_eq!(number_from(false, &[2, 1, 0, 0, 0, 0, 0, 0]), None);
    assert_eq!(nonzero(0), 1);
    assert_eq!(nonzero(9), 9);
}

#[test]
fn incarnations_are_positive_and_odd() {
    assert_eq!(incarnation_of(0), 1);
    assert_eq!(incarnation_of(0xffff_fffe), 0x7fff_ffff);
    assert_eq!(incarnation_from(true, &[4, 0, 0, 0x80]), Some(5));
    assert_eq!(incarnation_from(false, &[4, 0, 0, 0x80]), None);
    assert_eq!(client_incarnation(7), Ok(7));
    let fresh = client_incarnation(0).expect("incarnation");
    assert!(fresh > 0 && fresh % 2 == 1);
}

#[test]
fn a_draw_brings_the_record_of_its_weight_to_the_front() {
    for (selected, expected) in [
        (0, ["a", "b", "c"]),
        (1, ["a", "b", "c"]),
        (2, ["b", "a", "c"]),
        (4, ["b", "a", "c"]),
        (5, ["c", "b", "a"]),
    ] {
        let mut records = vec![record("a", 0, 2), record("b", 0, 3), record("c", 0, 1)];
        place_drawn(&mut records, 0, 3, selected);
        assert_eq!(targets(&records), expected, "selected={selected}");
    }
}

#[test]
fn shuffled_records_keep_their_priorities() {
    let mut firsts = Vec::new();
    for _ in 0..64 {
        let mut records = vec![
            record("late", 2, 0),
            record("x", 1, 1),
            record("later", 2, 0),
            record("y", 1, 1),
        ];
        sort_srv_records(&mut records).expect("random");
        assert_eq!(
            records
                .iter()
                .map(|record| record.priority)
                .collect::<Vec<_>>(),
            [1, 1, 2, 2]
        );
        assert_eq!(targets(&records[2..]), ["late", "later"]);
        firsts.push(records[0].target.clone());
    }
    assert!(firsts.contains(&"x".to_owned()) && firsts.contains(&"y".to_owned()));
}

#[test]
fn weighted_records_come_before_weightless_ones() {
    for _ in 0..64 {
        let mut pair = vec![record("light", 0, 0), record("heavy", 0, 5)];
        shuffle_srv_weights(&mut pair, 0, 2).expect("random");
        assert_eq!(targets(&pair), ["heavy", "light"]);
        let mut records = vec![
            record("a", 1, 0),
            record("b", 1, 3),
            record("c", 0, 0),
            record("d", 1, 0),
            record("e", 1, 2),
            record("f", 0, 7),
        ];
        sort_srv_records(&mut records).expect("random");
        assert_eq!(targets(&records[..2]), ["f", "c"]);
        let mut heavy = targets(&records[2..4]);
        heavy.sort_unstable();
        assert_eq!(heavy, ["b", "e"]);
        assert!(records[4..].iter().all(|record| record.weight == 0));
    }
}

#[test]
fn given_draws_lead_to_one_order() {
    let build = || {
        vec![
            record("x", 9, 9),
            record("a", 0, 2),
            record("b", 0, 3),
            record("c", 0, 1),
            record("y", 9, 9),
        ]
    };
    let mut records = build();
    assert_eq!(shuffle_by_draws(&mut records, 1, 4, &vec![5, 4, 0]), Ok(2));
    assert_eq!(targets(&records), ["x", "c", "a", "b", "y"]);
    let mut short = build();
    assert_eq!(
        shuffle_by_draws(&mut short, 1, 4, &vec![2]),
        Err(SeedError::Lookup {
            operation: "SRV ordering",
            name: "system random source".to_owned(),
            source: "random source unavailable".to_owned(),
        })
    );
    assert_eq!(targets(&short), ["x", "b", "a", "c", "y"]);
    let mut weightless = vec![record("a", 0, 0), record("b", 0, 0)];
    assert_eq!(shuffle_by_draws(&mut weightless, 0, 2, &Vec::new()), Ok(0));
    assert_eq!(targets(&weightless), ["a", "b"]);
}

#[test]
fn records_without_a_choice_are_sorted_by_priority() {
    let mut single = vec![record("only", 4, 9)];
    sort_srv_records(&mut single).expect("one record needs no draw");
    assert_eq!(targets(&single), ["only"]);

    let mut distinct = vec![
        record("last", 7, 1),
        record("first", 0, u16::MAX),
        record("middle", 3, 5),
    ];
    sort_srv_records(&mut distinct).expect("distinct priorities need no draw");
    assert_eq!(targets(&distinct), ["first", "middle", "last"]);

    let mut mixed = vec![
        record("alone", 2, 8),
        record("a", 1, 0),
        record("b", 1, 0),
    ];
    sort_srv_records(&mut mixed).expect("no weight to choose by");
    assert_eq!(targets(&mixed), ["a", "b", "alone"]);
}
