use copper_differential::drc_probe::{airline_lines, unconnected_lines, Airline, Finding};
use copper_differential::fanout_probe::ascending;
use copper_differential::kinds::{ItemKind, UnconnectedKind};

#[test]
fn unconnected_lines_tally_each_kind() {
    let findings = vec![
        Finding {
            kind: UnconnectedKind::UnconnectedItems,
            first: Some(ItemKind::Pin),
            second: Some(Some(ItemKind::Trace)),
            items: vec![12, 3, 7],
        },
        Finding {
            kind: UnconnectedKind::TrackDangling,
            first: Some(ItemKind::Trace),
            second: None,
            items: vec![5],
        },
        Finding {
            kind: UnconnectedKind::UnconnectedItems,
            first: None,
            second: Some(Some(ItemKind::Via)),
            items: vec![],
        },
    ];
    assert_eq!(
        unconnected_lines(&findings),
        vec![
            "U unconnectedItems Pin Trace 3,7,12",
            "U track_dangling Trace - 5",
            "U unconnectedItems other other ",
            "UCOUNT 3",
            "UTYPE unconnectedItems 2",
            "UTYPE track_dangling 1",
            "UTYPE via_dangling 0"
        ]
    );
}

#[test]
fn airline_lines_sort_unordered_pairs() {
    let airlines = [
        Airline { net: 2, from: 9, to: 4 },
        Airline { net: 1, from: 7, to: 8 },
        Airline { net: 2, from: 1, to: 30 },
        Airline { net: -1, from: 5, to: 5 },
    ];
    assert_eq!(
        airline_lines(&airlines, false),
        vec!["ALCOUNT 4", "AL -1 5 5", "AL 1 7 8", "AL 2 1 30", "AL 2 4 9"]
    );
    let directed = airline_lines(&airlines, true);
    assert_eq!(directed.len(), 9);
    assert_eq!(&directed[5..], &["ALD 2 9 4", "ALD 1 7 8", "ALD 2 1 30", "ALD -1 5 5"]);
    assert_eq!(airline_lines(&[], true), vec!["ALCOUNT 0"]);
}

#[test]
fn ascending_sorts_ids() {
    assert_eq!(ascending(&[5, 1, 5, 0]), vec![0, 1, 5, 5]);
    assert!(ascending(&[]).is_empty());
}
