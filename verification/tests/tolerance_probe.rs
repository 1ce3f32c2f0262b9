use copper_differential::geometry::IntPoint;
use copper_differential::tolerance_probe::{tolerance_lines, within_tolerance, ToleranceStream};

#[test]
fn within_tolerance_is_a_taxicab_test() {
    let a = IntPoint { x: 0, y: 0 };
    assert!(within_tolerance(Some(a), IntPoint { x: 3, y: -4 }, 7));
    assert!(!within_tolerance(Some(a), IntPoint { x: 3, y: -4 }, 6));
    assert!(within_tolerance(Some(a), a, 0));
    assert!(!within_tolerance(Some(a), a, -1));
    assert!(!within_tolerance(None, a, 100));
}

#[test]
fn tolerance_stream_starts_at_its_seed() {
    let mut s = ToleranceStream::new();
    let first = s.next();
    assert_eq!(first % 4001 - 2000, 129);
}

#[test]
fn tolerance_lines_replay_the_scripted_transcript() {
    let lines = tolerance_lines();
    assert_eq!(lines.len(), 10768);
    assert_eq!(lines[0], "tol i=0 p1=(129,-1553) p2=(-691,-1654) t=45 -> false");
    assert_eq!(lines[1], "tol i=1 p1=(-481,-64) p2=(506,1371) t=98 -> false");
    assert_eq!(lines[9999], "tol i=9999 p1=(-487,-440) p2=(1575,-85) t=-16 -> false");
    assert_eq!(lines[10000], "bnd i=0 d=-1 p1=(-1123,162) p2=(-1123,161) t=0 -> false");
    assert_eq!(lines[10001], "bnd i=0 d=0 p1=(-1123,162) p2=(-1123,162) t=0 -> true");
    assert_eq!(lines[10002], "bnd i=0 d=1 p1=(-1123,162) p2=(-1123,163) t=0 -> false");
    assert_eq!(lines[10767], "bnd i=255 d=1 p1=(684,-764) p2=(699,-748) t=30 -> false");
    assert_eq!(lines.iter().filter(|l| l.ends_with("true")).count(), 498);
}

#[test]
fn boundary_rounds_sit_inside_on_and_outside_the_tolerance() {
    let lines = tolerance_lines();
    for round in 0..256 {
        let base = 10000 + 3 * round;
        assert!(lines[base].ends_with("-> true") || lines[base].ends_with("-> false"));
        assert!(lines[base + 1].ends_with("-> true"));
        assert!(lines[base + 2].ends_with("-> false"));
    }
}
