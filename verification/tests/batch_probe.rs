use copper_differential::batch_probe::{
    batch_argv, boxed_limit, limit_readable, is_batch_mode, is_optimizer_mode, java_boxed, limit_name, on_off,
    on_off_name, parse_i32, passes_file, passes_json, stat, event_lines, task_states, RunEvent,
    global_step, local_step, restore_gates, restored, stagnation_start, LocalOutcome, LoopLimits,
};
use copper_differential::kinds::{NamedAlgorithmType, TaskState};

#[test]
fn modes_are_told_apart_by_their_prefix() {
    assert!(is_optimizer_mode("optimizer"));
    assert!(is_optimizer_mode("optimizer-shared"));
    assert!(!is_optimizer_mode("optimize"));
    assert!(is_batch_mode("batch-router"));
    assert!(!is_batch_mode("router+fanout"));
}

#[test]
fn on_off_words_round_trip() {
    assert!(on_off("on"));
    assert!(!on_off("off"));
    assert_eq!(on_off_name(true), "on");
    assert_eq!(on_off_name(false), "off");
}

#[test]
fn batch_argv_names_the_ses_beside_the_dsn() {
    assert_eq!(
        batch_argv("/x/b.dsn", 7, true, false),
        vec![
            "-de",
            "/x/b.dsn",
            "-do",
            "/x/b.ses",
            "-mp",
            "7",
            "--router.fanout.enabled=true",
            "--router.optimizer.enabled=false"
        ]
    );
    assert_eq!(batch_argv("board", -1, false, true)[3], "board");
}

#[test]
fn parse_i32_agrees_with_str_parse() {
    for s in [
        "0", "42", "-42", "+7", "", "-", "+", "2147483647", "2147483648", "-2147483648",
        "-2147483649", "99999999999999999999", "1a", " 1", "007", "-0",
    ] {
        assert_eq!(parse_i32(s), s.parse::<i32>().ok(), "{:?}", s);
    }
}

#[test]
fn boxed_limits_and_their_names() {
    assert_eq!(boxed_limit("all"), None);
    assert_eq!(boxed_limit("12"), Some(12));
    assert!(limit_readable("all") && limit_readable("-3"));
    assert!(!limit_readable("x") && !limit_readable("99999999999"));
    assert_eq!(limit_name(None), "all");
    assert_eq!(limit_name(Some(-3)), "-3");
    assert_eq!(java_boxed(None), "null");
    assert_eq!(java_boxed(Some(9_000_000_000)), "9000000000");
}

#[test]
fn stat_counts_negative_as_none() {
    assert_eq!(stat(Some(5)), 5);
    assert_eq!(stat(Some(-1)), 0);
}

#[test]
fn passes_json_renders_each_pass_line() {
    let text = "HEADER x\nPASS n=1 routed=3\nnoise\nPASS n=2 routed=4 e=a=b\n";
    assert_eq!(
        passes_json(text),
        Some("{\"n\":1,\"routed\":3}\n{\"n\":2,\"routed\":4,\"e\":a=b}\n".to_string())
    );
    assert_eq!(passes_json("PASS n=1 oops\n"), None);
    assert_eq!(passes_json("no passes\n"), Some(String::new()));
}

#[test]
fn passes_file_reads_the_transcript_bytes() {
    assert_eq!(passes_file(b"PASS a=1\r\n"), Some("{\"a\":1}\n".to_string()));
    assert_eq!(passes_file(b"PASS a=\xff\n"), Some("{\"a\":\u{fffd}}\n".to_string()));
}

#[test]
fn limit_names_read_back() {
    for limit in [None, Some(0), Some(7), Some(-12), Some(i32::MAX), Some(i32::MIN)] {
        assert_eq!(boxed_limit(&limit_name(limit)), limit);
    }
    for flag in [true, false] {
        assert_eq!(on_off(on_off_name(flag)), flag);
    }
}

#[test]
fn task_state_changes_are_kept_in_order() {
    let events = [
        RunEvent::Other,
        RunEvent::TaskStateChanged {
            algorithm: NamedAlgorithmType::Router,
            state: TaskState::Started,
        },
        RunEvent::Other,
        RunEvent::TaskStateChanged {
            algorithm: NamedAlgorithmType::Router,
            state: TaskState::Finished,
        },
        RunEvent::TaskStateChanged {
            algorithm: NamedAlgorithmType::Optimizer,
            state: TaskState::TimedOut,
        },
    ];
    assert_eq!(
        task_states(&events),
        vec![
            (NamedAlgorithmType::Router, TaskState::Started),
            (NamedAlgorithmType::Router, TaskState::Finished),
            (NamedAlgorithmType::Optimizer, TaskState::TimedOut),
        ]
    );
    assert_eq!(
        event_lines(&events),
        "EVENT algorithm=ROUTER state=STARTED\nEVENT algorithm=ROUTER state=FINISHED\n\
         EVENT algorithm=OPTIMIZER state=TIMED_OUT\n"
    );
    assert_eq!(event_lines(&[RunEvent::Other]), "");
}

const LIMITS: LoopLimits = LoopLimits {
    stop_at_pass_minimum: 3,
    stop_at_pass_modulo: 2,
    stagnation_pass_limit: 4,
    fanout_recovery_passes: 2,
};

#[test]
fn the_restore_check_opens_on_the_period_from_the_first_counted_pass() {
    assert_eq!(restore_gates(1, 4, false, LIMITS), (false, true));
    assert_eq!(restore_gates(3, 3, false, LIMITS), (true, false));
    assert_eq!(restore_gates(5, 2, false, LIMITS), (true, false));
    assert_eq!(restore_gates(0, 1, true, LIMITS), (true, true));
}

#[test]
fn stalled_passes_retry_the_fanout_once_then_end_the_loop() {
    let s = stagnation_start();
    // A pass before the first counted one changes nothing.
    let (s, o) = local_step(s, LIMITS, 2, true, 5, true, false, false);
    assert_eq!(o, LocalOutcome { reset_last_best: false, recover: false, local_break: false, check_global: false });
    // Two stalled passes with incompletes left: the second retries the fanout.
    let (s, o) = local_step(s, LIMITS, 3, true, 5, true, false, false);
    assert_eq!((s.counter, o.recover), (1, false));
    let (s, o) = local_step(s, LIMITS, 4, true, 5, true, false, false);
    assert_eq!((s.counter, o.recover, s.recovery_applied, o.reset_last_best), (0, true, true, true));
    // From then on the count only grows, up to the limit.
    let mut s = s;
    let mut breaks = 0;
    for pass in 5..9 {
        let (t, o) = local_step(s, LIMITS, pass, true, 5, true, false, false);
        assert!(!o.recover);
        if o.local_break {
            breaks += 1;
        }
        s = t;
    }
    assert_eq!((s.counter, breaks), (4, 1));
    assert_eq!(restored(s).counter, 0);
}

#[test]
fn the_global_rule_tracks_the_best_pass() {
    let s = stagnation_start();
    let (s, best, stop) = global_step(s, LIMITS, 3, 7, true);
    assert_eq!((s.pass_of_best, s.incompletes_at_best, best, stop), (3, 7, true, false));
    let (_, best, stop) = global_step(s, LIMITS, 6, 2, false);
    assert_eq!((best, stop), (false, false));
    let (_, best, stop) = global_step(s, LIMITS, 7, 2, false);
    assert_eq!((best, stop), (false, true));
    // A fully routed board above the threshold resets the count outside the counted passes.
    let (t, o) = local_step(s, LIMITS, 1, true, 0, false, false, true);
    assert_eq!((t.counter, o.reset_last_best, o.check_global), (0, true, false));
}
