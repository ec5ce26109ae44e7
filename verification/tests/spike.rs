use mikke::spike::{
    child_report, child_result, file_row, is_pdf, pdfium_lib_path, measure_result, parse_child_report, poll_step, text_result, visible_chars, ChildPoll,
    EngineResult, Finished, Outcome, PollStep, Totals,
};

#[test]
fn outcome_labels() {
    assert_eq!(Outcome::Success.label(), "ok");
    assert_eq!(Outcome::Empty.label(), "vide");
    assert_eq!(Outcome::Error.label(), "erreur");
    assert_eq!(Outcome::Panic.label(), "PANIC");
    assert_eq!(Outcome::Timeout.label(), "TIMEOUT");
}

#[test]
fn text_result_counts_visible_characters_and_cid() {
    let r = text_result("ab (cid:1) (cid:2)", 5);
    assert_eq!(r, EngineResult { outcome: Outcome::Empty, chars: 16, cid_garbage: 2, ms: 5 });
    let long = "x".repeat(20);
    let r = text_result(&long, 1);
    assert_eq!(r.outcome, Outcome::Success);
    assert_eq!(r.chars, 20);
    assert_eq!(r.cid_garbage, 0);
}

#[test]
fn measure_result_by_ending() {
    assert_eq!(measure_result(Finished::Failed, 7, 60000), EngineResult { outcome: Outcome::Error, chars: 0, cid_garbage: 0, ms: 7 });
    assert_eq!(measure_result(Finished::Panicked, 7, 60000).outcome, Outcome::Panic);
    assert_eq!(measure_result(Finished::TimedOut, 7, 60000), EngineResult { outcome: Outcome::Timeout, chars: 0, cid_garbage: 0, ms: 60000 });
    assert_eq!(measure_result(Finished::Text("a b".into()), 7, 60000).chars, 2);
}

#[test]
fn child_reports_parse() {
    assert_eq!(parse_child_report("1234 56\n"), (1234, 56));
    assert_eq!(parse_child_report("abc"), (0, 0));
    assert_eq!(parse_child_report(""), (0, 0));
    assert_eq!(parse_child_report("+7 -3"), (7, 0));
    assert_eq!(parse_child_report("99999999999999999999999 5"), (0, 5));
    assert_eq!(parse_child_report("12"), (12, 0));
}

#[test]
fn child_report_roundtrip() {
    assert_eq!(child_report(25, 10), "25 10");
    assert_eq!(parse_child_report(&child_report(0, 340282366920938463463374607431768211455)), (0, u128::MAX));
    assert_eq!(parse_child_report(&child_report(usize::MAX, 7)), (usize::MAX, 7));
}

#[test]
fn child_results() {
    assert_eq!(child_result(true, false, "25 10"), EngineResult { outcome: Outcome::Success, chars: 25, cid_garbage: 0, ms: 10 });
    assert_eq!(child_result(true, false, "3 10").outcome, Outcome::Empty);
    assert_eq!(child_result(false, true, "25 10"), EngineResult { outcome: Outcome::Panic, chars: 0, cid_garbage: 0, ms: 0 });
    assert_eq!(child_result(false, false, "25 10").outcome, Outcome::Error);
}

#[test]
fn totals_add_counts_each_engine() {
    let mut t = Totals::new();
    let pe = EngineResult { outcome: Outcome::Success, chars: 100, cid_garbage: 3, ms: 12 };
    let pi = EngineResult { outcome: Outcome::Timeout, chars: 0, cid_garbage: 0, ms: 500 };
    t.add(&pe, &pi);
    let pe2 = EngineResult { outcome: Outcome::Empty, chars: 5, cid_garbage: 0, ms: 1 };
    t.add(&pe2, &pe);
    assert_eq!((t.pe_ok, t.pe_empty, t.pe_fail), (1, 1, 0));
    assert_eq!((t.pi_ok, t.pi_empty, t.pi_fail), (1, 0, 1));
    assert_eq!((t.pe_ms, t.pe_chars, t.pe_cid), (13, 105, 3));
    assert_eq!((t.pi_ms, t.pi_chars), (512, 100));
}

#[test]
fn pdf_files() {
    assert!(is_pdf("/a/Scan.PDF"));
    assert!(is_pdf("x.pdf"));
    assert!(!is_pdf("x.pdfx"));
    assert!(!is_pdf("pdf"));
}

#[test]
fn poll_steps() {
    assert_eq!(poll_step(ChildPoll::Running, false, 100), PollStep::Wait);
    assert_eq!(
        poll_step(ChildPoll::Running, true, 100),
        PollStep::Kill(EngineResult { outcome: Outcome::Timeout, chars: 0, cid_garbage: 0, ms: 100 })
    );
    let exited = ChildPoll::Exited { success: true, signaled: false, out: "42 7\n".to_string() };
    assert_eq!(
        poll_step(exited, true, 100),
        PollStep::Done(EngineResult { outcome: Outcome::Success, chars: 42, cid_garbage: 0, ms: 7 })
    );
    assert_eq!(poll_step(ChildPoll::SpawnFailed, false, 100), PollStep::Done(EngineResult { outcome: Outcome::Error, chars: 0, cid_garbage: 0, ms: 0 }));
    assert_eq!(poll_step(ChildPoll::Unknown, false, 100), PollStep::Done(EngineResult { outcome: Outcome::Error, chars: 0, cid_garbage: 0, ms: 0 }));
}

#[test]
fn totals_default_to_zero() {
    assert_eq!(Totals::default(), Totals::new());
    assert_eq!(Totals::default().pi_ms, 0);
}

#[test]
fn summary_and_rows() {
    let mut t = Totals::new();
    let pe = EngineResult { outcome: Outcome::Success, chars: 1234, cid_garbage: 2, ms: 30 };
    let pi = EngineResult { outcome: Outcome::Panic, chars: 0, cid_garbage: 0, ms: 0 };
    t.add(&pe, &pi);
    let lines = t.summary_lines(1);
    assert_eq!(lines[0], "");
    assert_eq!(lines[1], "## Bilan sur 1 fichiers");
    assert_eq!(lines[3], "|  | pdf-extract | pdfium-render |");
    assert_eq!(lines[5], "| texte extrait | 1 | 0 |");
    assert_eq!(lines[7], "| échec (erreur/panic/timeout) | 0 | 1 |");
    assert_eq!(lines[8], "| caractères totaux | 1234 | 0 |");
    assert_eq!(lines[9], "| artefacts (cid:) | 2 | 0 |");
    assert_eq!(lines[10], "| temps total (ms) | 30 | 0 |");
    assert_eq!(file_row("a.pdf", 12, &pe, &pi), "| a.pdf | 12 | ok | 1234 | 2 | 30 | PANIC | 0 | 0 |");
}

#[test]
fn pdfium_library_path() {
    assert_eq!(pdfium_lib_path(Some("/opt/libpdfium.so"), "/home/x"), "/opt/libpdfium.so");
    assert_eq!(pdfium_lib_path(None, "/home/x"), "/home/x/.cache/mikke-spike/libpdfium.so");
}

#[test]
fn totals_count_each_file_once_per_engine() {
    let r = |outcome, chars, cid_garbage, ms| EngineResult { outcome, chars, cid_garbage, ms };
    let files = [
        (r(Outcome::Success, 120, 2, 30), r(Outcome::Success, 118, 0, 12)),
        (r(Outcome::Panic, 0, 0, 5), r(Outcome::Empty, 3, 0, 8)),
        (r(Outcome::Timeout, 0, 0, 1000), r(Outcome::Error, 0, 0, 1)),
    ];
    let mut t = Totals::default();
    for (pe, pi) in &files {
        t.add(pe, pi);
    }
    assert_eq!(t.pe_ok + t.pe_empty + t.pe_fail, files.len());
    assert_eq!(t.pi_ok + t.pi_empty + t.pi_fail, files.len());
    assert_eq!((t.pe_ok, t.pe_empty, t.pe_fail), (1, 0, 2));
    assert_eq!((t.pi_ok, t.pi_empty, t.pi_fail), (1, 1, 1));
    assert_eq!((t.pe_ms, t.pi_ms), (1035, 21));
    assert_eq!((t.pe_chars, t.pi_chars, t.pe_cid), (120, 121, 2));
}

#[test]
fn visible_chars_ignore_white_space() {
    assert_eq!(visible_chars(" a b\n\tc "), 3);
    assert_eq!(visible_chars(""), 0);
    assert_eq!(visible_chars("été\u{a0}!"), 4);
}
