use wavefold::cli::{Report, Stream};
use wavefold::dct_backend::{ComputeBackend, DctAlgorithm};
use wavefold::media_backend::PipelineMsg;
use wavefold::pipeline::{run, EncodeRun};
use wavefold::text::{decimal_text, eq_ignore_ascii_case, same_text, starts_with};

fn text(msg: &PipelineMsg) -> String {
    format!("{msg:?}")
}

#[test]
fn a_run_reports_from_start_to_end() {
    let (mut run, first) = EncodeRun::start(ComputeBackend::Cpu, DctAlgorithm::Fft);
    assert_eq!(
        text(&first),
        "Log(\"initializing CPU (software, no GPU required) DCT backend (FFT)...\")"
    );
    assert_eq!(text(&run.open_input().unwrap()), "Log(\"opening input...\")");
    assert!(run.open_input().is_none());
    assert_eq!(text(&run.log("48x32".to_string()).unwrap()), "Log(\"48x32\")");
    assert_eq!(text(&run.frame_done().unwrap()), "Progress { current: 1, total: 0 }");
    run.set_total(8);
    assert_eq!(text(&run.frame_done().unwrap()), "Progress { current: 2, total: 8 }");
    let last = run.conclude(Ok(()), "out.mp4");
    assert_eq!(last.len(), 2);
    assert_eq!(text(&last[0]), "Log(\"wrote 2 frames to out.mp4\")");
    assert_eq!(text(&last[1]), "Done");
}

#[test]
fn a_run_ends_once() {
    let (mut run, _) = EncodeRun::start(ComputeBackend::Gpu, DctAlgorithm::Gemm);
    // Nothing but a failure is reported before the input is opened.
    assert!(run.frame_done().is_none());
    assert!(run.log("x".to_string()).is_none());
    // A backend that cannot be built ends the run with one error.
    let last = run.conclude(Err("no adapter".to_string()), "out");
    assert_eq!(last.len(), 1);
    assert_eq!(text(&last[0]), "Error(\"no adapter\")");
    assert!(run.conclude(Err("again".to_string()), "out").is_empty());
    assert!(run.open_input().is_none());
    assert!(run.conclude(Ok(()), "out").is_empty());

    let (mut run, _) = EncodeRun::start(ComputeBackend::Gpu, DctAlgorithm::Gemm);
    run.open_input();
    assert_eq!(run.conclude(Ok(()), "out").len(), 2);
    assert!(run.conclude(Err("late".to_string()), "out").is_empty());
    assert!(run.frame_done().is_none());
}

#[test]
fn a_backend_that_fails_to_build_is_not_run() {
    let res = run(|| Err::<u8, String>("no adapter".to_string()), |_| panic!("run"));
    assert_eq!(res, Err("no adapter".to_string()));
    let res = run(|| Ok(7u8), |b| if b == 7 { Err("mux".to_string()) } else { Ok(()) });
    assert_eq!(res, Err("mux".to_string()));
    assert_eq!(run(|| Ok(7u8), |_| Ok(())), Ok(()));
}

#[test]
fn messages_are_printed() {
    let mut report = Report::new();
    let p = report.show(&PipelineMsg::Progress { current: 3, total: 10 });
    assert_eq!((p.stream, p.text.as_str()), (Stream::Stdout, "\rframe 3/10"));
    let p = report.show(&PipelineMsg::Progress { current: 3, total: 0 });
    assert_eq!((p.stream, p.text.as_str()), (Stream::Stdout, "\rframe 3 (total unknown)"));
    let p = report.show(&PipelineMsg::Log("line".to_string()));
    assert_eq!((p.stream, p.text.as_str()), (Stream::Stdout, "\nline\n"));
    let p = report.show(&PipelineMsg::Done);
    assert_eq!((p.stream, p.text.as_str()), (Stream::Stdout, "\ndone\n"));
    assert_eq!(report.exit_code(), 0);
    let p = report.show(&PipelineMsg::Error("bad".to_string()));
    assert_eq!((p.stream, p.text.as_str()), (Stream::Stderr, "\nerror: bad\n"));
    assert_eq!(report.exit_code(), 1);
    report.show(&PipelineMsg::Done);
    assert_eq!(report.exit_code(), 1);
}

#[test]
fn numbers_in_decimal() {
    for n in [0u64, 1, 9, 10, 99, 100, 12345, u64::MAX] {
        assert_eq!(decimal_text(n), n.to_string());
    }
}

#[test]
fn texts_are_compared() {
    assert!(starts_with("audio/x-raw", "audio/"));
    assert!(starts_with("abc", ""));
    assert!(!starts_with("ab", "abc"));
    assert!(!starts_with("xbc", "ab"));
    assert!(same_text("häß", "häß"));
    assert!(!same_text("a", "ab"));
    assert!(eq_ignore_ascii_case("Mp4", "mP4"));
    assert!(!eq_ignore_ascii_case("mp4", "mp3"));
    assert!(!eq_ignore_ascii_case("Ä", "ä"));
}
