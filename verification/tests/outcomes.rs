use vobsubocr::ocr::aggregate_outcomes;
use vobsubocr::ocr::event_outcome;
use vobsubocr::ocr::process;
use vobsubocr::ocr::Error;
use vobsubocr::opt::Opt;
use vobsubocr::opt::Threshold;
use vobsubocr::preprocessor::preprocess_subtitles;
use vobsubocr::preprocessor::SubtitleEvent;
use vobsubocr::preprocessor::TimeSpan;

fn span(start_ms: i64, end_ms: i64) -> TimeSpan {
    TimeSpan { start_ms, end_ms }
}

#[test]
fn event_text_concatenates_lines_top_to_bottom() {
    let lines: Vec<Result<String, Error>> =
        vec![Ok(String::from("HELLO")), Ok(String::from("WORLD"))];
    let outcome = event_outcome(span(0, 1), lines).unwrap();
    assert_eq!(outcome.1, "HELLOWORLD");
}

#[test]
fn event_text_order_is_never_swapped() {
    let lines: Vec<Result<String, Error>> =
        vec![Ok(String::from("WORLD")), Ok(String::from("HELLO"))];
    let outcome = event_outcome(span(0, 1), lines).unwrap();
    assert_eq!(outcome.1, "WORLDHELLO");
}

#[test]
fn event_with_no_lines_has_empty_text() {
    let outcome = event_outcome(span(3, 4), Vec::new()).unwrap();
    assert_eq!(outcome.0, span(3, 4));
    assert_eq!(outcome.1, "");
}

#[test]
fn event_failure_is_the_first_one() {
    let lines: Vec<Result<String, Error>> = vec![
        Ok(String::from("A")),
        Err(Error::SetImage { message: String::from("bad pix") }),
        Err(Error::GetText { message: String::from("later") }),
        Ok(String::from("B")),
    ];
    let err = event_outcome(span(0, 1), lines).unwrap_err();
    assert_eq!(err, Error::SetImage { message: String::from("bad pix") });
}

#[test]
fn every_failure_kind_passes_through() {
    let errors = vec![
        Error::BuildThreadPool { message: String::from("pool") },
        Error::Initialize { message: String::from("init") },
        Error::SetVariable { message: String::from("var") },
        Error::WriteImage { message: String::from("encode") },
        Error::SetImage { message: String::from("pix") },
        Error::GetText { message: String::from("utf8") },
        Error::TesseractNotInitialized,
    ];
    for e in errors {
        let lines: Vec<Result<String, Error>> = vec![Err(e.clone())];
        assert_eq!(event_outcome(span(0, 1), lines).unwrap_err(), e);
    }
}

#[test]
fn outcomes_keep_input_order() {
    // Events A, B, C: outcome positions are bound to input positions, not to
    // any completion order.
    let vobsubs = vec![
        (span(0, 1), vec![Ok(String::from("A"))]),
        (span(2, 3), vec![Ok(String::from("B"))]),
        (span(4, 5), vec![Ok(String::from("C"))]),
    ];
    let outcomes = process(vobsubs).unwrap();
    let texts: Vec<(TimeSpan, String)> = outcomes.into_iter().map(|o| o.unwrap()).collect();
    assert_eq!(
        texts,
        vec![
            (span(0, 1), String::from("A")),
            (span(2, 3), String::from("B")),
            (span(4, 5), String::from("C")),
        ]
    );
}

#[test]
fn recoverable_failure_leaves_other_events_untouched() {
    // A per-image failure is recoverable: it fails its own event only and the
    // run goes on.
    let vobsubs = vec![
        (span(0, 1), vec![Ok(String::from("A"))]),
        (span(2, 3), vec![Err(Error::SetImage { message: String::from("bad pix") })]),
        (span(4, 5), vec![Ok(String::from("C"))]),
    ];
    let outcomes = process(vobsubs).unwrap();
    assert_eq!(outcomes.len(), 3);
    assert_eq!(outcomes[0].as_ref().unwrap().1, "A");
    assert!(outcomes[1].is_err());
    assert_eq!(outcomes[2].as_ref().unwrap().1, "C");
}

#[test]
fn every_recoverable_failure_kind_continues_the_run() {
    let errors = vec![
        Error::WriteImage { message: String::from("encode") },
        Error::SetImage { message: String::from("pix") },
        Error::GetText { message: String::from("utf8") },
        Error::TesseractNotInitialized,
    ];
    for e in errors {
        let vobsubs = vec![
            (span(0, 1), vec![Err(e.clone())]),
            (span(2, 3), vec![Ok(String::from("B"))]),
        ];
        let outcomes = process(vobsubs).unwrap();
        assert_eq!(outcomes[0], Err(e));
        assert_eq!(outcomes[1].as_ref().unwrap().1, "B");
    }
}

#[test]
fn construction_failure_aborts_the_whole_run() {
    // An engine-construction failure is fatal: processing aborts with it,
    // even though a later event would have succeeded.
    let vobsubs = vec![
        (span(0, 1), vec![Ok(String::from("A"))]),
        (span(2, 3), vec![Err(Error::Initialize { message: String::from("bad tessdata") })]),
        (span(4, 5), vec![Ok(String::from("C"))]),
    ];
    let err = process(vobsubs).unwrap_err();
    assert_eq!(err, Error::Initialize { message: String::from("bad tessdata") });
}

#[test]
fn every_construction_failure_kind_is_fatal() {
    let errors = vec![
        Error::BuildThreadPool { message: String::from("pool") },
        Error::Initialize { message: String::from("init") },
        Error::SetVariable { message: String::from("var") },
    ];
    for e in errors {
        let vobsubs = vec![(span(0, 1), vec![Err(e.clone())])];
        assert_eq!(process(vobsubs).unwrap_err(), e);
    }
}

#[test]
fn the_first_construction_failure_wins() {
    let vobsubs = vec![
        (span(0, 1), vec![Err(Error::SetVariable { message: String::from("first") })]),
        (span(2, 3), vec![Err(Error::Initialize { message: String::from("second") })]),
    ];
    let err = process(vobsubs).unwrap_err();
    assert_eq!(err, Error::SetVariable { message: String::from("first") });
}

#[test]
fn aggregation_drops_failures_and_reports_them() {
    let outcomes: Vec<Result<(TimeSpan, String), Error>> = vec![
        Ok((span(0, 1), String::from("A"))),
        Err(Error::GetText { message: String::from("bad") }),
        Ok((span(4, 5), String::from("C"))),
    ];
    let (subs, code) = aggregate_outcomes(outcomes);
    assert_eq!(
        subs,
        vec![(span(0, 1), String::from("A")), (span(4, 5), String::from("C"))]
    );
    assert_eq!(code, 1);
}

#[test]
fn aggregation_of_all_successes_is_clean() {
    let outcomes: Vec<Result<(TimeSpan, String), Error>> =
        vec![Ok((span(0, 1), String::from("A")))];
    let (subs, code) = aggregate_outcomes(outcomes);
    assert_eq!(subs.len(), 1);
    assert_eq!(code, 0);
}

#[test]
fn preprocessing_skips_blank_events_and_keeps_order() {
    // Three events: text, fully transparent, text. The blank one is skipped,
    // not an error, and the others keep their time spans in order.
    let textual = |start: i64| SubtitleEvent {
        start_ms: start,
        end_ms: start + 10,
        force: false,
        width: 2,
        height: 1,
        raw: vec![1, 1],
        palette: vec![0, 0, 5, 0],
        alpha: vec![0, 0, 9, 0],
    };
    let blank = SubtitleEvent {
        start_ms: 100,
        end_ms: 110,
        force: true,
        width: 2,
        height: 1,
        raw: vec![1, 1],
        palette: vec![0, 0, 5, 0],
        alpha: vec![0, 0, 0, 0],
    };
    let events = vec![textual(0), blank, textual(200)];
    let mut palette = vec![0u32; 16];
    palette[5] = 50;
    let opt = Opt {
        threshold: Threshold { num: 1, den: 2 },
        dpi: 150,
        border: 1,
        tessdata_dir: None,
        lang: String::from("eng"),
        blacklist: String::new(),
        config: Vec::new(),
    };
    let subs = preprocess_subtitles(&events, &palette, &opt);
    assert_eq!(subs.len(), 2);
    assert_eq!(subs[0].time_span, TimeSpan { start_ms: 0, end_ms: 10 });
    assert_eq!(subs[1].time_span, TimeSpan { start_ms: 200, end_ms: 210 });
    assert!(!subs[0].force && !subs[1].force);
    assert_eq!(subs[0].images.len(), 1);
    assert_eq!((subs[0].images[0].width, subs[0].images[0].height), (4, 3));
}
