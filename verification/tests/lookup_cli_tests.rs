use khmerime::lookup_cli::{
    eval_queries, parse_lookup_args, render_shadow_eval_output, segmented_live_mode, CliErrorKind, LookupCommand,
};
use khmerime::startup::DecoderMode;
use khmerime::tsf_driver::SpanProposalMode;

fn args(list: &[&str]) -> Vec<String> {
    list.iter().map(|a| a.to_string()).collect()
}

#[test]
fn flags_come_before_the_command() {
    let parsed = parse_lookup_args(&args(&[
        "lookup",
        "--data",
        "words.tsv",
        "--decoder-mode",
        "weighted-span",
        "--shadow-log",
        "--shadow-sample-bps",
        "+2500",
        "--span-proposals",
        "static",
        "--emit-shadow-rows",
        "--output",
        "out.txt",
        "shadow-eval",
        "queries.txt",
    ]))
    .unwrap();
    assert_eq!(parsed.command, LookupCommand::ShadowEval);
    assert_eq!(parsed.argument.as_deref(), Some("queries.txt"));
    let o = parsed.options;
    assert_eq!(o.data_path.as_deref(), Some("words.tsv"));
    assert_eq!(o.output_path.as_deref(), Some("out.txt"));
    assert_eq!(o.decoder_mode, Some(DecoderMode::Wfst));
    assert!(o.shadow_log && o.emit_shadow_rows);
    assert_eq!(o.shadow_sample_bps, Some(2500));
    assert_eq!(o.span_proposals, Some(SpanProposalMode::StaticTest));
}

#[test]
fn stats_needs_no_argument_and_others_do() {
    let stats = parse_lookup_args(&args(&["lookup", "stats", "ignored"])).unwrap();
    assert_eq!(stats.command, LookupCommand::Stats);
    assert_eq!(stats.argument, None);
    assert_eq!(stats.options.decoder_mode, None);
    assert_eq!(parse_lookup_args(&args(&["lookup", "suggest"])).unwrap_err().kind, CliErrorKind::Usage);
    let seg = parse_lookup_args(&args(&["lookup", "segmented", "khnhom"])).unwrap();
    assert_eq!((seg.command, seg.argument.as_deref()), (LookupCommand::Segmented, Some("khnhom")));
}

#[test]
fn bad_command_lines_are_refused() {
    assert_eq!(parse_lookup_args(&args(&["lookup"])).unwrap_err().kind, CliErrorKind::Usage);
    assert_eq!(parse_lookup_args(&args(&["lookup", "--data"])).unwrap_err().kind, CliErrorKind::Usage);
    assert_eq!(parse_lookup_args(&args(&["lookup", "explain", "x"])).unwrap_err().kind, CliErrorKind::Usage);
    let mode = parse_lookup_args(&args(&["lookup", "--decoder-mode", "fast", "stats"])).unwrap_err();
    assert_eq!((mode.kind, mode.value.as_str()), (CliErrorKind::InvalidDecoderMode, "fast"));
    let bps = parse_lookup_args(&args(&["lookup", "--shadow-sample-bps", "10001", "stats"])).unwrap_err();
    assert_eq!((bps.kind, bps.value.as_str()), (CliErrorKind::InvalidShadowSampleBps, "10001"));
    let span = parse_lookup_args(&args(&["lookup", "--span-proposals", "on", "stats"])).unwrap_err();
    assert_eq!(span.kind, CliErrorKind::InvalidSpanProposalMode);
    assert_eq!(
        parse_lookup_args(&args(&["lookup", "--shadow-sample-bps", "10000", "stats"])).unwrap().options.shadow_sample_bps,
        Some(10_000)
    );
}

#[test]
fn query_files_skip_blank_lines_and_comments() {
    let queries = eval_queries("# corpus\n  jea \n\nkhnhom\r\n   # note\ntov");
    assert_eq!(queries, vec!["jea".to_owned(), "khnhom".to_owned(), "tov".to_owned()]);
}

#[test]
fn renders_rows_then_summary_report() {
    let rows = vec!["Shadow\tjea\ttop1_match".to_owned()];
    let rendered =
        render_shadow_eval_output("shadow_eval_queries_v1.txt", "mode\tinput\tmismatch", &rows, "summary.total=1\n", true);
    assert_eq!(
        rendered,
        "mode\tinput\tmismatch\nShadow\tjea\ttop1_match\n\nreport.corpus=shadow_eval_queries_v1.txt\nsummary.total=1\n"
    );
    let quiet = render_shadow_eval_output("q.txt", "h", &rows, "s", false);
    assert_eq!(quiet, "report.corpus=q.txt\ns");
}

#[test]
fn the_segmented_dump_never_runs_the_legacy_decoder_live() {
    assert_eq!(segmented_live_mode(DecoderMode::Legacy), DecoderMode::Shadow);
    assert_eq!(segmented_live_mode(DecoderMode::Hybrid), DecoderMode::Hybrid);
}
