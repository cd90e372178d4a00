use khmerime::startup::{
    current_engine_readiness, startup_trace_payload, TraceEvent, data_asset_url, engine_readiness_label, json_escape, parse_decoder_mode, parse_span_proposal_mode,
    profile_from_query, DecoderMode, EngineReadiness, StartupProfile,
};
use khmerime::tsf_driver::SpanProposalMode;

#[test]
fn the_query_names_the_startup_profile() {
    assert_eq!(profile_from_query("?startup_profile=baseline"), StartupProfile::Baseline);
    assert_eq!(profile_from_query("?a=1&startup_profile=LEXICON_ONLY"), StartupProfile::LexiconOnly);
    assert_eq!(
        profile_from_query("startup_profile=baseline_compression_audit&x"),
        StartupProfile::BaselineCompressionAudit
    );
    assert_eq!(profile_from_query("?startup_profile=defer_full"), StartupProfile::DeferFull);
}

#[test]
fn an_unknown_or_missing_profile_defers_the_full_engine() {
    assert_eq!(profile_from_query(""), StartupProfile::DeferFull);
    assert_eq!(profile_from_query("?startup_profile=fast"), StartupProfile::DeferFull);
    assert_eq!(profile_from_query("?startup_profile"), StartupProfile::DeferFull);
    assert_eq!(
        profile_from_query("?startup_profile=baseline&startup_profile=lexicon_only"),
        StartupProfile::Baseline
    );
}

#[test]
fn profiles_decide_what_is_fetched_and_awaited() {
    assert!(!StartupProfile::LexiconOnly.should_fetch_khpos());
    assert!(StartupProfile::DeferFull.should_fetch_khpos());
    assert!(StartupProfile::Baseline.should_wait_for_full_before_ready());
    assert!(!StartupProfile::DeferFull.should_wait_for_full_before_ready());
    assert!(StartupProfile::BaselineCompressionAudit.should_audit_headers());
    assert!(!StartupProfile::Baseline.should_audit_headers());
    assert_eq!(StartupProfile::BaselineCompressionAudit.label(), "baseline_compression_audit");
}

#[test]
fn readiness_labels_and_readiness() {
    assert!(!EngineReadiness::Booting.is_ready());
    assert!(EngineReadiness::LegacyReady.is_ready());
    assert!(EngineReadiness::Failed.is_ready());
    assert_eq!(engine_readiness_label(EngineReadiness::FullReady), "full_ready");
    assert_eq!(engine_readiness_label(EngineReadiness::Booting), "booting");
}

#[test]
fn json_escape_escapes_quotes_and_backslashes() {
    assert_eq!(json_escape(r#"say "hi" \ bye"#), r#"say \"hi\" \\ bye"#);
    assert_eq!(json_escape("ខ្មែរ"), "ខ្មែរ");
}

#[test]
fn data_assets_live_under_the_base_path() {
    assert_eq!(data_asset_url(None, "lexicon.bin"), "./assets/data/lexicon.bin");
    assert_eq!(data_asset_url(Some("   "), "lexicon.bin"), "./assets/data/lexicon.bin");
    assert_eq!(data_asset_url(Some("/"), "lexicon.bin"), "/assets/data/lexicon.bin");
    assert_eq!(data_asset_url(Some(" /khmerime/ "), "lexicon.bin"), "/khmerime/assets/data/lexicon.bin");
    assert_eq!(data_asset_url(Some("app"), "k.bin"), "/app/assets/data/k.bin");
}

#[test]
fn command_line_modes_parse() {
    assert_eq!(parse_decoder_mode("weighted_span"), Some(DecoderMode::Wfst));
    assert_eq!(parse_decoder_mode("hybrid"), Some(DecoderMode::Hybrid));
    assert_eq!(parse_decoder_mode("Hybrid"), None);
    assert_eq!(parse_span_proposal_mode("off"), Some(SpanProposalMode::Disabled));
    assert_eq!(parse_span_proposal_mode("static"), Some(SpanProposalMode::StaticTest));
    assert_eq!(parse_span_proposal_mode("model"), Some(SpanProposalMode::Model));
    assert_eq!(parse_span_proposal_mode(""), None);
}

#[test]
fn readiness_follows_the_loaded_engines() {
    assert_eq!(current_engine_readiness(true, false), EngineReadiness::FullReady);
    assert_eq!(current_engine_readiness(false, true), EngineReadiness::LegacyReady);
    assert_eq!(current_engine_readiness(false, false), EngineReadiness::Booting);
}

#[test]
fn the_startup_trace_is_one_json_object() {
    let events = vec![
        TraceEvent { stage: "fetch \"lexicon\"".to_owned(), t_ms: "12.50".to_owned(), detail: None },
        TraceEvent { stage: "ready".to_owned(), t_ms: "40.00".to_owned(), detail: Some("ok".to_owned()) },
    ];
    assert_eq!(
        startup_trace_payload(StartupProfile::DeferFull, EngineReadiness::LegacyReady, &events),
        r#"{"profile":"defer_full","readiness":"legacy_ready","events":[{"stage":"fetch \"lexicon\"","t_ms":12.50},{"stage":"ready","t_ms":40.00,"detail":"ok"}]}"#
    );
    assert_eq!(
        startup_trace_payload(StartupProfile::Baseline, EngineReadiness::Booting, &vec![]),
        r#"{"profile":"baseline","readiness":"booting","events":[]}"#
    );
}
