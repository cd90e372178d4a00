//! Engine bootstrap settings of the web editor and the lookup tool: engine
//! readiness, the startup profile chosen from the page's query string, the
//! URL of a data asset, the escaping of startup-trace text, and the decoder
//! and span-proposal modes the command line names.

use vstd::prelude::*;
use crate::text::{
    append_chars, chars_eq, chars_of, first_index_of, find_char, slice_to_vec, split_chars, split_on,
    string_from_chars, trim, trimmed, char_views,
};
use crate::tsf_driver::SpanProposalMode;

verus! {

/// How far the editor's engines have come.
#[derive(Clone, Copy, Debug, PartialEq, Eq, Structural)]
pub enum EngineReadiness {
    Booting,
    LegacyReady,
    FullReady,
    Failed,
}

impl EngineReadiness {
    /// Whether the editor can stop showing its loading state: any engine is
    /// ready, or loading failed.
    pub fn is_ready(self) -> (b: bool)
        ensures
            b == (self != EngineReadiness::Booting),
    {
        match self {
            EngineReadiness::Booting => false,
            _ => true,
        }
    }
}

/// The label of a readiness in startup traces.
pub fn engine_readiness_label(readiness: EngineReadiness) -> (l: &'static str)
    ensures
        l@ == match readiness {
            EngineReadiness::Booting => "booting"@,
            EngineReadiness::LegacyReady => "legacy_ready"@,
            EngineReadiness::FullReady => "full_ready"@,
            EngineReadiness::Failed => "failed"@,
        },
{
    match readiness {
        EngineReadiness::Booting => "booting",
        EngineReadiness::LegacyReady => "legacy_ready",
        EngineReadiness::FullReady => "full_ready",
        EngineReadiness::Failed => "failed",
    }
}

/// Which data the web editor fetches at startup, and when it reports ready.
#[derive(Clone, Copy, Debug, PartialEq, Eq, Structural)]
pub enum StartupProfile {
    Baseline,
    LexiconOnly,
    DeferFull,
    BaselineCompressionAudit,
}

/// The name of a profile, as the query string and traces spell it.
pub open spec fn profile_label(p: StartupProfile) -> Seq<char> {
    match p {
        StartupProfile::Baseline => "baseline"@,
        StartupProfile::LexiconOnly => "lexicon_only"@,
        StartupProfile::DeferFull => "defer_full"@,
        StartupProfile::BaselineCompressionAudit => "baseline_compression_audit"@,
    }
}

impl StartupProfile {
    /// The profile's name.
    pub fn label(self) -> (l: &'static str)
        ensures
            l@ == profile_label(self),
    {
        match self {
            StartupProfile::Baseline => "baseline",
            StartupProfile::LexiconOnly => "lexicon_only",
            StartupProfile::DeferFull => "defer_full",
            StartupProfile::BaselineCompressionAudit => "baseline_compression_audit",
        }
    }

    /// Whether the part-of-speech data is fetched: in every profile but the
    /// lexicon-only one.
    pub fn should_fetch_khpos(self) -> (b: bool)
        ensures
            b == (self != StartupProfile::LexiconOnly),
    {
        match self {
            StartupProfile::LexiconOnly => false,
            _ => true,
        }
    }

    /// Whether readiness waits for the full engine: in the baseline
    /// profiles.
    pub fn should_wait_for_full_before_ready(self) -> (b: bool)
        ensures
            b == (self == StartupProfile::Baseline || self == StartupProfile::BaselineCompressionAudit),
    {
        match self {
            StartupProfile::Baseline => true,
            StartupProfile::BaselineCompressionAudit => true,
            _ => false,
        }
    }

    /// Whether response headers are recorded: in the compression audit.
    pub fn should_audit_headers(self) -> (b: bool)
        ensures
            b == (self == StartupProfile::BaselineCompressionAudit),
    {
        match self {
            StartupProfile::BaselineCompressionAudit => true,
            _ => false,
        }
    }
}

/// `s` without its leading `c` characters.
pub open spec fn strip_leading(s: Seq<char>, c: char) -> Seq<char>
    decreases s.len(),
{
    if s.len() > 0 && s[0] == c {
        strip_leading(s.drop_first(), c)
    } else {
        s
    }
}

/// `s` without its trailing `c` characters.
pub open spec fn strip_trailing(s: Seq<char>, c: char) -> Seq<char>
    decreases s.len(),
{
    if s.len() > 0 && s.last() == c {
        strip_trailing(s.drop_last(), c)
    } else {
        s
    }
}

/// ASCII upper-case letters lowered; other characters kept.
pub open spec fn ascii_lower(c: char) -> char {
    if 'A' <= c <= 'Z' {
        ((c as u32) + 32) as char
    } else {
        c
    }
}

/// The value of the first `startup_profile=` pair among `pairs`, lowered.
pub open spec fn profile_value(pairs: Seq<Seq<char>>) -> Option<Seq<char>>
    decreases pairs.len(),
{
    if pairs.len() == 0 {
        None
    } else {
        let p = pairs[0];
        match first_index_of(p, '=') {
            Some(k) => if p.take(k) == "startup_profile"@ {
                Some(p.skip(k + 1).map_values(|c: char| ascii_lower(c)))
            } else {
                profile_value(pairs.drop_first())
            },
            None => profile_value(pairs.drop_first()),
        }
    }
}

/// The profile a query string asks for; `defer_full` when it names none.
pub open spec fn profile_for_query(query: Seq<char>) -> StartupProfile {
    match profile_value(split_on(strip_leading(query, '?'), '&')) {
        Some(v) => if v == "baseline"@ {
            StartupProfile::Baseline
        } else if v == "lexicon_only"@ {
            StartupProfile::LexiconOnly
        } else if v == "defer_full"@ {
            StartupProfile::DeferFull
        } else if v == "baseline_compression_audit"@ {
            StartupProfile::BaselineCompressionAudit
        } else {
            StartupProfile::DeferFull
        },
        None => StartupProfile::DeferFull,
    }
}

/// Chooses the startup profile from the page's query string
/// (`location.search`).
pub fn profile_from_query(query: &str) -> (p: StartupProfile)
    ensures
        p == profile_for_query(query@),
{
    let q = chars_of(query);
    let mut start: usize = 0;
    assert(q@.skip(0) =~= q@);
    while start < q.len() && q[start] == '?'
        invariant
            start <= q@.len(),
            strip_leading(q@, '?') == strip_leading(q@.skip(start as int), '?'),
        decreases q@.len() - start,
    {
        assert(q@.skip(start as int)[0] == q@[start as int]);
        assert(q@.skip(start as int).drop_first() =~= q@.skip(start + 1));
        start = start + 1;
    }
    let rest = slice_to_vec(q.as_slice(), start, q.len());
    proof {
        assert(q@.subrange(start as int, q@.len() as int) =~= q@.skip(start as int));
        if start < q@.len() {
            assert(q@.skip(start as int)[0] == q@[start as int]);
        }
    }
    let pairs = split_chars(rest.as_slice(), '&');
    let ghost ps = char_views(pairs@);
    let key = chars_of("startup_profile");
    let mut value: Option<Vec<char>> = None;
    let mut i: usize = 0;
    assert(ps.skip(0) =~= ps);
    while i < pairs.len() && value.is_none()
        invariant
            ps == char_views(pairs@),
            key@ == "startup_profile"@,
            i <= ps.len(),
            match value {
                None => profile_value(ps) == profile_value(ps.skip(i as int)),
                Some(v) => profile_value(ps) == Some(v@),
            },
        decreases ps.len() - i,
    {
        let pair = &pairs[i];
        assert(ps.skip(i as int)[0] == pair@);
        assert(ps.skip(i as int).drop_first() =~= ps.skip(i + 1));
        assert(pair@.subrange(0, pair@.len() as int) =~= pair@);
        match find_char(pair.as_slice(), 0, pair.len(), '=') {
            Some(k) => {
                let name = slice_to_vec(pair.as_slice(), 0, k);
                assert(name@ =~= pair@.take(k as int));
                if chars_eq(name.as_slice(), key.as_slice()) {
                    let mut lowered: Vec<char> = Vec::new();
                    let mut j: usize = k + 1;
                    assert(lowered@ =~= pair@.subrange(k + 1, j as int).map_values(|c: char| ascii_lower(c)));
                    while j < pair.len()
                        invariant
                            k + 1 <= j <= pair@.len(),
                            lowered@ == pair@.subrange(k + 1, j as int).map_values(|c: char| ascii_lower(c)),
                        decreases pair@.len() - j,
                    {
                        let c = pair[j];
                        let l = if 'A' <= c && c <= 'Z' { ((c as u8) + 32) as char } else { c };
                        lowered.push(l);
                        j = j + 1;
                        assert(lowered@ =~= pair@.subrange(k + 1, j as int).map_values(|c: char| ascii_lower(c)));
                    }
                    assert(pair@.subrange(k + 1, pair@.len() as int) =~= pair@.skip(k + 1));
                    value = Some(lowered);
                }
            },
            None => {},
        }
        i = i + 1;
    }
    proof {
        if value is None {
            assert(ps.skip(i as int) =~= Seq::<Seq<char>>::empty());
        }
    }
    let v = match value {
        Some(v) => v,
        None => {
            return StartupProfile::DeferFull;
        },
    };
    if chars_eq(v.as_slice(), chars_of("baseline").as_slice()) {
        StartupProfile::Baseline
    } else if chars_eq(v.as_slice(), chars_of("lexicon_only").as_slice()) {
        StartupProfile::LexiconOnly
    } else if chars_eq(v.as_slice(), chars_of("defer_full").as_slice()) {
        StartupProfile::DeferFull
    } else if chars_eq(v.as_slice(), chars_of("baseline_compression_audit").as_slice()) {
        StartupProfile::BaselineCompressionAudit
    } else {
        StartupProfile::DeferFull
    }
}

/// `raw` with each backslash and double quote escaped by a backslash.
pub open spec fn json_escaped(raw: Seq<char>) -> Seq<char>
    decreases raw.len(),
{
    if raw.len() == 0 {
        raw
    } else {
        let c = raw.last();
        json_escaped(raw.drop_last()) + if c == '\\' || c == '"' {
            seq!['\\', c]
        } else {
            seq![c]
        }
    }
}

/// Escapes text for a JSON string in a startup trace.
pub fn json_escape(raw: &str) -> (out: String)
    ensures
        out@ == json_escaped(raw@),
{
    let chars = chars_of(raw);
    let mut out: Vec<char> = Vec::new();
    for i in 0..chars.len()
        invariant
            chars@ == raw@,
            out@ == json_escaped(chars@.take(i as int)),
    {
        let c = chars[i];
        assert(chars@.take(i + 1).drop_last() =~= chars@.take(i as int));
        if c == '\\' || c == '"' {
            out.push('\\');
        }
        out.push(c);
        assert(out@ =~= json_escaped(chars@.take(i + 1)));
    }
    assert(chars@.take(chars@.len() as int) =~= chars@);
    string_from_chars(out.as_slice())
}

/// The root the data assets are served under, from the configured base
/// path: trimmed, slashes stripped from both ends and one put in front
/// (`/` alone when nothing is left); none for a blank or missing base.
pub open spec fn asset_root(base: Option<Seq<char>>) -> Option<Seq<char>> {
    match base {
        Some(b) => if trim(b).len() == 0 {
            None
        } else {
            let t = strip_trailing(strip_leading(trim(b), '/'), '/');
            if t.len() == 0 {
                Some(seq!['/'])
            } else {
                Some(seq!['/'] + t)
            }
        },
        None => None,
    }
}

/// The URL of data asset `filename`.
pub open spec fn asset_url(base: Option<Seq<char>>, filename: Seq<char>) -> Seq<char> {
    match asset_root(base) {
        Some(r) => if r == seq!['/'] {
            "/assets/data/"@ + filename
        } else {
            r + "/assets/data/"@ + filename
        },
        None => "./assets/data/"@ + filename,
    }
}

/// The URL of a data asset, given the configured base path.
pub fn data_asset_url(base: Option<&str>, filename: &str) -> (url: String)
    ensures
        url@ == asset_url(
            match base {
                Some(b) => Some(b@),
                None => None,
            },
            filename@,
        ),
{
    let ghost b = match base {
        Some(b) => Some(b@),
        None => None,
    };
    let mut out: Vec<char> = Vec::new();
    let mut rooted = false;
    match base {
        Some(bs) => {
            let t = trimmed(chars_of(bs).as_slice());
            if t.len() > 0 {
                let mut lo: usize = 0;
                assert(t@.skip(0) =~= t@);
                while lo < t.len() && t[lo] == '/'
                    invariant
                        lo <= t@.len(),
                        strip_leading(t@, '/') == strip_leading(t@.skip(lo as int), '/'),
                    decreases t@.len() - lo,
                {
                    assert(t@.skip(lo as int)[0] == t@[lo as int]);
                    assert(t@.skip(lo as int).drop_first() =~= t@.skip(lo + 1));
                    lo = lo + 1;
                }
                proof {
                    if lo < t@.len() {
                        assert(t@.skip(lo as int)[0] == t@[lo as int]);
                    }
                }
                let ghost s1 = t@.skip(lo as int);
                let mut hi: usize = t.len();
                while hi > lo && t[hi - 1] == '/'
                    invariant
                        lo <= hi <= t@.len(),
                        s1 == t@.skip(lo as int),
                        strip_trailing(s1, '/') == strip_trailing(t@.subrange(lo as int, hi as int), '/'),
                    decreases hi,
                {
                    assert(t@.subrange(lo as int, hi as int).drop_last() =~= t@.subrange(lo as int, hi - 1));
                    hi = hi - 1;
                }
                proof {
                    assert(t@.subrange(lo as int, t@.len() as int) =~= s1);
                    if hi > lo {
                        assert(t@.subrange(lo as int, hi as int).last() == t@[hi - 1]);
                    }
                }
                let core = slice_to_vec(t.as_slice(), lo, hi);
                out.push('/');
                if core.len() > 0 {
                    append_chars(&mut out, core.as_slice());
                    rooted = true;
                }
                proof {
                    assert(strip_leading(trim(bs@), '/') == s1);
                }
            }
        },
        None => {},
    }
    if rooted {
        append_chars(&mut out, chars_of("/assets/data/").as_slice());
    } else if out.len() > 0 {
        append_chars(&mut out, chars_of("assets/data/").as_slice());
    } else {
        append_chars(&mut out, chars_of("./assets/data/").as_slice());
    }
    append_chars(&mut out, chars_of(filename).as_slice());
    proof {
        reveal_strlit("/assets/data/");
        reveal_strlit("assets/data/");
        match asset_root(b) {
            Some(r) => {
                if r == seq!['/'] {
                    assert(out@ =~= "/assets/data/"@ + filename@);
                } else {
                    assert(r.len() > 1);
                    assert(out@ =~= r + "/assets/data/"@ + filename@);
                }
            },
            None => {},
        }
    }
    string_from_chars(out.as_slice())
}

/// The readiness the editor reports: full once the full engine is in,
/// else legacy-ready once the phase-A engine is, else still booting.
pub fn current_engine_readiness(full_ready: bool, phase_a_ready: bool) -> (r: EngineReadiness)
    ensures
        r == (if full_ready {
            EngineReadiness::FullReady
        } else if phase_a_ready {
            EngineReadiness::LegacyReady
        } else {
            EngineReadiness::Booting
        }),
{
    if full_ready {
        EngineReadiness::FullReady
    } else if phase_a_ready {
        EngineReadiness::LegacyReady
    } else {
        EngineReadiness::Booting
    }
}

/// One startup-trace event: its stage, its time already written in
/// milliseconds, and an optional detail.
#[derive(Clone, Debug, PartialEq, Eq)]
pub struct TraceEvent {
    pub stage: String,
    pub t_ms: String,
    pub detail: Option<String>,
}

/// The JSON object of one event.
pub open spec fn event_json(e: TraceEvent) -> Seq<char> {
    "{\"stage\":\""@ + json_escaped(e.stage@) + "\",\"t_ms\":"@ + e.t_ms@ + match e.detail {
        Some(d) => ",\"detail\":\""@ + json_escaped(d@) + "\""@,
        None => Seq::empty(),
    } + "}"@
}

/// The events' objects, separated by commas.
pub open spec fn events_json(es: Seq<TraceEvent>) -> Seq<char>
    decreases es.len(),
{
    if es.len() == 0 {
        Seq::empty()
    } else if es.len() == 1 {
        event_json(es[0])
    } else {
        events_json(es.drop_last()) + ","@ + event_json(es.last())
    }
}

/// The startup trace logged once the editor is ready: the profile, the
/// readiness and the events.
pub open spec fn trace_json(profile: StartupProfile, readiness: EngineReadiness, es: Seq<TraceEvent>) -> Seq<char> {
    "{\"profile\":\""@ + profile_label(profile) + "\",\"readiness\":\""@ + readiness_label(readiness)
        + "\",\"events\":["@ + events_json(es) + "]}"@
}

/// The label of a readiness.
pub open spec fn readiness_label(r: EngineReadiness) -> Seq<char> {
    match r {
        EngineReadiness::Booting => "booting"@,
        EngineReadiness::LegacyReady => "legacy_ready"@,
        EngineReadiness::FullReady => "full_ready"@,
        EngineReadiness::Failed => "failed"@,
    }
}

/// The JSON object of one event.
fn event_chars(e: &TraceEvent) -> (v: Vec<char>)
    ensures
        v@ == event_json(*e),
{
    proof {
        reveal_strlit("{\"stage\":\"");
        reveal_strlit("\",\"t_ms\":");
        reveal_strlit(",\"detail\":\"");
        reveal_strlit("\"");
        reveal_strlit("}");
    }
    let mut out = chars_of("{\"stage\":\"");
    append_chars(&mut out, chars_of(json_escape(e.stage.as_str()).as_str()).as_slice());
    append_chars(&mut out, chars_of("\",\"t_ms\":").as_slice());
    append_chars(&mut out, chars_of(e.t_ms.as_str()).as_slice());
    let ghost before_detail = out@;
    let mut tail: Vec<char> = Vec::new();
    match &e.detail {
        Some(d) => {
            append_chars(&mut tail, chars_of(",\"detail\":\"").as_slice());
            append_chars(&mut tail, chars_of(json_escape(d.as_str()).as_str()).as_slice());
            tail.push('"');
            assert(tail@ =~= ",\"detail\":\""@ + json_escaped(d@) + "\""@);
        },
        None => {
            assert(tail@ =~= Seq::<char>::empty());
        },
    }
    append_chars(&mut out, tail.as_slice());
    out.push('}');
    assert(out@ =~= event_json(*e));
    out
}

/// Writes the startup trace (see `trace_json`).
pub fn startup_trace_payload(profile: StartupProfile, readiness: EngineReadiness, events: &Vec<TraceEvent>) -> (out:
    String)
    ensures
        out@ == trace_json(profile, readiness, events@),
{
    proof {
        reveal_strlit("{\"profile\":\"");
        reveal_strlit("\",\"readiness\":\"");
        reveal_strlit("\",\"events\":[");
        reveal_strlit("]}");
        reveal_strlit(",");
        reveal_strlit("{\"stage\":\"");
        reveal_strlit("\",\"t_ms\":");
        reveal_strlit(",\"detail\":\"");
        reveal_strlit("\"");
        reveal_strlit("}");
    }
    let mut out = chars_of("{\"profile\":\"");
    append_chars(&mut out, chars_of(profile.label()).as_slice());
    append_chars(&mut out, chars_of("\",\"readiness\":\"").as_slice());
    append_chars(&mut out, chars_of(engine_readiness_label(readiness)).as_slice());
    append_chars(&mut out, chars_of("\",\"events\":[").as_slice());
    let ghost head = out@;
    assert(out@ =~= head + events_json(events@.take(0)));
    for k in 0..events.len()
        invariant
            out@ == head + events_json(events@.take(k as int)),
    {
        assert(events@.take(k + 1).drop_last() =~= events@.take(k as int));
        assert(events@.take(k + 1).last() == events@[k as int]);
        let ghost before = out@;
        if k > 0 {
            out.push(',');
        }
        let piece = event_chars(&events[k]);
        append_chars(&mut out, piece.as_slice());
        proof {
            reveal_strlit(",");
            if k == 0 {
                assert(events@.take(1) =~= seq![events@[0]]);
                assert(out@ =~= head + event_json(events@[0]));
            } else {
                assert(out@ =~= before + ","@ + event_json(events@[k as int]));
            }
        }
    }
    assert(events@.take(events@.len() as int) =~= events@);
    append_chars(&mut out, chars_of("]}").as_slice());
    assert(out@ =~= trace_json(profile, readiness, events@));
    string_from_chars(out.as_slice())
}

/// The decoders the lookup tool can run.
#[derive(Clone, Copy, Debug, PartialEq, Eq, Structural)]
pub enum DecoderMode {
    Legacy,
    Shadow,
    Wfst,
    Hybrid,
}

/// The decoder a command-line value names.
pub open spec fn decoder_mode_for(value: Seq<char>) -> Option<DecoderMode> {
    if value == "legacy"@ {
        Some(DecoderMode::Legacy)
    } else if value == "shadow"@ {
        Some(DecoderMode::Shadow)
    } else if value == "weighted-span"@ || value == "weighted_span"@ || value == "wfst"@ {
        Some(DecoderMode::Wfst)
    } else if value == "hybrid"@ {
        Some(DecoderMode::Hybrid)
    } else {
        None
    }
}

/// Reads a decoder name.
pub fn parse_decoder_mode(value: &str) -> (m: Option<DecoderMode>)
    ensures
        m == decoder_mode_for(value@),
{
    let v = chars_of(value);
    if chars_eq(v.as_slice(), chars_of("legacy").as_slice()) {
        Some(DecoderMode::Legacy)
    } else if chars_eq(v.as_slice(), chars_of("shadow").as_slice()) {
        Some(DecoderMode::Shadow)
    } else if chars_eq(v.as_slice(), chars_of("weighted-span").as_slice()) || chars_eq(
        v.as_slice(),
        chars_of("weighted_span").as_slice(),
    ) || chars_eq(v.as_slice(), chars_of("wfst").as_slice()) {
        Some(DecoderMode::Wfst)
    } else if chars_eq(v.as_slice(), chars_of("hybrid").as_slice()) {
        Some(DecoderMode::Hybrid)
    } else {
        None
    }
}

/// The span-proposal mode a command-line value names.
pub open spec fn span_mode_for_value(value: Seq<char>) -> Option<SpanProposalMode> {
    if value == "disabled"@ || value == "none"@ || value == "off"@ {
        Some(SpanProposalMode::Disabled)
    } else if value == "static-test"@ || value == "static_test"@ || value == "static"@ {
        Some(SpanProposalMode::StaticTest)
    } else if value == "model"@ {
        Some(SpanProposalMode::Model)
    } else {
        None
    }
}

/// Reads a span-proposal mode name.
pub fn parse_span_proposal_mode(value: &str) -> (m: Option<SpanProposalMode>)
    ensures
        m == span_mode_for_value(value@),
{
    let v = chars_of(value);
    if chars_eq(v.as_slice(), chars_of("disabled").as_slice()) || chars_eq(
        v.as_slice(),
        chars_of("none").as_slice(),
    ) || chars_eq(v.as_slice(), chars_of("off").as_slice()) {
        Some(SpanProposalMode::Disabled)
    } else if chars_eq(v.as_slice(), chars_of("static-test").as_slice()) || chars_eq(
        v.as_slice(),
        chars_of("static_test").as_slice(),
    ) || chars_eq(v.as_slice(), chars_of("static").as_slice()) {
        Some(SpanProposalMode::StaticTest)
    } else if chars_eq(v.as_slice(), chars_of("model").as_slice()) {
        Some(SpanProposalMode::Model)
    } else {
        None
    }
}

} // verus!
