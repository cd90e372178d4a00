//! The lookup tool's command line: its flags and command, the queries a
//! shadow evaluation reads, and the report it writes.

use vstd::prelude::*;
use crate::startup::{decoder_mode_for, parse_decoder_mode, span_mode_for_value, parse_span_proposal_mode, DecoderMode};
use crate::text::{
    append_chars, char_views, chars_eq, chars_of, lines, lines_of, parse_usize, parse_usize_spec, string_from_chars,
    trim, trimmed,
};
use crate::tsf_driver::SpanProposalMode;

verus! {

/// Highest shadow sample rate, in basis points.
pub const MAX_SHADOW_SAMPLE_BPS: u16 = 10_000;

/// Why a command line was refused.
#[derive(Clone, Copy, Debug, PartialEq, Eq, Structural)]
pub enum CliErrorKind {
    Usage,
    InvalidDecoderMode,
    InvalidShadowSampleBps,
    InvalidSpanProposalMode,
}

/// A refused command line: why, and the value at fault (empty for a usage
/// error).
#[derive(Clone, Debug, PartialEq, Eq)]
pub struct CliError {
    pub kind: CliErrorKind,
    pub value: String,
}

/// The flags given before the command.
#[derive(Clone, Debug, PartialEq, Eq)]
pub struct LookupOptions {
    pub data_path: Option<String>,
    pub output_path: Option<String>,
    pub decoder_mode: Option<DecoderMode>,
    pub shadow_log: bool,
    pub shadow_sample_bps: Option<u16>,
    pub span_proposals: Option<SpanProposalMode>,
    pub emit_shadow_rows: bool,
}

/// The tool's commands.
#[derive(Clone, Copy, Debug, PartialEq, Eq, Structural)]
pub enum LookupCommand {
    Stats,
    Suggest,
    Segmented,
    ShadowEval,
}

/// A command line read: the flags, the command, and its argument (none for
/// `stats`).
#[derive(Clone, Debug, PartialEq, Eq)]
pub struct LookupInvocation {
    pub options: LookupOptions,
    pub command: LookupCommand,
    pub argument: Option<String>,
}

/// The view of the flags: data path, output path, decoder, shadow log,
/// sample rate, span proposals, shadow rows.
pub type OptsView = (
    Option<Seq<char>>,
    Option<Seq<char>>,
    Option<DecoderMode>,
    bool,
    Option<u16>,
    Option<SpanProposalMode>,
    bool,
);

/// The characters of an optional string.
pub open spec fn opt_chars(o: Option<String>) -> Option<Seq<char>> {
    match o {
        Some(s) => Some(s@),
        None => None,
    }
}

/// The view of the flags.
pub open spec fn opts_view(o: LookupOptions) -> OptsView {
    (
        opt_chars(o.data_path),
        opt_chars(o.output_path),
        o.decoder_mode,
        o.shadow_log,
        o.shadow_sample_bps,
        o.span_proposals,
        o.emit_shadow_rows,
    )
}

/// No flag given.
pub open spec fn no_flags() -> OptsView {
    (None, None, None, false, None, None, false)
}

/// The sample rate a value gives: a number (with an optional `+`) of at
/// most ten thousand basis points.
pub open spec fn sample_bps_for(value: Seq<char>) -> Option<u16> {
    match parse_usize_spec(value) {
        Some(v) => if v <= MAX_SHADOW_SAMPLE_BPS {
            Some(v as u16)
        } else {
            None
        },
        None => None,
    }
}

/// The flags read from argument `i` on, starting from `o`, with the index
/// of the first argument that is no flag; or the error of the first bad
/// flag. A flag that needs a value and stands last is a usage error.
pub open spec fn flags_from(args: Seq<Seq<char>>, i: int, o: OptsView) -> Result<(OptsView, int), (CliErrorKind, Seq<char>)>
    decreases args.len() - i,
{
    if i < 0 || i >= args.len() {
        Ok((o, i))
    } else {
        let a = args[i];
        let has_value = i + 1 < args.len();
        if a == "--data"@ {
            if has_value {
                flags_from(args, i + 2, (Some(args[i + 1]), o.1, o.2, o.3, o.4, o.5, o.6))
            } else {
                Err((CliErrorKind::Usage, Seq::empty()))
            }
        } else if a == "--decoder-mode"@ {
            if has_value {
                match decoder_mode_for(args[i + 1]) {
                    Some(m) => flags_from(args, i + 2, (o.0, o.1, Some(m), o.3, o.4, o.5, o.6)),
                    None => Err((CliErrorKind::InvalidDecoderMode, args[i + 1])),
                }
            } else {
                Err((CliErrorKind::Usage, Seq::empty()))
            }
        } else if a == "--shadow-log"@ {
            flags_from(args, i + 1, (o.0, o.1, o.2, true, o.4, o.5, o.6))
        } else if a == "--shadow-sample-bps"@ {
            if has_value {
                match sample_bps_for(args[i + 1]) {
                    Some(v) => flags_from(args, i + 2, (o.0, o.1, o.2, o.3, Some(v), o.5, o.6)),
                    None => Err((CliErrorKind::InvalidShadowSampleBps, args[i + 1])),
                }
            } else {
                Err((CliErrorKind::Usage, Seq::empty()))
            }
        } else if a == "--span-proposals"@ {
            if has_value {
                match span_mode_for_value(args[i + 1]) {
                    Some(m) => flags_from(args, i + 2, (o.0, o.1, o.2, o.3, o.4, Some(m), o.6)),
                    None => Err((CliErrorKind::InvalidSpanProposalMode, args[i + 1])),
                }
            } else {
                Err((CliErrorKind::Usage, Seq::empty()))
            }
        } else if a == "--emit-shadow-rows"@ {
            flags_from(args, i + 1, (o.0, o.1, o.2, o.3, o.4, o.5, true))
        } else if a == "--output"@ {
            if has_value {
                flags_from(args, i + 2, (o.0, Some(args[i + 1]), o.2, o.3, o.4, o.5, o.6))
            } else {
                Err((CliErrorKind::Usage, Seq::empty()))
            }
        } else {
            Ok((o, i))
        }
    }
}

/// The command a name gives.
pub open spec fn command_for(name: Seq<char>) -> Option<LookupCommand> {
    if name == "stats"@ {
        Some(LookupCommand::Stats)
    } else if name == "suggest"@ {
        Some(LookupCommand::Suggest)
    } else if name == "segmented"@ {
        Some(LookupCommand::Segmented)
    } else if name == "shadow-eval"@ {
        Some(LookupCommand::ShadowEval)
    } else {
        None
    }
}

/// What a whole command line (the program name first) asks for: the flags,
/// then a command, then, for every command but `stats`, its argument; a
/// usage error when the program name stands alone, or the command or its
/// argument is missing or unknown.
pub open spec fn invocation_for(args: Seq<Seq<char>>) -> Result<
    (OptsView, LookupCommand, Option<Seq<char>>),
    (CliErrorKind, Seq<char>),
> {
    if args.len() < 2 {
        Err((CliErrorKind::Usage, Seq::empty()))
    } else {
        match flags_from(args, 1, no_flags()) {
            Err(e) => Err(e),
            Ok((o, i)) => if i >= args.len() {
                Err((CliErrorKind::Usage, Seq::empty()))
            } else {
                match command_for(args[i]) {
                    None => Err((CliErrorKind::Usage, Seq::empty())),
                    Some(LookupCommand::Stats) => Ok((o, LookupCommand::Stats, None)),
                    Some(c) => if i + 1 < args.len() {
                        Ok((o, c, Some(args[i + 1])))
                    } else {
                        Err((CliErrorKind::Usage, Seq::empty()))
                    },
                }
            },
        }
    }
}

/// A usage error.
fn usage() -> (e: CliError)
    ensures
        e.kind == CliErrorKind::Usage,
        e.value@ == Seq::<char>::empty(),
{
    CliError { kind: CliErrorKind::Usage, value: String::new() }
}

/// Whether `a` is the flag `name`.
fn is_flag(a: &Vec<char>, name: &str) -> (b: bool)
    ensures
        b == (a@ == name@),
{
    let n = chars_of(name);
    chars_eq(a.as_slice(), n.as_slice())
}

/// Reads the lookup tool's command line, the program name first (see
/// `invocation_for`).
pub fn parse_lookup_args(args: &Vec<String>) -> (r: Result<LookupInvocation, CliError>)
    ensures
        match r {
            Ok(v) => invocation_for(args@.map_values(|a: String| a@)) == Ok::<
                (OptsView, LookupCommand, Option<Seq<char>>),
                (CliErrorKind, Seq<char>),
            >((opts_view(v.options), v.command, opt_chars(v.argument))),
            Err(e) => invocation_for(args@.map_values(|a: String| a@)) == Err::<
                (OptsView, LookupCommand, Option<Seq<char>>),
                (CliErrorKind, Seq<char>),
            >((e.kind, e.value@)),
        },
{
    proof {
        reveal_strlit("--data");
        reveal_strlit("--decoder-mode");
        reveal_strlit("--shadow-log");
        reveal_strlit("--shadow-sample-bps");
        reveal_strlit("--span-proposals");
        reveal_strlit("--emit-shadow-rows");
        reveal_strlit("--output");
    }
    let ghost all = args@.map_values(|a: String| a@);
    if args.len() < 2 {
        return Err(usage());
    }
    let mut opts = LookupOptions {
        data_path: None,
        output_path: None,
        decoder_mode: None,
        shadow_log: false,
        shadow_sample_bps: None,
        span_proposals: None,
        emit_shadow_rows: false,
    };
    let mut i: usize = 1;
    loop
        invariant
            all == args@.map_values(|a: String| a@),
            1 <= i <= args@.len(),
            args@.len() >= 2,
            flags_from(all, 1, no_flags()) == flags_from(all, i as int, opts_view(opts)),
        ensures
            1 <= i <= args@.len(),
            flags_from(all, 1, no_flags()) == Ok::<(OptsView, int), (CliErrorKind, Seq<char>)>(
                (opts_view(opts), i as int),
            ),
        decreases args@.len() - i,
    {
        if i >= args.len() {
            break;
        }
        let a = chars_of(args[i].as_str());
        assert(a@ == all[i as int]);
        let has_value = i + 1 < args.len();
        if is_flag(&a, "--data") {
            if !has_value {
                return Err(usage());
            }
            opts = LookupOptions { data_path: Some(args[i + 1].clone()), ..opts };
            i = i + 2;
        } else if is_flag(&a, "--decoder-mode") {
            if !has_value {
                return Err(usage());
            }
            match parse_decoder_mode(args[i + 1].as_str()) {
                Some(m) => {
                    opts = LookupOptions { decoder_mode: Some(m), ..opts };
                },
                None => {
                    return Err(CliError { kind: CliErrorKind::InvalidDecoderMode, value: args[i + 1].clone() });
                },
            }
            i = i + 2;
        } else if is_flag(&a, "--shadow-log") {
            opts = LookupOptions { shadow_log: true, ..opts };
            i = i + 1;
        } else if is_flag(&a, "--shadow-sample-bps") {
            if !has_value {
                return Err(usage());
            }
            let raw = chars_of(args[i + 1].as_str());
            assert(raw@.subrange(0, raw@.len() as int) =~= raw@);
            match parse_usize(raw.as_slice(), 0, raw.len()) {
                Some(v) => {
                    if v <= MAX_SHADOW_SAMPLE_BPS as usize {
                        opts = LookupOptions { shadow_sample_bps: Some(v as u16), ..opts };
                    } else {
                        return Err(
                            CliError { kind: CliErrorKind::InvalidShadowSampleBps, value: args[i + 1].clone() },
                        );
                    }
                },
                None => {
                    return Err(CliError { kind: CliErrorKind::InvalidShadowSampleBps, value: args[i + 1].clone() });
                },
            }
            i = i + 2;
        } else if is_flag(&a, "--span-proposals") {
            if !has_value {
                return Err(usage());
            }
            match parse_span_proposal_mode(args[i + 1].as_str()) {
                Some(m) => {
                    opts = LookupOptions { span_proposals: Some(m), ..opts };
                },
                None => {
                    return Err(
                        CliError { kind: CliErrorKind::InvalidSpanProposalMode, value: args[i + 1].clone() },
                    );
                },
            }
            i = i + 2;
        } else if is_flag(&a, "--emit-shadow-rows") {
            opts = LookupOptions { emit_shadow_rows: true, ..opts };
            i = i + 1;
        } else if is_flag(&a, "--output") {
            if !has_value {
                return Err(usage());
            }
            opts = LookupOptions { output_path: Some(args[i + 1].clone()), ..opts };
            i = i + 2;
        } else {
            break;
        }
    }
    if i >= args.len() {
        return Err(usage());
    }
    let name = chars_of(args[i].as_str());
    assert(name@ == all[i as int]);
    let command = if is_flag(&name, "stats") {
        LookupCommand::Stats
    } else if is_flag(&name, "suggest") {
        LookupCommand::Suggest
    } else if is_flag(&name, "segmented") {
        LookupCommand::Segmented
    } else if is_flag(&name, "shadow-eval") {
        LookupCommand::ShadowEval
    } else {
        return Err(usage());
    };
    if command == LookupCommand::Stats {
        return Ok(LookupInvocation { options: opts, command, argument: None });
    }
    if i + 1 >= args.len() {
        return Err(usage());
    }
    Ok(LookupInvocation { options: opts, command, argument: Some(args[i + 1].clone()) })
}

/// A line of a query file is a query when, trimmed, it is neither empty
/// nor a `#` comment.
pub open spec fn is_query(line: Seq<char>) -> bool {
    trim(line).len() > 0 && trim(line)[0] != '#'
}

/// The trimmed queries among `ls`, in order.
pub open spec fn queries_of(ls: Seq<Seq<char>>) -> Seq<Seq<char>>
    decreases ls.len(),
{
    if ls.len() == 0 {
        Seq::empty()
    } else {
        let p = queries_of(ls.drop_last());
        if is_query(ls.last()) {
            p.push(trim(ls.last()))
        } else {
            p
        }
    }
}

/// The queries a shadow evaluation runs, from the text of its query file
/// (see `queries_of`).
pub fn eval_queries(source: &str) -> (qs: Vec<String>)
    ensures
        qs@.map_values(|q: String| q@) == queries_of(lines(source@)),
{
    let text = chars_of(source);
    let ls = lines_of(&text);
    let ghost lv = char_views(ls@);
    let mut qs: Vec<String> = Vec::new();
    for k in 0..ls.len()
        invariant
            lv == char_views(ls@),
            lv == lines(source@),
            qs@.map_values(|q: String| q@) == queries_of(lv.take(k as int)),
    {
        assert(lv.take(k + 1).drop_last() =~= lv.take(k as int));
        assert(lv.take(k + 1).last() == ls@[k as int]@);
        let q = trimmed(ls[k].as_slice());
        if q.len() > 0 && q[0] != '#' {
            let ghost before = qs@.map_values(|q: String| q@);
            qs.push(string_from_chars(q.as_slice()));
            assert(qs@.map_values(|q: String| q@) =~= before.push(q@));
        }
    }
    assert(lv.take(lv.len() as int) =~= lv);
    qs
}

/// Each row followed by a newline.
pub open spec fn rows_block(rows: Seq<Seq<char>>) -> Seq<char>
    decreases rows.len(),
{
    if rows.len() == 0 {
        Seq::empty()
    } else {
        rows_block(rows.drop_last()) + rows.last() + seq!['\n']
    }
}

/// A shadow evaluation's report: when rows are asked for, the header, the
/// rows and a blank line; then the corpus line and the summary.
pub open spec fn shadow_report(
    label: Seq<char>,
    header: Seq<char>,
    rows: Seq<Seq<char>>,
    summary: Seq<char>,
    emit_rows: bool,
) -> Seq<char> {
    (if emit_rows {
        header + seq!['\n'] + rows_block(rows) + seq!['\n']
    } else {
        Seq::empty()
    }) + "report.corpus="@ + label + seq!['\n'] + summary
}

/// Writes a shadow evaluation's report from its corpus name, the row
/// header, the rendered rows and the rendered summary (see
/// `shadow_report`).
pub fn render_shadow_eval_output(
    corpus_label: &str,
    header: &str,
    rows: &Vec<String>,
    summary: &str,
    emit_shadow_rows: bool,
) -> (out: String)
    ensures
        out@ == shadow_report(corpus_label@, header@, rows@.map_values(|r: String| r@), summary@, emit_shadow_rows),
{
    proof {
        reveal_strlit("report.corpus=");
    }
    let ghost rv = rows@.map_values(|r: String| r@);
    let mut out: Vec<char> = Vec::new();
    if emit_shadow_rows {
        append_chars(&mut out, chars_of(header).as_slice());
        out.push('\n');
        let ghost head = out@;
        assert(out@ =~= head + rows_block(rv.take(0)));
        for k in 0..rows.len()
            invariant
                rv == rows@.map_values(|r: String| r@),
                out@ == head + rows_block(rv.take(k as int)),
        {
            assert(rv.take(k + 1).drop_last() =~= rv.take(k as int));
            assert(rv.take(k + 1).last() == rows@[k as int]@);
            append_chars(&mut out, chars_of(rows[k].as_str()).as_slice());
            out.push('\n');
            assert(out@ =~= head + rows_block(rv.take(k + 1)));
        }
        assert(rv.take(rv.len() as int) =~= rv);
        out.push('\n');
    }
    let ghost lead = out@;
    append_chars(&mut out, chars_of("report.corpus=").as_slice());
    append_chars(&mut out, chars_of(corpus_label).as_slice());
    out.push('\n');
    append_chars(&mut out, chars_of(summary).as_slice());
    assert(out@ =~= shadow_report(corpus_label@, header@, rv, summary@, emit_shadow_rows));
    string_from_chars(out.as_slice())
}

/// The live decoder of the segmented dump, matching the desktop bridge's
/// full engine: the shadow decoder in place of the legacy one.
pub fn segmented_live_mode(mode: DecoderMode) -> (m: DecoderMode)
    ensures
        m == (if mode == DecoderMode::Legacy {
            DecoderMode::Shadow
        } else {
            mode
        }),
{
    match mode {
        DecoderMode::Legacy => DecoderMode::Shadow,
        _ => mode,
    }
}

} // verus!
