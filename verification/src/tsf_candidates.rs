//! The TSF candidate window's layout and text: its size, where it sits next
//! to the caret inside the monitor's work area, the labels of its rows, and
//! the one-line inline preview used where no popup is shown.

use vstd::prelude::*;
use crate::session::{display_views, strs, CandidateDisplayEntry, SegmentPreviewEntry};
use crate::session::CursorLocation;
use crate::text::{
    append_chars, char_views, chars_of, decimal, decimal_chars, join_chars, join_with, string_from_chars, trim,
    trimmed,
};
use crate::tsf_surface::{preview_views, CandidateSurface, CandidateSurfaceMode};

verus! {

/// Narrowest candidate window, in pixels.
pub const MIN_WIN_W: i32 = 300;

/// Widest candidate window, in pixels.
pub const MAX_WIN_W: i32 = 720;

/// Height of one row.
pub const ROW_H: i32 = 32;

/// Horizontal padding.
pub const PAD_X: i32 = 10;

/// Vertical padding.
pub const PAD_Y: i32 = 6;

/// Most rows the window shows.
pub const MAX_ROWS: usize = 9;

/// Gap between the caret and the window.
pub const ANCHOR_GAP: i32 = 2;

/// Gap between a row's label and its hints.
pub const TEXT_GAP: i32 = 12;

/// A screen rectangle.
#[derive(Clone, Copy, Debug, Default, PartialEq, Eq, Structural)]
pub struct Rect {
    pub left: i32,
    pub top: i32,
    pub right: i32,
    pub bottom: i32,
}

/// Where the candidate window goes.
#[derive(Clone, Copy, Debug, Default, PartialEq, Eq, Structural)]
pub struct CandidateWindowPlacement {
    pub x: i32,
    pub y: i32,
    pub width: i32,
    pub height: i32,
}

/// `value` clamped to `[min, max]`; `min` when the range is empty.
pub open spec fn clamp_spec(value: int, min: int, max: int) -> int {
    if min > max {
        min
    } else if value < min {
        min
    } else if value > max {
        max
    } else {
        value
    }
}

/// Clamps `value` to `[min, max]`, preferring `min` when the range is empty.
pub fn clamp(value: i32, min: i32, max: i32) -> (r: i32)
    ensures
        r == clamp_spec(value as int, min as int, max as int),
{
    if min > max {
        min
    } else if value < min {
        min
    } else if value > max {
        max
    } else {
        value
    }
}

/// Height of a window with `row_count` rows.
pub fn candidate_window_height(row_count: usize) -> (h: i32)
    requires
        PAD_Y * 2 + row_count * ROW_H <= i32::MAX,
    ensures
        h == PAD_Y * 2 + row_count * ROW_H,
{
    PAD_Y * 2 + (row_count as i32) * ROW_H
}

/// The window width for rows whose widest text is `text_width` pixels:
/// the text plus padding, at least `MIN_WIN_W` and at most `MAX_WIN_W`, and
/// never wider than the work area.
pub open spec fn window_width_spec(text_width: int, work_area_width: int) -> int {
    let w = if work_area_width < 1 {
        1
    } else {
        work_area_width
    };
    let min_width = if MIN_WIN_W < w {
        MIN_WIN_W as int
    } else {
        w
    };
    let capped = if MAX_WIN_W < w {
        MAX_WIN_W as int
    } else {
        w
    };
    let max_width = if capped < min_width {
        min_width
    } else {
        capped
    };
    clamp_spec(text_width + PAD_X * 2 + TEXT_GAP, min_width, max_width)
}

/// The window width for a given text width and work-area width.
pub fn candidate_window_width_for_text_width(text_width: i32, work_area_width: i32) -> (w: i32)
    requires
        text_width + PAD_X * 2 + TEXT_GAP <= i32::MAX,
    ensures
        w == window_width_spec(text_width as int, work_area_width as int),
{
    let work = if work_area_width < 1 { 1 } else { work_area_width };
    let min_width = if MIN_WIN_W < work { MIN_WIN_W } else { work };
    let capped = if MAX_WIN_W < work { MAX_WIN_W } else { work };
    let max_width = if capped < min_width { min_width } else { capped };
    clamp(text_width + PAD_X * 2 + TEXT_GAP, min_width, max_width)
}

/// The window is never wider than the work area, nor narrower than the
/// smaller of `MIN_WIN_W` and the work area.
pub proof fn law_window_width_fits(text_width: int, work_area_width: int)
    requires
        work_area_width >= 1,
    ensures
        window_width_spec(text_width, work_area_width) <= work_area_width,
        window_width_spec(text_width, work_area_width) >= if MIN_WIN_W < work_area_width {
            MIN_WIN_W as int
        } else {
            work_area_width
        },
{
}

/// Width of a work area, at least one pixel.
pub fn work_area_width(work_area: Rect) -> (w: i32)
    requires
        i32::MIN <= work_area.right - work_area.left <= i32::MAX,
    ensures
        w == if work_area.right - work_area.left < 1 {
            1
        } else {
            work_area.right - work_area.left
        },
{
    let w = work_area.right - work_area.left;
    if w < 1 {
        1
    } else {
        w
    }
}

/// The caret's bottom edge; a negative caret height counts as zero.
pub open spec fn anchor_bottom(anchor: CursorLocation) -> int {
    anchor.y + if anchor.height < 0 {
        0
    } else {
        anchor.height as int
    }
}

/// The window's placement: left-aligned with the caret and kept inside the
/// work area horizontally; just below the caret when it fits there, else
/// just above, else clamped into the work area.
pub open spec fn placement_spec(anchor: CursorLocation, width: int, height: int, work_area: Rect) -> (int, int) {
    let below_y = anchor_bottom(anchor) + ANCHOR_GAP;
    let above_y = anchor.y - height - ANCHOR_GAP;
    let x = clamp_spec(anchor.x as int, work_area.left as int, work_area.right - width);
    let y = if below_y + height <= work_area.bottom {
        below_y
    } else if above_y >= work_area.top {
        above_y
    } else {
        clamp_spec(below_y, work_area.top as int, work_area.bottom - height)
    };
    (x, y)
}

/// Computes where the candidate window goes.
pub fn candidate_window_placement(anchor: &CursorLocation, width: i32, height: i32, work_area: Rect) -> (p:
    CandidateWindowPlacement)
    requires
        anchor_bottom(*anchor) + ANCHOR_GAP + height <= i32::MAX,
        anchor_bottom(*anchor) + ANCHOR_GAP <= i32::MAX,
        anchor_bottom(*anchor) + ANCHOR_GAP + height >= i32::MIN,
        i32::MIN <= anchor.y - height <= i32::MAX,
        i32::MIN <= anchor.y - height - ANCHOR_GAP <= i32::MAX,
        i32::MIN <= work_area.right - width <= i32::MAX,
        i32::MIN <= work_area.bottom - height <= i32::MAX,
    ensures
        (p.x as int, p.y as int) == placement_spec(*anchor, width as int, height as int, work_area),
        p.width == width,
        p.height == height,
{
    let anchor_left = anchor.x;
    let anchor_top = anchor.y;
    let bottom = anchor.y + if anchor.height < 0 { 0 } else { anchor.height };
    let below_y = bottom + ANCHOR_GAP;
    let above_y = anchor_top - height - ANCHOR_GAP;
    let x = clamp(anchor_left, work_area.left, work_area.right - width);
    let y = if below_y + height <= work_area.bottom {
        below_y
    } else if above_y >= work_area.top {
        above_y
    } else {
        clamp(below_y, work_area.top, work_area.bottom - height)
    };
    CandidateWindowPlacement { x, y, width, height }
}

/// A window that fits in the work area stays inside it horizontally; it
/// stays inside vertically too while the caret is within the work area.
pub proof fn law_placement_inside_work_area(anchor: CursorLocation, width: int, height: int, work_area: Rect)
    requires
        0 <= width <= work_area.right - work_area.left,
        0 <= height <= work_area.bottom - work_area.top,
    ensures
        work_area.left <= placement_spec(anchor, width, height, work_area).0,
        placement_spec(anchor, width, height, work_area).0 + width <= work_area.right,
        anchor.y - ANCHOR_GAP <= work_area.bottom ==> placement_spec(anchor, width, height, work_area).1 + height
            <= work_area.bottom,
        anchor_bottom(anchor) + ANCHOR_GAP >= work_area.top ==> work_area.top <= placement_spec(
            anchor,
            width,
            height,
            work_area,
        ).1,
{
}

/// Separator between segments of the preview.
pub const SEGMENT_SEPARATOR: &'static str = " | ";

/// How one preview entry reads: its trimmed output, with its trimmed input
/// in parentheses when there is one, in brackets when focused; nothing when
/// the output is blank.
pub open spec fn preview_part(e: (Seq<char>, Seq<char>, bool)) -> Option<Seq<char>> {
    let output = trim(e.0);
    let input = trim(e.1);
    if output.len() == 0 {
        None
    } else {
        let segment = if input.len() == 0 {
            output
        } else {
            output + seq!['('] + input + seq![')']
        };
        Some(
            if e.2 {
                seq!['['] + segment + seq![']']
            } else {
                segment
            },
        )
    }
}

/// The parts of a preview, blank entries dropped.
pub open spec fn preview_parts(es: Seq<(Seq<char>, Seq<char>, bool)>) -> Seq<Seq<char>>
    decreases es.len(),
{
    if es.len() == 0 {
        Seq::empty()
    } else {
        match preview_part(es.last()) {
            Some(p) => preview_parts(es.drop_last()).push(p),
            None => preview_parts(es.drop_last()),
        }
    }
}

/// The segment preview: the parts joined by `" | "`, or nothing when no
/// entry has output.
pub open spec fn preview_text_spec(es: Seq<(Seq<char>, Seq<char>, bool)>) -> Option<Seq<char>> {
    if preview_parts(es).len() == 0 {
        None
    } else {
        Some(join_with(preview_parts(es), " | "@))
    }
}

/// Appends the characters of `s` to `out`.
fn append_str(out: &mut Vec<char>, s: &str)
    ensures
        final(out)@ == old(out)@ + s@,
{
    let chars = chars_of(s);
    append_chars(out, chars.as_slice());
}

/// The segment preview text of the entries.
pub fn segment_preview_text(entries: &[SegmentPreviewEntry]) -> (t: Option<String>)
    ensures
        match t {
            Some(s) => preview_text_spec(preview_views(entries@)) == Some(s@),
            None => preview_text_spec(preview_views(entries@)) is None,
        },
{
    let ghost es = preview_views(entries@);
    let mut parts: Vec<Vec<char>> = Vec::new();
    for i in 0..entries.len()
        invariant
            es == preview_views(entries@),
            char_views(parts@) == preview_parts(es.take(i as int)),
    {
        proof {
            assert(es.take(i + 1).drop_last() =~= es.take(i as int));
            assert(es.take(i + 1).last() == entries@[i as int]@);
        }
        let entry = &entries[i];
        let output = trimmed(chars_of(entry.output.as_str()).as_slice());
        if output.len() > 0 {
            let input = trimmed(chars_of(entry.input.as_str()).as_slice());
            let mut segment: Vec<char> = Vec::new();
            append_chars(&mut segment, output.as_slice());
            if input.len() > 0 {
                segment.push('(');
                append_chars(&mut segment, input.as_slice());
                segment.push(')');
            }
            let mut part: Vec<char> = Vec::new();
            if entry.focused {
                part.push('[');
                append_chars(&mut part, segment.as_slice());
                part.push(']');
            } else {
                append_chars(&mut part, segment.as_slice());
            }
            proof {
                assert(Some(part@) == preview_part(entries@[i as int]@));
            }
            parts.push(part);
            proof {
                assert(char_views(parts@) =~= preview_parts(es.take(i + 1)));
            }
        }
    }
    assert(es.take(entries@.len() as int) =~= es);
    if parts.len() == 0 {
        None
    } else {
        let sep = chars_of(SEGMENT_SEPARATOR);
        let joined = join_chars(&parts, sep.as_slice());
        Some(string_from_chars(joined.as_slice()))
    }
}

/// Mark of the recommended candidate.
pub const RECOMMENDED_MARK: &'static str = "\u{2713}";

/// Mark of a candidate with no exact roman hint.
pub const DERIVED_MARK: &'static str = "~";

/// The trimmed, non-blank hints, in order.
pub open spec fn nonblank_hints(hs: Seq<Seq<char>>) -> Seq<Seq<char>>
    decreases hs.len(),
{
    if hs.len() == 0 {
        Seq::empty()
    } else if trim(hs.last()).len() == 0 {
        nonblank_hints(hs.drop_last())
    } else {
        nonblank_hints(hs.drop_last()).push(trim(hs.last()))
    }
}

/// At most the first three non-blank hints.
pub open spec fn shown_hints(hs: Seq<Seq<char>>) -> Seq<Seq<char>> {
    let all = nonblank_hints(hs);
    if all.len() <= 3 {
        all
    } else {
        all.take(3)
    }
}

/// The label of a candidate row with display metadata: the trimmed output
/// (or the candidate when the output is blank), marked as recommended or as
/// derived when it has no hints, followed by up to three hints.
pub open spec fn row_label(candidate: Seq<char>, d: (Seq<char>, bool, Seq<Seq<char>>, bool, bool)) -> Seq<char> {
    let output = if trim(d.0).len() == 0 {
        candidate
    } else {
        trim(d.0)
    };
    let hints = shown_hints(d.2);
    let label = if d.1 {
        "\u{2713}"@ + seq![' '] + output
    } else if hints.len() == 0 {
        "~"@ + seq![' '] + output
    } else {
        output
    };
    if hints.len() == 0 {
        label
    } else {
        label + " ("@ + join_with(hints, " / "@) + seq![')']
    }
}

/// The rows of the candidate window: labelled from the display metadata
/// when it matches the candidates one to one, the plain candidates
/// otherwise.
pub open spec fn rows_spec(candidates: Seq<Seq<char>>, display: Seq<(Seq<char>, bool, Seq<Seq<char>>, bool, bool)>) -> Seq<
    Seq<char>,
> {
    if display.len() == candidates.len() {
        Seq::new(candidates.len(), |i: int| row_label(candidates[i], display[i]))
    } else {
        candidates
    }
}

/// The label of one row (see `row_label`).
fn candidate_row_label(candidate: &String, entry: &CandidateDisplayEntry) -> (label: Vec<char>)
    ensures
        label@ == row_label(candidate@, entry@),
{
    let trimmed_output = trimmed(chars_of(entry.output.as_str()).as_slice());
    let output = if trimmed_output.len() == 0 {
        chars_of(candidate.as_str())
    } else {
        trimmed_output
    };
    let mut hints: Vec<Vec<char>> = Vec::new();
    let ghost hs = strs(entry.roman_hints@);
    for i in 0..entry.roman_hints.len()
        invariant
            hs == strs(entry.roman_hints@),
            char_views(hints@) == nonblank_hints(hs.take(i as int)),
    {
        proof {
            assert(hs.take(i + 1).drop_last() =~= hs.take(i as int));
            assert(hs.take(i + 1).last() == entry.roman_hints@[i as int]@);
        }
        let h = trimmed(chars_of(entry.roman_hints[i].as_str()).as_slice());
        if h.len() > 0 {
            hints.push(h);
        }
        proof {
            assert(char_views(hints@) =~= nonblank_hints(hs.take(i + 1)));
        }
    }
    assert(hs.take(entry.roman_hints@.len() as int) =~= hs);
    if hints.len() > 3 {
        hints.truncate(3);
        assert(char_views(hints@) =~= nonblank_hints(hs).take(3));
    }
    let mut label: Vec<char> = Vec::new();
    if entry.recommended {
        append_str(&mut label, RECOMMENDED_MARK);
        label.push(' ');
    } else if hints.len() == 0 {
        append_str(&mut label, DERIVED_MARK);
        label.push(' ');
    }
    append_chars(&mut label, output.as_slice());
    if hints.len() > 0 {
        append_str(&mut label, " (");
        let sep = chars_of(" / ");
        let joined = join_chars(&hints, sep.as_slice());
        append_chars(&mut label, joined.as_slice());
        label.push(')');
    }
    proof {
        let d = entry@;
        let out = if trim(d.0).len() == 0 { candidate@ } else { trim(d.0) };
        assert(output@ == out);
        let sh = shown_hints(d.2);
        assert(char_views(hints@) == sh);
        if sh.len() == 0 {
            if d.1 {
                assert(label@ =~= "\u{2713}"@ + seq![' '] + out);
            } else {
                assert(label@ =~= "~"@ + seq![' '] + out);
            }
        } else {
            if d.1 {
                assert(label@ =~= "\u{2713}"@ + seq![' '] + out + " ("@ + join_with(sh, " / "@) + seq![')']);
            } else {
                assert(label@ =~= out + " ("@ + join_with(sh, " / "@) + seq![')']);
            }
        }
    }
    label
}

/// The labels of the candidate window's rows.
pub fn display_candidate_rows(candidates: &[String], candidate_display: &[CandidateDisplayEntry]) -> (rows: Vec<String>)
    ensures
        strs(rows@) == rows_spec(strs(candidates@), display_views(candidate_display@)),
{
    let use_display = candidate_display.len() == candidates.len();
    let mut rows: Vec<String> = Vec::new();
    for i in 0..candidates.len()
        invariant
            use_display == (candidate_display@.len() == candidates@.len()),
            rows@.len() == i,
            i <= candidates@.len(),
            forall|j: int|
                0 <= j < i ==> #[trigger] rows@[j]@ == if use_display {
                    row_label(candidates@[j]@, candidate_display@[j]@)
                } else {
                    candidates@[j]@
                },
    {
        if use_display {
            let label = candidate_row_label(&candidates[i], &candidate_display[i]);
            rows.push(string_from_chars(label.as_slice()));
        } else {
            rows.push(candidates[i].clone());
        }
    }
    proof {
        if use_display {
            assert(strs(rows@) =~= rows_spec(strs(candidates@), display_views(candidate_display@)));
        } else {
            assert(strs(rows@) =~= strs(candidates@));
        }
    }
    rows
}

/// One numbered entry of the inline preview: `n. row`, with `*` before the
/// selected row.
pub open spec fn numbered(index: int, row: Seq<char>, selected: bool) -> Seq<char> {
    decimal((index + 1) as nat) + ". "@ + if selected {
        seq!['*'] + row
    } else {
        row
    }
}

/// The inline preview: the preedit; then, outside flat mode, the segment
/// preview in braces; then up to five numbered rows in brackets. Nothing
/// when the preedit is empty.
pub open spec fn inline_preview_spec(preedit: Seq<char>, surface: crate::tsf_surface::SurfaceView) -> Option<Seq<char>> {
    if preedit.len() == 0 {
        None
    } else {
        let with_segments = if surface.0 != CandidateSurfaceMode::Flat && preview_text_spec(surface.4) is Some {
            preedit + "  {"@ + preview_text_spec(surface.4)->0 + seq!['}']
        } else {
            preedit
        };
        if surface.1.len() == 0 {
            Some(with_segments)
        } else {
            let rows = rows_spec(surface.1, surface.3);
            let shown = if rows.len() <= 5 {
                rows
            } else {
                rows.take(5)
            };
            let items = Seq::new(
                shown.len(),
                |i: int| numbered(i, shown[i], surface.2 == Some(i as usize)),
            );
            Some(with_segments + "  ["@ + join_with(items, "  "@) + seq![']'])
        }
    }
}

/// The one-line preview shown where the candidate window is not.
pub fn inline_preview_text(preedit: &str, surface: &CandidateSurface) -> (t: Option<String>)
    ensures
        match t {
            Some(s) => inline_preview_spec(preedit@, surface@) == Some(s@),
            None => inline_preview_spec(preedit@, surface@) is None,
        },
{
    if preedit.is_empty() {
        return None;
    }
    let mut preview = chars_of(preedit);
    if surface.mode() != CandidateSurfaceMode::Flat {
        match segment_preview_text(surface.context()) {
            Some(segments) => {
                append_str(&mut preview, "  {");
                append_str(&mut preview, segments.as_str());
                preview.push('}');
            },
            None => {},
        }
    }
    let ghost with_segments = preview@;
    if surface.rows().len() > 0 {
        let display = display_candidate_rows(surface.rows(), surface.display());
        let shown = if display.len() <= 5 { display.len() } else { 5 };
        let selected = surface.selected_index();
        let mut items: Vec<Vec<char>> = Vec::new();
        let ghost shown_rows = if strs(display@).len() <= 5 { strs(display@) } else { strs(display@).take(5) };
        for i in 0..shown
            invariant
                shown <= display@.len(),
                shown == shown_rows.len(),
                shown_rows == (if strs(display@).len() <= 5 { strs(display@) } else { strs(display@).take(5) }),
                selected == surface@.2,
                items@.len() == i,
                forall|j: int|
                    0 <= j < i ==> #[trigger] items@[j]@ == numbered(j, shown_rows[j], selected == Some(j as usize)),
        {
            let mut item = decimal_chars(i + 1);
            append_str(&mut item, ". ");
            let is_selected = match selected {
                Some(s) => s == i,
                None => false,
            };
            if is_selected {
                item.push('*');
            }
            let row = chars_of(display[i].as_str());
            append_chars(&mut item, row.as_slice());
            proof {
                assert(shown_rows[i as int] == display@[i as int]@);
                if is_selected {
                    assert(item@ =~= decimal((i + 1) as nat) + ". "@ + (seq!['*'] + shown_rows[i as int]));
                } else {
                    assert(item@ =~= decimal((i + 1) as nat) + ". "@ + shown_rows[i as int]);
                }
            }
            items.push(item);
        }
        assert(char_views(items@) =~= Seq::new(
            shown_rows.len(),
            |i: int| numbered(i, shown_rows[i], surface@.2 == Some(i as usize)),
        ));
        let sep = chars_of("  ");
        let joined = join_chars(&items, sep.as_slice());
        append_str(&mut preview, "  [");
        append_chars(&mut preview, joined.as_slice());
        preview.push(']');
    }
    Some(string_from_chars(preview.as_slice()))
}

/// How many characters of a row's text fit before the ellipsis: the count
/// before the first prefix whose width with the ellipsis exceeds the row
/// (`widths[k]` is the width of the first `k + 1` characters followed by
/// `...`), or all of them.
pub open spec fn fitting_chars(widths: Seq<i32>, max_width: i32) -> int
    decreases widths.len(),
{
    if widths.len() == 0 {
        0
    } else if fitting_chars(widths.drop_last(), max_width) < widths.len() - 1 {
        fitting_chars(widths.drop_last(), max_width)
    } else if widths.last() > max_width {
        widths.len() - 1
    } else {
        widths.len() as int
    }
}

/// A row's text shortened to `max_width`: the whole text when it fits,
/// `...` alone when not even that leaves room, else the longest prefix that
/// fits with `...` after it.
pub open spec fn ellipsized(text: Seq<char>, max_width: i32, text_width: i32, ellipsis_width: i32, widths: Seq<i32>) -> Seq<
    char,
> {
    if text_width <= max_width {
        text
    } else if ellipsis_width >= max_width {
        "..."@
    } else {
        text.take(fitting_chars(widths, max_width)) + "..."@
    }
}

/// Shortens a candidate row's text to `max_width` pixels, given the
/// measured widths of the text (`text_width`), of `...`
/// (`ellipsis_width`), and of each prefix followed by `...` (`widths`; see
/// `ellipsized`).
pub fn ellipsize_text(text: &str, max_width: i32, text_width: i32, ellipsis_width: i32, widths: &[i32]) -> (r: String)
    requires
        widths@.len() == text@.len(),
    ensures
        r@ == ellipsized(text@, max_width, text_width, ellipsis_width, widths@),
{
    proof {
        reveal_strlit("...");
    }
    if text_width <= max_width {
        return text.to_string();
    }
    if ellipsis_width >= max_width {
        return "...".to_string();
    }
    let chars = chars_of(text);
    let mut kept: usize = 0;
    while kept < widths.len() && widths[kept] <= max_width
        invariant
            kept <= widths@.len(),
            fitting_chars(widths@.take(kept as int), max_width) == kept,
        decreases widths@.len() - kept,
    {
        assert(widths@.take(kept + 1).drop_last() =~= widths@.take(kept as int));
        kept = kept + 1;
    }
    proof {
        if kept < widths@.len() {
            assert(widths@.take(kept + 1).drop_last() =~= widths@.take(kept as int));
            lemma_fitting_prefix(widths@, max_width, kept + 1, kept as int);
        } else {
            assert(widths@.take(kept as int) =~= widths@);
        }
    }
    let mut out: Vec<char> = Vec::new();
    for k in 0..kept
        invariant
            kept <= chars@.len(),
            chars@ == text@,
            out@ == text@.take(k as int),
    {
        out.push(chars[k]);
        assert(out@ =~= text@.take(k + 1));
    }
    append_chars(&mut out, chars_of("...").as_slice());
    string_from_chars(out.as_slice())
}

proof fn lemma_fitting_prefix(widths: Seq<i32>, max_width: i32, j: int, c: int)
    requires
        1 <= j <= widths.len(),
        c < j,
        fitting_chars(widths.take(j), max_width) == c,
    ensures
        fitting_chars(widths, max_width) == c,
    decreases widths.len() - j,
{
    if j < widths.len() {
        assert(widths.take(j + 1).drop_last() =~= widths.take(j));
        assert(widths.take(j + 1).len() == j + 1);
        assert(fitting_chars(widths.take(j + 1), max_width) == c);
        lemma_fitting_prefix(widths, max_width, j + 1, c);
    } else {
        assert(widths.take(j) =~= widths);
    }
}

/// One numbered row as painted: its 1-based number, two spaces, the label.
pub open spec fn numbered_row(i: int, label: Seq<char>) -> Seq<char> {
    decimal((i + 1) as nat) + seq![' ', ' '] + label
}

/// Painted rows as plain values: text and whether the row is highlighted.
pub open spec fn painted_views(v: Seq<(String, bool)>) -> Seq<(Seq<char>, bool)> {
    v.map_values(|p: (String, bool)| (p.0@, p.1))
}

/// The rows the candidate window paints for a surface: the segment preview
/// first when there is one (never highlighted), then at most `MAX_ROWS`
/// numbered candidate labels, the selected one highlighted.
pub open spec fn window_rows_spec(v: crate::tsf_surface::SurfaceView) -> Seq<(Seq<char>, bool)> {
    let labels = rows_spec(v.1, v.3);
    let head: Seq<(Seq<char>, bool)> = match preview_text_spec(v.4) {
        Some(p) => seq![(p, false)],
        None => Seq::empty(),
    };
    let n = if labels.len() < MAX_ROWS {
        labels.len()
    } else {
        MAX_ROWS as nat
    };
    head + Seq::new(n, |i: int| (numbered_row(i, labels[i]), v.2 == Some(i as usize)))
}

/// The rows the candidate window paints (see `window_rows_spec`); none when
/// the surface has no rows, and the window is hidden.
pub fn candidate_window_rows(surface: &CandidateSurface) -> (r: Option<Vec<(String, bool)>>)
    ensures
        surface@.1.len() == 0 ==> r is None,
        surface@.1.len() > 0 ==> (r matches Some(v) && painted_views(v@) == window_rows_spec(surface@)),
{
    let rows = surface.rows();
    if rows.len() == 0 {
        return None;
    }
    let labels = display_candidate_rows(rows, surface.display());
    let ghost lv = strs(labels@);
    assert(lv.len() == rows@.len());
    let mut out: Vec<(String, bool)> = Vec::new();
    match segment_preview_text(surface.context()) {
        Some(p) => {
            out.push((p, false));
        },
        None => {},
    }
    let ghost head = painted_views(out@);
    assert(head == match preview_text_spec(surface@.4) {
        Some(p) => seq![(p, false)],
        None => Seq::<(Seq<char>, bool)>::empty(),
    }) by {
        match preview_text_spec(surface@.4) {
            Some(p) => {
                assert(head =~= seq![(p, false)]);
            },
            None => {
                assert(head =~= Seq::<(Seq<char>, bool)>::empty());
            },
        }
    }
    let n = if labels.len() < MAX_ROWS {
        labels.len()
    } else {
        MAX_ROWS
    };
    let selected = surface.selected_index();
    let ghost body = Seq::new(n as nat, |i: int| (numbered_row(i, lv[i]), surface@.2 == Some(i as usize)));
    let mut i: usize = 0;
    assert(painted_views(out@) =~= head + body.take(0));
    while i < n
        invariant
            i <= n <= labels@.len(),
            n <= MAX_ROWS,
            lv == strs(labels@),
            selected == surface@.2,
            body == Seq::new(n as nat, |i: int| (numbered_row(i, lv[i]), surface@.2 == Some(i as usize))),
            painted_views(out@) == head + body.take(i as int),
        decreases n - i,
    {
        let mut line = decimal_chars(i + 1);
        line.push(' ');
        line.push(' ');
        let label = chars_of(labels[i].as_str());
        append_chars(&mut line, label.as_slice());
        assert(lv[i as int] == labels@[i as int]@);
        assert(line@ =~= numbered_row(i as int, lv[i as int]));
        let highlighted = match selected {
            Some(s) => s == i,
            None => false,
        };
        let ghost before = painted_views(out@);
        out.push((string_from_chars(line.as_slice()), highlighted));
        i = i + 1;
        assert(painted_views(out@) =~= before.push(body[i - 1]));
        assert(body.take(i as int) =~= body.take(i - 1).push(body[i - 1]));
    }
    assert(body.take(i as int) =~= body);
    Some(out)
}

} // verus!
