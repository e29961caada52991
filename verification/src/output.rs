//! Human-readable terminal output: findings grouped by file with code
//! frames, severity badges, framework tags, taint flow traces and a summary
//! line; and the choice of output format. The machine formats (JSON,
//! SARIF) serialize the same findings.

use vstd::prelude::*;
use owo_colors::OwoColorize;
use crate::findings::{Finding, FindingView, Severity, TraceStep, TraceStepView, trace_view};
use crate::paths::strings_view;
use crate::scanner::ScanStats;
use crate::sorting::{views, strictly_sorted, insert_sorted_unique, sorted_distinct, lemma_sorted_distinct};
use crate::text::{chars_of, string_of, str_is, dec, dec_string, fill, pad_left, push_fill, push_padded,
    push_char, lower_seq, to_ascii_lower, trim, trimmed};

verus! {

broadcast use vstd::string::group_string_axioms;

// ---------------------------------------------------------------------
// Output formats
// ---------------------------------------------------------------------

/// The report formats.
#[derive(Debug, Clone, Copy, PartialEq, Eq, Structural)]
pub enum Format {
    Human,
    Json,
    Sarif,
}

/// The format a name selects, case-insensitively: `human` or `text`,
/// `json`, `sarif`.
pub open spec fn format_named(lower: Seq<char>) -> Option<Format> {
    if lower == "human"@ || lower == "text"@ {
        Some(Format::Human)
    } else if lower == "json"@ {
        Some(Format::Json)
    } else if lower == "sarif"@ {
        Some(Format::Sarif)
    } else {
        None
    }
}

impl Format {
    /// Parse a format name; unknown names are refused with a message that
    /// lists the known ones.
    pub fn parse(s: &str) -> (r: Result<Format, String>)
        ensures
            match format_named(lower_seq(s@)) {
                Some(f) => r == Ok::<Format, String>(f),
                None => r matches Err(m) && m@ == "unknown format `"@ + lower_seq(s@) + "` (human, json, sarif)"@,
            },
    {
        let low = string_of(to_ascii_lower(s).as_slice());
        if str_is(low.as_str(), "human") || str_is(low.as_str(), "text") {
            Ok(Format::Human)
        } else if str_is(low.as_str(), "json") {
            Ok(Format::Json)
        } else if str_is(low.as_str(), "sarif") {
            Ok(Format::Sarif)
        } else {
            let mut m = "unknown format `".to_owned();
            m.append(low.as_str());
            m.append("` (human, json, sarif)");
            Err(m)
        }
    }
}

impl std::str::FromStr for Format {
    type Err = String;

    fn from_str(s: &str) -> (r: Result<Format, String>)
        ensures
            match format_named(lower_seq(s@)) {
                Some(f) => r == Ok::<Format, String>(f),
                None => r matches Err(m) && m@ == "unknown format `"@ + lower_seq(s@) + "` (human, json, sarif)"@,
            },
    {
        Format::parse(s)
    }
}

// ---------------------------------------------------------------------
// Styling
// ---------------------------------------------------------------------

/// The text styles the report uses.
#[derive(Debug, Clone, Copy, PartialEq, Eq, Structural)]
pub enum Tone {
    Bold,
    Dim,
    Red,
    RedBold,
    Yellow,
    Cyan,
    Green,
    GreenBold,
}

/// The escape sequence that opens a style: its foreground color, then
/// bold or dim.
pub open spec fn ansi_prefix(tone: Tone) -> Seq<char> {
    match tone {
        Tone::Bold => "\x1b[1m"@,
        Tone::Dim => "\x1b[2m"@,
        Tone::Red => "\x1b[31m"@,
        Tone::RedBold => "\x1b[31;1m"@,
        Tone::Yellow => "\x1b[33m"@,
        Tone::Cyan => "\x1b[36m"@,
        Tone::Green => "\x1b[32m"@,
        Tone::GreenBold => "\x1b[32;1m"@,
    }
}

/// Text wrapped in the escape sequences of a style: the style's opening
/// sequence, the text, and the reset sequence.
pub open spec fn ansi_styled(text: Seq<char>, tone: Tone) -> Seq<char> {
    ansi_prefix(tone) + text + "\x1b[0m"@
}

/// Render text in a style with `owo-colors` (`format!("{}",
/// text.style(style))`): `Style::fmt_prefix` writes `ESC [`, the
/// foreground color's code, `;1` or `1` for bold and `2` for dim, and `m`;
/// then the text; then `Style::fmt_suffix` writes `ESC [0m`.
#[verifier::external_body]
fn styled(text: &str, tone: Tone) -> (r: String)
    ensures
        r@ == ansi_styled(text@, tone),
{
    let style = match tone {
        Tone::Bold => owo_colors::Style::new().bold(),
        Tone::Dim => owo_colors::Style::new().dimmed(),
        Tone::Red => owo_colors::Style::new().red(),
        Tone::RedBold => owo_colors::Style::new().red().bold(),
        Tone::Yellow => owo_colors::Style::new().yellow(),
        Tone::Cyan => owo_colors::Style::new().cyan(),
        Tone::Green => owo_colors::Style::new().green(),
        Tone::GreenBold => owo_colors::Style::new().green().bold(),
    };
    format!("{}", text.style(style))
}

/// Text in a style when color is on, plain otherwise.
pub open spec fn paint(text: Seq<char>, tone: Tone, color: bool) -> Seq<char> {
    if color { ansi_styled(text, tone) } else { text }
}

fn push_paint(out: &mut String, text: &str, tone: Tone, color: bool)
    ensures
        final(out)@ == old(out)@ + paint(text@, tone, color),
{
    if color {
        let s = styled(text, tone);
        out.append(s.as_str());
    } else {
        out.append(text);
    }
}

/// The style of a severity.
pub open spec fn severity_tone(s: Severity) -> Tone {
    match s {
        Severity::Critical => Tone::RedBold,
        Severity::High => Tone::Red,
        Severity::Medium => Tone::Yellow,
        Severity::Low => Tone::Cyan,
        Severity::Info => Tone::Dim,
    }
}

fn tone_of(s: Severity) -> (r: Tone)
    ensures
        r == severity_tone(s),
{
    match s {
        Severity::Critical => Tone::RedBold,
        Severity::High => Tone::Red,
        Severity::Medium => Tone::Yellow,
        Severity::Low => Tone::Cyan,
        Severity::Info => Tone::Dim,
    }
}

/// The badge of a severity: its name in capitals.
pub open spec fn badge(s: Severity) -> Seq<char> {
    match s {
        Severity::Critical => "CRITICAL"@,
        Severity::High => "HIGH"@,
        Severity::Medium => "MEDIUM"@,
        Severity::Low => "LOW"@,
        Severity::Info => "INFO"@,
    }
}

fn badge_of(s: Severity) -> (r: &'static str)
    ensures
        r@ == badge(s),
{
    match s {
        Severity::Critical => "CRITICAL",
        Severity::High => "HIGH",
        Severity::Medium => "MEDIUM",
        Severity::Low => "LOW",
        Severity::Info => "INFO",
    }
}

// ---------------------------------------------------------------------
// Text helpers
// ---------------------------------------------------------------------

/// At most `max` characters of `s`, with `…` appended when cut.
pub open spec fn trunc(s: Seq<char>, max: int) -> Seq<char> {
    if s.len() <= max { s } else { s.take(max).push('…') }
}

/// Cut a string to at most `max` characters, marking the cut with `…`.
pub fn truncate(s: &str, max: usize) -> (r: String)
    ensures
        r@ == trunc(s@, max as int),
{
    let cs = chars_of(s);
    if cs.len() <= max {
        s.to_owned()
    } else {
        let mut out = string_of(crate::text::slice_chars(&cs, 0, max).as_slice());
        push_char(&mut out, '…');
        assert(cs@.subrange(0, max as int) =~= cs@.take(max as int));
        out
    }
}

/// Elements joined with a separator.
pub open spec fn join(v: Seq<Seq<char>>, sep: Seq<char>) -> Seq<char>
    decreases v.len(),
{
    if v.len() == 0 {
        Seq::empty()
    } else if v.len() == 1 {
        v[0]
    } else {
        join(v.drop_last(), sep) + sep + v.last()
    }
}

fn join_strings(v: &Vec<String>, sep: &str) -> (r: String)
    ensures
        r@ == join(strings_view(v@), sep@),
{
    let mut out = String::new();
    let n = v.len();
    let ghost sv = strings_view(v@);
    for i in 0..n
        invariant
            n == v@.len(),
            sv == strings_view(v@),
            out@ == join(sv.take(i as int), sep@),
    {
        assert(sv.take(i + 1).drop_last() =~= sv.take(i as int));
        if i > 0 {
            out.append(sep);
        } else {
            assert(out@ =~= Seq::<char>::empty());
        }
        out.append(v[i].as_str());
        assert(sv.take(i + 1).last() == v@[i as int]@);
        assert(out@ =~= join(sv.take(i + 1), sep@));
    }
    assert(sv.take(n as int) =~= sv);
    out
}

/// Each line break followed by nine spaces, so continuation lines line up
/// under the first.
pub open spec fn indent_breaks(s: Seq<char>) -> Seq<char>
    decreases s.len(),
{
    if s.len() == 0 {
        s
    } else if s.last() == '\n' {
        indent_breaks(s.drop_last()) + "\n         "@
    } else {
        indent_breaks(s.drop_last()).push(s.last())
    }
}

fn push_indented(out: &mut String, s: &Vec<char>)
    ensures
        final(out)@ == old(out)@ + indent_breaks(s@),
{
    let n = s.len();
    for i in 0..n
        invariant
            n == s@.len(),
            out@ == old(out)@ + indent_breaks(s@.take(i as int)),
    {
        assert(s@.take(i + 1).drop_last() =~= s@.take(i as int));
        if s[i] == '\n' {
            out.append("\n         ");
        } else {
            push_char(out, s[i]);
        }
        assert(out@ =~= old(out)@ + indent_breaks(s@.take(i + 1)));
    }
    assert(s@.take(n as int) =~= s@);
}

/// `str::lines` as a fold: completed lines (a line ended by `\n` loses one
/// trailing `\r`) and the line being read.
pub open spec fn lines_acc(s: Seq<char>) -> (Seq<Seq<char>>, Seq<char>)
    decreases s.len(),
{
    if s.len() == 0 {
        (Seq::empty(), Seq::empty())
    } else {
        let (done, cur) = lines_acc(s.drop_last());
        if s.last() == '\n' {
            (done.push(strip_cr(cur)), Seq::empty())
        } else {
            (done, cur.push(s.last()))
        }
    }
}

/// A line without its trailing carriage return.
pub open spec fn strip_cr(l: Seq<char>) -> Seq<char> {
    if l.len() > 0 && l.last() == '\r' { l.drop_last() } else { l }
}

/// The lines of a text (`str::lines`): split at `\n` or `\r\n`, without a
/// final empty line.
pub open spec fn lines_of(s: Seq<char>) -> Seq<Seq<char>> {
    let (done, cur) = lines_acc(s);
    if cur.len() > 0 { done.push(cur) } else { done }
}

/// Split a text into its lines.
pub fn text_lines(s: &str) -> (r: Vec<Vec<char>>)
    ensures
        crate::paths::char_vecs_view(r@) == lines_of(s@),
{
    let cs = chars_of(s);
    let mut done: Vec<Vec<char>> = Vec::new();
    let mut cur: Vec<char> = Vec::new();
    let n = cs.len();
    for i in 0..n
        invariant
            n == cs@.len(),
            cs@ == s@,
            (crate::paths::char_vecs_view(done@), cur@) == lines_acc(cs@.take(i as int)),
    {
        assert(cs@.take(i + 1).drop_last() =~= cs@.take(i as int));
        if cs[i] == '\n' {
            let mut line = cur;
            if line.len() > 0 && line[line.len() - 1] == '\r' {
                let _ = line.pop();
            }
            let ghost before = crate::paths::char_vecs_view(done@);
            done.push(line);
            assert(crate::paths::char_vecs_view(done@) =~= before.push(done@.last()@));
            cur = Vec::new();
        } else {
            cur.push(cs[i]);
        }
    }
    assert(cs@.take(n as int) =~= cs@);
    if cur.len() > 0 {
        let ghost before = crate::paths::char_vecs_view(done@);
        done.push(cur);
        assert(crate::paths::char_vecs_view(done@) =~= before.push(done@.last()@));
    }
    done
}

fn dec_wide(n: u128) -> (r: String)
    ensures
        r@ == dec(n as nat),
    decreases n,
{
    if n < 10 {
        dec_string(n as u64)
    } else {
        let mut s = dec_wide(n / 10);
        let d = dec_string((n % 10) as u64);
        assert(d@ == seq![crate::text::digit_char((n % 10) as int)]);
        s.append(d.as_str());
        s
    }
}

// ---------------------------------------------------------------------
// One finding
// ---------------------------------------------------------------------

/// The finding's location: `file:line:column`.
pub open spec fn loc_text(f: FindingView) -> Seq<char> {
    f.file + ":"@ + dec(f.span.start.line as nat) + ":"@ + dec(f.span.start.column as nat)
}

/// The framework tags: CWE ids, then `OWASP` and `NIST` references.
pub open spec fn tags_of(f: FindingView) -> Seq<Seq<char>> {
    f.cwe + f.owasp.map_values(|o: Seq<char>| "OWASP "@ + o) + f.nist.map_values(|n: Seq<char>| "NIST "@ + n)
}

/// The first line of a finding: badge, rule id and location.
pub open spec fn heading_line(f: FindingView, color: bool) -> Seq<char> {
    "  "@ + paint(badge(f.severity), severity_tone(f.severity), color) + " "@ + paint(f.rule_id, Tone::Bold, color)
        + " "@ + paint(loc_text(f), Tone::Dim, color) + "\n"@
}

/// The tags line (none without tags).
pub open spec fn tags_line(f: FindingView, color: bool) -> Seq<char> {
    if tags_of(f).len() > 0 { "    "@ + paint(join(tags_of(f), " · "@), Tone::Dim, color) + "\n"@ } else { Seq::empty() }
}

/// The heading of a finding: badge, rule id and location, the message,
/// and the framework tags when there are any.
pub open spec fn header_text(f: FindingView, color: bool) -> Seq<char> {
    heading_line(f, color) + "    "@ + f.message + "\n"@ + tags_line(f, color)
}

/// Where a trace step is: `file:line` for a step in another file, else
/// `line N`.
pub open spec fn step_loc(s: TraceStepView) -> Seq<char> {
    match s.file {
        Some(x) => x + ":"@ + dec(s.span.start.line as nat),
        None => "line "@ + dec(s.span.start.line as nat),
    }
}

/// One line of a flow: a dot for the source, arrows after it.
pub open spec fn step_text(i: int, s: TraceStepView, color: bool) -> Seq<char> {
    "      "@ + (if i == 0 { "●"@ } else { "→"@ }) + " "@ + paint(step_loc(s), Tone::Dim, color) + " "@ + s.label
        + "  "@ + paint(trunc(s.snippet, 90), Tone::Dim, color) + "\n"@
}

/// The first `k` lines of a flow.
pub open spec fn steps_text(t: Seq<TraceStepView>, color: bool, k: int) -> Seq<char>
    decreases k,
{
    if k <= 0 { Seq::empty() } else { steps_text(t, color, k - 1) + step_text(k - 1, t[k - 1], color) }
}

/// The flow section of a finding (none for a finding without a trace).
pub open spec fn flow_text(t: Seq<TraceStepView>, color: bool) -> Seq<char> {
    if t.len() == 0 { Seq::empty() } else { "    "@ + paint("flow:"@, Tone::Bold, color) + "\n"@ + steps_text(t, color, t.len() as int) }
}

/// The remediation a rule carries, if any.
pub open spec fn remediation_of(rems: Seq<(String, String)>, rule: Seq<char>) -> Option<Seq<char>>
    decreases rems.len(),
{
    if rems.len() == 0 {
        None
    } else if rems[0].0@ == rule {
        Some(rems[0].1@)
    } else {
        remediation_of(rems.drop_first(), rule)
    }
}

/// The fix section: the rule's remediation, trimmed, continuation lines
/// indented.
pub open spec fn fix_text(rems: Seq<(String, String)>, rule: Seq<char>, color: bool) -> Seq<char> {
    match remediation_of(rems, rule) {
        Some(x) => "    "@ + paint("fix:"@, Tone::Green, color) + " "@ + indent_breaks(trim(x)) + "\n"@,
        None => Seq::empty(),
    }
}

/// The source of a file, when it could be read.
pub open spec fn source_of(srcs: Seq<(String, Option<String>)>, file: Seq<char>) -> Option<Seq<char>>
    decreases srcs.len(),
{
    if srcs.len() == 0 {
        None
    } else if srcs[0].0@ == file {
        match srcs[0].1 { Some(t) => Some(t@), None => None }
    } else {
        source_of(srcs.drop_first(), file)
    }
}

/// The last line shown in a code frame (tall spans are capped).
pub open spec fn frame_end(f: FindingView) -> int {
    let start = f.span.start.line as int;
    let end = f.span.end.line as int;
    if end < start + 4 { end } else { start + 4 }
}

/// The first line shown: two lines of context, but not before line 1.
pub open spec fn frame_first(f: FindingView) -> int {
    let start = f.span.start.line as int;
    if start - 2 > 1 { start - 2 } else { 1 }
}

/// The gutter width: the digits of the last line, at least three.
pub open spec fn frame_width(f: FindingView) -> int {
    let d = dec(frame_end(f) as nat).len() as int;
    if d > 3 { d } else { 3 }
}

/// How many carets underline the span's first line: up to the span's
/// end column on a one-line span, else to the end of the shown text (its
/// UTF-8 length); at least one.
pub open spec fn caret_len(f: FindingView, text: Seq<char>) -> int {
    let col = f.span.start.column as int;
    if f.span.end.line == f.span.start.line {
        let d = f.span.end.column as int - col;
        if d > 1 { d } else { 1 }
    } else if col == 0 {
        1
    } else {
        let d = vstd::utf8::encode_utf8(text).len() as int - (col - 1);
        if d > 1 { d } else { 1 }
    }
}

/// The underline below the first line of the span.
pub open spec fn caret_text(f: FindingView, text: Seq<char>, color: bool) -> Seq<char> {
    let col = f.span.start.column as int;
    let c = caret_len(f, text);
    "    "@ + paint(pad_left(Seq::empty(), frame_width(f), ' ') + " │"@, Tone::Dim, color) + " "@
        + paint(fill(' ', col - 1) + fill('^', if c < 120 { c } else { 120 }), severity_tone(f.severity), color) + "\n"@
}

/// One line of a code frame: the gutter, then the line's text (at most
/// 160 characters), bold inside the span, dim outside; the span's first
/// line is followed by its underline.
pub open spec fn frame_line(lines: Seq<Seq<char>>, n: int, f: FindingView, color: bool) -> Seq<char> {
    let text = trunc(lines[n - 1], 160);
    let gutter = pad_left(dec(n as nat), frame_width(f), ' ') + " │"@;
    if f.span.start.line <= n && n <= f.span.end.line {
        "    "@ + paint(gutter, Tone::Dim, color) + " "@ + paint(text, Tone::Bold, color) + "\n"@
            + if n == f.span.start.line { caret_text(f, text, color) } else { Seq::empty() }
    } else {
        "    "@ + paint(gutter, Tone::Dim, color) + " "@ + paint(text, Tone::Dim, color) + "\n"@
    }
}

/// Frame lines `lo` up to (not including) `k`.
pub open spec fn frame_lines(lines: Seq<Seq<char>>, f: FindingView, color: bool, lo: int, k: int) -> Seq<char>
    decreases k - lo,
{
    if k <= lo { Seq::empty() } else { frame_lines(lines, f, color, lo, k - 1) + frame_line(lines, k - 1, f, color) }
}

/// The code frame around a finding (none when its file could not be
/// read).
pub open spec fn frame_text(src: Option<Seq<char>>, f: FindingView, color: bool) -> Seq<char> {
    match src {
        None => Seq::empty(),
        Some(s) => {
            let lines = lines_of(s);
            let last = if frame_end(f) < lines.len() { frame_end(f) } else { lines.len() as int };
            frame_lines(lines, f, color, frame_first(f), last + 1)
        },
    }
}

/// Everything printed for one finding, followed by a blank line.
#[verifier::opaque]
pub open spec fn finding_text(f: FindingView, rems: Seq<(String, String)>, srcs: Seq<(String, Option<String>)>, color: bool) -> Seq<char> {
    header_text(f, color) + frame_text(source_of(srcs, f.file), f, color) + flow_text(f.trace, color)
        + fix_text(rems, f.rule_id, color) + "\n"@
}

fn push_dec(out: &mut String, n: u64)
    ensures
        final(out)@ == old(out)@ + dec(n as nat),
{
    let d = dec_string(n);
    out.append(d.as_str());
}

fn push_heading(out: &mut String, f: &Finding, color: bool)
    ensures
        final(out)@ == old(out)@ + heading_line(f@, color),
{
    let ghost o = out@;
    out.append("  ");
    push_paint(out, badge_of(f.severity), tone_of(f.severity), color);
    out.append(" ");
    push_paint(out, f.rule_id.as_str(), Tone::Bold, color);
    out.append(" ");
    let mut loc = f.file.clone();
    loc.append(":");
    push_dec(&mut loc, f.span.start.line as u64);
    loc.append(":");
    push_dec(&mut loc, f.span.start.column as u64);
    assert(loc@ =~= loc_text(f@));
    push_paint(out, loc.as_str(), Tone::Dim, color);
    out.append("\n");
    assert(out@ =~= o + heading_line(f@, color));
}

fn finding_tags(f: &Finding) -> (r: Vec<String>)
    ensures
        strings_view(r@) == tags_of(f@),
{
    let mut tags: Vec<String> = crate::paths::copy_strings(&f.cwe);
    let no = f.owasp.len();
    for i in 0..no
        invariant
            no == f.owasp@.len(),
            strings_view(tags@) == f@.cwe + f@.owasp.take(i as int).map_values(|o: Seq<char>| "OWASP "@ + o),
    {
        let mut t = "OWASP ".to_owned();
        t.append(f.owasp[i].as_str());
        let ghost before = strings_view(tags@);
        tags.push(t);
        assert(strings_view(tags@) =~= before.push("OWASP "@ + f@.owasp[i as int]));
        assert(f@.owasp.take(i + 1).map_values(|o: Seq<char>| "OWASP "@ + o)
            =~= f@.owasp.take(i as int).map_values(|o: Seq<char>| "OWASP "@ + o).push("OWASP "@ + f@.owasp[i as int]));
    }
    assert(f@.owasp.take(no as int) =~= f@.owasp);
    let nn = f.nist.len();
    for i in 0..nn
        invariant
            nn == f.nist@.len(),
            strings_view(tags@) == f@.cwe + f@.owasp.map_values(|o: Seq<char>| "OWASP "@ + o)
                + f@.nist.take(i as int).map_values(|n: Seq<char>| "NIST "@ + n),
    {
        let mut t = "NIST ".to_owned();
        t.append(f.nist[i].as_str());
        let ghost before = strings_view(tags@);
        tags.push(t);
        assert(strings_view(tags@) =~= before.push("NIST "@ + f@.nist[i as int]));
        assert(f@.nist.take(i + 1).map_values(|n: Seq<char>| "NIST "@ + n)
            =~= f@.nist.take(i as int).map_values(|n: Seq<char>| "NIST "@ + n).push("NIST "@ + f@.nist[i as int]));
    }
    assert(f@.nist.take(nn as int) =~= f@.nist);
    tags
}

fn push_header(out: &mut String, f: &Finding, color: bool)
    ensures
        final(out)@ == old(out)@ + header_text(f@, color),
{
    let ghost o = out@;
    push_heading(out, f, color);
    let ghost o2 = out@;
    out.append("    ");
    out.append(f.message.as_str());
    out.append("\n");
    assert(out@ =~= o2 + "    "@ + f@.message + "\n"@);
    let ghost o3 = out@;
    let tags = finding_tags(f);
    if tags.len() > 0 {
        out.append("    ");
        let joined = join_strings(&tags, " · ");
        push_paint(out, joined.as_str(), Tone::Dim, color);
        out.append("\n");
        assert(out@ =~= o3 + tags_line(f@, color));
    } else {
        assert(out@ =~= o3 + tags_line(f@, color));
    }
    assert(out@ =~= o + header_text(f@, color));
}

fn push_step(out: &mut String, i: usize, s: &TraceStep, color: bool)
    ensures
        final(out)@ == old(out)@ + step_text(i as int, s@, color),
{
    out.append("      ");
    if i == 0 { out.append("●"); } else { out.append("→"); }
    out.append(" ");
    let mut loc = match &s.file {
        Some(x) => {
            let mut l = x.clone();
            l.append(":");
            l
        }
        None => "line ".to_owned(),
    };
    push_dec(&mut loc, s.span.start.line as u64);
    push_paint(out, loc.as_str(), Tone::Dim, color);
    out.append(" ");
    out.append(s.label.as_str());
    out.append("  ");
    let t = truncate(s.snippet.as_str(), 90);
    push_paint(out, t.as_str(), Tone::Dim, color);
    out.append("\n");
}

fn push_flow(out: &mut String, trace: &Vec<TraceStep>, color: bool)
    ensures
        final(out)@ == old(out)@ + flow_text(trace_view(trace@), color),
{
    let ghost tv = trace_view(trace@);
    if trace.len() == 0 {
        return;
    }
    out.append("    ");
    push_paint(out, "flow:", Tone::Bold, color);
    out.append("\n");
    let ghost base = out@;
    let n = trace.len();
    for i in 0..n
        invariant
            n == trace@.len(),
            tv == trace_view(trace@),
            out@ == base + steps_text(tv, color, i as int),
    {
        push_step(out, i, &trace[i], color);
        assert(tv[i as int] == trace@[i as int]@);
    }
}

fn find_remediation<'a>(rems: &'a Vec<(String, String)>, rule: &str) -> (r: Option<&'a String>)
    ensures
        match remediation_of(rems@, rule@) {
            Some(x) => r matches Some(s) && s@ == x,
            None => r is None,
        },
{
    let n = rems.len();
    let mut i: usize = 0;
    assert(rems@.skip(0) =~= rems@);
    while i < n
        invariant
            i <= n,
            n == rems@.len(),
            remediation_of(rems@, rule@) == remediation_of(rems@.skip(i as int), rule@),
        decreases n - i,
    {
        assert(rems@.skip(i as int)[0] == rems@[i as int]);
        if str_is(rems[i].0.as_str(), rule) {
            return Some(&rems[i].1);
        }
        assert(rems@.skip(i as int).drop_first() =~= rems@.skip(i + 1));
        i += 1;
    }
    None
}

fn find_source<'a>(srcs: &'a Vec<(String, Option<String>)>, file: &str) -> (r: Option<&'a String>)
    ensures
        match source_of(srcs@, file@) {
            Some(x) => r matches Some(s) && s@ == x,
            None => r is None,
        },
{
    let n = srcs.len();
    let mut i: usize = 0;
    assert(srcs@.skip(0) =~= srcs@);
    while i < n
        invariant
            i <= n,
            n == srcs@.len(),
            source_of(srcs@, file@) == source_of(srcs@.skip(i as int), file@),
        decreases n - i,
    {
        assert(srcs@.skip(i as int)[0] == srcs@[i as int]);
        if str_is(srcs[i].0.as_str(), file) {
            return match &srcs[i].1 {
                Some(t) => Some(t),
                None => None,
            };
        }
        assert(srcs@.skip(i as int).drop_first() =~= srcs@.skip(i + 1));
        i += 1;
    }
    None
}

fn push_fix(out: &mut String, rems: &Vec<(String, String)>, rule: &str, color: bool)
    ensures
        final(out)@ == old(out)@ + fix_text(rems@, rule@, color),
{
    match find_remediation(rems, rule) {
        Some(fix) => {
            out.append("    ");
            push_paint(out, "fix:", Tone::Green, color);
            out.append(" ");
            let t = trimmed(fix.as_str());
            push_indented(out, &t);
            out.append("\n");
        }
        None => {}
    }
}

fn push_caret(out: &mut String, f: &Finding, text: &String, width: usize, color: bool)
    requires
        width as int == frame_width(f@),
    ensures
        final(out)@ == old(out)@ + caret_text(f@, text@, color),
{
    let ghost o = out@;
    let col = f.span.start.column as u64;
    let caret: u64 = if f.span.end.line == f.span.start.line {
        let ec = f.span.end.column as u64;
        if ec > col && ec - col > 1 { ec - col } else { 1 }
    } else if col == 0 {
        1
    } else {
        let blen = crate::hashing::utf8_bytes(text.as_str()).len() as u64;
        if blen > col - 1 && blen - (col - 1) > 1 { blen - (col - 1) } else { 1 }
    };
    assert(caret as int == caret_len(f@, text@));
    out.append("    ");
    let mut g2 = String::new();
    push_padded(&mut g2, "", width, ' ');
    g2.append(" │");
    proof { reveal_strlit(""); }
    assert(g2@ =~= pad_left(Seq::empty(), frame_width(f@), ' ') + " │"@);
    push_paint(out, g2.as_str(), Tone::Dim, color);
    out.append(" ");
    let mut ul = String::new();
    let spaces: u64 = if col > 0 { col - 1 } else { 0 };
    let marks: u64 = if caret < 120 { caret } else { 120 };
    push_fill(&mut ul, ' ', spaces as usize);
    push_fill(&mut ul, '^', marks as usize);
    assert(fill(' ', spaces as int) =~= fill(' ', col - 1));
    push_paint(out, ul.as_str(), tone_of(f.severity), color);
    out.append("\n");
    assert(out@ =~= o + caret_text(f@, text@, color));
}

fn gutter_of(n: usize, width: usize) -> (r: String)
    ensures
        r@ == pad_left(dec(n as nat), width as int, ' ') + " │"@,
{
    let mut gutter = String::new();
    let num = dec_string(n as u64);
    push_padded(&mut gutter, num.as_str(), width, ' ');
    gutter.append(" │");
    gutter
}

fn push_frame_line(out: &mut String, lines: &Vec<Vec<char>>, n: usize, f: &Finding, width: usize, color: bool)
    requires
        1 <= n <= lines@.len(),
        width as int == frame_width(f@),
    ensures
        final(out)@ == old(out)@ + frame_line(crate::paths::char_vecs_view(lines@), n as int, f@, color),
{
    let ghost o = out@;
    let ghost lv = crate::paths::char_vecs_view(lines@);
    let raw = string_of(lines[n - 1].as_slice());
    assert(raw@ == lv[n - 1]);
    let text = truncate(raw.as_str(), 160);
    let gutter = gutter_of(n, width);
    let start = f.span.start.line as u64;
    let endl = f.span.end.line as u64;
    let nn = n as u64;
    let inside = start <= nn && nn <= endl;
    out.append("    ");
    push_paint(out, gutter.as_str(), Tone::Dim, color);
    out.append(" ");
    push_paint(out, text.as_str(), if inside { Tone::Bold } else { Tone::Dim }, color);
    out.append("\n");
    let ghost o2 = out@;
    if inside && nn == start {
        push_caret(out, f, &text, width, color);
    }
    assert(out@ =~= o + frame_line(lv, n as int, f@, color));
}

fn push_frame(out: &mut String, srcs: &Vec<(String, Option<String>)>, f: &Finding, color: bool)
    ensures
        final(out)@ == old(out)@ + frame_text(source_of(srcs@, f.file@), f@, color),
{
    let src = match find_source(srcs, f.file.as_str()) {
        Some(s) => s,
        None => return,
    };
    let lines = text_lines(src.as_str());
    let ghost lv = crate::paths::char_vecs_view(lines@);
    let start = f.span.start.line as u64;
    let endl = f.span.end.line as u64;
    let end: u64 = if endl < start + 4 { endl } else { start + 4 };
    let first: u64 = if start > 3 { start - 2 } else { 1 };
    let digits = dec_string(end).unicode_len();
    let width: usize = if digits > 3 { digits } else { 3 };
    let total: usize = lines.len();
    let nlines = total as u64;
    assert(nlines as int <= usize::MAX as int);
    let last: u64 = if end < nlines { end } else { nlines };
    assert(first as int == frame_first(f@));
    assert(last as int == if frame_end(f@) < lv.len() { frame_end(f@) } else { lv.len() as int });
    let ghost base = out@;
    let mut n: u128 = first as u128;
    assert(frame_lines(lv, f@, color, first as int, n as int) =~= Seq::<char>::empty());
    if first > last {
        assert(frame_lines(lv, f@, color, first as int, last + 1) =~= Seq::<char>::empty());
        return;
    }
    while n <= last as u128
        invariant
            1 <= first <= n,
            n <= last + 1,
            last <= nlines,
            nlines as int <= usize::MAX as int,
            nlines == lines@.len(),
            lv == crate::paths::char_vecs_view(lines@),
            width as int == frame_width(f@),
            out@ == base + frame_lines(lv, f@, color, first as int, n as int),
        decreases last + 1 - n,
    {
        assert(n <= nlines as u128);
        assert(nlines as int == lines@.len());
        assert(n as int <= usize::MAX as int);
        let k: usize = n as usize;
        assert(k as int == n as int);
        push_frame_line(out, &lines, k, f, width, color);
        n = n + 1;
    }
}

/// Append everything printed for one finding.
pub fn push_finding(out: &mut String, f: &Finding, rems: &Vec<(String, String)>, srcs: &Vec<(String, Option<String>)>, color: bool)
    ensures
        final(out)@ == old(out)@ + finding_text(f@, rems@, srcs@, color),
{
    push_header(out, f, color);
    push_frame(out, srcs, f, color);
    push_flow(out, &f.trace, color);
    push_fix(out, rems, f.rule_id.as_str(), color);
    out.append("\n");
    proof { reveal(finding_text); }
}

// ---------------------------------------------------------------------
// The whole report
// ---------------------------------------------------------------------

/// The findings of one file, in their given order.
pub open spec fn of_file(fs: Seq<FindingView>, file: Seq<char>) -> Seq<FindingView> {
    fs.filter(|f: FindingView| f.file == file)
}

/// The printed findings of a list, in order.
pub open spec fn findings_text(fs: Seq<FindingView>, rems: Seq<(String, String)>, srcs: Seq<(String, Option<String>)>, color: bool) -> Seq<char>
    decreases fs.len(),
{
    if fs.len() == 0 {
        Seq::empty()
    } else {
        findings_text(fs.drop_last(), rems, srcs, color) + finding_text(fs.last(), rems, srcs, color)
    }
}

/// One file's section: its name in bold, then its findings.
pub open spec fn file_section(fs: Seq<FindingView>, file: Seq<char>, rems: Seq<(String, String)>, srcs: Seq<(String, Option<String>)>, color: bool) -> Seq<char> {
    paint(file, Tone::Bold, color) + "\n"@ + findings_text(of_file(fs, file), rems, srcs, color)
}

/// The sections of the first `k` files.
pub open spec fn sections(files: Seq<Seq<char>>, fs: Seq<FindingView>, rems: Seq<(String, String)>, srcs: Seq<(String, Option<String>)>, color: bool, k: int) -> Seq<char>
    decreases k,
{
    if k <= 0 { Seq::empty() } else { sections(files, fs, rems, srcs, color, k - 1) + file_section(fs, files[k - 1], rems, srcs, color) }
}

/// The files of a list of findings.
pub open spec fn files_of(fs: Seq<FindingView>) -> Seq<Seq<char>> {
    fs.map_values(|f: FindingView| f.file)
}

/// The warnings block (none without warnings).
pub open spec fn warnings_text(errors: Seq<Seq<char>>, color: bool) -> Seq<char> {
    if errors.len() == 0 {
        Seq::empty()
    } else {
        paint("warnings:"@, Tone::Bold, color) + "\n"@ + warning_lines(errors, color, errors.len() as int) + "\n"@
    }
}

pub open spec fn warning_lines(errors: Seq<Seq<char>>, color: bool, k: int) -> Seq<char>
    decreases k,
{
    if k <= 0 { Seq::empty() } else { warning_lines(errors, color, k - 1) + "  "@ + paint(errors[k - 1], Tone::Dim, color) + "\n"@ }
}

/// How many findings have a severity.
pub open spec fn count_of(fs: Seq<FindingView>, s: Severity) -> nat {
    fs.filter(|f: FindingView| f.severity == s).len()
}

/// The per-severity counts, most severe first, of the severities present:
/// `N severity`, each in its severity's style.
pub open spec fn severity_parts(fs: Seq<FindingView>, color: bool) -> Seq<Seq<char>> {
    let part = |s: Severity| if count_of(fs, s) > 0 {
        seq![paint(dec(count_of(fs, s)) + " "@ + s.name(), severity_tone(s), color)]
    } else {
        Seq::empty()
    };
    part(Severity::Critical) + part(Severity::High) + part(Severity::Medium) + part(Severity::Low) + part(Severity::Info)
}

/// `s` when `n` is not one.
pub open spec fn plural(n: nat) -> Seq<char> {
    if n == 1 { Seq::empty() } else { "s"@ }
}

/// The summary line, preceded by a check mark line when nothing was found.
pub open spec fn summary_text(fs: Seq<FindingView>, st: ScanStats, color: bool) -> Seq<char> {
    (if fs.len() == 0 { paint("✓ no findings"@, Tone::GreenBold, color) + "\n"@ } else { Seq::empty() })
        + summary_line(fs, st, color) + "\n"@
}

/// The human report: one section per file (files in name order, findings
/// in their given order within a file), the warnings, and the summary.
pub open spec fn report_text(fs: Seq<FindingView>, st: ScanStats, errors: Seq<Seq<char>>, rems: Seq<(String, String)>,
    srcs: Seq<(String, Option<String>)>, color: bool) -> Seq<char>
{
    let files = sorted_distinct(files_of(fs));
    sections(files, fs, rems, srcs, color, files.len() as int) + warnings_text(errors, color) + summary_text(fs, st, color)
}

fn severity_counts(findings: &Vec<Finding>) -> (r: [usize; 5])
    ensures
        r[0] == count_of(views(findings@), Severity::Critical),
        r[1] == count_of(views(findings@), Severity::High),
        r[2] == count_of(views(findings@), Severity::Medium),
        r[3] == count_of(views(findings@), Severity::Low),
        r[4] == count_of(views(findings@), Severity::Info),
{
    let ghost fv = views(findings@);
    let mut crit: usize = 0;
    let mut high: usize = 0;
    let mut med: usize = 0;
    let mut low: usize = 0;
    let mut info: usize = 0;
    let n = findings.len();
    for i in 0..n
        invariant
            n == findings@.len(),
            fv == views(findings@),
            crit == count_of(fv.take(i as int), Severity::Critical),
            high == count_of(fv.take(i as int), Severity::High),
            med == count_of(fv.take(i as int), Severity::Medium),
            low == count_of(fv.take(i as int), Severity::Low),
            info == count_of(fv.take(i as int), Severity::Info),
            crit + high + med + low + info == i,
    {
        let ghost f = fv[i as int];
        assert(fv.take(i + 1) =~= fv.take(i as int).push(f));
        proof {
            fv.take(i as int).lemma_filter_push(f, |g: FindingView| g.severity == Severity::Critical);
            fv.take(i as int).lemma_filter_push(f, |g: FindingView| g.severity == Severity::High);
            fv.take(i as int).lemma_filter_push(f, |g: FindingView| g.severity == Severity::Medium);
            fv.take(i as int).lemma_filter_push(f, |g: FindingView| g.severity == Severity::Low);
            fv.take(i as int).lemma_filter_push(f, |g: FindingView| g.severity == Severity::Info);
        }
        match findings[i].severity {
            Severity::Critical => { crit = crit + 1; }
            Severity::High => { high = high + 1; }
            Severity::Medium => { med = med + 1; }
            Severity::Low => { low = low + 1; }
            Severity::Info => { info = info + 1; }
        }
    }
    assert(fv.take(n as int) =~= fv);
    [crit, high, med, low, info]
}

/// The summary part of one severity (none when it has no findings).
pub open spec fn part_of(fs: Seq<FindingView>, s: Severity, color: bool) -> Seq<Seq<char>> {
    if count_of(fs, s) > 0 {
        seq![paint(dec(count_of(fs, s)) + " "@ + s.name(), severity_tone(s), color)]
    } else {
        Seq::empty()
    }
}

proof fn lemma_parts(fs: Seq<FindingView>, color: bool)
    ensures
        severity_parts(fs, color) == part_of(fs, Severity::Critical, color) + part_of(fs, Severity::High, color)
            + part_of(fs, Severity::Medium, color) + part_of(fs, Severity::Low, color) + part_of(fs, Severity::Info, color),
{
}

fn push_part(parts: &mut Vec<String>, s: Severity, c: usize, color: bool, Ghost(fs): Ghost<Seq<FindingView>>)
    requires
        c == count_of(fs, s),
    ensures
        strings_view(final(parts)@) == strings_view(old(parts)@) + part_of(fs, s, color),
{
    let ghost before = strings_view(parts@);
    if c > 0 {
        let mut t = dec_string(c as u64);
        t.append(" ");
        t.append(s.as_str());
        let mut p = String::new();
        push_paint(&mut p, t.as_str(), tone_of(s), color);
        parts.push(p);
        assert(strings_view(parts@) =~= before + part_of(fs, s, color));
    } else {
        assert(strings_view(parts@) =~= before + part_of(fs, s, color));
    }
}

/// The counts part of the summary line.
pub open spec fn counts_text(fs: Seq<FindingView>, color: bool) -> Seq<char> {
    let parts = severity_parts(fs, color);
    dec(fs.len()) + " finding"@ + plural(fs.len()) + " ("@
        + (if parts.len() == 0 { "none"@ } else { join(parts, ", "@) })
        + ") in "@
}

/// The files part of the summary line.
pub open spec fn files_text(st: ScanStats) -> Seq<char> {
    let total = (st.files_from_cache + st.files_scanned) as nat;
    dec(total) + " file"@ + plural(total) + " — "@
        + dec(st.files_scanned as nat) + " scanned, "@ + dec(st.files_from_cache as nat) + " cached, "@
        + dec(st.duration_ms as nat) + " ms"@
}

/// The notes closing the summary line: findings the baseline suppressed,
/// files skipped for size.
pub open spec fn notes_text(st: ScanStats) -> Seq<char> {
    (if st.baseline_suppressed > 0 { " ("@ + dec(st.baseline_suppressed as nat) + " pre-existing suppressed by baseline)"@ } else { Seq::empty() })
        + (if st.files_skipped_size > 0 { " ("@ + dec(st.files_skipped_size as nat) + " oversized skipped)"@ } else { Seq::empty() })
}

/// The summary line proper.
pub open spec fn summary_line(fs: Seq<FindingView>, st: ScanStats, color: bool) -> Seq<char> {
    counts_text(fs, color) + files_text(st) + notes_text(st)
}

#[verifier::rlimit(30)]
fn push_counts_part(out: &mut String, findings: &Vec<Finding>, color: bool)
    ensures
        final(out)@ == old(out)@ + counts_text(views(findings@), color),
{
    let ghost o = out@;
    let ghost fv = views(findings@);
    let counts = severity_counts(findings);
    let mut parts: Vec<String> = Vec::new();
    push_part(&mut parts, Severity::Critical, counts[0], color, Ghost(fv));
    push_part(&mut parts, Severity::High, counts[1], color, Ghost(fv));
    push_part(&mut parts, Severity::Medium, counts[2], color, Ghost(fv));
    push_part(&mut parts, Severity::Low, counts[3], color, Ghost(fv));
    push_part(&mut parts, Severity::Info, counts[4], color, Ghost(fv));
    proof { lemma_parts(fv, color); }
    assert(strings_view(parts@) =~= severity_parts(fv, color));
    let n = findings.len();
    push_dec(out, n as u64);
    out.append(" finding");
    if n != 1 { out.append("s"); }
    proof { reveal_strlit("s"); }
    out.append(" (");
    if parts.len() == 0 {
        out.append("none");
    } else {
        let j = join_strings(&parts, ", ");
        out.append(j.as_str());
    }
    out.append(") in ");
    assert(fv.len() == findings@.len());
    assert(out@ =~= o + counts_text(fv, color));
}

fn push_files_part(out: &mut String, stats: &ScanStats)
    ensures
        final(out)@ == old(out)@ + files_text(*stats),
{
    let ghost o = out@;
    let total: u128 = stats.files_from_cache as u128 + stats.files_scanned as u128;
    let t = dec_wide(total);
    out.append(t.as_str());
    out.append(" file");
    if total != 1 { out.append("s"); }
    proof { reveal_strlit("s"); }
    out.append(" — ");
    push_dec(out, stats.files_scanned as u64);
    out.append(" scanned, ");
    push_dec(out, stats.files_from_cache as u64);
    out.append(" cached, ");
    let ms = dec_wide(stats.duration_ms);
    out.append(ms.as_str());
    out.append(" ms");
    assert(out@ =~= o + files_text(*stats));
}

fn push_summary(out: &mut String, findings: &Vec<Finding>, stats: &ScanStats, color: bool)
    ensures
        final(out)@ == old(out)@ + summary_text(views(findings@), *stats, color),
{
    let ghost o = out@;
    let n = findings.len();
    if n == 0 {
        push_paint(out, "✓ no findings", Tone::GreenBold, color);
        out.append("\n");
    }
    let ghost o1 = out@;
    push_counts_part(out, findings, color);
    push_files_part(out, stats);
    let ghost o2 = out@;
    push_notes(out, stats);
    out.append("\n");
    assert(out@ =~= o1 + summary_line(views(findings@), *stats, color) + "\n"@);
    assert(out@ =~= o + summary_text(views(findings@), *stats, color));
}

fn push_notes(out: &mut String, stats: &ScanStats)
    ensures
        final(out)@ == old(out)@ + notes_text(*stats),
{
    let ghost o = out@;
    if stats.baseline_suppressed > 0 {
        out.append(" (");
        push_dec(out, stats.baseline_suppressed as u64);
        out.append(" pre-existing suppressed by baseline)");
    }
    if stats.files_skipped_size > 0 {
        out.append(" (");
        push_dec(out, stats.files_skipped_size as u64);
        out.append(" oversized skipped)");
    }
    assert(out@ =~= o + notes_text(*stats));
}

fn push_file_findings(out: &mut String, findings: &Vec<Finding>, file: &str, remediations: &Vec<(String, String)>,
    sources: &Vec<(String, Option<String>)>, color: bool)
    ensures
        final(out)@ == old(out)@ + findings_text(of_file(views(findings@), file@), remediations@, sources@, color),
{
    let ghost fv = views(findings@);
    let ghost keep = |f: FindingView| f.file == file@;
    let ghost base = out@;
    let n = findings.len();
    for i in 0..n
        invariant
            n == findings@.len(),
            fv == views(findings@),
            keep == (|f: FindingView| f.file == file@),
            out@ == base + findings_text(fv.take(i as int).filter(keep), remediations@, sources@, color),
    {
        proof { fv.take(i as int).lemma_filter_push(fv[i as int], keep); }
        assert(fv.take(i + 1) =~= fv.take(i as int).push(fv[i as int]));
        if str_is(findings[i].file.as_str(), file) {
            let ghost o = out@;
            push_finding(out, &findings[i], remediations, sources, color);
            let ghost l = fv.take(i as int).filter(keep).push(fv[i as int]);
            assert(l.drop_last() =~= fv.take(i as int).filter(keep));
            assert(out@ =~= base + findings_text(l, remediations@, sources@, color));
        }
    }
    assert(fv.take(n as int) =~= fv);
}

/// Render findings for a terminal: grouped by file (files in name order,
/// findings in their given order), each with its code frame, flow and
/// fix; then warnings and a summary. `sources` holds the text of each
/// finding's file (absent or `None` when it could not be read);
/// `remediations` maps rule ids to their remediation text.
pub fn render(findings: &Vec<Finding>, stats: &ScanStats, errors: &Vec<String>, remediations: &Vec<(String, String)>,
    sources: &Vec<(String, Option<String>)>, color: bool) -> (r: String)
    ensures
        r@ == report_text(views(findings@), *stats, strings_view(errors@), remediations@, sources@, color),
{
    let ghost fv = views(findings@);
    let mut out = String::new();
    // The distinct files, in name order.
    let mut files: Vec<String> = Vec::new();
    let n = findings.len();
    for i in 0..n
        invariant
            n == findings@.len(),
            fv == views(findings@),
            strictly_sorted(strings_view(files@)),
            forall|y: Seq<char>| strings_view(files@).contains(y) <==> files_of(fv).take(i as int).contains(y),
    {
        insert_sorted_unique(&mut files, findings[i].file.clone());
        assert(files_of(fv).take(i + 1) =~= files_of(fv).take(i as int).push(fv[i as int].file));
        assert forall|y: Seq<char>| strings_view(files@).contains(y) <==> files_of(fv).take(i + 1).contains(y) by {
            if y == fv[i as int].file {
                assert(files_of(fv).take(i + 1)[i as int] == y);
            }
            if files_of(fv).take(i + 1).contains(y) && y != fv[i as int].file {
                let k = choose|k: int| 0 <= k < i + 1 && #[trigger] files_of(fv).take(i + 1)[k] == y;
                assert(files_of(fv).take(i as int)[k] == y);
            }
        }
    }
    assert(files_of(fv).take(n as int) =~= files_of(fv));
    proof { lemma_sorted_distinct(strings_view(files@), files_of(fv)); }
    let ghost fs = strings_view(files@);
    let m = files.len();
    for k in 0..m
        invariant
            m == files@.len(),
            fv == views(findings@),
            fs == strings_view(files@),
            out@ == sections(fs, fv, remediations@, sources@, color, k as int),
    {
        let ghost o = out@;
        push_paint(&mut out, files[k].as_str(), Tone::Bold, color);
        out.append("\n");
        push_file_findings(&mut out, findings, files[k].as_str(), remediations, sources, color);
        assert(out@ =~= o + file_section(fv, fs[k as int], remediations@, sources@, color));
    }
    if errors.len() > 0 {
        push_paint(&mut out, "warnings:", Tone::Bold, color);
        out.append("\n");
        let ghost base = out@;
        let ne = errors.len();
        for i in 0..ne
            invariant
                ne == errors@.len(),
                out@ == base + warning_lines(strings_view(errors@), color, i as int),
        {
            out.append("  ");
            push_paint(&mut out, errors[i].as_str(), Tone::Dim, color);
            out.append("\n");
        }
        out.append("\n");
    }
    push_summary(&mut out, findings, stats, color);
    out
}

} // verus!
