//! CSV export of a capture: one row per sample, then the markers.
//!
//! ```text
//! elapsed_s,T1,T2,T3,T4
//! 0.000,27.5,27.3,27.4,27.5
//! 1.001,28.1,27.9,28.0,28.2
//!
//! # Markers
//! # elapsed_s,label
//! # 12.340,contact
//! ```
//! A channel without a probe leaves its cell empty.

use vstd::prelude::*;
use crate::capture::{channel_name, spec_channel_name, Marker, Sample};
use crate::text::{
    decimal_text, digit_text, lemma_decimal_text_reads_back, lemma_digit_text_value, millis_text,
    push_millis, push_tenths, tenths_text,
};

verus! {

/// The header line: the time column, then the channel names.
pub open spec fn header_text() -> Seq<char> {
    "elapsed_s"@ + ","@ + spec_channel_name(0) + ","@ + spec_channel_name(1) + ","@
        + spec_channel_name(2) + ","@ + spec_channel_name(3) + "\n"@
}

/// One temperature cell: the reading with one decimal, or nothing.
pub open spec fn cell_text(t: Option<i16>) -> Seq<char> {
    match t {
        Some(v) => tenths_text(v as int),
        None => Seq::empty(),
    }
}

/// The row of one sample.
pub open spec fn row_text(s: Sample) -> Seq<char> {
    millis_text(s.elapsed as nat) + ","@ + cell_text(s.temps@[0]) + ","@ + cell_text(s.temps@[1])
        + ","@ + cell_text(s.temps@[2]) + ","@ + cell_text(s.temps@[3]) + "\n"@
}

/// The rows of all samples, in order.
pub open spec fn rows_text(samples: Seq<Sample>) -> Seq<char>
    decreases samples.len(),
{
    if samples.len() == 0 {
        Seq::empty()
    } else {
        rows_text(samples.drop_last()) + row_text(samples.last())
    }
}

/// The comment line of one marker (session time in ms, label).
pub open spec fn marker_line(m: (u64, Seq<char>)) -> Seq<char> {
    "# "@ + millis_text(m.0 as nat) + ","@ + m.1 + "\n"@
}

/// The comment lines of all markers, in order.
pub open spec fn marker_lines(markers: Seq<(u64, Seq<char>)>) -> Seq<char>
    decreases markers.len(),
{
    if markers.len() == 0 {
        Seq::empty()
    } else {
        marker_lines(markers.drop_last()) + marker_line(markers.last())
    }
}

/// The heading that opens the marker section.
pub open spec fn marker_heading() -> Seq<char> {
    "\n# Markers\n# elapsed_s,label\n"@
}

/// The marker section: absent when there are no markers.
pub open spec fn markers_text(markers: Seq<(u64, Seq<char>)>) -> Seq<char> {
    if markers.len() == 0 {
        Seq::empty()
    } else {
        marker_heading() + marker_lines(markers)
    }
}

/// The whole CSV document.
pub open spec fn csv_text(samples: Seq<Sample>, markers: Seq<(u64, Seq<char>)>) -> Seq<char> {
    header_text() + rows_text(samples) + markers_text(markers)
}

/// The views of a list of markers.
pub open spec fn marker_views(markers: Seq<Marker>) -> Seq<(u64, Seq<char>)> {
    markers.map_values(|m: Marker| m@)
}

fn push_cell(out: &mut String, t: Option<i16>)
    ensures
        final(out)@ == old(out)@ + cell_text(t),
{
    match t {
        Some(v) => push_tenths(out, v),
        None => {
            assert(old(out)@ + cell_text(t) =~= old(out)@);
        },
    }
}

fn push_row(out: &mut String, s: &Sample)
    ensures
        final(out)@ == old(out)@ + row_text(*s),
{
    let ghost start = out@;
    push_millis(out, s.elapsed);
    out.append(",");
    push_cell(out, s.temps[0]);
    out.append(",");
    push_cell(out, s.temps[1]);
    out.append(",");
    push_cell(out, s.temps[2]);
    out.append(",");
    push_cell(out, s.temps[3]);
    out.append("\n");
    assert(out@ =~= start + row_text(*s));
}

fn push_marker(out: &mut String, m: &Marker)
    ensures
        final(out)@ == old(out)@ + marker_line(m@),
{
    let ghost start = out@;
    out.append("# ");
    push_millis(out, m.elapsed);
    out.append(",");
    out.append(m.label.as_str());
    out.append("\n");
    assert(out@ =~= start + marker_line(m@));
}

fn push_header(out: &mut String)
    ensures
        final(out)@ == old(out)@ + header_text(),
{
    let ghost start = out@;
    out.append("elapsed_s");
    out.append(",");
    out.append(channel_name(0));
    out.append(",");
    out.append(channel_name(1));
    out.append(",");
    out.append(channel_name(2));
    out.append(",");
    out.append(channel_name(3));
    out.append("\n");
    assert(out@ =~= start + header_text());
}

fn push_rows(out: &mut String, samples: &[Sample])
    ensures
        final(out)@ == old(out)@ + rows_text(samples@),
{
    let ghost start = out@;
    let mut i: usize = 0;
    assert(samples@.subrange(0, 0) =~= Seq::<Sample>::empty());
    assert(out@ =~= start + rows_text(samples@.subrange(0, 0)));
    while i < samples.len()
        invariant
            i <= samples@.len(),
            out@ == start + rows_text(samples@.subrange(0, i as int)),
        decreases samples@.len() - i,
    {
        push_row(out, &samples[i]);
        assert(samples@.subrange(0, i + 1).drop_last() =~= samples@.subrange(0, i as int));
        i = i + 1;
        assert(out@ =~= start + rows_text(samples@.subrange(0, i as int)));
    }
    assert(samples@.subrange(0, samples@.len() as int) =~= samples@);
}

fn push_marker_lines(out: &mut String, markers: &[Marker])
    ensures
        final(out)@ == old(out)@ + marker_lines(marker_views(markers@)),
{
    let ghost start = out@;
    let ghost views = marker_views(markers@);
    let mut j: usize = 0;
    assert(views.subrange(0, 0) =~= Seq::<(u64, Seq<char>)>::empty());
    assert(out@ =~= start + marker_lines(views.subrange(0, 0)));
    while j < markers.len()
        invariant
            j <= markers@.len(),
            views == marker_views(markers@),
            views.len() == markers@.len(),
            out@ == start + marker_lines(views.subrange(0, j as int)),
        decreases markers@.len() - j,
    {
        push_marker(out, &markers[j]);
        assert(views.subrange(0, j + 1).drop_last() =~= views.subrange(0, j as int));
        assert(views[j as int] == markers@[j as int]@);
        j = j + 1;
        assert(out@ =~= start + marker_lines(views.subrange(0, j as int)));
    }
    assert(views.subrange(0, markers@.len() as int) =~= views);
}

/// Renders the samples and markers as CSV (see the module documentation).
pub fn to_csv(samples: &[Sample], markers: &[Marker]) -> (csv: String)
    ensures
        csv@ == csv_text(samples@, marker_views(markers@)),
{
    let mut out = String::new();
    push_header(&mut out);
    push_rows(&mut out, samples);
    if markers.len() > 0 {
        out.append("\n# Markers\n# elapsed_s,label\n");
        push_marker_lines(&mut out, markers);
    }
    assert(out@ =~= csv_text(samples@, marker_views(markers@)));
    out
}

/// A CSV without markers is the header followed by one row per sample.
pub proof fn lemma_csv_without_markers(samples: Seq<Sample>)
    ensures
        csv_text(samples, Seq::empty()) == header_text() + rows_text(samples),
{
    assert(csv_text(samples, Seq::empty()) =~= header_text() + rows_text(samples));
}

/// Recording one more sample adds exactly its row after the earlier rows;
/// the marker section, if any, stays at the end.
pub proof fn lemma_csv_appends_row(samples: Seq<Sample>, s: Sample, markers: Seq<(u64, Seq<char>)>)
    ensures
        csv_text(samples.push(s), markers) == header_text() + rows_text(samples) + row_text(s)
            + markers_text(markers),
{
    assert(samples.push(s).drop_last() =~= samples);
    assert(csv_text(samples.push(s), markers) =~= header_text() + rows_text(samples) + row_text(s)
        + markers_text(markers));
}

/// The number of line breaks in a text.
pub open spec fn line_breaks(t: Seq<char>) -> nat
    decreases t.len(),
{
    if t.len() == 0 {
        0
    } else {
        line_breaks(t.drop_last()) + if t.last() == '\n' {
            1nat
        } else {
            0nat
        }
    }
}

/// A text with no line break in it.
pub open spec fn single_line(t: Seq<char>) -> bool {
    forall|i: int| 0 <= i < t.len() ==> t[i] != '\n'
}

proof fn lemma_breaks_concat(a: Seq<char>, b: Seq<char>)
    ensures
        line_breaks(a + b) == line_breaks(a) + line_breaks(b),
    decreases b.len(),
{
    if b.len() == 0 {
        assert(a + b =~= a);
    } else {
        assert((a + b).drop_last() =~= a + b.drop_last());
        lemma_breaks_concat(a, b.drop_last());
    }
}

proof fn lemma_breaks_none(t: Seq<char>)
    requires
        single_line(t),
    ensures
        line_breaks(t) == 0,
    decreases t.len(),
{
    if t.len() > 0 {
        assert(single_line(t.drop_last()));
        lemma_breaks_none(t.drop_last());
    }
}

proof fn lemma_breaks_newline()
    ensures
        line_breaks("\n"@) == 1,
{
    reveal_strlit("\n");
    let t = "\n"@;
    assert(t.len() == 1);
    assert(t.last() == '\n');
    assert(t.drop_last() =~= Seq::<char>::empty());
    assert(line_breaks(t.drop_last()) == 0);
}

proof fn lemma_digit_single_line(d: int)
    ensures
        single_line(digit_text(d)),
{
    reveal_strlit("0");
    reveal_strlit("1");
    reveal_strlit("2");
    reveal_strlit("3");
    reveal_strlit("4");
    reveal_strlit("5");
    reveal_strlit("6");
    reveal_strlit("7");
    reveal_strlit("8");
    reveal_strlit("9");
}

proof fn lemma_decimal_single_line(n: nat)
    ensures
        single_line(decimal_text(n)),
    decreases n,
{
    lemma_digit_single_line(n as int);
    if n >= 10 {
        lemma_decimal_single_line(n / 10);
        lemma_digit_single_line((n % 10) as int);
    }
}

proof fn lemma_cell_single_line(t: Option<i16>)
    ensures
        single_line(cell_text(t)),
{
    if let Some(v) = t {
        let a: int = if v < 0 { -v } else { v as int };
        reveal_strlit("-");
        reveal_strlit(".");
        lemma_decimal_single_line((a / 10) as nat);
        lemma_digit_single_line(a % 10);
    }
}

proof fn lemma_millis_single_line(ms: nat)
    ensures
        single_line(millis_text(ms)),
{
    reveal_strlit(".");
    lemma_decimal_single_line(ms / 1000);
    lemma_digit_single_line(((ms / 100) % 10) as int);
    lemma_digit_single_line(((ms / 10) % 10) as int);
    lemma_digit_single_line((ms % 10) as int);
}

proof fn lemma_row_breaks(s: Sample)
    ensures
        line_breaks(row_text(s)) == 1,
{
    reveal_strlit(",");
    lemma_millis_single_line(s.elapsed as nat);
    lemma_cell_single_line(s.temps@[0]);
    lemma_cell_single_line(s.temps@[1]);
    lemma_cell_single_line(s.temps@[2]);
    lemma_cell_single_line(s.temps@[3]);
    let body = millis_text(s.elapsed as nat) + ","@ + cell_text(s.temps@[0]) + ","@ + cell_text(
        s.temps@[1],
    ) + ","@ + cell_text(s.temps@[2]) + ","@ + cell_text(s.temps@[3]);
    assert(single_line(body));
    lemma_breaks_none(body);
    lemma_breaks_newline();
    lemma_breaks_concat(body, "\n"@);
}

proof fn lemma_rows_breaks(samples: Seq<Sample>)
    ensures
        line_breaks(rows_text(samples)) == samples.len(),
    decreases samples.len(),
{
    if samples.len() > 0 {
        lemma_rows_breaks(samples.drop_last());
        lemma_row_breaks(samples.last());
        lemma_breaks_concat(rows_text(samples.drop_last()), row_text(samples.last()));
    }
}

proof fn lemma_header_breaks()
    ensures
        line_breaks(header_text()) == 1,
{
    reveal_strlit("elapsed_s");
    reveal_strlit(",");
    reveal_strlit("T1");
    reveal_strlit("T2");
    reveal_strlit("T3");
    reveal_strlit("T4");
    let body = "elapsed_s"@ + ","@ + spec_channel_name(0) + ","@ + spec_channel_name(1) + ","@
        + spec_channel_name(2) + ","@ + spec_channel_name(3);
    assert(single_line(body));
    lemma_breaks_none(body);
    lemma_breaks_newline();
    lemma_breaks_concat(body, "\n"@);
}

proof fn lemma_marker_line_breaks(m: (u64, Seq<char>))
    requires
        single_line(m.1),
    ensures
        line_breaks(marker_line(m)) == 1,
{
    reveal_strlit("# ");
    reveal_strlit(",");
    lemma_millis_single_line(m.0 as nat);
    let body = "# "@ + millis_text(m.0 as nat) + ","@ + m.1;
    assert(single_line(body));
    lemma_breaks_none(body);
    lemma_breaks_newline();
    lemma_breaks_concat(body, "\n"@);
}

proof fn lemma_marker_lines_breaks(markers: Seq<(u64, Seq<char>)>)
    requires
        forall|i: int| 0 <= i < markers.len() ==> single_line(#[trigger] markers[i].1),
    ensures
        line_breaks(marker_lines(markers)) == markers.len(),
    decreases markers.len(),
{
    if markers.len() > 0 {
        let last = markers.len() - 1;
        assert(single_line(markers[last].1));
        lemma_marker_lines_breaks(markers.drop_last());
        lemma_marker_line_breaks(markers.last());
        lemma_breaks_concat(marker_lines(markers.drop_last()), marker_line(markers.last()));
    }
}

proof fn lemma_heading_breaks()
    ensures
        line_breaks(marker_heading()) == 3,
{
    let h = marker_heading();
    reveal_strlit("\n# Markers\n# elapsed_s,label\n");
    assert(h.len() == 29);
    let p0 = h.subrange(0, 1);
    let p1 = h.subrange(1, 10);
    let p2 = h.subrange(10, 11);
    let p3 = h.subrange(11, 28);
    let p4 = h.subrange(28, 29);
    assert(h =~= p0 + p1 + p2 + p3 + p4);
    assert(single_line(p1));
    assert(single_line(p3));
    lemma_breaks_none(p1);
    lemma_breaks_none(p3);
    lemma_breaks_newline();
    reveal_strlit("\n");
    assert(p0 =~= "\n"@);
    assert(p2 =~= "\n"@);
    assert(p4 =~= "\n"@);
    lemma_breaks_concat(p0, p1);
    lemma_breaks_concat(p0 + p1, p2);
    lemma_breaks_concat(p0 + p1 + p2, p3);
    lemma_breaks_concat(p0 + p1 + p2 + p3, p4);
}

/// The CSV has one line for the header and one per sample; with markers it
/// has a blank line, two heading lines and one line per marker more. This
/// holds when no marker label holds a line break of its own.
pub proof fn lemma_csv_line_count(samples: Seq<Sample>, markers: Seq<(u64, Seq<char>)>)
    requires
        forall|i: int| 0 <= i < markers.len() ==> single_line(#[trigger] markers[i].1),
    ensures
        line_breaks(csv_text(samples, markers)) == 1 + samples.len() + if markers.len() == 0 {
            0
        } else {
            3 + markers.len()
        },
{
    lemma_header_breaks();
    lemma_rows_breaks(samples);
    lemma_breaks_concat(header_text(), rows_text(samples));
    if markers.len() > 0 {
        lemma_heading_breaks();
        lemma_marker_lines_breaks(markers);
        lemma_breaks_concat(marker_heading(), marker_lines(markers));
    } else {
        assert(markers_text(markers) =~= Seq::<char>::empty());
    }
    lemma_breaks_concat(header_text() + rows_text(samples), markers_text(markers));
}

/// The comma-separated fields of one line of text.
pub open spec fn csv_fields(t: Seq<char>) -> Seq<Seq<char>>
    decreases t.len(),
{
    if t.len() == 0 {
        seq![Seq::empty()]
    } else if t.last() == ',' {
        csv_fields(t.drop_last()).push(Seq::empty())
    } else {
        let f = csv_fields(t.drop_last());
        f.update(f.len() - 1, f.last().push(t.last()))
    }
}

/// A text without a comma.
pub open spec fn comma_free(t: Seq<char>) -> bool {
    forall|i: int| 0 <= i < t.len() ==> t[i] != ','
}

proof fn lemma_fields_nonempty(t: Seq<char>)
    ensures
        csv_fields(t).len() >= 1,
    decreases t.len(),
{
    if t.len() > 0 {
        lemma_fields_nonempty(t.drop_last());
    }
}

proof fn lemma_fields_extend(a: Seq<char>, b: Seq<char>)
    requires
        comma_free(b),
    ensures
        csv_fields(a + b) == csv_fields(a).update(
            csv_fields(a).len() - 1,
            csv_fields(a).last() + b,
        ),
    decreases b.len(),
{
    lemma_fields_nonempty(a);
    let g = csv_fields(a);
    if b.len() == 0 {
        assert(a + b =~= a);
        assert(g.last() + b =~= g.last());
        assert(g.update(g.len() - 1, g.last()) =~= g);
    } else {
        assert((a + b).drop_last() =~= a + b.drop_last());
        assert((a + b).last() == b.last());
        assert(b.last() == b[b.len() - 1]);
        lemma_fields_extend(a, b.drop_last());
        let f = csv_fields(a + b.drop_last());
        assert(f.last() == g.last() + b.drop_last());
        assert(f.last().push(b.last()) =~= g.last() + b);
        assert(f.update(f.len() - 1, f.last().push(b.last())) =~= g.update(
            g.len() - 1,
            g.last() + b,
        ));
    }
}

proof fn lemma_fields_comma(a: Seq<char>)
    ensures
        csv_fields(a + ","@) == csv_fields(a).push(Seq::empty()),
{
    reveal_strlit(",");
    assert((a + ","@).drop_last() =~= a);
    assert((a + ","@).last() == ',');
}

proof fn lemma_fields_single(b: Seq<char>)
    requires
        comma_free(b),
    ensures
        csv_fields(b) == seq![b],
{
    lemma_fields_extend(Seq::empty(), b);
    assert(Seq::<char>::empty() + b =~= b);
    assert(csv_fields(Seq::<char>::empty()) == seq![Seq::<char>::empty()]);
    assert(Seq::<char>::empty() + b =~= b);
    assert(seq![Seq::<char>::empty()].update(0, Seq::<char>::empty() + b) =~= seq![b]);
}

proof fn lemma_fields_then(a: Seq<char>, b: Seq<char>)
    requires
        comma_free(b),
    ensures
        csv_fields(a + ","@ + b) == csv_fields(a).push(b),
{
    lemma_fields_comma(a);
    lemma_fields_extend(a + ","@, b);
    let g = csv_fields(a).push(Seq::<char>::empty());
    assert(g.last() + b =~= b);
    assert(g.update(g.len() - 1, b) =~= csv_fields(a).push(b));
}

proof fn lemma_decimal_comma_free(n: nat)
    ensures
        comma_free(decimal_text(n)),
{
    lemma_decimal_text_reads_back(n);
}

proof fn lemma_digit_comma_free(d: int)
    requires
        0 <= d < 10,
    ensures
        comma_free(digit_text(d)),
{
    lemma_digit_text_value(d);
}

proof fn lemma_tenths_comma_free(t: int)
    ensures
        comma_free(tenths_text(t)),
{
    let a = if t < 0 { -t } else { t };
    reveal_strlit("-");
    reveal_strlit(".");
    lemma_decimal_comma_free((a / 10) as nat);
    lemma_digit_comma_free(a % 10);
}

proof fn lemma_millis_comma_free(ms: nat)
    ensures
        comma_free(millis_text(ms)),
{
    reveal_strlit(".");
    lemma_decimal_comma_free(ms / 1000);
    lemma_digit_comma_free(((ms / 100) % 10) as int);
    lemma_digit_comma_free(((ms / 10) % 10) as int);
    lemma_digit_comma_free((ms % 10) as int);
}

/// The text a temperature cell must hold: nothing for a channel without a
/// probe, else the reading with one decimal place.
pub open spec fn expected_cell(t: Option<i16>) -> Seq<char> {
    if t is Some {
        tenths_text(t.unwrap() as int)
    } else {
        Seq::empty()
    }
}

/// Each row is one line of exactly five comma-separated fields: the
/// sample's time in seconds with three decimals, then one field per channel
/// in channel order, empty where the channel had no probe and the reading
/// with one decimal where it had one.
pub proof fn lemma_row_fields(s: Sample)
    ensures
        row_text(s).len() > 0,
        row_text(s).last() == '\n',
        csv_fields(row_text(s).drop_last()).len() == 5,
        csv_fields(row_text(s).drop_last())[0] == millis_text(s.elapsed as nat),
        forall|ch: int|
            0 <= ch < 4 ==> csv_fields(row_text(s).drop_last())[ch + 1] == expected_cell(
                #[trigger] s.temps@[ch],
            ),
{
    reveal_strlit("\n");
    let m = millis_text(s.elapsed as nat);
    let c0 = cell_text(s.temps@[0]);
    let c1 = cell_text(s.temps@[1]);
    let c2 = cell_text(s.temps@[2]);
    let c3 = cell_text(s.temps@[3]);
    lemma_millis_comma_free(s.elapsed as nat);
    assert forall|ch: int| 0 <= ch < 4 implies comma_free(cell_text(#[trigger] s.temps@[ch]))
        && cell_text(s.temps@[ch]) == expected_cell(s.temps@[ch]) by {
        if let Some(v) = s.temps@[ch] {
            lemma_tenths_comma_free(v as int);
        }
    }
    assert(comma_free(c0) && comma_free(c1) && comma_free(c2) && comma_free(c3));
    let body = m + ","@ + c0 + ","@ + c1 + ","@ + c2 + ","@ + c3;
    assert(row_text(s) =~= body + "\n"@);
    assert(row_text(s).drop_last() =~= body);
    lemma_fields_single(m);
    lemma_fields_then(m, c0);
    lemma_fields_then(m + ","@ + c0, c1);
    lemma_fields_then(m + ","@ + c0 + ","@ + c1, c2);
    lemma_fields_then(m + ","@ + c0 + ","@ + c1 + ","@ + c2, c3);
    assert(csv_fields(body) =~= seq![m, c0, c1, c2, c3]);
}

/// The header is one line of exactly five comma-separated fields:
/// `elapsed_s`, then the channel names `T1` to `T4` in channel order.
pub proof fn lemma_header_fields()
    ensures
        header_text().last() == '\n',
        csv_fields(header_text().drop_last()) == seq!["elapsed_s"@, "T1"@, "T2"@, "T3"@, "T4"@],
{
    reveal_strlit("\n");
    reveal_strlit("elapsed_s");
    reveal_strlit("T1");
    reveal_strlit("T2");
    reveal_strlit("T3");
    reveal_strlit("T4");
    let e = "elapsed_s"@;
    let body = e + ","@ + "T1"@ + ","@ + "T2"@ + ","@ + "T3"@ + ","@ + "T4"@;
    assert(header_text() =~= body + "\n"@);
    assert(header_text().drop_last() =~= body);
    assert(comma_free(e));
    assert(comma_free("T1"@) && comma_free("T2"@) && comma_free("T3"@) && comma_free("T4"@));
    lemma_fields_single(e);
    lemma_fields_then(e, "T1"@);
    lemma_fields_then(e + ","@ + "T1"@, "T2"@);
    lemma_fields_then(e + ","@ + "T1"@ + ","@ + "T2"@, "T3"@);
    lemma_fields_then(e + ","@ + "T1"@ + ","@ + "T2"@ + ","@ + "T3"@, "T4"@);
    assert(csv_fields(body) =~= seq![e, "T1"@, "T2"@, "T3"@, "T4"@]);
}

/// Without markers the CSV ends after the last row. With markers, a blank
/// line, the `# Markers` and `# elapsed_s,label` heading lines, and then one
/// line per marker in the order they were set.
pub proof fn lemma_marker_section(markers: Seq<(u64, Seq<char>)>, m: (u64, Seq<char>))
    ensures
        markers_text(Seq::empty()) == Seq::<char>::empty(),
        markers_text(markers.push(m)) == "\n# Markers\n# elapsed_s,label\n"@ + marker_lines(markers)
            + marker_line(m),
{
    assert(markers.push(m).drop_last() =~= markers);
    assert(markers_text(markers.push(m)) =~= "\n# Markers\n# elapsed_s,label\n"@ + marker_lines(
        markers,
    ) + marker_line(m));
}

/// A marker line is a comment: `# `, the marker's time in seconds with
/// three decimals, a comma, the label exactly as given, and a line break.
pub proof fn lemma_marker_line_parts(m: (u64, Seq<char>))
    ensures
        ({
            let l = marker_line(m);
            let t = millis_text(m.0 as nat);
            &&& l.len() == 2 + t.len() + 1 + m.1.len() + 1
            &&& l.take(2) == "# "@
            &&& l.subrange(2, 2 + t.len() as int) == t
            &&& l[2 + t.len() as int] == ','
            &&& l.subrange(3 + t.len() as int, l.len() - 1) == m.1
            &&& l.last() == '\n'
        }),
{
    reveal_strlit("# ");
    reveal_strlit(",");
    reveal_strlit("\n");
    let l = marker_line(m);
    let t = millis_text(m.0 as nat);
    assert(l.take(2) =~= "# "@);
    assert(l.subrange(2, 2 + t.len() as int) =~= t);
    assert(l.subrange(3 + t.len() as int, l.len() - 1) =~= m.1);
}

/// The name of the exported file for a local time stamp `YYYYMMDD_HHMMSS`.
pub open spec fn export_file_name(stamp: Seq<char>) -> Seq<char> {
    "thermode_"@ + stamp + ".csv"@
}

/// The file name is `thermode_`, the stamp unchanged, and `.csv`.
pub proof fn lemma_file_name_parts(stamp: Seq<char>)
    ensures
        export_file_name(stamp).len() == 9 + stamp.len() + 4,
        export_file_name(stamp).take(9) == "thermode_"@,
        export_file_name(stamp).subrange(9, 9 + stamp.len() as int) == stamp,
        export_file_name(stamp).skip(9 + stamp.len() as int) == ".csv"@,
{
    reveal_strlit("thermode_");
    reveal_strlit(".csv");
    let n = export_file_name(stamp);
    assert(n.take(9) =~= "thermode_"@);
    assert(n.subrange(9, 9 + stamp.len() as int) =~= stamp);
    assert(n.skip(9 + stamp.len() as int) =~= ".csv"@);
}

/// Builds the export file name from a time stamp.
pub fn export_filename(stamp: &str) -> (name: String)
    ensures
        name@ == export_file_name(stamp@),
{
    let mut name = String::from_str("thermode_");
    name.append(stamp);
    name.append(".csv");
    name
}

/// A decimal digit.
pub open spec fn is_digit(c: char) -> bool {
    '0' <= c && c <= '9'
}

/// The value of the two decimal digits at `i` and `i + 1`.
pub open spec fn pair_value(s: Seq<char>, i: int) -> int {
    (s[i] as int - '0' as int) * 10 + (s[i + 1] as int - '0' as int)
}

/// The year field of a stamp: four digits for the years 0 to 9999, else a
/// sign followed by at least four digits.
pub open spec fn year_field(y: Seq<char>) -> bool {
    ||| (y.len() == 4 && forall|i: int| 0 <= i < 4 ==> is_digit(#[trigger] y[i]))
    ||| (y.len() >= 5 && (y[0] == '+' || y[0] == '-') && forall|i: int|
        1 <= i < y.len() ==> is_digit(#[trigger] y[i]))
}

/// A local time stamp `YYYYMMDD_HHMMSS`: the year field, then month
/// (01-12), day (01-31), `_`, hour (00-23), minute (00-59) and second
/// (00-59), each as two digits.
pub open spec fn stamp_shape(s: Seq<char>) -> bool {
    let n = s.len();
    &&& n >= 15
    &&& year_field(s.subrange(0, n - 11))
    &&& forall|i: int| n - 11 <= i < n && i != n - 7 ==> is_digit(#[trigger] s[i])
    &&& s[n - 7] == '_'
    &&& 1 <= pair_value(s, n - 11) <= 12
    &&& 1 <= pair_value(s, n - 9) <= 31
    &&& pair_value(s, n - 6) <= 23
    &&& pair_value(s, n - 4) <= 59
    &&& pair_value(s, n - 2) <= 59
}

/// The local date and time as `YYYYMMDD_HHMMSS`, through chrono's
/// `Local::now()` formatted with `"%Y%m%d_%H%M%S"` and `to_string`. chrono
/// writes `%Y` zero-padded to four digits, with a sign outside the years 0 to
/// 9999, and `%m %d %H %M %S` as two zero-padded digits of a month (1-12),
/// day (1-31), hour (0-23), minute (0-59) and second (0-59). Which time it
/// is depends on the clock and the machine's time zone; only this shape is
/// claimed.
#[verifier::external_body]
fn local_timestamp() -> (stamp: String)
    ensures
        stamp_shape(stamp@),
{
    chrono::Local::now().format("%Y%m%d_%H%M%S").to_string()
}

/// The export file name for the current local time.
pub fn export_filename_now() -> (name: String)
    ensures
        exists|stamp: Seq<char>| stamp_shape(stamp) && name@ == export_file_name(stamp),
{
    let stamp = local_timestamp();
    let name = export_filename(stamp.as_str());
    assert(stamp_shape(stamp@) && name@ == export_file_name(stamp@));
    name
}

} // verus!
