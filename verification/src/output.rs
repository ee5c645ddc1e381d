//! The device list as an aligned table of text: the columns URL, PRODUCT,
//! FIRMWARE and SERIAL, the optional ones shown only when some device has
//! something for them, each as wide as its widest entry.

use vstd::prelude::*;
use crate::model::{Device, DeviceView, HintsView, device_views};
use crate::text::{
    chars_of, is_ws, lemma_trim_end, push_str, string_from_chars, trim_end, trim_end_len,
};

verus! {

broadcast use vstd::string::group_string_axioms;

/// The column headers.
pub open spec fn headers() -> Seq<Seq<char>> {
    seq!["URL"@, "PRODUCT"@, "FIRMWARE"@, "SERIAL"@]
}

/// The serial column: the serial number, or the hardware address when the
/// device gave no serial number.
pub open spec fn serial_of(h: HintsView) -> Seq<char> {
    if h.serial_number.len() > 0 {
        h.serial_number
    } else {
        h.mac
    }
}

/// The entry of a device in column `c`.
pub open spec fn cell(d: DeviceView, c: int) -> Seq<char> {
    if c == 0 {
        d.url
    } else if c == 1 {
        d.hints.device_name
    } else if c == 2 {
        d.hints.firmware
    } else {
        serial_of(d.hints)
    }
}

/// The width of column `c`: its widest entry or header, in characters.
pub open spec fn width(ds: Seq<DeviceView>, c: int) -> nat
    decreases ds.len(),
{
    if ds.len() == 0 {
        headers()[c].len()
    } else {
        let w = width(ds.drop_last(), c);
        let l = cell(ds.last(), c).len();
        if l > w {
            l
        } else {
            w
        }
    }
}

/// Column `c` is shown: the URL always, the others when some device has an
/// entry there.
pub open spec fn shown(ds: Seq<DeviceView>, c: int) -> bool {
    c == 0 || exists|i: int| 0 <= i < ds.len() && #[trigger] cell(ds[i], c).len() > 0
}

/// `s` padded with spaces on the right to `w` characters.
pub open spec fn pad(s: Seq<char>, w: nat) -> Seq<char> {
    if s.len() >= w {
        s
    } else {
        s + Seq::new((w - s.len()) as nat, |i: int| ' ')
    }
}

/// A horizontal rule of `w` characters.
pub open spec fn rule(w: nat) -> Seq<char> {
    Seq::new(w, |i: int| '\u{2500}')
}

/// An entry, or a dash for an empty one.
pub open spec fn or_dash(s: Seq<char>) -> Seq<char> {
    if s.len() == 0 {
        "\u{2014}"@
    } else {
        s
    }
}

/// Two spaces and `text` when `show` holds, nothing otherwise.
pub open spec fn opt(show: bool, text: Seq<char>) -> Seq<char> {
    if show {
        seq![' ', ' '] + text
    } else {
        Seq::empty()
    }
}

/// A line of the four columns `a0` to `a3`, the first always shown, the
/// others each after two spaces when shown.
pub open spec fn line_of(
    a0: Seq<char>,
    a1: Seq<char>,
    a2: Seq<char>,
    a3: Seq<char>,
    s1: bool,
    s2: bool,
    s3: bool,
) -> Seq<char> {
    a0 + opt(s1, a1) + opt(s2, a2) + opt(s3, a3)
}

/// The header line for the given widths and shown columns.
pub open spec fn header_with(w0: nat, w1: nat, w2: nat, w3: nat, s1: bool, s2: bool, s3: bool) -> Seq<
    char,
> {
    line_of(
        pad(headers()[0], w0),
        pad(headers()[1], w1),
        pad(headers()[2], w2),
        pad(headers()[3], w3),
        s1,
        s2,
        s3,
    )
}

/// The header line.
pub open spec fn header_line(ds: Seq<DeviceView>) -> Seq<char> {
    header_with(
        width(ds, 0),
        width(ds, 1),
        width(ds, 2),
        width(ds, 3),
        shown(ds, 1),
        shown(ds, 2),
        shown(ds, 3),
    )
}

/// The line under the headers for the given widths and shown columns.
pub open spec fn rule_with(w0: nat, w1: nat, w2: nat, w3: nat, s1: bool, s2: bool, s3: bool) -> Seq<
    char,
> {
    line_of(rule(w0), rule(w1), rule(w2), rule(w3), s1, s2, s3)
}

/// The line under the headers.
pub open spec fn rule_line(ds: Seq<DeviceView>) -> Seq<char> {
    rule_with(
        width(ds, 0),
        width(ds, 1),
        width(ds, 2),
        width(ds, 3),
        shown(ds, 1),
        shown(ds, 2),
        shown(ds, 3),
    )
}

/// What device `d` shows in column `c`: its URL in the first, a dash for
/// an empty entry in the others.
pub open spec fn entry(d: DeviceView, c: int) -> Seq<char> {
    if c == 0 {
        cell(d, 0)
    } else {
        or_dash(cell(d, c))
    }
}

/// The line of device `d` for the given widths and shown columns, each
/// entry padded to the width of its column.
pub open spec fn row_cells(
    d: DeviceView,
    w0: nat,
    w1: nat,
    w2: nat,
    w3: nat,
    s1: bool,
    s2: bool,
    s3: bool,
) -> Seq<char> {
    line_of(
        pad(entry(d, 0), w0),
        pad(entry(d, 1), w1),
        pad(entry(d, 2), w2),
        pad(entry(d, 3), w3),
        s1,
        s2,
        s3,
    )
}

/// The line of device `d` for the given widths and shown columns, without
/// trailing white space.
pub open spec fn row_with(
    d: DeviceView,
    w0: nat,
    w1: nat,
    w2: nat,
    w3: nat,
    s1: bool,
    s2: bool,
    s3: bool,
) -> Seq<char> {
    trim_end(row_cells(d, w0, w1, w2, w3, s1, s2, s3))
}

/// The line of device `d`, without trailing white space.
pub open spec fn row_line(ds: Seq<DeviceView>, d: DeviceView) -> Seq<char> {
    row_with(
        d,
        width(ds, 0),
        width(ds, 1),
        width(ds, 2),
        width(ds, 3),
        shown(ds, 1),
        shown(ds, 2),
        shown(ds, 3),
    )
}

/// The lines of the first `k` devices, each ended by a newline.
pub open spec fn rows_text(ds: Seq<DeviceView>, k: nat) -> Seq<char>
    decreases k,
{
    if k == 0 {
        Seq::empty()
    } else {
        rows_text(ds, (k - 1) as nat) + row_line(ds, ds[k - 1]).push('\n')
    }
}

/// The table: nothing for no devices; otherwise the header line, the rule
/// and a line per device, each ended by a newline.
pub open spec fn table(ds: Seq<DeviceView>) -> Seq<char> {
    if ds.len() == 0 {
        Seq::empty()
    } else {
        header_line(ds).push('\n') + rule_line(ds).push('\n') + rows_text(ds, ds.len())
    }
}

// ---------------------------------------------------------------------------
// Layout of the table
// ---------------------------------------------------------------------------

/// Two spaces and `w` when a column of width `w` is shown, nothing
/// otherwise.
pub open spec fn span(show: bool, w: nat) -> nat {
    if show {
        w + 2
    } else {
        0
    }
}

/// The offset, in characters, at which column `c` starts in every line.
pub open spec fn col_start(ds: Seq<DeviceView>, c: int) -> nat {
    if c == 0 {
        0
    } else if c == 1 {
        width(ds, 0) + 2
    } else if c == 2 {
        width(ds, 0) + span(shown(ds, 1), width(ds, 1)) + 2
    } else {
        width(ds, 0) + span(shown(ds, 1), width(ds, 1)) + span(shown(ds, 2), width(ds, 2)) + 2
    }
}

/// The length, in characters, of the header line and the rule, and of
/// every device line before its trailing white space is cut.
pub open spec fn line_len(ds: Seq<DeviceView>) -> nat {
    width(ds, 0) + span(shown(ds, 1), width(ds, 1)) + span(shown(ds, 2), width(ds, 2)) + span(
        shown(ds, 3),
        width(ds, 3),
    )
}

/// `line` holds `text` as a column of width `w` from offset `o`, after
/// two spaces unless it is the first column.
pub open spec fn column_at(line: Seq<char>, o: nat, w: nat, first: bool, text: Seq<char>) -> bool {
    &&& o + w <= line.len()
    &&& line.subrange(o as int, (o + w) as int) == text
    &&& !first ==> o >= 2 && line[o - 2] == ' ' && line[o - 1] == ' '
}

/// The line of device `d` with every shown column padded to its width,
/// before its trailing white space is cut.
pub open spec fn row_full(ds: Seq<DeviceView>, d: DeviceView) -> Seq<char> {
    row_cells(
        d,
        width(ds, 0),
        width(ds, 1),
        width(ds, 2),
        width(ds, 3),
        shown(ds, 1),
        shown(ds, 2),
        shown(ds, 3),
    )
}

/// The lines of the table: the header line, the rule, and a line per
/// device.
pub open spec fn lines(ds: Seq<DeviceView>) -> Seq<Seq<char>> {
    seq![header_line(ds), rule_line(ds)] + ds.map_values(|d: DeviceView| row_line(ds, d))
}

/// The lines, each ended by a newline.
pub open spec fn joined(ls: Seq<Seq<char>>) -> Seq<char>
    decreases ls.len(),
{
    if ls.len() == 0 {
        Seq::empty()
    } else {
        joined(ls.drop_last()) + ls.last().push('\n')
    }
}

/// `s` holds no newline.
pub open spec fn no_newline(s: Seq<char>) -> bool {
    forall|j: int| 0 <= j < s.len() ==> #[trigger] s[j] != '\n'
}

/// The lengths of the headers and of the dash.
proof fn lemma_header_lens()
    ensures
        headers()[0].len() == 3,
        headers()[1].len() == 7,
        headers()[2].len() == 8,
        headers()[3].len() == 6,
        forall|c: int| 0 <= c < 4 ==> no_newline(#[trigger] headers()[c]),
        "\u{2014}"@.len() == 1,
        "\u{2014}"@[0] != '\n',
{
    reveal_strlit("URL");
    reveal_strlit("PRODUCT");
    reveal_strlit("FIRMWARE");
    reveal_strlit("SERIAL");
    reveal_strlit("\u{2014}");
}

/// Padding an entry no wider than `w` gives `w` characters.
proof fn lemma_pad(s: Seq<char>, w: nat)
    ensures
        s.len() <= w ==> pad(s, w).len() == w,
        pad(s, w).take(s.len() as int) == s,
        no_newline(s) ==> no_newline(pad(s, w)),
{
    if s.len() < w {
        assert(pad(s, w).take(s.len() as int) =~= s);
    } else {
        assert(pad(s, w).take(s.len() as int) =~= s);
    }
}

/// Where the four columns of a line stand.
proof fn lemma_layout(a0: Seq<char>, a1: Seq<char>, a2: Seq<char>, a3: Seq<char>, s1: bool, s2: bool, s3: bool)
    ensures
        line_of(a0, a1, a2, a3, s1, s2, s3).len() == a0.len() + span(s1, a1.len()) + span(
            s2,
            a2.len(),
        ) + span(s3, a3.len()),
        column_at(line_of(a0, a1, a2, a3, s1, s2, s3), 0, a0.len(), true, a0),
        s1 ==> column_at(line_of(a0, a1, a2, a3, s1, s2, s3), a0.len() + 2, a1.len(), false, a1),
        s2 ==> column_at(
            line_of(a0, a1, a2, a3, s1, s2, s3),
            a0.len() + span(s1, a1.len()) + 2,
            a2.len(),
            false,
            a2,
        ),
        s3 ==> column_at(
            line_of(a0, a1, a2, a3, s1, s2, s3),
            a0.len() + span(s1, a1.len()) + span(s2, a2.len()) + 2,
            a3.len(),
            false,
            a3,
        ),
        (no_newline(a0) && no_newline(a1) && no_newline(a2) && no_newline(a3)) ==> no_newline(
            line_of(a0, a1, a2, a3, s1, s2, s3),
        ),
{
    let p1 = opt(s1, a1);
    let p2 = opt(s2, a2);
    let p3 = opt(s3, a3);
    let l = line_of(a0, a1, a2, a3, s1, s2, s3);
    assert(l == ((a0 + p1) + p2) + p3);
    let n1 = a0.len() as int;
    let n2 = n1 + p1.len();
    let n3 = n2 + p2.len();
    assert(p1.len() == span(s1, a1.len()));
    assert(p2.len() == span(s2, a2.len()));
    assert(p3.len() == span(s3, a3.len()));
    assert(l.subrange(0, n1) =~= a0);
    if s1 {
        assert(l.subrange(n1 + 2, n1 + 2 + a1.len()) =~= a1);
        assert(l[n1] == p1[0]);
        assert(l[n1 + 1] == p1[1]);
    }
    if s2 {
        assert(l.subrange(n2 + 2, n2 + 2 + a2.len()) =~= a2);
        assert(l[n2] == p2[0]);
        assert(l[n2 + 1] == p2[1]);
    }
    if s3 {
        assert(l.subrange(n3 + 2, n3 + 2 + a3.len()) =~= a3);
        assert(l[n3] == p3[0]);
        assert(l[n3 + 1] == p3[1]);
    }
    if no_newline(a0) && no_newline(a1) && no_newline(a2) && no_newline(a3) {
        assert forall|j: int| 0 <= j < l.len() implies #[trigger] l[j] != '\n' by {
            if j < n1 {
                assert(l[j] == a0[j]);
            } else if j < n2 {
                assert(l[j] == p1[j - n1]);
                if j - n1 >= 2 {
                    assert(p1[j - n1] == a1[j - n1 - 2]);
                }
            } else if j < n3 {
                assert(l[j] == p2[j - n2]);
                if j - n2 >= 2 {
                    assert(p2[j - n2] == a2[j - n2 - 2]);
                }
            } else {
                assert(l[j] == p3[j - n3]);
                if j - n3 >= 2 {
                    assert(p3[j - n3] == a3[j - n3 - 2]);
                }
            }
        }
    }
}

/// Each column is as wide as the widest of its header and its entries:
/// no narrower than any of them, and as wide as one of them.
pub proof fn lemma_column_width(ds: Seq<DeviceView>, c: int)
    requires
        0 <= c < 4,
    ensures
        headers()[c].len() <= width(ds, c),
        forall|i: int| 0 <= i < ds.len() ==> (#[trigger] cell(ds[i], c)).len() <= width(ds, c),
        width(ds, c) == headers()[c].len() || exists|i: int|
            0 <= i < ds.len() && (#[trigger] cell(ds[i], c)).len() == width(ds, c),
    decreases ds.len(),
{
    if ds.len() > 0 {
        let prev = ds.drop_last();
        lemma_column_width(prev, c);
        assert forall|i: int| 0 <= i < ds.len() implies (#[trigger] cell(ds[i], c)).len() <= width(
            ds,
            c,
        ) by {
            if i < prev.len() {
                assert(ds[i] == prev[i]);
            }
        }
        if width(ds, c) != headers()[c].len() {
            if width(ds, c) == cell(ds.last(), c).len() {
                assert(cell(ds[ds.len() - 1], c).len() == width(ds, c));
            } else {
                let i = choose|i: int|
                    0 <= i < prev.len() && (#[trigger] cell(prev[i], c)).len() == width(prev, c);
                assert(ds[i] == prev[i]);
                assert(cell(ds[i], c).len() == width(ds, c));
            }
        }
    }
}

/// Every entry of column `c` fits its width.
proof fn lemma_entry_fits(ds: Seq<DeviceView>, i: int, c: int)
    requires
        0 <= c < 4,
        0 <= i < ds.len(),
    ensures
        entry(ds[i], c).len() <= width(ds, c),
{
    lemma_column_width(ds, c);
    lemma_header_lens();
    assert(cell(ds[i], c).len() <= width(ds, c));
}

/// The columns line up: the header line, the rule and the line of every
/// device, before its trailing white space is cut, have the same length,
/// and each shown column starts at the same offset in all of them, after
/// two spaces unless it is the first, and is exactly as wide as its width.
/// There the header line holds the header padded with spaces, the rule a
/// run of box-drawing dashes, and the line of a device its entry padded
/// with spaces: the URL in the first column, elsewhere the name, firmware,
/// or serial number (the hardware address without one), a dash when empty.
/// The line that is written for a device is its full line without the
/// trailing white space.
pub proof fn lemma_table_columns(ds: Seq<DeviceView>)
    ensures
        header_line(ds).len() == line_len(ds),
        rule_line(ds).len() == line_len(ds),
        forall|i: int| 0 <= i < ds.len() ==> (#[trigger] row_full(ds, ds[i])).len() == line_len(ds),
        forall|c: int|
            0 <= c < 4 && #[trigger] shown(ds, c) ==> column_at(
                header_line(ds),
                col_start(ds, c),
                width(ds, c),
                c == 0,
                pad(headers()[c], width(ds, c)),
            ) && column_at(
                rule_line(ds),
                col_start(ds, c),
                width(ds, c),
                c == 0,
                rule(width(ds, c)),
            ),
        forall|i: int, c: int|
            0 <= i < ds.len() && 0 <= c < 4 && shown(ds, c) ==> column_at(
                #[trigger] row_full(ds, ds[i]),
                col_start(ds, c),
                width(ds, c),
                c == 0,
                pad(#[trigger] entry(ds[i], c), width(ds, c)),
            ),
        forall|i: int|
            0 <= i < ds.len() ==> #[trigger] row_line(ds, ds[i]) == trim_end(row_full(ds, ds[i])),
{
    lemma_header_lens();
    let w0 = width(ds, 0);
    let w1 = width(ds, 1);
    let w2 = width(ds, 2);
    let w3 = width(ds, 3);
    let s1 = shown(ds, 1);
    let s2 = shown(ds, 2);
    let s3 = shown(ds, 3);
    lemma_column_width(ds, 0);
    lemma_column_width(ds, 1);
    lemma_column_width(ds, 2);
    lemma_column_width(ds, 3);
    lemma_pad(headers()[0], w0);
    lemma_pad(headers()[1], w1);
    lemma_pad(headers()[2], w2);
    lemma_pad(headers()[3], w3);
    lemma_layout(
        pad(headers()[0], w0),
        pad(headers()[1], w1),
        pad(headers()[2], w2),
        pad(headers()[3], w3),
        s1,
        s2,
        s3,
    );
    lemma_layout(rule(w0), rule(w1), rule(w2), rule(w3), s1, s2, s3);
    assert forall|i: int, c: int|
        0 <= i < ds.len() && 0 <= c < 4 && shown(ds, c) implies column_at(
        #[trigger] row_full(ds, ds[i]),
        col_start(ds, c),
        width(ds, c),
        c == 0,
        pad(#[trigger] entry(ds[i], c), width(ds, c)),
    ) && row_full(ds, ds[i]).len() == line_len(ds) by {
        let d = ds[i];
        lemma_entry_fits(ds, i, 0);
        lemma_entry_fits(ds, i, 1);
        lemma_entry_fits(ds, i, 2);
        lemma_entry_fits(ds, i, 3);
        lemma_pad(entry(d, 0), w0);
        lemma_pad(entry(d, 1), w1);
        lemma_pad(entry(d, 2), w2);
        lemma_pad(entry(d, 3), w3);
        lemma_layout(
            pad(entry(d, 0), w0),
            pad(entry(d, 1), w1),
            pad(entry(d, 2), w2),
            pad(entry(d, 3), w3),
            s1,
            s2,
            s3,
        );
    }
    assert forall|i: int| 0 <= i < ds.len() implies (#[trigger] row_full(ds, ds[i])).len()
        == line_len(ds) by {
        assert(shown(ds, 0));
        assert(row_full(ds, ds[i]).len() == line_len(ds));
    }
}

/// A written device line is a front part of its full line that is empty or
/// ends in a character other than white space; only white space is cut.
pub proof fn lemma_row_trimmed(ds: Seq<DeviceView>, d: DeviceView)
    ensures
        row_line(ds, d).len() <= row_full(ds, d).len(),
        row_line(ds, d) == row_full(ds, d).take(row_line(ds, d).len() as int),
        forall|j: int|
            row_line(ds, d).len() <= j < row_full(ds, d).len() ==> is_ws(
                #[trigger] row_full(ds, d)[j],
            ),
        row_line(ds, d).len() > 0 ==> !is_ws(row_line(ds, d).last()),
{
    lemma_trim_end(row_full(ds, d));
}

/// The table is its lines, each ended by a newline: the header line, the
/// rule under it, and a line per device in the order given, so two more
/// lines than devices.  The header line starts with `URL`.  When no entry
/// of any device holds a newline, no line does either, so the lines of the
/// text are exactly these.
pub proof fn lemma_table_lines(ds: Seq<DeviceView>)
    requires
        ds.len() > 0,
    ensures
        table(ds) == joined(lines(ds)),
        lines(ds).len() == ds.len() + 2,
        lines(ds)[0] == header_line(ds),
        lines(ds)[1] == rule_line(ds),
        forall|i: int| 0 <= i < ds.len() ==> #[trigger] lines(ds)[i + 2] == row_line(ds, ds[i]),
        header_line(ds).take(3) == "URL"@,
        (forall|i: int, c: int| 0 <= i < ds.len() && 0 <= c < 4 ==> no_newline(
            #[trigger] cell(ds[i], c),
        )) ==> forall|k: int| 0 <= k < lines(ds).len() ==> no_newline(#[trigger] lines(ds)[k]),
{
    let ls = lines(ds);
    assert forall|i: int| 0 <= i < ds.len() implies #[trigger] ls[i + 2] == row_line(ds, ds[i]) by {}
    lemma_joined_rows(ds, ds.len());
    assert(ls.take((ds.len() + 2) as int) =~= ls);
    lemma_header_start(ds);
    if forall|i: int, c: int| 0 <= i < ds.len() && 0 <= c < 4 ==> no_newline(
        #[trigger] cell(ds[i], c),
    ) {
        lemma_lines_no_newline(ds);
    }
}

/// The header line starts with the first header.
proof fn lemma_header_start(ds: Seq<DeviceView>)
    ensures
        header_line(ds).take(3) == "URL"@,
{
    lemma_header_lens();
    lemma_column_width(ds, 0);
    lemma_pad(headers()[0], width(ds, 0));
    lemma_layout(
        pad(headers()[0], width(ds, 0)),
        pad(headers()[1], width(ds, 1)),
        pad(headers()[2], width(ds, 2)),
        pad(headers()[3], width(ds, 3)),
        shown(ds, 1),
        shown(ds, 2),
        shown(ds, 3),
    );
    let h = header_line(ds);
    let p = pad(headers()[0], width(ds, 0));
    assert(h.subrange(0, p.len() as int) == p);
    assert(h.take(3) =~= p.take(3));
}

/// No line holds a newline when no entry does.
proof fn lemma_lines_no_newline(ds: Seq<DeviceView>)
    requires
        forall|i: int, c: int| 0 <= i < ds.len() && 0 <= c < 4 ==> no_newline(
            #[trigger] cell(ds[i], c),
        ),
    ensures
        forall|k: int| 0 <= k < lines(ds).len() ==> no_newline(#[trigger] lines(ds)[k]),
{
    let ls = lines(ds);
    let w0 = width(ds, 0);
    let w1 = width(ds, 1);
    let w2 = width(ds, 2);
    let w3 = width(ds, 3);
    let s1 = shown(ds, 1);
    let s2 = shown(ds, 2);
    let s3 = shown(ds, 3);
    lemma_header_lens();
    lemma_pad(headers()[0], w0);
    lemma_pad(headers()[1], w1);
    lemma_pad(headers()[2], w2);
    lemma_pad(headers()[3], w3);
    lemma_layout(
        pad(headers()[0], w0),
        pad(headers()[1], w1),
        pad(headers()[2], w2),
        pad(headers()[3], w3),
        s1,
        s2,
        s3,
    );
    lemma_layout(rule(w0), rule(w1), rule(w2), rule(w3), s1, s2, s3);
    assert forall|k: int| 0 <= k < ls.len() implies no_newline(#[trigger] ls[k]) by {
        if k >= 2 {
            lemma_row_no_newline(ds, k - 2);
        }
    }
}

/// No device line holds a newline when no entry of the device does.
proof fn lemma_row_no_newline(ds: Seq<DeviceView>, i: int)
    requires
        0 <= i < ds.len(),
        forall|c: int| 0 <= c < 4 ==> no_newline(#[trigger] cell(ds[i], c)),
    ensures
        no_newline(row_line(ds, ds[i])),
{
    let d = ds[i];
    let w0 = width(ds, 0);
    let w1 = width(ds, 1);
    let w2 = width(ds, 2);
    let w3 = width(ds, 3);
    lemma_header_lens();
    assert forall|c: int| 0 <= c < 4 implies no_newline(#[trigger] entry(d, c)) by {
        assert(no_newline(cell(d, c)));
    }
    lemma_pad(entry(d, 0), w0);
    lemma_pad(entry(d, 1), w1);
    lemma_pad(entry(d, 2), w2);
    lemma_pad(entry(d, 3), w3);
    lemma_layout(
        pad(entry(d, 0), w0),
        pad(entry(d, 1), w1),
        pad(entry(d, 2), w2),
        pad(entry(d, 3), w3),
        shown(ds, 1),
        shown(ds, 2),
        shown(ds, 3),
    );
    let f = row_full(ds, d);
    let r = row_line(ds, d);
    lemma_trim_end(f);
    assert forall|j: int| 0 <= j < r.len() implies #[trigger] r[j] != '\n' by {
        assert(r[j] == f[j]);
    }
}

/// The header line, the rule and the first `k` device lines, each ended by
/// a newline.
proof fn lemma_joined_rows(ds: Seq<DeviceView>, k: nat)
    requires
        k <= ds.len(),
    ensures
        joined(lines(ds).take((k + 2) as int)) == header_line(ds).push('\n') + rule_line(ds).push('\n')
            + rows_text(ds, k),
    decreases k,
{
    let ls = lines(ds);
    if k == 0 {
        assert(joined(Seq::<Seq<char>>::empty()) == Seq::<char>::empty());
        assert(ls.take(2).drop_last() =~= seq![header_line(ds)]);
        assert(seq![header_line(ds)].drop_last() =~= Seq::<Seq<char>>::empty());
        assert(joined(seq![header_line(ds)]) =~= header_line(ds).push('\n'));
        assert(joined(ls.take(2)) =~= header_line(ds).push('\n') + rule_line(ds).push('\n'));
    } else {
        lemma_joined_rows(ds, (k - 1) as nat);
        assert(ls.take((k + 2) as int).drop_last() =~= ls.take((k + 1) as int));
        assert(ls.take((k + 2) as int).last() == row_line(ds, ds[k - 1]));
        assert(joined(ls.take((k + 2) as int)) =~= header_line(ds).push('\n') + rule_line(ds).push('\n')
            + rows_text(ds, k));
    }
}

/// The number of characters of `s`.
pub fn chars(s: &str) -> (r: usize)
    ensures
        r == s@.len(),
{
    chars_of(s).len()
}

/// Left-justifies `s`, padding it with spaces to `width` characters.
pub fn pad_right(s: &str, width: usize) -> (r: String)
    ensures
        r@ == pad(s@, width as nat),
{
    let mut cs = chars_of(s);
    let len = cs.len();
    if len >= width {
        return s.to_owned();
    }
    while cs.len() < width
        invariant
            len == s@.len(),
            len <= cs@.len() <= width,
            cs@ == s@ + Seq::new((cs@.len() - len) as nat, |i: int| ' '),
        decreases width - cs@.len(),
    {
        cs.push(' ');
        assert(cs@ =~= s@ + Seq::new((cs@.len() - len) as nat, |i: int| ' '));
    }
    string_from_chars(cs.as_slice())
}

/// The entry of `d` in column `c`.
fn cell_of(d: &Device, c: usize) -> (r: &str)
    requires
        c < 4,
    ensures
        r@ == cell(d@, c as int),
{
    if c == 0 {
        d.url.as_str()
    } else if c == 1 {
        d.hints.device_name.as_str()
    } else if c == 2 {
        d.hints.firmware.as_str()
    } else if !d.hints.serial_number.as_str().is_empty() {
        d.hints.serial_number.as_str()
    } else {
        d.hints.mac.as_str()
    }
}

/// The header of column `c`.
fn header_of(c: usize) -> (r: &'static str)
    requires
        c < 4,
    ensures
        r@ == headers()[c as int],
{
    if c == 0 {
        "URL"
    } else if c == 1 {
        "PRODUCT"
    } else if c == 2 {
        "FIRMWARE"
    } else {
        "SERIAL"
    }
}

/// The width of column `c`.
fn column_width(devices: &[Device], c: usize) -> (w: usize)
    requires
        c < 4,
    ensures
        w == width(device_views(devices@), c as int),
{
    let ghost ds = device_views(devices@);
    let mut w = chars(header_of(c));
    let mut i: usize = 0;
    assert(ds.take(0) =~= Seq::<DeviceView>::empty());
    while i < devices.len()
        invariant
            c < 4,
            ds == device_views(devices@),
            i <= devices@.len(),
            w == width(ds.take(i as int), c as int),
        decreases devices@.len() - i,
    {
        assert(ds.take(i + 1).drop_last() =~= ds.take(i as int));
        assert(ds.take(i + 1).last() == devices@[i as int]@);
        let l = chars(cell_of(&devices[i], c));
        if l > w {
            w = l;
        }
        i += 1;
    }
    assert(ds.take(i as int) =~= ds);
    w
}

/// Whether column `c` is shown.
fn column_shown(devices: &[Device], c: usize) -> (r: bool)
    requires
        c < 4,
    ensures
        r == shown(device_views(devices@), c as int),
{
    let ghost ds = device_views(devices@);
    if c == 0 {
        return true;
    }
    let mut i: usize = 0;
    while i < devices.len()
        invariant
            c < 4,
            ds == device_views(devices@),
            i <= devices@.len(),
            forall|k: int| 0 <= k < i ==> #[trigger] cell(ds[k], c as int).len() == 0,
        decreases devices@.len() - i,
    {
        let s = cell_of(&devices[i], c);
        assert(ds[i as int] == devices@[i as int]@);
        if !s.is_empty() {
            assert(cell(ds[i as int], c as int).len() > 0);
            return true;
        }
        i += 1;
    }
    false
}

/// Appends two spaces and `s` padded to `w` when `show` holds.
fn push_field(out: &mut Vec<char>, show: bool, s: &str, w: usize)
    ensures
        final(out)@ == old(out)@ + opt(show, pad(s@, w as nat)),
{
    if show {
        out.push(' ');
        out.push(' ');
        let p = pad_right(s, w);
        push_str(out, p.as_str());
        assert(final(out)@ =~= old(out)@ + (seq![' ', ' '] + pad(s@, w as nat)));
    } else {
        assert(final(out)@ =~= old(out)@ + Seq::<char>::empty());
    }
}

/// Appends a rule of `w` characters, after two spaces unless `first`.
fn push_rule(out: &mut Vec<char>, first: bool, show: bool, w: usize)
    ensures
        final(out)@ == old(out)@ + (if first {
            rule(w as nat)
        } else {
            opt(show, rule(w as nat))
        }),
{
    if !first && !show {
        assert(final(out)@ =~= old(out)@ + Seq::<char>::empty());
        return;
    }
    let ghost start = out@;
    if !first {
        out.push(' ');
        out.push(' ');
    }
    let ghost lead = out@;
    let mut k: usize = 0;
    while k < w
        invariant
            k <= w,
            out@ == lead + rule(k as nat),
        decreases w - k,
    {
        out.push('\u{2500}');
        assert(out@ =~= lead + rule((k + 1) as nat));
        k += 1;
    }
    if first {
        assert(out@ =~= start + rule(w as nat));
    } else {
        assert(out@ =~= start + (seq![' ', ' '] + rule(w as nat)));
    }
}

/// An entry, or a dash for an empty one.
fn or_dash_of(s: &str) -> (r: &str)
    ensures
        r@ == or_dash(s@),
{
    if s.is_empty() {
        "\u{2014}"
    } else {
        s
    }
}

/// Appends the first `n` characters of `s`.
fn push_prefix(out: &mut Vec<char>, s: &[char], n: usize)
    requires
        n <= s@.len(),
    ensures
        final(out)@ == old(out)@ + s@.subrange(0, n as int),
{
    let mut k: usize = 0;
    while k < n
        invariant
            k <= n <= s@.len(),
            out@ == old(out)@ + s@.subrange(0, k as int),
        decreases n - k,
    {
        out.push(s[k]);
        assert(out@ =~= old(out)@ + s@.subrange(0, k + 1));
        k += 1;
    }
}

/// The header line for the given widths and shown columns.
fn header_chars(w0: usize, w1: usize, w2: usize, w3: usize, s1: bool, s2: bool, s3: bool) -> (r:
    Vec<char>)
    ensures
        r@ == header_with(w0 as nat, w1 as nat, w2 as nat, w3 as nat, s1, s2, s3),
{
    let mut out: Vec<char> = Vec::new();
    let hdr = pad_right(header_of(0), w0);
    push_str(&mut out, hdr.as_str());
    push_field(&mut out, s1, header_of(1), w1);
    push_field(&mut out, s2, header_of(2), w2);
    push_field(&mut out, s3, header_of(3), w3);
    assert(out@ =~= header_with(w0 as nat, w1 as nat, w2 as nat, w3 as nat, s1, s2, s3));
    out
}

/// The line under the headers for the given widths and shown columns.
fn rule_chars(w0: usize, w1: usize, w2: usize, w3: usize, s1: bool, s2: bool, s3: bool) -> (r:
    Vec<char>)
    ensures
        r@ == rule_with(w0 as nat, w1 as nat, w2 as nat, w3 as nat, s1, s2, s3),
{
    let mut out: Vec<char> = Vec::new();
    push_rule(&mut out, true, true, w0);
    push_rule(&mut out, false, s1, w1);
    push_rule(&mut out, false, s2, w2);
    push_rule(&mut out, false, s3, w3);
    assert(out@ =~= rule_with(w0 as nat, w1 as nat, w2 as nat, w3 as nat, s1, s2, s3));
    out
}

/// The line of `d` for the given widths and shown columns.
fn row_chars(
    d: &Device,
    w0: usize,
    w1: usize,
    w2: usize,
    w3: usize,
    s1: bool,
    s2: bool,
    s3: bool,
) -> (r: Vec<char>)
    ensures
        r@ == row_with(d@, w0 as nat, w1 as nat, w2 as nat, w3 as nat, s1, s2, s3),
{
    let mut line: Vec<char> = Vec::new();
    let first = pad_right(cell_of(d, 0), w0);
    push_str(&mut line, first.as_str());
    push_field(&mut line, s1, or_dash_of(cell_of(d, 1)), w1);
    push_field(&mut line, s2, or_dash_of(cell_of(d, 2)), w2);
    push_field(&mut line, s3, or_dash_of(cell_of(d, 3)), w3);
    let n = trim_end_len(line.as_slice());
    assert(line@ =~= row_cells(d@, w0 as nat, w1 as nat, w2 as nat, w3 as nat, s1, s2, s3));
    let mut out: Vec<char> = Vec::new();
    push_prefix(&mut out, line.as_slice(), n);
    assert(out@ =~= line@.subrange(0, n as int));
    out
}

/// Appends all of `s`.
fn push_all(out: &mut Vec<char>, s: &[char])
    ensures
        final(out)@ == old(out)@ + s@,
{
    push_prefix(out, s, s.len());
    assert(s@.subrange(0, s@.len() as int) =~= s@);
}

/// Writes the devices as an aligned table with the columns URL, PRODUCT,
/// FIRMWARE and SERIAL; the optional columns appear only when some device
/// has something for them, and each column is as wide as its widest entry.
/// No devices give no text at all.
pub fn plain(devices: &[Device]) -> (r: String)
    ensures
        r@ == table(device_views(devices@)),
{
    let ghost ds = device_views(devices@);
    if devices.len() == 0 {
        return String::new();
    }
    let w0 = column_width(devices, 0);
    let w1 = column_width(devices, 1);
    let w2 = column_width(devices, 2);
    let w3 = column_width(devices, 3);
    let s1 = column_shown(devices, 1);
    let s2 = column_shown(devices, 2);
    let s3 = column_shown(devices, 3);
    let mut out: Vec<char> = Vec::new();
    let hdr = header_chars(w0, w1, w2, w3, s1, s2, s3);
    push_all(&mut out, hdr.as_slice());
    out.push('\n');
    let rl = rule_chars(w0, w1, w2, w3, s1, s2, s3);
    push_all(&mut out, rl.as_slice());
    out.push('\n');
    assert(out@ =~= header_line(ds).push('\n') + rule_line(ds).push('\n'));
    let ghost top = out@;
    assert(out@ =~= top + rows_text(ds, 0));
    let mut i: usize = 0;
    while i < devices.len()
        invariant
            ds == device_views(devices@),
            i <= devices@.len(),
            w0 == width(ds, 0),
            w1 == width(ds, 1),
            w2 == width(ds, 2),
            w3 == width(ds, 3),
            s1 == shown(ds, 1),
            s2 == shown(ds, 2),
            s3 == shown(ds, 3),
            out@ == top + rows_text(ds, i as nat),
        decreases devices@.len() - i,
    {
        let d = &devices[i];
        assert(ds[i as int] == d@);
        let line = row_chars(d, w0, w1, w2, w3, s1, s2, s3);
        assert(line@ == row_line(ds, d@));
        push_all(&mut out, line.as_slice());
        out.push('\n');
        assert(rows_text(ds, (i + 1) as nat) == rows_text(ds, i as nat) + row_line(
            ds,
            ds[i as int],
        ).push('\n'));
        assert(out@ =~= top + rows_text(ds, (i + 1) as nat));
        i += 1;
    }
    assert(out@ =~= table(ds));
    string_from_chars(out.as_slice())
}

} // verus!
