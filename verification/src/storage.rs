//! The serializer and deserializer for the fixed-width bordered text
//! table the task list is stored in. `render` / `parse` are the
//! mathematical models of the text; `render_tasks` / `parse_tasks` are
//! the verified executable counterparts. The caller reads and writes the
//! file itself and hands the text through.

use crate::date::{fmt_date, is_digit, parse_date, Date};
use crate::task::{views_of, wf_field, Task, TaskView};
use crate::text::{
    is_space, lemma_split_on_no_sep, lemma_split_on_prepend, lemma_trim_end_if_concat,
    lemma_trim_end_if_id, lemma_trim_start_if_concat, lemma_trim_start_if_id, spec_trim, split_on,
    split_str, str_views, strip_pipes, strip_pipes_str, trim_end_if, trim_start_if, trim_str,
};
use vstd::prelude::*;

verus! {

pub open spec fn spaces(n: int) -> Seq<char> {
    Seq::new(n as nat, |i: int| ' ')
}

pub open spec fn dashes(n: int) -> Seq<char> {
    Seq::new(n as nat, |i: int| '-')
}

/// A value left-justified in its column: padded with spaces up to the
/// column width, and kept whole — never truncated — when it overflows.
pub open spec fn pad(s: Seq<char>, w: int) -> Seq<char> {
    if s.len() >= w {
        s
    } else {
        s + spaces(w - s.len())
    }
}

/// One cell of a row: the padded value between single spaces.
pub open spec fn field_cell(s: Seq<char>, w: int) -> Seq<char> {
    seq![' '] + pad(s, w) + seq![' ']
}

/// A data or header row: four cells between `|` delimiters, with the
/// column widths 25, 15, 12 and 24.
pub open spec fn row_line(d: Seq<char>, st: Seq<char>, dl: Seq<char>, r: Seq<char>) -> Seq<char> {
    seq!['|'] + field_cell(d, 25) + seq!['|'] + field_cell(st, 15) + seq!['|'] + field_cell(
        dl,
        12,
    ) + seq!['|'] + field_cell(r, 24) + seq!['|']
}

/// A border line: `+` between runs of dashes matching the column widths.
pub open spec fn border_line() -> Seq<char> {
    seq!['+'] + dashes(25) + seq!['+'] + dashes(15) + seq!['+'] + dashes(12) + seq!['+'] + dashes(
        24,
    ) + seq!['+']
}

pub open spec fn todo_label() -> Seq<char> {
    seq!['T', 'o', 'd', 'o']
}

pub open spec fn status_label() -> Seq<char> {
    seq!['S', 't', 'a', 't', 'u', 's']
}

pub open spec fn deadline_label() -> Seq<char> {
    seq!['D', 'e', 'a', 'd', 'l', 'i', 'n', 'e']
}

pub open spec fn reminder_label() -> Seq<char> {
    seq![
        'R',
        'e',
        'm',
        'i',
        'n',
        'd',
        'e',
        'r',
        ' ',
        'N',
        'o',
        't',
        'i',
        'f',
        'i',
        'c',
        'a',
        't',
        'i',
        'o',
        'n',
    ]
}

/// The header row with the literal column labels.
pub open spec fn header_line() -> Seq<char> {
    row_line(todo_label(), status_label(), deadline_label(), reminder_label())
}

pub open spec fn newline() -> Seq<char> {
    seq!['\n']
}

/// The row a task is stored as.
pub open spec fn task_row(t: TaskView) -> Seq<char> {
    row_line(t.description, t.status, fmt_date(t.deadline), t.reminder)
}

/// The data rows, one per task, each ending in a newline.
pub open spec fn rows_of(ts: Seq<TaskView>) -> Seq<char>
    decreases ts.len(),
{
    if ts.len() == 0 {
        Seq::<char>::empty()
    } else {
        task_row(ts[0]) + newline() + rows_of(ts.drop_first())
    }
}

/// The full text of the saved table: border, header, border, one row per
/// task, and a final border, every line ending in a newline.
pub open spec fn render(ts: Seq<TaskView>) -> Seq<char> {
    border_line() + newline() + header_line() + newline() + border_line() + newline() + rows_of(ts)
        + border_line() + newline()
}

/// A line as the loader sees it: one trailing carriage return removed.
pub open spec fn strip_cr(l: Seq<char>) -> Seq<char> {
    if l.len() > 0 && l.last() == '\r' {
        l.drop_last()
    } else {
        l
    }
}

/// How one stored line is read. Border lines and blank lines are
/// skipped. Any other line is a data row: the outer `|` are stripped,
/// the rest is split on `|` and each piece trimmed; the row is kept only
/// if there are exactly four pieces and the third is a valid date.
pub open spec fn parse_line(raw: Seq<char>) -> Option<TaskView> {
    let l = strip_cr(raw);
    if l.len() > 0 && l[0] == '+' {
        None
    } else if spec_trim(l).len() == 0 {
        None
    } else {
        let pieces = split_on(strip_pipes(l), '|');
        if pieces.len() == 4 {
            match parse_date(spec_trim(pieces[2])) {
                Some(d) => Some(
                    TaskView {
                        description: spec_trim(pieces[0]),
                        status: spec_trim(pieces[1]),
                        deadline: d,
                        reminder: spec_trim(pieces[3]),
                    },
                ),
                None => None,
            }
        } else {
            None
        }
    }
}

/// The records the lines after the three header lines yield, in order.
pub open spec fn parse_lines(ls: Seq<Seq<char>>) -> Seq<TaskView>
    decreases ls.len(),
{
    if ls.len() == 0 {
        Seq::<TaskView>::empty()
    } else {
        match parse_line(ls[0]) {
            Some(t) => seq![t] + parse_lines(ls.drop_first()),
            None => parse_lines(ls.drop_first()),
        }
    }
}

/// What loading stored text yields: the first three lines are skipped
/// unconditionally, and every later line that parses as a data row
/// contributes a record, in file order. Text of fewer than four lines
/// yields no records.
pub open spec fn parse(content: Seq<char>) -> Seq<TaskView> {
    let ls = split_on(content, '\n');
    if ls.len() <= 3 {
        Seq::<TaskView>::empty()
    } else {
        parse_lines(ls.skip(3))
    }
}

fn append_spaces(out: &mut String, n: usize)
    ensures
        final(out)@ == old(out)@ + spaces(n as int),
{
    let ghost start = out@;
    let mut k: usize = 0;
    proof {
        assert(start + spaces(0) =~= start);
    }
    while k < n
        invariant
            0 <= k <= n,
            out@ == start + spaces(k as int),
        decreases n - k,
    {
        proof {
            reveal_strlit(" ");
            assert(start + spaces(k as int) + " "@ =~= start + spaces(k as int + 1));
        }
        out.append(" ");
        k = k + 1;
    }
}

fn append_dashes(out: &mut String, n: usize)
    ensures
        final(out)@ == old(out)@ + dashes(n as int),
{
    let ghost start = out@;
    let mut k: usize = 0;
    proof {
        assert(start + dashes(0) =~= start);
    }
    while k < n
        invariant
            0 <= k <= n,
            out@ == start + dashes(k as int),
        decreases n - k,
    {
        proof {
            reveal_strlit("-");
            assert(start + dashes(k as int) + "-"@ =~= start + dashes(k as int + 1));
        }
        out.append("-");
        k = k + 1;
    }
}

fn append_cell(out: &mut String, v: &str, w: usize)
    ensures
        final(out)@ == old(out)@ + field_cell(v@, w as int),
{
    let ghost start = out@;
    proof {
        reveal_strlit(" ");
    }
    out.append(" ");
    out.append(v);
    let n = v.unicode_len();
    if n < w {
        append_spaces(out, w - n);
    }
    out.append(" ");
    proof {
        reveal_strlit(" ");
        if n < w {
            assert(pad(v@, w as int) =~= v@ + spaces(w - n));
        } else {
            assert(pad(v@, w as int) =~= v@);
        }
        assert(out@ =~= start + field_cell(v@, w as int));
    }
}

fn append_border(out: &mut String)
    ensures
        final(out)@ == old(out)@ + border_line() + newline(),
{
    let ghost start = out@;
    proof {
        reveal_strlit("+");
        reveal_strlit("\n");
    }
    out.append("+");
    append_dashes(out, 25);
    out.append("+");
    append_dashes(out, 15);
    out.append("+");
    append_dashes(out, 12);
    out.append("+");
    append_dashes(out, 24);
    out.append("+");
    out.append("\n");
    proof {
        reveal_strlit("+");
        reveal_strlit("\n");
        assert(out@ =~= start + border_line() + newline());
    }
}

fn append_row(out: &mut String, d: &str, st: &str, dl: &str, r: &str)
    ensures
        final(out)@ == old(out)@ + row_line(d@, st@, dl@, r@) + newline(),
{
    let ghost start = out@;
    proof {
        reveal_strlit("|");
        reveal_strlit("\n");
    }
    out.append("|");
    append_cell(out, d, 25);
    out.append("|");
    append_cell(out, st, 15);
    out.append("|");
    append_cell(out, dl, 12);
    out.append("|");
    append_cell(out, r, 24);
    out.append("|");
    out.append("\n");
    proof {
        reveal_strlit("|");
        reveal_strlit("\n");
        assert(out@ =~= start + row_line(d@, st@, dl@, r@) + newline());
    }
}

fn append_header(out: &mut String)
    ensures
        final(out)@ == old(out)@ + header_line() + newline(),
{
    proof {
        reveal_strlit("Todo");
        reveal_strlit("Status");
        reveal_strlit("Deadline");
        reveal_strlit("Reminder Notification");
        assert("Todo"@ =~= todo_label());
        assert("Status"@ =~= status_label());
        assert("Deadline"@ =~= deadline_label());
        assert("Reminder Notification"@ =~= reminder_label());
    }
    append_row(out, "Todo", "Status", "Deadline", "Reminder Notification");
}

proof fn lemma_rows_of_push(ts: Seq<TaskView>, t: TaskView)
    ensures
        rows_of(ts.push(t)) == rows_of(ts) + task_row(t) + newline(),
    decreases ts.len(),
{
    reveal_with_fuel(rows_of, 3);
    if ts.len() == 0 {
        assert(ts.push(t)[0] == t);
        assert(ts.push(t).drop_first() =~= Seq::<TaskView>::empty());
        assert(rows_of(ts.push(t)) =~= rows_of(ts) + task_row(t) + newline());
    } else {
        assert(ts.push(t)[0] == ts[0]);
        assert(ts.push(t).drop_first() =~= ts.drop_first().push(t));
        lemma_rows_of_push(ts.drop_first(), t);
        assert(rows_of(ts.push(t)) =~= rows_of(ts) + task_row(t) + newline());
    }
}

/// Renders the task list as the full text of the saved table. The text
/// is a function of the records alone, so saving the same list twice
/// writes byte-identical files.
pub fn render_tasks(tasks: &Vec<Task>) -> (r: String)
    requires
        forall|i: int| 0 <= i < tasks@.len() ==> (#[trigger] tasks@[i])@.deadline.valid(),
    ensures
        r@ == render(views_of(tasks@)),
{
    let mut out = String::new();
    append_border(&mut out);
    append_header(&mut out);
    append_border(&mut out);
    let ghost prefix = border_line() + newline() + header_line() + newline() + border_line()
        + newline();
    proof {
        assert(out@ =~= prefix);
        assert(tasks@.take(0) =~= Seq::<Task>::empty());
        assert(views_of(tasks@.take(0)) =~= Seq::<TaskView>::empty());
        assert(out@ =~= prefix + rows_of(views_of(tasks@.take(0))));
    }
    let mut i: usize = 0;
    while i < tasks.len()
        invariant
            0 <= i <= tasks@.len(),
            forall|m: int| 0 <= m < tasks@.len() ==> (#[trigger] tasks@[m])@.deadline.valid(),
            out@ == prefix + rows_of(views_of(tasks@.take(i as int))),
        decreases tasks@.len() - i,
    {
        let t = &tasks[i];
        let ds = crate::date::format_date(&t.deadline);
        append_row(
            &mut out,
            t.description.as_str(),
            t.status.as_str(),
            ds.as_str(),
            t.reminder.as_str(),
        );
        proof {
            let vs = views_of(tasks@.take(i as int));
            assert(row_line(t.description@, t.status@, ds@, t.reminder@) == task_row(t@));
            lemma_rows_of_push(vs, t@);
            assert(tasks@.take(i as int + 1) =~= tasks@.take(i as int).push(tasks@[i as int]));
            assert(views_of(tasks@.take(i as int + 1)) =~= vs.push(t@));
            assert(out@ =~= prefix + rows_of(views_of(tasks@.take(i as int + 1))));
        }
        i = i + 1;
    }
    append_border(&mut out);
    proof {
        assert(tasks@.take(tasks@.len() as int) =~= tasks@);
        assert(out@ =~= render(views_of(tasks@)));
    }
    out
}

/// Reads one stored line as the loader does: skips border and blank
/// lines, keeps a data row only if it has four fields and a valid date.
fn parse_line_str(raw: &str) -> (r: Option<Task>)
    ensures
        r is Some <==> parse_line(raw@) is Some,
        r is Some ==> r->0@ == parse_line(raw@)->0,
{
    let n = raw.unicode_len();
    let line = if n > 0 && raw.get_char(n - 1) == '\r' {
        raw.substring_char(0, n - 1)
    } else {
        raw
    };
    proof {
        if n > 0 && raw@[n - 1] == '\r' {
            assert(raw@.last() == raw@[n - 1]);
            assert(raw@.drop_last() =~= raw@.subrange(0, n - 1));
        }
        assert(line@ == strip_cr(raw@));
    }
    let ln = line.unicode_len();
    if ln > 0 && line.get_char(0) == '+' {
        return None;
    }
    let trimmed = trim_str(line);
    if trimmed.is_empty() {
        return None;
    }
    let core = strip_pipes_str(line);
    let pieces = split_str(core, '|');
    proof {
        assert(str_views(pieces@).len() == pieces@.len());
    }
    if pieces.len() != 4 {
        return None;
    }
    let p0 = trim_str(pieces[0].as_str());
    let p1 = trim_str(pieces[1].as_str());
    let p2 = trim_str(pieces[2].as_str());
    let p3 = trim_str(pieces[3].as_str());
    proof {
        assert(str_views(pieces@)[0] == pieces@[0]@);
        assert(str_views(pieces@)[1] == pieces@[1]@);
        assert(str_views(pieces@)[2] == pieces@[2]@);
        assert(str_views(pieces@)[3] == pieces@[3]@);
    }
    let d = crate::date::parse_date_str(p2);
    match d {
        Some(date) => Some(
            Task {
                description: String::from_str(p0),
                status: String::from_str(p1),
                deadline: date,
                reminder: String::from_str(p3),
            },
        ),
        None => None,
    }
}

/// Parses the full text of a stored table into the task list it holds.
pub fn parse_tasks(content: &str) -> (r: Vec<Task>)
    ensures
        views_of(r@) == parse(content@),
{
    let lines = split_str(content, '\n');
    let mut r: Vec<Task> = Vec::new();
    proof {
        assert(str_views(lines@).len() == lines@.len());
    }
    if lines.len() <= 3 {
        proof {
            assert(views_of(r@) =~= parse(content@));
        }
        return r;
    }
    let ghost ls = str_views(lines@);
    let mut i: usize = 3;
    proof {
        assert(parse(content@) == parse_lines(ls.skip(3)));
        assert(views_of(r@) =~= Seq::<TaskView>::empty());
        assert(views_of(r@) + parse_lines(ls.skip(3)) =~= parse_lines(ls.skip(3)));
    }
    while i < lines.len()
        invariant
            3 <= i <= lines@.len(),
            ls == str_views(lines@),
            ls.len() == lines@.len(),
            parse(content@) == views_of(r@) + parse_lines(ls.skip(i as int)),
        decreases lines@.len() - i,
    {
        let t = parse_line_str(lines[i].as_str());
        proof {
            let tail = ls.skip(i as int);
            assert(tail[0] == ls[i as int]);
            assert(ls[i as int] == lines@[i as int]@);
            assert(tail.drop_first() =~= ls.skip(i as int + 1));
        }
        match t {
            Some(task) => {
                proof {
                    assert(views_of(r@.push(task)) =~= views_of(r@) + seq![task@]);
                    assert(views_of(r@) + parse_lines(ls.skip(i as int)) =~= views_of(r@.push(task))
                        + parse_lines(ls.skip(i as int + 1)));
                }
                r.push(task);
            },
            None => {
            },
        }
        i = i + 1;
    }
    proof {
        assert(ls.skip(ls.len() as int) =~= Seq::<Seq<char>>::empty());
        assert(views_of(r@) + parse_lines(Seq::<Seq<char>>::empty()) =~= views_of(r@));
    }
    r
}

proof fn lemma_concat_avoids(a: Seq<char>, b: Seq<char>, c: char)
    requires
        forall|j: int| 0 <= j < a.len() ==> a[j] != c,
        forall|j: int| 0 <= j < b.len() ==> b[j] != c,
    ensures
        forall|j: int| 0 <= j < (a + b).len() ==> (a + b)[j] != c,
{
    assert forall|j: int| 0 <= j < (a + b).len() implies (a + b)[j] != c by {
        if j < a.len() {
            assert((a + b)[j] == a[j]);
        } else {
            assert((a + b)[j] == b[j - a.len()]);
        }
    }
}

/// The rendered date field: ten characters, each a digit or a dash, none
/// of them whitespace or a delimiter.
proof fn lemma_fmt_date_wf(d: Date)
    ensures
        wf_field(fmt_date(d)),
        forall|j: int| 0 <= j < fmt_date(d).len() ==> fmt_date(d)[j] != '+',
{
    let s = fmt_date(d);
    assert forall|j: int| 0 <= j < s.len() implies (is_digit(s[j]) || s[j] == '-') by {
    }
}

/// A cell built from a field free of delimiters and line breaks is
/// itself free of them.
proof fn lemma_cell_clean(f: Seq<char>, w: int)
    requires
        forall|j: int| 0 <= j < f.len() ==> f[j] != '|' && f[j] != '\n',
    ensures
        forall|j: int|
            0 <= j < field_cell(f, w).len() ==> #[trigger] field_cell(f, w)[j] != '|'
                && field_cell(f, w)[j] != '\n',
{
    let cell = field_cell(f, w);
    assert forall|j: int| 0 <= j < cell.len() implies cell[j] != '|' && cell[j] != '\n' by {
        let left = seq![' '] + pad(f, w);
        if j < left.len() {
            assert(cell[j] == left[j]);
            if 1 <= j {
                assert(left[j] == pad(f, w)[j - 1]);
                if j - 1 < f.len() {
                    assert(pad(f, w)[j - 1] == f[j - 1]);
                } else {
                    assert(pad(f, w)[j - 1] == spaces(w - f.len())[j - 1 - f.len()]);
                }
            }
        } else {
            assert(cell[j] == seq![' '][j - left.len()]);
        }
    }
}

/// A row whose four cells are clean contains no newline.
proof fn lemma_row_no_newline(dd: Seq<char>, st: Seq<char>, dl: Seq<char>, rm: Seq<char>)
    requires
        forall|j: int| 0 <= j < dd.len() ==> dd[j] != '|' && dd[j] != '\n',
        forall|j: int| 0 <= j < st.len() ==> st[j] != '|' && st[j] != '\n',
        forall|j: int| 0 <= j < dl.len() ==> dl[j] != '|' && dl[j] != '\n',
        forall|j: int| 0 <= j < rm.len() ==> rm[j] != '|' && rm[j] != '\n',
    ensures
        forall|j: int|
            0 <= j < row_line(dd, st, dl, rm).len() ==> #[trigger] row_line(dd, st, dl, rm)[j]
                != '\n',
{
    let p = seq!['|'];
    lemma_cell_clean(dd, 25);
    lemma_cell_clean(st, 15);
    lemma_cell_clean(dl, 12);
    lemma_cell_clean(rm, 24);
    lemma_concat_avoids(p, field_cell(dd, 25), '\n');
    lemma_concat_avoids(p + field_cell(dd, 25), p, '\n');
    lemma_concat_avoids(p + field_cell(dd, 25) + p, field_cell(st, 15), '\n');
    lemma_concat_avoids(p + field_cell(dd, 25) + p + field_cell(st, 15), p, '\n');
    lemma_concat_avoids(
        p + field_cell(dd, 25) + p + field_cell(st, 15) + p,
        field_cell(dl, 12),
        '\n',
    );
    lemma_concat_avoids(
        p + field_cell(dd, 25) + p + field_cell(st, 15) + p + field_cell(dl, 12),
        p,
        '\n',
    );
    lemma_concat_avoids(
        p + field_cell(dd, 25) + p + field_cell(st, 15) + p + field_cell(dl, 12) + p,
        field_cell(rm, 24),
        '\n',
    );
    lemma_concat_avoids(
        p + field_cell(dd, 25) + p + field_cell(st, 15) + p + field_cell(dl, 12) + p + field_cell(
            rm,
            24,
        ),
        p,
        '\n',
    );
}

/// The border line holds only plus signs and dashes.
proof fn lemma_border_line_chars()
    ensures
        border_line().len() > 0,
        border_line()[0] == '+',
        border_line().last() == '+',
        forall|j: int| 0 <= j < border_line().len() ==> #[trigger] border_line()[j] != '\n',
{
    let p = seq!['+'];
    let x1 = p + dashes(25);
    let x2 = x1 + p;
    let x3 = x2 + dashes(15);
    let x4 = x3 + p;
    let x5 = x4 + dashes(12);
    let x6 = x5 + p;
    let x7 = x6 + dashes(24);
    let x8 = x7 + p;
    assert(border_line() == x8);
    assert(x1[0] == '+');
    assert(x2[0] == x1[0]);
    assert(x3[0] == x2[0]);
    assert(x4[0] == x3[0]);
    assert(x5[0] == x4[0]);
    assert(x6[0] == x5[0]);
    assert(x7[0] == x6[0]);
    assert(x8[0] == x7[0]);
    lemma_concat_avoids(p, dashes(25), '\n');
    lemma_concat_avoids(x1, p, '\n');
    lemma_concat_avoids(x2, dashes(15), '\n');
    lemma_concat_avoids(x3, p, '\n');
    lemma_concat_avoids(x4, dashes(12), '\n');
    lemma_concat_avoids(x5, p, '\n');
    lemma_concat_avoids(x6, dashes(24), '\n');
    lemma_concat_avoids(x7, p, '\n');
}

/// A border line is skipped by the loader.
proof fn lemma_parse_line_border()
    ensures
        parse_line(border_line()) is None,
{
    lemma_border_line_chars();
    let b = border_line();
    assert(b.last() != '\r');
    assert(strip_cr(b) == b);
    assert(b[0] == '+');
}

/// An empty line is skipped by the loader.
proof fn lemma_parse_line_empty()
    ensures
        parse_line(Seq::<char>::empty()) is None,
{
    let e = Seq::<char>::empty();
    assert(strip_cr(e) == e);
    assert(spec_trim(e).len() == 0);
}

/// Trimming a cell gives back exactly the field it was built from,
/// provided the field carries no whitespace at its ends.
proof fn lemma_trim_cell(f: Seq<char>, w: int)
    requires
        f.len() > 0 ==> !is_space(f[0]) && !is_space(f[f.len() - 1]),
    ensures
        spec_trim(field_cell(f, w)) == f,
{
    let sp = |c: char| is_space(c);
    let cell = field_cell(f, w);
    let m: int = if f.len() >= w {
        0
    } else {
        w - f.len()
    };
    assert(pad(f, w) =~= f + spaces(m));
    let rest = pad(f, w) + seq![' '];
    assert(cell =~= seq![' '] + rest);
    lemma_trim_start_if_concat(seq![' '], rest, sp);
    if f.len() == 0 {
        assert(forall|j: int| 0 <= j < rest.len() ==> sp(#[trigger] rest[j])) by {
            assert(forall|j: int|
                0 <= j < pad(f, w).len() ==> pad(f, w)[j] == spaces(m)[j - f.len()]);
        }
        lemma_trim_start_if_concat(rest, Seq::<char>::empty(), sp);
        assert(rest + Seq::<char>::empty() =~= rest);
        assert(trim_start_if(Seq::<char>::empty(), sp) =~= Seq::<char>::empty());
        assert(spec_trim(cell) =~= f);
    } else {
        assert(rest[0] == pad(f, w)[0]);
        assert(pad(f, w)[0] == f[0]);
        lemma_trim_start_if_id(rest, sp);
        let suffix = spaces(m) + seq![' '];
        assert(rest =~= f + suffix);
        assert(forall|j: int| 0 <= j < suffix.len() ==> sp(#[trigger] suffix[j]));
        lemma_trim_end_if_concat(f, suffix, sp);
        lemma_trim_end_if_id(f, sp);
    }
}

/// A well-formed record survives the format: the row that stores it
/// parses back to exactly the record.
proof fn lemma_parse_line_row(t: TaskView)
    requires
        t.wf(),
    ensures
        parse_line(task_row(t)) == Some(t),
{
    lemma_fmt_date_wf(t.deadline);
    let dd = t.description;
    let st = t.status;
    let dl = fmt_date(t.deadline);
    let rm = t.reminder;
    let row = task_row(t);
    let p = seq!['|'];
    let cd = field_cell(dd, 25);
    let cs = field_cell(st, 15);
    let cf = field_cell(dl, 12);
    let cr = field_cell(rm, 24);
    assert(row == p + cd + p + cs + p + cf + p + cr + p);
    assert(row.last() == '|');
    assert(strip_cr(row) == row);
    let x1 = p + cd;
    assert(x1[0] == '|');
    assert((x1 + p)[0] == x1[0]);
    assert((x1 + p + cs)[0] == x1[0]);
    assert((x1 + p + cs + p)[0] == x1[0]);
    assert((x1 + p + cs + p + cf)[0] == x1[0]);
    assert((x1 + p + cs + p + cf + p)[0] == x1[0]);
    assert((x1 + p + cs + p + cf + p + cr)[0] == x1[0]);
    assert(row[0] == '|');
    let sp = |c: char| is_space(c);
    lemma_trim_start_if_id(row, sp);
    lemma_trim_end_if_id(row, sp);
    assert(spec_trim(row) == row);
    assert(spec_trim(row).len() > 0);
    // strip the outer delimiters
    let pp = |c: char| c == '|';
    let inner = cd + p + cs + p + cf + p + cr;
    assert(row =~= p + (inner + p));
    assert(row.drop_first() =~= inner + p);
    assert(trim_start_if(row, pp) == trim_start_if(inner + p, pp));
    assert(cd[0] == ' ') by {
        assert(cd[0] == (seq![' '] + pad(dd, 25))[0]);
    }
    assert((inner + p)[0] == ' ') by {
        assert((inner + p)[0] == inner[0]);
        assert(inner[0] == cd[0]) by {
            assert(inner[0] == (cd + p)[0]);
            assert((cd + p + cs)[0] == (cd + p)[0]);
            assert((cd + p + cs + p)[0] == (cd + p)[0]);
            assert((cd + p + cs + p + cf)[0] == (cd + p)[0]);
            assert((cd + p + cs + p + cf + p)[0] == (cd + p)[0]);
        }
    }
    lemma_trim_start_if_id(inner + p, pp);
    assert((inner + p).last() == '|');
    assert((inner + p).drop_last() =~= inner);
    assert(trim_end_if(inner + p, pp) == trim_end_if(inner, pp));
    assert(inner.last() == ' ') by {
        assert(inner.last() == cr.last());
        assert(cr.last() == ' ');
    }
    lemma_trim_end_if_id(inner, pp);
    assert(strip_pipes(row) == inner);
    // cut the inner text into the four cells
    lemma_cell_clean(dd, 25);
    lemma_cell_clean(st, 15);
    lemma_cell_clean(dl, 12);
    lemma_cell_clean(rm, 24);
    let rest1 = cs + p + cf + p + cr;
    let rest2 = cf + p + cr;
    assert(inner =~= cd + p + rest1);
    lemma_split_on_prepend(cd, rest1, '|');
    assert(rest1 =~= cs + p + rest2);
    lemma_split_on_prepend(cs, rest2, '|');
    lemma_split_on_prepend(cf, cr, '|');
    lemma_split_on_no_sep(cr, '|');
    let pieces = split_on(inner, '|');
    assert(pieces =~= seq![cd, cs, cf, cr]);
    assert(pieces.len() == 4);
    // trim each cell back to its field
    lemma_trim_cell(dd, 25);
    lemma_trim_cell(st, 15);
    lemma_trim_cell(dl, 12);
    lemma_trim_cell(rm, 24);
    crate::date::lemma_date_round_trip(t.deadline);
    assert(parse_line(row) == Some(t));
}

/// The data rows followed by the final border parse back to the records.
proof fn lemma_parse_rows(ts: Seq<TaskView>)
    requires
        forall|i: int| 0 <= i < ts.len() ==> (#[trigger] ts[i]).wf(),
    ensures
        parse_lines(split_on(rows_of(ts) + border_line() + newline(), '\n')) == ts,
    decreases ts.len(),
{
    reveal_with_fuel(parse_lines, 3);
    lemma_border_line_chars();
    if ts.len() == 0 {
        let text = rows_of(ts) + border_line() + newline();
        assert(text =~= border_line() + seq!['\n'] + Seq::<char>::empty());
        lemma_split_on_prepend(border_line(), Seq::<char>::empty(), '\n');
        crate::text::lemma_split_on_no_sep(Seq::<char>::empty(), '\n');
        let ls = split_on(text, '\n');
        assert(ls =~= seq![border_line(), Seq::<char>::empty()]);
        lemma_parse_line_border();
        lemma_parse_line_empty();
        assert(ls.drop_first() =~= seq![Seq::<char>::empty()]);
        assert(ls.drop_first().drop_first() =~= Seq::<Seq<char>>::empty());
        assert(parse_lines(ls) =~= Seq::<TaskView>::empty());
    } else {
        let t0 = ts[0];
        let rest = rows_of(ts.drop_first()) + border_line() + newline();
        let text = rows_of(ts) + border_line() + newline();
        assert(text =~= task_row(t0) + seq!['\n'] + rest);
        lemma_fmt_date_wf(t0.deadline);
        lemma_row_no_newline(t0.description, t0.status, fmt_date(t0.deadline), t0.reminder);
        lemma_split_on_prepend(task_row(t0), rest, '\n');
        let ls = split_on(text, '\n');
        assert(ls == seq![task_row(t0)] + split_on(rest, '\n'));
        lemma_parse_line_row(t0);
        assert(ls[0] == task_row(t0));
        assert(ls.drop_first() =~= split_on(rest, '\n'));
        assert(forall|i: int|
            0 <= i < ts.drop_first().len() ==> (#[trigger] ts.drop_first()[i]) == ts[i + 1]);
        lemma_parse_rows(ts.drop_first());
        assert(parse_lines(ls) == seq![t0] + ts.drop_first());
        assert(seq![t0] + ts.drop_first() =~= ts);
    }
}

/// Round trip: loading reads back exactly what saving wrote. For any
/// sequence of well-formed records, parsing the rendered table yields
/// the records themselves, order and field values preserved.
/// The header row contains no newline.
proof fn lemma_header_clean()
    ensures
        forall|j: int| 0 <= j < header_line().len() ==> #[trigger] header_line()[j] != '\n',
{
    assert(forall|j: int| 0 <= j < todo_label().len() ==> todo_label()[j] != '|'
        && todo_label()[j] != '\n');
    assert(forall|j: int| 0 <= j < status_label().len() ==> status_label()[j] != '|'
        && status_label()[j] != '\n');
    assert(forall|j: int| 0 <= j < deadline_label().len() ==> deadline_label()[j] != '|'
        && deadline_label()[j] != '\n');
    assert(forall|j: int| 0 <= j < reminder_label().len() ==> reminder_label()[j] != '|'
        && reminder_label()[j] != '\n');
    lemma_row_no_newline(todo_label(), status_label(), deadline_label(), reminder_label());
}

#[verifier::rlimit(50)]
pub proof fn lemma_round_trip(ts: Seq<TaskView>)
    requires
        forall|i: int| 0 <= i < ts.len() ==> (#[trigger] ts[i]).wf(),
    ensures
        parse(render(ts)) == ts,
{
    let text = render(ts);
    let tail = rows_of(ts) + border_line() + newline();
    let rest2 = border_line() + seq!['\n'] + tail;
    let rest1 = header_line() + seq!['\n'] + rest2;
    assert(text =~= border_line() + seq!['\n'] + rest1);
    lemma_border_line_chars();
    lemma_header_clean();
    lemma_split_on_prepend(border_line(), rest1, '\n');
    lemma_split_on_prepend(header_line(), rest2, '\n');
    lemma_split_on_prepend(border_line(), tail, '\n');
    let ls = split_on(text, '\n');
    assert(ls == seq![border_line()] + (seq![header_line()] + (seq![border_line()] + split_on(
        tail,
        '\n',
    ))));
    assert(ls.len() >= 4) by {
        assert(split_on(tail, '\n').len() >= 1);
    }
    assert(ls.skip(3) =~= split_on(tail, '\n'));
    lemma_parse_rows(ts);
}


} // verus!
