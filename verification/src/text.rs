//! Text export of a simulation trace as a semicolon-delimited table.

use crate::sim::has_loss;
use crate::sim::is_loss_cycle;
use vstd::prelude::*;
use vstd::string::StringExecFns;

verus! {

/// The fixed header line of the export, without its terminating newline.
pub open spec fn header_chars() -> Seq<char> {
    "Cycle;Window size;Threshold;Packet losses"@
}

/// The loss column of a row: the fixed marker on lossy rows, empty elsewhere.
pub open spec fn loss_mark(lossy: bool) -> Seq<char> {
    if lossy {
        "Loss"@
    } else {
        Seq::empty()
    }
}

/// The decimal character for a single digit value.
pub open spec fn digit_char(d: int) -> char {
    if d == 0 {
        '0'
    } else if d == 1 {
        '1'
    } else if d == 2 {
        '2'
    } else if d == 3 {
        '3'
    } else if d == 4 {
        '4'
    } else if d == 5 {
        '5'
    } else if d == 6 {
        '6'
    } else if d == 7 {
        '7'
    } else if d == 8 {
        '8'
    } else {
        '9'
    }
}

/// The decimal digits of a non-negative number, most significant first.
pub open spec fn dec_chars(n: int) -> Seq<char>
    decreases n,
{
    if n < 10 {
        seq![digit_char(n)]
    } else {
        dec_chars(n / 10).push(digit_char(n % 10))
    }
}

/// Appends the decimal digits of `n` to `s`.
pub fn append_dec(s: &mut String, n: usize)
    ensures
        final(s)@ == old(s)@ + dec_chars(n as int),
    decreases n,
{
    if n >= 10 {
        append_dec(s, n / 10);
    }
    let d: usize = n % 10;
    match d {
        0 => s.append("0"),
        1 => s.append("1"),
        2 => s.append("2"),
        3 => s.append("3"),
        4 => s.append("4"),
        5 => s.append("5"),
        6 => s.append("6"),
        7 => s.append("7"),
        8 => s.append("8"),
        _ => s.append("9"),
    }
    proof {
        reveal_strlit("0");
        reveal_strlit("1");
        reveal_strlit("2");
        reveal_strlit("3");
        reveal_strlit("4");
        reveal_strlit("5");
        reveal_strlit("6");
        reveal_strlit("7");
        reveal_strlit("8");
        reveal_strlit("9");
        assert(s@ =~= old(s)@ + dec_chars(n as int));
    }
}

/// The number of rows in the export: one per position that both series
/// hold, so the shorter of the two lengths.
pub open spec fn row_count(ws: Seq<u16>, ts: Seq<u16>) -> int {
    if ws.len() <= ts.len() {
        ws.len() as int
    } else {
        ts.len() as int
    }
}

/// One row of the export, without its terminating newline: the row index,
/// the window size, the threshold and the loss column, separated by
/// semicolons.
pub open spec fn row_body(i: int, w: u16, t: u16, lossy: bool) -> Seq<char> {
    dec_chars(i) + ";"@ + dec_chars(w as int) + ";"@ + dec_chars(t as int) + ";"@ + loss_mark(lossy)
}

/// The newline-terminated rows of the export from position `i` on.
pub open spec fn rows_from(ws: Seq<u16>, ts: Seq<u16>, losses: Seq<u16>, i: int) -> Seq<char>
    decreases row_count(ws, ts) - i,
{
    if i < 0 || i >= row_count(ws, ts) {
        Seq::empty()
    } else {
        row_body(i, ws[i], ts[i], is_loss_cycle(losses, i)) + "\n"@ + rows_from(
            ws,
            ts,
            losses,
            i + 1,
        )
    }
}

/// The whole export: the header line, then one row per trace position.
pub open spec fn csv_chars(ws: Seq<u16>, ts: Seq<u16>, losses: Seq<u16>) -> Seq<char> {
    header_chars() + "\n"@ + rows_from(ws, ts, losses, 0)
}

/// Serializes a trace as a semicolon-delimited table: a fixed header line,
/// then one line per position held by both series, carrying the position,
/// the window size, the threshold, and the loss marker exactly on positions
/// that `losses` declares lossy.
pub fn to_csv(window_sizes: &[u16], thresholds: &[u16], losses: &[u16]) -> (r: String)
    ensures
        r@ == csv_chars(window_sizes@, thresholds@, losses@),
{
    let mut csv = String::new();
    csv.append("Cycle;Window size;Threshold;Packet losses");
    csv.append("\n");

    let n: usize = if window_sizes.len() <= thresholds.len() {
        window_sizes.len()
    } else {
        thresholds.len()
    };
    proof {
        assert(csv@ + rows_from(window_sizes@, thresholds@, losses@, 0) =~= csv_chars(
            window_sizes@,
            thresholds@,
            losses@,
        ));
    }
    let mut i: usize = 0;
    while i < n
        invariant
            n == row_count(window_sizes@, thresholds@),
            i <= n,
            csv@ + rows_from(window_sizes@, thresholds@, losses@, i as int) == csv_chars(
                window_sizes@,
                thresholds@,
                losses@,
            ),
        decreases n - i,
    {
        let ghost csv_before: Seq<char> = csv@;
        append_dec(&mut csv, i);
        csv.append(";");
        append_dec(&mut csv, window_sizes[i] as usize);
        csv.append(";");
        append_dec(&mut csv, thresholds[i] as usize);
        csv.append(";");
        if has_loss(losses, i) {
            csv.append("Loss");
        }
        csv.append("\n");
        proof {
            assert(csv@ =~= csv_before + row_body(
                i as int,
                window_sizes@[i as int],
                thresholds@[i as int],
                is_loss_cycle(losses@, i as int),
            ) + "\n"@);
            assert(csv@ + rows_from(window_sizes@, thresholds@, losses@, i + 1) =~= csv_before
                + rows_from(window_sizes@, thresholds@, losses@, i as int));
        }
        i = i + 1;
    }
    proof {
        assert(csv@ =~= csv_chars(window_sizes@, thresholds@, losses@));
    }
    csv
}

/// No character of `s` is a newline.
pub open spec fn no_newline(s: Seq<char>) -> bool {
    forall|j: int| 0 <= j < s.len() ==> s[j] != '\n'
}

/// The index of the first newline in `s`, or `s.len()` if there is none.
pub open spec fn find_newline(s: Seq<char>) -> nat
    decreases s.len(),
{
    if s.len() == 0 {
        0
    } else if s[0] == '\n' {
        0
    } else {
        1 + find_newline(s.drop_first())
    }
}

/// The lines of `s`: each newline ends a line, and a final unterminated
/// chunk forms a last line of its own.
pub open spec fn split_lines(s: Seq<char>) -> Seq<Seq<char>>
    decreases s.len(),
{
    if s.len() == 0 {
        Seq::empty()
    } else {
        let k = find_newline(s) as int;
        if k >= s.len() {
            seq![s]
        } else {
            seq![s.take(k)] + split_lines(s.skip(k + 1))
        }
    }
}

proof fn lemma_find_newline_concat(l: Seq<char>, rest: Seq<char>)
    requires
        no_newline(l),
    ensures
        find_newline(l + seq!['\n'] + rest) == l.len(),
    decreases l.len(),
{
    let s = l + seq!['\n'] + rest;
    if l.len() == 0 {
        assert(s[0] == '\n');
    } else {
        assert(s[0] == l[0]);
        assert(no_newline(l.drop_first()));
        lemma_find_newline_concat(l.drop_first(), rest);
        assert(s.drop_first() =~= l.drop_first() + seq!['\n'] + rest);
    }
}

proof fn lemma_split_terminated_line(l: Seq<char>, rest: Seq<char>)
    requires
        no_newline(l),
    ensures
        split_lines(l + seq!['\n'] + rest) == seq![l] + split_lines(rest),
{
    let s = l + seq!['\n'] + rest;
    lemma_find_newline_concat(l, rest);
    assert(s.take(l.len() as int) =~= l);
    assert(s.skip(l.len() as int + 1) =~= rest);
    assert(split_lines(s) =~= seq![l] + split_lines(rest));
}

proof fn lemma_concat_no_newline(x: Seq<char>, y: Seq<char>)
    requires
        no_newline(x),
        no_newline(y),
    ensures
        no_newline(x + y),
{
    assert forall|j: int| 0 <= j < (x + y).len() implies (x + y)[j] != '\n' by {
        if j < x.len() {
            assert((x + y)[j] == x[j]);
        } else {
            assert((x + y)[j] == y[j - x.len()]);
        }
    }
}

proof fn lemma_dec_chars_no_newline(n: int)
    ensures
        no_newline(dec_chars(n)),
    decreases n,
{
    if n < 10 {
    } else {
        lemma_dec_chars_no_newline(n / 10);
        assert(dec_chars(n) =~= dec_chars(n / 10) + seq![digit_char(n % 10)]);
        lemma_concat_no_newline(dec_chars(n / 10), seq![digit_char(n % 10)]);
    }
}

proof fn lemma_row_body_no_newline(i: int, w: u16, t: u16, lossy: bool)
    ensures
        no_newline(row_body(i, w, t, lossy)),
{
    reveal_strlit(";");
    reveal_strlit("Loss");
    lemma_dec_chars_no_newline(i);
    lemma_dec_chars_no_newline(w as int);
    lemma_dec_chars_no_newline(t as int);
    assert(no_newline(";"@));
    assert(no_newline(loss_mark(lossy)));
    lemma_concat_no_newline(dec_chars(i), ";"@);
    lemma_concat_no_newline(dec_chars(i) + ";"@, dec_chars(w as int));
    lemma_concat_no_newline(dec_chars(i) + ";"@ + dec_chars(w as int), ";"@);
    lemma_concat_no_newline(dec_chars(i) + ";"@ + dec_chars(w as int) + ";"@, dec_chars(t as int));
    lemma_concat_no_newline(
        dec_chars(i) + ";"@ + dec_chars(w as int) + ";"@ + dec_chars(t as int),
        ";"@,
    );
    lemma_concat_no_newline(
        dec_chars(i) + ";"@ + dec_chars(w as int) + ";"@ + dec_chars(t as int) + ";"@,
        loss_mark(lossy),
    );
}

proof fn lemma_split_rows(ws: Seq<u16>, ts: Seq<u16>, losses: Seq<u16>, i: int)
    requires
        0 <= i <= row_count(ws, ts),
    ensures
        ({
            let lines = split_lines(rows_from(ws, ts, losses, i));
            &&& lines.len() == row_count(ws, ts) - i
            &&& forall|k: int|
                0 <= k < lines.len() ==> lines[k] == row_body(
                    i + k,
                    ws[i + k],
                    ts[i + k],
                    is_loss_cycle(losses, i + k),
                )
        }),
    decreases row_count(ws, ts) - i,
{
    reveal_strlit("\n");
    if i == row_count(ws, ts) {
        assert(split_lines(rows_from(ws, ts, losses, i)) =~= Seq::<Seq<char>>::empty());
    } else {
        let body = row_body(i, ws[i], ts[i], is_loss_cycle(losses, i));
        let rest = rows_from(ws, ts, losses, i + 1);
        lemma_row_body_no_newline(i, ws[i], ts[i], is_loss_cycle(losses, i));
        lemma_split_rows(ws, ts, losses, i + 1);
        assert(rows_from(ws, ts, losses, i) =~= body + seq!['\n'] + rest);
        lemma_split_terminated_line(body, rest);
        let lines = split_lines(rows_from(ws, ts, losses, i));
        assert(lines =~= seq![body] + split_lines(rest));
        assert forall|k: int| 0 <= k < lines.len() implies lines[k] == row_body(
            i + k,
            ws[i + k],
            ts[i + k],
            is_loss_cycle(losses, i + k),
        ) by {
            if k > 0 {
                assert(lines[k] == split_lines(rest)[k - 1]);
            }
        }
    }
}

/// The exported text decomposes by newlines into the header line followed
/// by one row line per trace position: the line at position i + 1 carries
/// the decimal digits of i as its first field, then the window size and the
/// threshold at position i, and it carries the loss marker exactly when the
/// loss schedule declares cycle i lossy.
pub proof fn lemma_csv_round_trip(ws: Seq<u16>, ts: Seq<u16>, losses: Seq<u16>)
    ensures
        ({
            let lines = split_lines(csv_chars(ws, ts, losses));
            &&& lines.len() == row_count(ws, ts) + 1
            &&& lines[0] == header_chars()
            &&& forall|i: int|
                0 <= i < row_count(ws, ts) ==> lines[i + 1] == row_body(
                    i,
                    ws[i],
                    ts[i],
                    is_loss_cycle(losses, i),
                )
            &&& forall|i: int|
                0 <= i < row_count(ws, ts) ==> (lines[i + 1]).take(dec_chars(i).len() as int)
                    == dec_chars(i)
        }),
{
    reveal_strlit("Cycle;Window size;Threshold;Packet losses");
    reveal_strlit("\n");
    assert(no_newline(header_chars()));
    let rows = rows_from(ws, ts, losses, 0);
    lemma_split_terminated_line(header_chars(), rows);
    assert(csv_chars(ws, ts, losses) =~= header_chars() + seq!['\n'] + rows);
    lemma_split_rows(ws, ts, losses, 0);
    let lines = split_lines(csv_chars(ws, ts, losses));
    assert(lines =~= seq![header_chars()] + split_lines(rows));
    assert forall|i: int| 0 <= i < row_count(ws, ts) implies lines[i + 1] == row_body(
        i,
        ws[i],
        ts[i],
        is_loss_cycle(losses, i),
    ) by {
        assert(lines[i + 1] == split_lines(rows)[i]);
    }
    assert forall|i: int| 0 <= i < row_count(ws, ts) implies (lines[i + 1]).take(
        dec_chars(i).len() as int,
    ) == dec_chars(i) by {
        let head = dec_chars(i);
        let tail = ";"@ + dec_chars(ws[i] as int) + ";"@ + dec_chars(ts[i] as int) + ";"@
            + loss_mark(is_loss_cycle(losses, i));
        assert(lines[i + 1] =~= head + tail);
        assert((head + tail).take(head.len() as int) =~= head);
    }
}

} // verus!
