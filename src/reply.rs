//! The text of the replies sent back to the event source.
use vstd::prelude::*;
use vstd::string::*;
use crate::ledger::{count_rows_view, value_rows_view};

verus! {

pub open spec fn digit_char(d: nat) -> char {
    if d == 0 { '0' } else if d == 1 { '1' } else if d == 2 { '2' } else if d == 3 { '3' }
    else if d == 4 { '4' } else if d == 5 { '5' } else if d == 6 { '6' } else if d == 7 { '7' }
    else if d == 8 { '8' } else { '9' }
}

/// The decimal digits of `n`, most significant first.
pub open spec fn digits_of(n: nat) -> Seq<char>
    decreases n,
{
    if n < 10 {
        seq![digit_char(n)]
    } else {
        digits_of(n / 10).push(digit_char(n % 10))
    }
}

/// The decimal numeral of `v`, with a leading `-` when it is negative.
pub open spec fn decimal_text(v: int) -> Seq<char> {
    if v < 0 {
        seq!['-'] + digits_of((-v) as nat)
    } else {
        digits_of(v as nat)
    }
}

/// Relies on `ToString` for `i64`: the decimal numeral of the value.
#[verifier::external_body]
fn decimal_i64(v: i64) -> (r: String)
    ensures
        r@ == decimal_text(v as int),
{
    v.to_string()
}

/// Relies on `ToString` for `usize`: the decimal numeral of the value.
#[verifier::external_body]
fn decimal_usize(v: usize) -> (r: String)
    ensures
        r@ == decimal_text(v as int),
{
    v.to_string()
}

/// The text between a name and its number.
pub open spec fn arrow() -> Seq<char> {
    seq![' ', '\u{27f6}', ' ']
}

/// The reply to an applied mutation: `label ⟶ value`.
pub open spec fn mutation_reply_text(label: Seq<char>, value: int) -> Seq<char> {
    label + arrow() + decimal_text(value)
}

pub fn mutation_reply(label: &str, value: i64) -> (r: String)
    ensures
        r@ == mutation_reply_text(label@, value as int),
{
    let mut out = label.to_owned();
    let sep = " \u{27f6} ";
    proof {
        reveal_strlit(" \u{27f6} ");
        assert(sep@ =~= arrow());
    }
    out.append(sep);
    out.append(decimal_i64(value).as_str());
    out
}

/// Line `i` (counting from 0) of the counter leaderboard.
pub open spec fn counter_line(i: int, row: (Seq<char>, int)) -> Seq<char> {
    decimal_text(i + 1) + seq!['.', ' '] + row.0 + arrow() + decimal_text(row.1) + seq!['\n']
}

pub open spec fn counter_lines(rows: Seq<(Seq<char>, int)>) -> Seq<char>
    decreases rows.len(),
{
    if rows.len() == 0 {
        Seq::empty()
    } else {
        counter_lines(rows.drop_last()) + counter_line(rows.len() - 1, rows.last())
    }
}

/// Line `i` (counting from 0) of the author leaderboard, which mentions the author.
pub open spec fn author_line(i: int, row: (Seq<char>, int)) -> Seq<char> {
    decimal_text(i + 1) + seq!['.', ' ', '<', '@'] + row.0 + seq!['>'] + arrow() + decimal_text(row.1)
        + seq![' ', 'i', 'n', 'v', 'o', 'c', 'a', 't', 'i', 'o', 'n', 's', '\n']
}

pub open spec fn author_lines(rows: Seq<(Seq<char>, int)>) -> Seq<char>
    decreases rows.len(),
{
    if rows.len() == 0 {
        Seq::empty()
    } else {
        author_lines(rows.drop_last()) + author_line(rows.len() - 1, rows.last())
    }
}

/// The counter leaderboard: a heading and one numbered line per row, or a
/// note that nothing is tracked yet.
pub fn counters_reply(rows: &Vec<(String, i64)>) -> (r: String)
    ensures
        rows@.len() == 0 ==> r@ == "No values tracked yet!"@,
        rows@.len() > 0 ==> r@ == "**Leaderboard:**\n"@ + counter_lines(value_rows_view(rows@)),
{
    if rows.len() == 0 {
        return String::from_str("No values tracked yet!");
    }
    let mut out = String::from_str("**Leaderboard:**\n");
    let sep = " \u{27f6} ";
    let dot = ". ";
    let newline = "\n";
    proof {
        reveal_strlit(" \u{27f6} ");
        reveal_strlit(". ");
        reveal_strlit("\n");
        assert(sep@ =~= arrow());
        assert(dot@ =~= seq!['.', ' ']);
        assert(newline@ =~= seq!['\n']);
    }
    let ghost head = out@;
    let mut i: usize = 0;
    while i < rows.len()
        invariant
            i <= rows@.len(),
            head == "**Leaderboard:**\n"@,
            sep@ == arrow(),
            dot@ == seq!['.', ' '],
            newline@ == seq!['\n'],
            out@ == head + counter_lines(value_rows_view(rows@).subrange(0, i as int)),
        decreases rows@.len() - i,
    {
        let ghost before = out@;
        out.append(decimal_usize(i + 1).as_str());
        out.append(dot);
        out.append(rows[i].0.as_str());
        out.append(sep);
        out.append(decimal_i64(rows[i].1).as_str());
        out.append(newline);
        proof {
            let vr = value_rows_view(rows@);
            assert(vr.subrange(0, i + 1).drop_last() =~= vr.subrange(0, i as int));
            assert(vr[i as int] == (rows@[i as int].0@, rows@[i as int].1 as int));
            assert(out@ =~= before + counter_line(i as int, vr[i as int]));
        }
        i = i + 1;
    }
    proof {
        assert(value_rows_view(rows@).subrange(0, i as int) =~= value_rows_view(rows@));
    }
    out
}

/// The author leaderboard: a heading and one numbered line per row, or a
/// note that no activity is tracked yet.
pub fn authors_reply(rows: &Vec<(String, usize)>) -> (r: String)
    ensures
        rows@.len() == 0 ==> r@ == "No user activity tracked yet!"@,
        rows@.len() > 0 ==> r@ == "**User Leaderboard:**\n"@ + author_lines(count_rows_view(rows@)),
{
    if rows.len() == 0 {
        return String::from_str("No user activity tracked yet!");
    }
    let mut out = String::from_str("**User Leaderboard:**\n");
    let sep = " \u{27f6} ";
    let open = ". <@";
    let close = ">";
    let tail = " invocations\n";
    proof {
        reveal_strlit(" \u{27f6} ");
        reveal_strlit(". <@");
        reveal_strlit(">");
        reveal_strlit(" invocations\n");
        assert(sep@ =~= arrow());
        assert(open@ =~= seq!['.', ' ', '<', '@']);
        assert(close@ =~= seq!['>']);
        assert(tail@ =~= seq![' ', 'i', 'n', 'v', 'o', 'c', 'a', 't', 'i', 'o', 'n', 's', '\n']);
    }
    let ghost head = out@;
    let mut i: usize = 0;
    while i < rows.len()
        invariant
            i <= rows@.len(),
            head == "**User Leaderboard:**\n"@,
            sep@ == arrow(),
            open@ == seq!['.', ' ', '<', '@'],
            close@ == seq!['>'],
            tail@ == seq![' ', 'i', 'n', 'v', 'o', 'c', 'a', 't', 'i', 'o', 'n', 's', '\n'],
            out@ == head + author_lines(count_rows_view(rows@).subrange(0, i as int)),
        decreases rows@.len() - i,
    {
        let ghost before = out@;
        out.append(decimal_usize(i + 1).as_str());
        out.append(open);
        out.append(rows[i].0.as_str());
        out.append(close);
        out.append(sep);
        out.append(decimal_usize(rows[i].1).as_str());
        out.append(tail);
        proof {
            let cr = count_rows_view(rows@);
            assert(cr.subrange(0, i + 1).drop_last() =~= cr.subrange(0, i as int));
            assert(cr[i as int] == (rows@[i as int].0@, rows@[i as int].1 as int));
            assert(out@ =~= before + author_line(i as int, cr[i as int]));
        }
        i = i + 1;
    }
    proof {
        assert(count_rows_view(rows@).subrange(0, i as int) =~= count_rows_view(rows@));
    }
    out
}

} // verus!
