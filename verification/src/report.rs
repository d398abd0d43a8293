//! Rendering a poll's results, in both the default dry-run form and the
//! `--execute` form that records what was actually done to each match.
use crate::clock::{read, reading, split_hours, split_minutes, tenths_are_nearest, Reading};
use crate::criteria::{Backend, Reason};
use crate::rounding::{half_even, half_even_is_nearest};
use crate::seconds::{one_second, Seconds};
use crate::text::{
    column, column_is_text_and_spaces, decimal, digit, holds, push_column, push_decimal, push_two_digits, signed_decimal,
    short_decimals, signed_decimal_string, spaces, two_digits,
};
use vstd::math::max;
use vstd::prelude::*;
use vstd::utf8::*;

verus! {

/// A reading as text: `59.9s`, `2m05s`, `1h02m`.
pub open spec fn reading_text(r: Reading) -> Seq<char> {
    match r {
        Reading::Tenths { tenths } => {
            decimal(tenths as nat / 10) + "."@ + decimal(tenths as nat % 10) + "s"@
        },
        Reading::Minutes { minutes, seconds } => {
            decimal(minutes as nat) + "m"@ + two_digits(seconds as nat) + "s"@
        },
        Reading::Hours { hours, minutes } => {
            decimal(hours as nat) + "h"@ + two_digits(minutes as nat) + "m"@
        },
    }
}

/// A duration as text, with anything below zero taken as zero.
pub open spec fn duration_text(secs: Seconds) -> Seq<char> {
    reading_text(reading(secs.clamped()))
}

/// `59.9` -> `59.9s`, `125.4` -> `2m05s`, `3725.0` -> `1h02m`. Mirrors the
/// units a human actually reads off a duration at a glance rather than a
/// raw seconds count.
pub fn format_secs(secs: Seconds) -> (text: String)
    ensures
        text@ == duration_text(secs),
{
    let mut out = String::new();
    match read(secs) {
        Reading::Tenths { tenths } => {
            push_decimal(&mut out, tenths / 10);
            out.append(".");
            push_decimal(&mut out, tenths % 10);
            out.append("s");
        },
        Reading::Minutes { minutes, seconds } => {
            push_decimal(&mut out, minutes);
            out.append("m");
            push_two_digits(&mut out, seconds);
            out.append("s");
        },
        Reading::Hours { hours, minutes } => {
            push_decimal(&mut out, hours);
            out.append("h");
            push_two_digits(&mut out, minutes);
            out.append("m");
        },
    }
    assert(out@ =~= duration_text(secs));
    out
}

/// A query with its lines run together.
pub open spec fn one_lined(query: Seq<char>) -> Seq<char> {
    query.map_values(
        |c: char|
            if c == '\n' {
                ' '
            } else {
                c
            },
    )
}

/// A query is cut where it takes more than 80 bytes, after 77 bytes, which must
/// then not fall inside a character.
pub open spec fn can_be_shown(query: Seq<char>) -> bool {
    let bytes = encode_utf8(one_lined(query));
    bytes.len() > 80 ==> is_char_boundary(bytes, 77)
}

/// What is shown of a query.
pub open spec fn shown_query(query: Seq<char>) -> Seq<char> {
    let bytes = encode_utf8(one_lined(query));
    if bytes.len() > 80 {
        decode_utf8(bytes.subrange(0, 77)) + "..."@
    } else {
        one_lined(query)
    }
}

/// The line on one match, without its end.
pub open spec fn match_line(backend: Backend, reason: Reason) -> Seq<char> {
    "  pid "@ + column(signed_decimal(backend.pid as int), 8) + " "@ + column(
        backend.application_name@,
        20,
    ) + " "@ + backend.user@ + "/"@ + column(backend.database@, 12) + " "@ + column(
        reason.name(),
        10,
    ) + " for "@ + column(duration_text(reason.age()), 8) + " "@ + shown_query(backend.query@)
}

/// Runs the lines of a query together.
fn join_lines(query: &str) -> (flat: String)
    ensures
        flat@ == one_lined(query@),
{
    let mut flat = String::new();
    assert(flat@ =~= one_lined(query@.take(0)));
    for c in iter: query.chars()
        invariant
            iter.seq() == query@,
            flat@ == one_lined(query@.take(iter.index())),
    {
        if c == '\n' {
            flat.push(' ');
        } else {
            flat.push(c);
        }
        assert(flat@ =~= one_lined(query@.take(iter.index() + 1)));
    }
    assert(query@.take(query@.len() as int) =~= query@);
    flat
}

/// Can the query of a match be shown, or would the cut fall inside a character?
pub fn query_can_be_shown(query: &str) -> (b: bool)
    ensures
        b == can_be_shown(query@),
{
    let flat: String = join_lines(query);
    flat.as_str().as_bytes().len() <= 80 || flat.as_str().is_char_boundary(77)
}

fn shorten(query: &str) -> (shown: String)
    requires
        can_be_shown(query@),
    ensures
        shown@ == shown_query(query@),
{
    let flat: String = join_lines(query);
    if flat.as_str().as_bytes().len() > 80 {
        let parts = flat.as_str().split_at(77);
        proof {
            encode_utf8_decode_utf8(parts.0@);
        }
        let mut shown: String = parts.0.to_owned();
        shown.append("...");
        shown
    } else {
        flat
    }
}

fn one_line(backend: &Backend, reason: Reason) -> (line: String)
    requires
        can_be_shown(backend.query@),
    ensures
        line@ == match_line(*backend, reason),
{
    let mut out = String::new();
    out.append("  pid ");
    push_column(&mut out, signed_decimal_string(backend.pid).as_str(), 8);
    out.append(" ");
    push_column(&mut out, backend.application_name.as_str(), 20);
    out.append(" ");
    out.append(backend.user.as_str());
    out.append("/");
    push_column(&mut out, backend.database.as_str(), 12);
    out.append(" ");
    push_column(&mut out, reason.label(), 10);
    out.append(" for ");
    push_column(&mut out, format_secs(reason.for_secs()).as_str(), 8);
    out.append(" ");
    out.append(shorten(backend.query.as_str()).as_str());
    assert(out@ =~= match_line(*backend, reason));
    out
}

/// One line per match.
pub open spec fn match_lines(matches: Seq<(Backend, Reason)>) -> Seq<char>
    decreases matches.len(),
{
    if matches.len() == 0 {
        Seq::empty()
    } else {
        match_lines(matches.drop_last()) + match_line(matches.last().0, matches.last().1) + "\n"@
    }
}

/// The report of a dry run.
pub open spec fn dry_run_text(matches: Seq<(Backend, Reason)>) -> Seq<char> {
    if matches.len() == 0 {
        "no backends match the reap criteria\n"@
    } else {
        decimal(matches.len())
            + " backend(s) match the reap criteria (dry run — nothing terminated; pass --execute to act):\n"@
            + match_lines(matches)
    }
}

/// The default, safe mode: list what *would* be terminated, touch nothing.
pub fn render_dry_run(matches: &[(Backend, Reason)]) -> (text: String)
    requires
        forall|i: int| 0 <= i < matches@.len() ==> can_be_shown(#[trigger] matches@[i].0.query@),
    ensures
        text@ == dry_run_text(matches@),
{
    if matches.len() == 0 {
        return "no backends match the reap criteria\n".to_owned();
    }
    let mut out = String::new();
    push_decimal(&mut out, matches.len() as u64);
    out.append(
        " backend(s) match the reap criteria (dry run — nothing terminated; pass --execute to act):\n",
    );
    let ghost head: Seq<char> = out@;
    let mut i: usize = 0;
    assert(out@ =~= head + match_lines(matches@.take(0)));
    while i < matches.len()
        invariant
            i <= matches@.len(),
            out@ == head + match_lines(matches@.take(i as int)),
            forall|k: int|
                0 <= k < matches@.len() ==> can_be_shown(#[trigger] matches@[k].0.query@),
        decreases matches@.len() - i,
    {
        let entry: &(Backend, Reason) = &matches[i];
        out.append(one_line(&entry.0, entry.1).as_str());
        out.append("\n");
        proof {
            assert(matches@.take(i + 1).drop_last() =~= matches@.take(i as int));
            assert(out@ =~= head + match_lines(matches@.take(i + 1)));
        }
        i = i + 1;
    }
    proof {
        assert(matches@.take(i as int) =~= matches@);
        assert(out@ =~= dry_run_text(matches@));
    }
    out
}

/// How many of the results say that a signal was sent.
pub open spec fn terminated_count(results: Seq<(Backend, Reason, bool)>) -> nat {
    results.filter(|r: (Backend, Reason, bool)| r.2).len()
}

/// What became of one match.
pub open spec fn outcome_text(ok: bool) -> Seq<char> {
    if ok {
        "  -> terminated\n"@
    } else {
        "  -> already gone (no signal sent)\n"@
    }
}

/// One line per match, with what became of it.
pub open spec fn result_lines(results: Seq<(Backend, Reason, bool)>) -> Seq<char>
    decreases results.len(),
{
    if results.len() == 0 {
        Seq::empty()
    } else {
        result_lines(results.drop_last()) + match_line(results.last().0, results.last().1)
            + outcome_text(results.last().2)
    }
}

/// The report of a run that terminates.
pub open spec fn execute_text(results: Seq<(Backend, Reason, bool)>) -> Seq<char> {
    if results.len() == 0 {
        "no backends matched the reap criteria — nothing to terminate\n"@
    } else {
        decimal(results.len()) + " backend(s) matched; terminating:\n"@ + result_lines(results)
            + "\n"@ + decimal(terminated_count(results)) + "/"@ + decimal(results.len())
            + " backend(s) actually terminated\n"@
    }
}

/// `--execute` mode: the same list, plus whether each terminate actually
/// landed (it can race and find the backend already gone, which isn't an
/// error).
pub fn render_execute(results: &[(Backend, Reason, bool)]) -> (text: String)
    requires
        forall|i: int| 0 <= i < results@.len() ==> can_be_shown(#[trigger] results@[i].0.query@),
    ensures
        text@ == execute_text(results@),
{
    if results.len() == 0 {
        return "no backends matched the reap criteria — nothing to terminate\n".to_owned();
    }
    let mut out = String::new();
    push_decimal(&mut out, results.len() as u64);
    out.append(" backend(s) matched; terminating:\n");
    let ghost head: Seq<char> = out@;
    let ghost landed = |r: (Backend, Reason, bool)| r.2;
    let mut terminated: usize = 0;
    let mut i: usize = 0;
    proof {
        reveal(Seq::filter);
        assert(out@ =~= head + result_lines(results@.take(0)));
    }
    while i < results.len()
        invariant
            i <= results@.len(),
            terminated <= i,
            landed == (|r: (Backend, Reason, bool)| r.2),
            terminated == results@.take(i as int).filter(landed).len(),
            out@ == head + result_lines(results@.take(i as int)),
            forall|k: int|
                0 <= k < results@.len() ==> can_be_shown(#[trigger] results@[k].0.query@),
        decreases results@.len() - i,
    {
        let entry: &(Backend, Reason, bool) = &results[i];
        out.append(one_line(&entry.0, entry.1).as_str());
        if entry.2 {
            out.append("  -> terminated\n");
            terminated = terminated + 1;
        } else {
            out.append("  -> already gone (no signal sent)\n");
        }
        proof {
            reveal(Seq::filter);
            assert(results@.take(i + 1).drop_last() =~= results@.take(i as int));
            assert(out@ =~= head + result_lines(results@.take(i + 1)));
        }
        i = i + 1;
    }
    assert(results@.take(i as int) =~= results@);
    out.append("\n");
    push_decimal(&mut out, terminated as u64);
    out.append("/");
    push_decimal(&mut out, results.len() as u64);
    out.append(" backend(s) actually terminated\n");
    assert(out@ =~= execute_text(results@));
    out
}

/// Anything below zero, and what is not a number, reads as zero.
pub proof fn below_zero_reads_as_zero(secs: Seconds)
    requires
        secs.is_nan() || secs.is_negative(),
    ensures
        duration_text(secs) == "0.0s"@,
{
    vstd::arithmetic::power2::lemma_pow2_pos(1074);
    tenths_are_nearest(0);
    let tenths = reading(0)->tenths;
    assert(tenths == 0) by (nonlinear_arith)
        requires
            2 * (tenths * one_second()) <= one_second(),
            one_second() > 0,
    ;
    reveal_strlit("0.0s");
    reveal_strlit(".");
    reveal_strlit("s");
    assert(duration_text(secs) =~= "0.0s"@);
}

/// Below a minute, a duration is shown in tenths of a second, nearest to it and,
/// where two are, the even one: one or two digits, a point, a digit, and `s`.
pub proof fn tenths_digit_by_digit(secs: Seconds, tenths: nat)
    requires
        secs.clamped() < 60 * one_second(),
        2 * (tenths * one_second() - 10 * secs.clamped()) <= one_second(),
        2 * (10 * secs.clamped() - tenths * one_second()) <= one_second(),
        2 * (tenths * one_second() - 10 * secs.clamped()) == one_second() ==> tenths % 2 == 0,
        2 * (10 * secs.clamped() - tenths * one_second()) == one_second() ==> tenths % 2 == 0,
    ensures
        tenths < 100 ==> duration_text(secs) == seq![
            (48 + tenths / 10) as char,
            '.',
            (48 + tenths % 10) as char,
            's',
        ],
        tenths >= 100 ==> duration_text(secs) == seq![
            (48 + tenths / 100) as char,
            (48 + tenths / 10 % 10) as char,
            '.',
            (48 + tenths % 10) as char,
            's',
        ],
{
    let u = secs.clamped();
    let one = one_second();
    vstd::arithmetic::power2::lemma_pow2_pos(1074);
    tenths_are_nearest(u);
    half_even_is_nearest(10 * u, one);
    let r = half_even(10 * u, one);
    assert(r <= 600) by (nonlinear_arith)
        requires
            one > 0,
            2 * (r * one - 10 * u) <= one,
            u < 60 * one,
    ;
    assert(r == reading(u)->tenths);
    assert(r == tenths) by (nonlinear_arith)
        requires
            one > 0,
            2 * (tenths * one - 10 * u) <= one,
            2 * (10 * u - tenths * one) <= one,
            2 * (r * one - 10 * u) <= one,
            2 * (10 * u - r * one) <= one,
            2 * (tenths * one - 10 * u) == one ==> tenths % 2 == 0,
            2 * (10 * u - tenths * one) == one ==> tenths % 2 == 0,
            2 * (r * one - 10 * u) == one ==> r % 2 == 0,
            2 * (10 * u - r * one) == one ==> r % 2 == 0,
    ;
    short_decimals(tenths / 10);
    short_decimals(tenths % 10);
    reveal_strlit(".");
    reveal_strlit("s");
    if tenths < 100 {
        assert(duration_text(secs) =~= seq![
            (48 + tenths / 10) as char,
            '.',
            (48 + tenths % 10) as char,
            's',
        ]);
    } else {
        assert(tenths / 10 / 10 == tenths / 100);
        assert(duration_text(secs) =~= seq![
            (48 + tenths / 100) as char,
            (48 + tenths / 10 % 10) as char,
            '.',
            (48 + tenths % 10) as char,
            's',
        ]);
    }
}

/// From a minute up to an hour, a duration is shown by its minutes, `m`, the
/// seconds beyond them in two digits, and `s`.
pub proof fn minutes_digit_by_digit(secs: Seconds, total: nat)
    requires
        60 <= total < 3600,
        total * one_second() <= secs.clamped() < (total + 1) * one_second(),
    ensures
        total < 600 ==> duration_text(secs) == seq![
            (48 + total / 60) as char,
            'm',
            (48 + total % 60 / 10) as char,
            (48 + total % 60 % 10) as char,
            's',
        ],
        total >= 600 ==> duration_text(secs) == seq![
            (48 + total / 60 / 10) as char,
            (48 + total / 60 % 10) as char,
            'm',
            (48 + total % 60 / 10) as char,
            (48 + total % 60 % 10) as char,
            's',
        ],
{
    lemma_total(secs.clamped(), total);
    assert(60 * one_second() <= total * one_second()) by (nonlinear_arith)
        requires
            total >= 60,
    ;
    assert((total + 1) * one_second() <= 3600 * one_second()) by (nonlinear_arith)
        requires
            total < 3600,
    ;
    minutes_and_seconds(secs);
    short_decimals(total / 60);
    short_decimals(total % 60);
    reveal_strlit("m");
    reveal_strlit("s");
    if total < 600 {
        assert(duration_text(secs) =~= seq![
            (48 + total / 60) as char,
            'm',
            (48 + total % 60 / 10) as char,
            (48 + total % 60 % 10) as char,
            's',
        ]);
    } else {
        assert(duration_text(secs) =~= seq![
            (48 + total / 60 / 10) as char,
            (48 + total / 60 % 10) as char,
            'm',
            (48 + total % 60 / 10) as char,
            (48 + total % 60 % 10) as char,
            's',
        ]);
    }
}

/// From an hour up, below `pow2(57)` seconds, a duration is shown by its hours,
/// `h`, the minutes beyond them in two digits, and `m`.
pub proof fn hours_digit_by_digit(secs: Seconds, total: nat)
    requires
        3600 <= total < 0x200_0000_0000_0000,
        total * one_second() <= secs.clamped() < (total + 1) * one_second(),
    ensures
        duration_text(secs) == decimal(total / 3600) + seq![
            'h',
            (48 + total % 3600 / 600) as char,
            (48 + total % 3600 / 60 % 10) as char,
            'm',
        ],
{
    lemma_total(secs.clamped(), total);
    assert(3600 * one_second() <= total * one_second()) by (nonlinear_arith)
        requires
            total >= 3600,
    ;
    assert((total + 1) * one_second() <= 0x200_0000_0000_0000 * one_second()) by (nonlinear_arith)
        requires
            total < 0x200_0000_0000_0000,
    ;
    hours_and_minutes(secs);
    let minutes = total / 60 % 60;
    assert(minutes == total % 3600 / 60);
    assert(minutes / 10 == total % 3600 / 600);
    short_decimals(minutes);
    reveal_strlit("h");
    reveal_strlit("m");
    assert(duration_text(secs) =~= decimal(total / 3600) + seq![
        'h',
        (48 + total % 3600 / 600) as char,
        (48 + total % 3600 / 60 % 10) as char,
        'm',
    ]);
}

proof fn lemma_total(u: nat, total: nat)
    requires
        total * one_second() <= u < (total + 1) * one_second(),
    ensures
        u / one_second() == total,
{
    vstd::arithmetic::power2::lemma_pow2_pos(1074);
    let r = u - total * one_second();
    assert((total + 1) * one_second() == total * one_second() + one_second())
        by (nonlinear_arith);
    vstd::arithmetic::div_mod::lemma_fundamental_div_mod_converse(
        u as int,
        one_second() as int,
        total as int,
        r,
    );
}

/// From a minute up to an hour, a duration reads as its whole minutes and the
/// whole seconds beyond them, in two digits.
pub proof fn minutes_and_seconds(secs: Seconds)
    requires
        60 * one_second() <= secs.clamped() < 3600 * one_second(),
    ensures
        ({
            let total = secs.clamped() / one_second();
            duration_text(secs) == decimal(total / 60) + "m"@ + two_digits(total % 60) + "s"@
        }),
{
    split_minutes(secs);
    lemma_whole_bound(secs.clamped(), 3600);
}

/// From an hour up, a duration reads as its whole hours and the whole minutes
/// beyond them, in two digits, as long as it is below `pow2(57)` seconds.
pub proof fn hours_and_minutes(secs: Seconds)
    requires
        3600 * one_second() <= secs.clamped() < 0x200_0000_0000_0000 * one_second(),
    ensures
        ({
            let total = secs.clamped() / one_second();
            duration_text(secs) == decimal(total / 3600) + "h"@ + two_digits(total / 60 % 60)
                + "m"@
        }),
{
    split_hours(secs);
    lemma_whole_bound(secs.clamped(), 0x200_0000_0000_0000);
}

proof fn lemma_whole_bound(u: nat, n: nat)
    requires
        u < n * one_second(),
    ensures
        u / one_second() < n,
{
    vstd::arithmetic::power2::lemma_pow2_pos(1074);
    vstd::arithmetic::div_mod::lemma_fundamental_div_mod(u as int, one_second() as int);
    vstd::arithmetic::div_mod::lemma_mod_bound(u as int, one_second() as int);
    let q = u / one_second();
    assert(q < n) by (nonlinear_arith)
        requires
            one_second() * q <= u,
            u < n * one_second(),
    ;
}

proof fn lemma_encode_concat(a: Seq<char>, b: Seq<char>)
    ensures
        encode_utf8(a + b) == encode_utf8(a) + encode_utf8(b),
    decreases a.len(),
{
    if a.len() == 0 {
        assert(a + b =~= b);
    } else {
        lemma_encode_concat(a.drop_first(), b);
        assert((a + b).drop_first() =~= a.drop_first() + b);
        assert(encode_utf8(a + b) =~= encode_utf8(a) + encode_utf8(b));
    }
}

/// Flattening keeps the length of a query, puts a space for each line end, and
/// keeps every other character where it is.
pub proof fn flattening_replaces_only_line_ends(query: Seq<char>)
    ensures
        one_lined(query).len() == query.len(),
        forall|i: int|
            0 <= i < query.len() ==> #[trigger] one_lined(query)[i] == if query[i] == '\n' {
                ' '
            } else {
                query[i]
            },
{
}

proof fn lemma_flat_bytes(query: Seq<char>)
    ensures
        encode_utf8(one_lined(query)).len() == encode_utf8(query).len(),
    decreases query.len(),
{
    let flat = one_lined(query);
    if query.len() > 0 {
        lemma_flat_bytes(query.drop_first());
        assert(flat.drop_first() =~= one_lined(query.drop_first()));
        assert(encode_scalar(flat[0] as u32).len() == encode_scalar(query[0] as u32).len());
    }
}

proof fn lemma_boundary_between(a: Seq<char>, b: Seq<char>)
    ensures
        is_char_boundary(encode_utf8(a + b), encode_utf8(a).len() as int),
    decreases a.len(),
{
    let bytes = encode_utf8(a + b);
    let at = encode_utf8(a).len() as int;
    encode_utf8_valid_utf8(a + b);
    if a.len() == 0 {
    } else {
        encode_utf8_first_scalar(a + b);
        encode_utf8_first_scalar(a);
        let rest = a.drop_first();
        assert((a + b).drop_first() =~= rest + b);
        lemma_boundary_between(rest, b);
        assert((a + b)[0] == a[0]);
        assert(pop_first_scalar(bytes) =~= encode_utf8(rest + b));
        lemma_encode_concat(a, b);
        assert(at <= bytes.len());
    }
}

/// A query of at most 80 bytes is shown whole, with a space for each line end;
/// one without line ends is shown as it is.
pub proof fn short_queries_are_shown_whole(query: Seq<char>)
    requires
        encode_utf8(query).len() <= 80,
    ensures
        can_be_shown(query),
        shown_query(query).len() == query.len(),
        forall|i: int|
            0 <= i < query.len() ==> #[trigger] shown_query(query)[i] == if query[i] == '\n' {
                ' '
            } else {
                query[i]
            },
        !query.contains('\n') ==> shown_query(query) == query,
{
    lemma_flat_bytes(query);
    if !query.contains('\n') {
        assert forall|i: int| 0 <= i < query.len() implies query[i] != '\n' by {
            assert(query.contains(query[i]));
        }
        assert(shown_query(query) =~= query);
    }
}

/// A query of more than 80 bytes is shown by its characters of the first 77
/// bytes, with a space for each line end, and three dots.
pub proof fn long_queries_are_cut(query: Seq<char>, k: int)
    requires
        encode_utf8(query).len() > 80,
        0 <= k <= query.len(),
        encode_utf8(query.take(k)).len() == 77,
    ensures
        can_be_shown(query),
        shown_query(query).len() == k + 3,
        forall|i: int|
            0 <= i < k ==> #[trigger] shown_query(query)[i] == if query[i] == '\n' {
                ' '
            } else {
                query[i]
            },
        forall|i: int| k <= i < k + 3 ==> #[trigger] shown_query(query)[i] == '.',
{
    let flat = one_lined(query);
    let head = flat.take(k);
    let bytes = encode_utf8(flat);
    lemma_flat_bytes(query);
    lemma_flat_bytes(query.take(k));
    assert(head =~= one_lined(query.take(k)));
    assert(flat =~= head + flat.skip(k));
    lemma_boundary_between(head, flat.skip(k));
    lemma_encode_concat(head, flat.skip(k));
    assert(bytes.subrange(0, 77) =~= encode_utf8(head));
    encode_utf8_decode_utf8(head);
    reveal_strlit("...");
}

/// A query of more than 80 bytes can be shown only where 77 bytes of it are
/// whole characters.
pub proof fn long_queries_need_a_cut(query: Seq<char>)
    requires
        encode_utf8(query).len() > 80,
        can_be_shown(query),
    ensures
        exists|k: int|
            0 <= k <= query.len() && #[trigger] encode_utf8(query.take(k)).len() == 77,
{
    let flat = one_lined(query);
    let bytes = encode_utf8(flat);
    lemma_flat_bytes(query);
    encode_utf8_valid_utf8(flat);
    encode_utf8_decode_utf8(flat);
    valid_utf8_split(bytes, 77);
    decode_utf8_split(bytes, 77);
    let head = decode_utf8(bytes.subrange(0, 77));
    decode_utf8_encode_utf8(bytes.subrange(0, 77));
    let k = head.len() as int;
    let tail = decode_utf8(bytes.subrange(77, bytes.len() as int));
    assert(flat == head + tail);
    assert(flat.len() == query.len());
    assert forall|i: int| 0 <= i < k implies head[i] == one_lined(query.take(k))[i] by {
        assert(head[i] == flat[i]);
    }
    assert(head =~= one_lined(query.take(k)));
    lemma_flat_bytes(query.take(k));
    assert(encode_utf8(query.take(k)).len() == 77);
}

/// What is shown of a query stands on one line and takes at most 80 bytes.
pub proof fn shown_query_is_short(query: Seq<char>)
    requires
        can_be_shown(query),
    ensures
        on_one_line(shown_query(query)),
        encode_utf8(shown_query(query)).len() <= 80,
{
    let flat = one_lined(query);
    let bytes = encode_utf8(flat);
    assert(!flat.contains('\n'));
    if bytes.len() > 80 {
        let head = bytes.subrange(0, 77);
        encode_utf8_valid_utf8(flat);
        encode_utf8_decode_utf8(flat);
        valid_utf8_split(bytes, 77);
        decode_utf8_split(bytes, 77);
        decode_utf8_encode_utf8(head);
        reveal_strlit("...");
        lemma_encode_concat(decode_utf8(head), "..."@);
        assert(is_ascii_chars("..."@));
        is_ascii_chars_encode_utf8("..."@);
        assert forall|i: int| 0 <= i < shown_query(query).len() implies shown_query(query)[i]
            != '\n' by {
            if i < decode_utf8(head).len() {
                assert(shown_query(query)[i] == flat[i]);
            }
        }
    }
}

/// A query in ASCII can always be shown, and is cut after 77 characters where
/// it has more than 80.
pub proof fn ascii_queries_are_cut_cleanly(query: Seq<char>)
    requires
        is_ascii_chars(query),
    ensures
        can_be_shown(query),
        shown_query(query) == if query.len() > 80 {
            one_lined(query).take(77) + "..."@
        } else {
            one_lined(query)
        },
{
    let flat = one_lined(query);
    let bytes = encode_utf8(flat);
    assert(is_ascii_chars(flat));
    is_ascii_chars_encode_utf8(flat);
    if query.len() > 80 {
        encode_utf8_valid_utf8(flat);
        is_char_boundary_iff_not_is_continuation_byte(bytes, 77);
        assert(flat[77] as u8 == bytes[77]);
        let head = flat.take(77);
        assert(is_ascii_chars(head));
        is_ascii_chars_encode_utf8(head);
        assert(flat =~= head + flat.skip(77));
        lemma_encode_concat(head, flat.skip(77));
        assert(bytes.subrange(0, 77) =~= encode_utf8(head));
        encode_utf8_decode_utf8(head);
    }
}

/// Nothing in `s` ends a line.
pub open spec fn on_one_line(s: Seq<char>) -> bool {
    !s.contains('\n')
}

proof fn lemma_join_on_one_line(a: Seq<char>, b: Seq<char>)
    requires
        on_one_line(a),
        on_one_line(b),
    ensures
        on_one_line(a + b),
{
    assert forall|i: int| 0 <= i < (a + b).len() implies (a + b)[i] != '\n' by {
        if i < a.len() {
            assert(a.contains(a[i]));
        } else {
            assert(b.contains(b[i - a.len()]));
        }
    }
}

proof fn lemma_column_on_one_line(s: Seq<char>, width: nat)
    requires
        on_one_line(s),
    ensures
        on_one_line(column(s, width)),
{
    if s.len() < width {
        lemma_join_on_one_line(s, spaces((width - s.len()) as nat));
    }
}

proof fn lemma_decimal_on_one_line(n: nat)
    ensures
        on_one_line(decimal(n)),
    decreases n,
{
    if n >= 10 {
        lemma_decimal_on_one_line(n / 10);
        lemma_join_on_one_line(decimal(n / 10), seq![digit(n % 10)]);
        assert(decimal(n) =~= decimal(n / 10) + seq![digit(n % 10)]);
    }
}

proof fn lemma_two_digits_on_one_line(n: nat)
    ensures
        on_one_line(two_digits(n)),
{
    lemma_decimal_on_one_line(n);
    lemma_join_on_one_line(seq!['0'], decimal(n));
}

proof fn lemma_duration_on_one_line(secs: Seconds)
    ensures
        on_one_line(duration_text(secs)),
{
    reveal_strlit(".");
    reveal_strlit("s");
    reveal_strlit("m");
    reveal_strlit("h");
    let (a, b, c, d) = match reading(secs.clamped()) {
        Reading::Tenths { tenths } => {
            lemma_decimal_on_one_line(tenths as nat / 10);
            lemma_decimal_on_one_line(tenths as nat % 10);
            (decimal(tenths as nat / 10), "."@, decimal(tenths as nat % 10), "s"@)
        },
        Reading::Minutes { minutes, seconds } => {
            lemma_decimal_on_one_line(minutes as nat);
            lemma_two_digits_on_one_line(seconds as nat);
            (decimal(minutes as nat), "m"@, two_digits(seconds as nat), "s"@)
        },
        Reading::Hours { hours, minutes } => {
            lemma_decimal_on_one_line(hours as nat);
            lemma_two_digits_on_one_line(minutes as nat);
            (decimal(hours as nat), "h"@, two_digits(minutes as nat), "m"@)
        },
    };
    lemma_join_on_one_line(a, b);
    lemma_join_on_one_line(a + b, c);
    lemma_join_on_one_line(a + b + c, d);
}

/// The line on a match is one line, where the names in it are.
pub proof fn match_line_is_one_line(backend: Backend, reason: Reason)
    requires
        can_be_shown(backend.query@),
        on_one_line(backend.application_name@),
        on_one_line(backend.user@),
        on_one_line(backend.database@),
    ensures
        on_one_line(match_line(backend, reason)),
{
    let pid = signed_decimal(backend.pid as int);
    let age = duration_text(reason.age());
    assert(on_one_line(pid)) by {
        lemma_decimal_on_one_line(backend.pid as nat);
        lemma_decimal_on_one_line((-(backend.pid as int)) as nat);
        lemma_join_on_one_line(seq!['-'], decimal((-(backend.pid as int)) as nat));
    }
    lemma_duration_on_one_line(reason.age());
    shown_query_is_short(backend.query@);
    assert(on_one_line(reason.name())) by {
        reveal_strlit("idle in transaction");
        reveal_strlit("long-running query");
    }
    assert(on_one_line("  pid "@)) by {
        reveal_strlit("  pid ");
    }
    assert(on_one_line(" "@)) by {
        reveal_strlit(" ");
    }
    assert(on_one_line("/"@)) by {
        reveal_strlit("/");
    }
    assert(on_one_line(" for "@)) by {
        reveal_strlit(" for ");
    }
    lemma_column_on_one_line(pid, 8);
    lemma_column_on_one_line(backend.application_name@, 20);
    lemma_column_on_one_line(backend.database@, 12);
    lemma_column_on_one_line(reason.name(), 10);
    lemma_column_on_one_line(age, 8);
    let to_pid = "  pid "@ + column(pid, 8);
    lemma_join_on_one_line("  pid "@, column(pid, 8));
    lemma_join_on_one_line(to_pid, " "@);
    let to_application = to_pid + " "@ + column(backend.application_name@, 20);
    lemma_join_on_one_line(to_pid + " "@, column(backend.application_name@, 20));
    lemma_join_on_one_line(to_application, " "@);
    let to_user = to_application + " "@ + backend.user@;
    lemma_join_on_one_line(to_application + " "@, backend.user@);
    lemma_join_on_one_line(to_user, "/"@);
    let to_database = to_user + "/"@ + column(backend.database@, 12);
    lemma_join_on_one_line(to_user + "/"@, column(backend.database@, 12));
    lemma_join_on_one_line(to_database, " "@);
    let to_name = to_database + " "@ + column(reason.name(), 10);
    lemma_join_on_one_line(to_database + " "@, column(reason.name(), 10));
    lemma_join_on_one_line(to_name, " for "@);
    let to_age = to_name + " for "@ + column(age, 8);
    lemma_join_on_one_line(to_name + " for "@, column(age, 8));
    lemma_join_on_one_line(to_age, " "@);
    lemma_join_on_one_line(to_age + " "@, shown_query(backend.query@));
}

/// Line ends in a query are replaced one for one, before its length is
/// measured: a query whose line ends were replaced beforehand gives the same
/// line, and can be shown in the same cases.
pub proof fn flattening_beforehand_changes_nothing(backend: Backend, flat: Backend, reason: Reason)
    requires
        flat.pid == backend.pid,
        flat.application_name@ == backend.application_name@,
        flat.user@ == backend.user@,
        flat.database@ == backend.database@,
        flat.query@ == one_lined(backend.query@),
    ensures
        can_be_shown(flat.query@) == can_be_shown(backend.query@),
        match_line(flat, reason) == match_line(backend, reason),
{
    assert(one_lined(flat.query@) =~= one_lined(backend.query@));
}

/// The line on a match comes from the pid, the three names, the query and the
/// reason alone: the label and the duration shown are those of the reason, never
/// the backend's own state or ages.
pub proof fn line_ignores_state_and_ages(a: Backend, b: Backend, reason: Reason)
    requires
        a.pid == b.pid,
        a.application_name@ == b.application_name@,
        a.user@ == b.user@,
        a.database@ == b.database@,
        a.query@ == b.query@,
    ensures
        match_line(a, reason) == match_line(b, reason),
{
}

/// Where each field stands in the line on a match: after the two words that
/// open it the pid, the application, the role and the database, the reason and
/// its age, and last the query, each column at least as wide as said, with one
/// character between two fields, and ` for ` between the reason and its age.
#[verifier::spinoff_prover]
#[verifier::rlimit(60)]
pub proof fn fields_stand_in_order(backend: Backend, reason: Reason)
    ensures
        ({
            let line = match_line(backend, reason);
            let pid = signed_decimal(backend.pid as int);
            let age = duration_text(reason.age());
            let query = shown_query(backend.query@);
            let a = 6 + max(8, pid.len() as int);
            let b = a + 1 + max(20, backend.application_name@.len() as int);
            let c = b + 1 + backend.user@.len();
            let d = c + 1 + max(12, backend.database@.len() as int);
            let e = d + 1 + reason.name().len();
            let f = e + 5 + max(8, age.len() as int);
            &&& line.len() == f + 1 + query.len()
            &&& line.subrange(0, 6) == seq![' ', ' ', 'p', 'i', 'd', ' ']
            &&& line.subrange(6, a) == column(pid, 8)
            &&& line[a] == ' '
            &&& line.subrange(a + 1, b) == column(backend.application_name@, 20)
            &&& line[b] == ' '
            &&& line.subrange(b + 1, c) == backend.user@
            &&& line[c] == '/'
            &&& line.subrange(c + 1, d) == column(backend.database@, 12)
            &&& line[d] == ' '
            &&& line.subrange(d + 1, e) == reason.name()
            &&& line.subrange(e, e + 5) == seq![' ', 'f', 'o', 'r', ' ']
            &&& line.subrange(e + 5, f) == column(age, 8)
            &&& line[f] == ' '
            &&& line.subrange(f + 1, f + 1 + query.len()) == query
        }),
{
    assert(reason.name().len() >= 10) by {
        reveal_strlit("idle in transaction");
        reveal_strlit("long-running query");
        assert("idle in transaction"@.len() == 19);
        assert("long-running query"@.len() == 18);
    }
    let line = match_line(backend, reason);
    let pid = signed_decimal(backend.pid as int);
    let age = duration_text(reason.age());
    let query = shown_query(backend.query@);
    column_is_text_and_spaces(pid, 8);
    column_is_text_and_spaces(backend.application_name@, 20);
    column_is_text_and_spaces(backend.database@, 12);
    column_is_text_and_spaces(age, 8);
    lemma_fields(
        column(pid, 8),
        column(backend.application_name@, 20),
        backend.user@,
        column(backend.database@, 12),
        reason.name(),
        column(age, 8),
        query,
    );
}

/// `x` is followed by `y` and `z` in a text that `whole` begins with.
proof fn lemma_followed(whole: Seq<char>, x: Seq<char>, y: Seq<char>, z: Seq<char>)
    requires
        x.len() + y.len() + z.len() <= whole.len(),
        whole.take((x.len() + y.len() + z.len()) as int) == x + y + z,
    ensures
        whole.take(x.len() as int) == x,
        whole.subrange(x.len() as int, (x.len() + y.len()) as int) == y,
        whole.subrange((x.len() + y.len()) as int, (x.len() + y.len() + z.len()) as int) == z,
        y.len() == 1 ==> whole[x.len() as int] == y[0],
{
    let all = whole.take((x.len() + y.len() + z.len()) as int);
    assert(all.take(x.len() as int) =~= x);
    assert(all.subrange(x.len() as int, (x.len() + y.len()) as int) =~= y);
    assert(all.subrange((x.len() + y.len()) as int, all.len() as int) =~= z);
    assert(whole.take(x.len() as int) =~= all.take(x.len() as int));
    assert(whole.subrange(x.len() as int, (x.len() + y.len()) as int) =~= all.subrange(
        x.len() as int,
        (x.len() + y.len()) as int,
    ));
    assert(whole.subrange((x.len() + y.len()) as int, all.len() as int) =~= all.subrange(
        (x.len() + y.len()) as int,
        all.len() as int,
    ));
    assert(y.len() == 1 ==> all[x.len() as int] == y[0]);
}

proof fn lemma_fields(
    pid: Seq<char>,
    application: Seq<char>,
    user: Seq<char>,
    database: Seq<char>,
    name: Seq<char>,
    age: Seq<char>,
    query: Seq<char>,
)
    ensures
        ({
            let line = "  pid "@ + pid + " "@ + application + " "@ + user + "/"@ + database + " "@
                + name + " for "@ + age + " "@ + query;
            let a = 6 + pid.len() as int;
            let b = a + 1 + application.len();
            let c = b + 1 + user.len();
            let d = c + 1 + database.len();
            let e = d + 1 + name.len();
            let f = e + 5 + age.len();
            &&& line.len() == f + 1 + query.len()
            &&& line.subrange(0, 6) == seq![' ', ' ', 'p', 'i', 'd', ' ']
            &&& line.subrange(6, a) == pid
            &&& line[a] == ' '
            &&& line.subrange(a + 1, b) == application
            &&& line[b] == ' '
            &&& line.subrange(b + 1, c) == user
            &&& line[c] == '/'
            &&& line.subrange(c + 1, d) == database
            &&& line[d] == ' '
            &&& line.subrange(d + 1, e) == name
            &&& line.subrange(e, e + 5) == seq![' ', 'f', 'o', 'r', ' ']
            &&& line.subrange(e + 5, f) == age
            &&& line[f] == ' '
            &&& line.subrange(f + 1, f + 1 + query.len()) == query
        }),
{
    reveal_strlit("  pid ");
    reveal_strlit(" ");
    reveal_strlit("/");
    reveal_strlit(" for ");
    assert("  pid "@ =~= seq![' ', ' ', 'p', 'i', 'd', ' ']);
    assert(" for "@ =~= seq![' ', 'f', 'o', 'r', ' ']);
    let l1 = "  pid "@ + pid;
    let l2 = l1 + " "@ + application;
    let l3 = l2 + " "@ + user;
    let l4 = l3 + "/"@ + database;
    let l5 = l4 + " "@ + name;
    let l6 = l5 + " for "@ + age;
    let line = l6 + " "@ + query;
    assert(line.take(line.len() as int) =~= line);
    lemma_followed(line, l6, " "@, query);
    lemma_followed(line, l5, " for "@, age);
    lemma_followed(line, l4, " "@, name);
    lemma_followed(line, l3, "/"@, database);
    lemma_followed(line, l2, " "@, user);
    lemma_followed(line, l1, " "@, application);
    assert(l1 + Seq::empty() =~= l1);
    lemma_followed(line, "  pid "@, pid, Seq::empty());
    assert(line.subrange(0, 6) =~= line.take(6));
}

proof fn lemma_join_last(a: Seq<char>, b: Seq<char>, c: Seq<char>, d: Seq<char>)
    ensures
        a + b + c + d == a + (b + c + d),
        Seq::<char>::empty() + c + d == c + d,
{
    assert(a + b + c + d =~= a + (b + c + d));
    assert(Seq::<char>::empty() + c + d =~= c + d);
}

/// The lines on one list of matches and then another are the lines on both; the
/// line on one match is its line, ended; the lines on none are empty.
pub proof fn match_lines_follow_each_other(
    first: Seq<(Backend, Reason)>,
    second: Seq<(Backend, Reason)>,
    backend: Backend,
    reason: Reason,
)
    ensures
        match_lines(first + second) == match_lines(first) + match_lines(second),
        match_lines(seq![(backend, reason)]) == match_line(backend, reason).push('\n'),
        match_lines(Seq::empty()) == Seq::<char>::empty(),
    decreases second.len(),
{
    let one = seq![(backend, reason)];
    let end = "\n"@;
    reveal_strlit("\n");
    assert(end =~= seq!['\n']);
    if second.len() == 0 {
        assert(first + second =~= first);
        assert(match_lines(first) + Seq::empty() =~= match_lines(first));
    } else {
        let last = second.last();
        match_lines_follow_each_other(first, second.drop_last(), backend, reason);
        assert((first + second).drop_last() =~= first + second.drop_last());
        assert((first + second).last() == last);
        lemma_join_last(
            match_lines(first),
            match_lines(second.drop_last()),
            match_line(last.0, last.1),
            end,
        );
    }
    assert(one.drop_last() =~= Seq::empty());
    assert(match_lines(one.drop_last()) == Seq::<char>::empty());
    lemma_join_last(end, end, match_line(backend, reason), end);
    lemma_push_is_join(match_line(backend, reason), '\n');
}

proof fn lemma_push_is_join(s: Seq<char>, c: char)
    ensures
        s.push(c) == s + seq![c],
{
    assert(s.push(c) =~= s + seq![c]);
}

/// The report of a dry run with matches begins with how many there are, in
/// decimal, and says that nothing was terminated; the lines on the matches
/// follow, and nothing else. Without matches it says that there are none.
pub proof fn dry_run_begins_with_the_count(matches: Seq<(Backend, Reason)>)
    ensures
        matches.len() == 0 ==> dry_run_text(matches) == "no backends match the reap criteria\n"@,
        matches.len() > 0 ==> {
            let count = decimal(matches.len());
            let words =
                " backend(s) match the reap criteria (dry run — nothing terminated; pass --execute to act):\n"@;
            let n = count.len() as int;
            &&& dry_run_text(matches).take(n) == count
            &&& dry_run_text(matches).skip(n).take(words.len() as int) == words
            &&& dry_run_text(matches).skip(n + words.len()) == match_lines(matches)
        },
{
    if matches.len() > 0 {
        let count = decimal(matches.len());
        let words =
            " backend(s) match the reap criteria (dry run — nothing terminated; pass --execute to act):\n"@;
        let n = count.len() as int;
        assert(dry_run_text(matches).take(n) =~= count);
        assert(dry_run_text(matches).skip(n).take(words.len() as int) =~= words);
        assert(dry_run_text(matches).skip(n + words.len()) =~= match_lines(matches));
    }
}

/// The lines on one list of results and then another are the lines on both; the
/// line on one result is the line on its match and what became of it; the lines
/// on none are empty.
pub proof fn result_lines_follow_each_other(
    first: Seq<(Backend, Reason, bool)>,
    second: Seq<(Backend, Reason, bool)>,
    backend: Backend,
    reason: Reason,
)
    ensures
        result_lines(first + second) == result_lines(first) + result_lines(second),
        result_lines(seq![(backend, reason, true)]) == match_line(backend, reason)
            + "  -> terminated\n"@,
        result_lines(seq![(backend, reason, false)]) == match_line(backend, reason)
            + "  -> already gone (no signal sent)\n"@,
        result_lines(Seq::empty()) == Seq::<char>::empty(),
    decreases second.len(),
{
    if second.len() == 0 {
        assert(first + second =~= first);
        assert(result_lines(first) + Seq::empty() =~= result_lines(first));
    } else {
        let last = second.last();
        result_lines_follow_each_other(first, second.drop_last(), backend, reason);
        assert((first + second).drop_last() =~= first + second.drop_last());
        assert((first + second).last() == last);
        lemma_join_last(
            result_lines(first),
            result_lines(second.drop_last()),
            match_line(last.0, last.1),
            outcome_text(last.2),
        );
    }
    let sent = seq![(backend, reason, true)];
    let gone = seq![(backend, reason, false)];
    let none = Seq::<char>::empty();
    assert(sent.drop_last() =~= Seq::empty());
    assert(gone.drop_last() =~= Seq::empty());
    assert(result_lines(sent.drop_last()) == none);
    assert(result_lines(gone.drop_last()) == none);
    lemma_join_last(none, none, match_line(backend, reason), outcome_text(true));
    lemma_join_last(none, none, match_line(backend, reason), outcome_text(false));
}

/// The count of terminated backends is that of the results that say so: none for
/// no results, and one more for each further result exactly where it says so.
pub proof fn every_sent_signal_is_counted(
    results: Seq<(Backend, Reason, bool)>,
    further: (Backend, Reason, bool),
)
    ensures
        terminated_count(Seq::empty()) == 0,
        terminated_count(results.push(further)) == terminated_count(results) + if further.2 {
            1int
        } else {
            0int
        },
{
    reveal(Seq::filter);
    assert(results.push(further).drop_last() =~= results);
}

/// The report of a run that terminates begins with how many matches there are;
/// the lines on the results follow, and it ends with how many of them were
/// terminated, out of how many. Without results it says that there are none.
pub proof fn execute_ends_with_the_counts(results: Seq<(Backend, Reason, bool)>)
    ensures
        results.len() == 0 ==> execute_text(results)
            == "no backends matched the reap criteria — nothing to terminate\n"@,
        results.len() > 0 ==> {
            let count = decimal(results.len());
            let words = " backend(s) matched; terminating:\n"@;
            let lines = result_lines(results);
            let last = "\n"@ + decimal(terminated_count(results)) + "/"@ + decimal(results.len())
                + " backend(s) actually terminated\n"@;
            let text = execute_text(results);
            let n = count.len() as int;
            let m = n + words.len();
            &&& text.len() == m + lines.len() + last.len()
            &&& text.take(n) == count
            &&& text.subrange(n, m) == words
            &&& text.subrange(m, m + lines.len()) == lines
            &&& text.skip(m + lines.len()) == last
        },
{
    if results.len() > 0 {
        let count = decimal(results.len());
        let words = " backend(s) matched; terminating:\n"@;
        let lines = result_lines(results);
        let last = "\n"@ + decimal(terminated_count(results)) + "/"@ + decimal(results.len())
            + " backend(s) actually terminated\n"@;
        let text = execute_text(results);
        let n = count.len() as int;
        let m = n + words.len();
        assert(text =~= count + words + lines + last);
        assert(text.take(n) =~= count);
        assert(text.subrange(n, m) =~= words);
        assert(text.subrange(m, m + lines.len()) =~= lines);
        assert(text.skip(m + lines.len()) =~= last);
    }
}

/// The report of a dry run lists every match.
pub proof fn every_match_is_listed(matches: Seq<(Backend, Reason)>, i: int)
    requires
        0 <= i < matches.len(),
    ensures
        holds(dry_run_text(matches), match_line(matches[i].0, matches[i].1) + "\n"@),
{
    let line = match_line(matches[i].0, matches[i].1) + "\n"@;
    let lines = match_lines(matches);
    lemma_line_is_listed(matches, i);
    let k = choose|k: int|
        0 <= k <= lines.len() - line.len() && #[trigger] lines.subrange(k, k + line.len()) == line;
    let head = decimal(matches.len())
        + " backend(s) match the reap criteria (dry run — nothing terminated; pass --execute to act):\n"@;
    let at = head.len() + k;
    assert(dry_run_text(matches).subrange(at, at + line.len()) =~= lines.subrange(
        k,
        k + line.len(),
    ));
}

proof fn lemma_line_is_listed(matches: Seq<(Backend, Reason)>, i: int)
    requires
        0 <= i < matches.len(),
    ensures
        holds(match_lines(matches), match_line(matches[i].0, matches[i].1) + "\n"@),
    decreases matches.len(),
{
    let line = match_line(matches[i].0, matches[i].1) + "\n"@;
    let lines = match_lines(matches);
    let before = match_lines(matches.drop_last());
    let n = line.len() as int;
    if i == matches.len() - 1 {
        let at = before.len() as int;
        assert(lines.subrange(at, at + n) =~= line);
    } else {
        lemma_line_is_listed(matches.drop_last(), i);
        let k = choose|k: int|
            0 <= k <= before.len() - line.len() && #[trigger] before.subrange(k, k + line.len())
                == line;
        assert(lines.subrange(k, k + n) =~= before.subrange(k, k + n));
    }
}

/// The report of a run that terminates lists every match with what became of
/// it: the line of the dry run, and the outcome behind it.
pub proof fn every_result_is_listed(results: Seq<(Backend, Reason, bool)>, i: int)
    requires
        0 <= i < results.len(),
    ensures
        holds(
            execute_text(results),
            match_line(results[i].0, results[i].1) + outcome_text(results[i].2),
        ),
{
    let line = match_line(results[i].0, results[i].1) + outcome_text(results[i].2);
    let lines = result_lines(results);
    lemma_result_is_listed(results, i);
    let k = choose|k: int|
        0 <= k <= lines.len() - line.len() && #[trigger] lines.subrange(k, k + line.len()) == line;
    let head = decimal(results.len()) + " backend(s) matched; terminating:\n"@;
    let at = head.len() + k;
    assert(execute_text(results).subrange(at, at + line.len()) =~= lines.subrange(
        k,
        k + line.len(),
    ));
}

proof fn lemma_result_is_listed(results: Seq<(Backend, Reason, bool)>, i: int)
    requires
        0 <= i < results.len(),
    ensures
        holds(
            result_lines(results),
            match_line(results[i].0, results[i].1) + outcome_text(results[i].2),
        ),
    decreases results.len(),
{
    let line = match_line(results[i].0, results[i].1) + outcome_text(results[i].2);
    let lines = result_lines(results);
    let before = result_lines(results.drop_last());
    let n = line.len() as int;
    if i == results.len() - 1 {
        let at = before.len() as int;
        assert(lines.subrange(at, at + n) =~= line);
    } else {
        lemma_result_is_listed(results.drop_last(), i);
        let k = choose|k: int|
            0 <= k <= before.len() - line.len() && #[trigger] before.subrange(k, k + line.len())
                == line;
        assert(lines.subrange(k, k + n) =~= before.subrange(k, k + n));
    }
}

/// How many lines end in `s`.
pub open spec fn line_ends(s: Seq<char>) -> nat {
    s.filter(|c: char| c == '\n').len()
}

proof fn lemma_line_ends_add(a: Seq<char>, b: Seq<char>)
    ensures
        line_ends(a + b) == line_ends(a) + line_ends(b),
{
    Seq::filter_distributes_over_add(a, b, |c: char| c == '\n');
}

proof fn lemma_line_ends_none(s: Seq<char>)
    requires
        on_one_line(s),
    ensures
        line_ends(s) == 0,
    decreases s.len(),
{
    reveal(Seq::filter);
    if s.len() > 0 {
        assert(s.contains(s.last()));
        assert forall|i: int| 0 <= i < s.drop_last().len() implies s.drop_last()[i] != '\n' by {
            assert(s.contains(s[i]));
        }
        lemma_line_ends_none(s.drop_last());
    }
}

/// A text that ends its only line.
proof fn lemma_line_ends_last(s: Seq<char>)
    requires
        s.len() > 0,
        s.last() == '\n',
        on_one_line(s.drop_last()),
    ensures
        line_ends(s) == 1,
{
    reveal(Seq::filter);
    lemma_line_ends_none(s.drop_last());
}

/// The names of a backend are each on one line, and its query can be shown.
pub open spec fn fits_a_line(backend: Backend) -> bool {
    &&& can_be_shown(backend.query@)
    &&& on_one_line(backend.application_name@)
    &&& on_one_line(backend.user@)
    &&& on_one_line(backend.database@)
}

/// A dry run gives each match one line: its report has a heading, one line per
/// match and no more, where the names in them are on one line.
pub proof fn dry_run_has_one_line_per_match(matches: Seq<(Backend, Reason)>)
    requires
        forall|i: int| 0 <= i < matches.len() ==> fits_a_line((#[trigger] matches[i]).0),
    ensures
        line_ends(dry_run_text(matches)) == 1 + matches.len(),
{
    let none = "no backends match the reap criteria\n";
    let heading =
        " backend(s) match the reap criteria (dry run — nothing terminated; pass --execute to act):\n";
    if matches.len() == 0 {
        reveal_strlit("no backends match the reap criteria\n");
        lemma_line_ends_last(none@);
    } else {
        reveal_strlit(
            " backend(s) match the reap criteria (dry run — nothing terminated; pass --execute to act):\n",
        );
        lemma_line_ends_last(heading@);
        lemma_decimal_on_one_line(matches.len());
        lemma_line_ends_none(decimal(matches.len()));
        lemma_line_ends_add(decimal(matches.len()), heading@);
        lemma_line_ends_add(decimal(matches.len()) + heading@, match_lines(matches));
        lemma_line_ends_of_matches(matches);
    }
}

proof fn lemma_line_ends_of_matches(matches: Seq<(Backend, Reason)>)
    requires
        forall|i: int| 0 <= i < matches.len() ==> fits_a_line((#[trigger] matches[i]).0),
    ensures
        line_ends(match_lines(matches)) == matches.len(),
    decreases matches.len(),
{
    if matches.len() == 0 {
        lemma_line_ends_none(match_lines(matches));
    } else {
        let rest = matches.drop_last();
        let line = match_line(matches.last().0, matches.last().1);
        assert forall|i: int| 0 <= i < rest.len() implies fits_a_line((#[trigger] rest[i]).0) by {
            assert(rest[i] == matches[i]);
        }
        lemma_line_ends_of_matches(rest);
        assert(fits_a_line(matches[matches.len() - 1].0));
        match_line_is_one_line(matches.last().0, matches.last().1);
        lemma_line_ends_none(line);
        reveal_strlit("\n");
        assert("\n"@.drop_last() =~= Seq::empty());
        lemma_line_ends_last("\n"@);
        lemma_line_ends_add(match_lines(rest), line);
        lemma_line_ends_add(match_lines(rest) + line, "\n"@);
    }
}

/// No more backends are counted as terminated than there are results; all of
/// them exactly where every signal was sent.
pub proof fn terminated_count_is_bounded(results: Seq<(Backend, Reason, bool)>)
    ensures
        terminated_count(results) <= results.len(),
        terminated_count(results) == results.len() <==> forall|i: int|
            0 <= i < results.len() ==> #[trigger] results[i].2,
    decreases results.len(),
{
    reveal(Seq::filter);
    if results.len() > 0 {
        let rest = results.drop_last();
        terminated_count_is_bounded(rest);
        assert forall|i: int| 0 <= i < rest.len() implies rest[i].2 == results[i].2 by {}
        if forall|i: int| 0 <= i < results.len() ==> #[trigger] results[i].2 {
            assert forall|i: int| 0 <= i < rest.len() implies #[trigger] rest[i].2 by {
                assert(results[i].2);
            }
        }
        if terminated_count(results) == results.len() {
            assert(results.last().2);
            assert forall|i: int| 0 <= i < results.len() implies #[trigger] results[i].2 by {
                if i < rest.len() {
                    assert(rest[i].2);
                }
            }
        }
    }
}

} // verus!
