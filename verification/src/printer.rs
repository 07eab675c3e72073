use vstd::prelude::*;

use crate::calendar::{civil_date, days_from_epoch, is_valid_date, lemma_civil_date, lemma_civil_from_era_day};
use crate::model::{Commit, CommitView, SignatureView, Signature, strings_view};
use crate::number::{push_signed_zero_padded, push_zero_padded, signed_zero_padded, zero_padded};
use crate::number::{all_digits, decimal, digit_char, digits_value};
use crate::raw::{lemma_decimal_digits, lemma_two_digits};
use crate::text::{append_str, is_digit_char};

verus! {

/// Converts a day count relative to 1970-01-01 into a (year, month, day)
/// civil date (Howard Hinnant's `civil_from_days`).
pub fn civil_from_days(z: i64) -> (r: (i64, u32, u32))
    requires
        z <= i64::MAX - 719_468,
    ensures
        is_valid_date(r.0 as int, r.1 as int, r.2 as int),
        days_from_epoch(r.0 as int, r.1 as int, r.2 as int) == z,
        (r.0 as int, r.1 as int, r.2 as int) == civil_date(z as int),
{
    let z = z + 719_468;
    let era = if z >= 0 { z } else { z - 146_096 } / 146_097;
    assert(era == z as int / 146_097);
    let doe = (z - era * 146_097) as u64;
    assert(doe == z as int % 146_097);
    let yoe = (doe - doe / 1460 + doe / 36_524 - doe / 146_096) / 365;
    let y = yoe as i64 + era * 400;
    let doy = doe - (365 * yoe + yoe / 4 - yoe / 100);
    let mp = (5 * doy + 2) / 153;
    let day = (doy - (153 * mp + 2) / 5 + 1) as u32;
    let month = if mp < 10 { mp + 3 } else { mp - 9 } as u32;
    let year = if month <= 2 { y + 1 } else { y };
    proof {
        lemma_civil_from_era_day(era as int, doe as int);
        lemma_civil_date(z - 719_468);
    }
    (year, month, day)
}


/// The day and the second of that day of a time in seconds: its Euclidean
/// quotient and remainder by 86400 (`div_euclid`, `rem_euclid`).
pub fn days_and_seconds(t: i64) -> (r: (i64, i64))
    ensures
        r.0 == t as int / 86_400,
        r.1 == t as int % 86_400,
{
    let q = t / 86_400;
    let m = t % 86_400;
    if m < 0 {
        (q - 1, m + 86_400)
    } else {
        (q, m)
    }
}

/// `|n|`.
pub open spec fn abs(n: int) -> nat {
    (if n < 0 { -n } else { n }) as nat
}

/// The local time `unix_ts + tz_offset_minutes` minutes does not overflow an `i64`.
pub open spec fn local_time_fits(unix_ts: i64, tz_offset_minutes: i32) -> bool {
    i64::MIN <= unix_ts + tz_offset_minutes * 60 <= i64::MAX
}

/// `unix_ts` as an ISO-8601 date and time in the zone `tz_offset_minutes`
/// east of UTC: `YYYY-MM-DDThh:mm:ss+hh:mm`.
#[verifier::opaque]
pub open spec fn timestamp_text(unix_ts: i64, tz_offset_minutes: i32) -> Seq<char> {
    let local = unix_ts + tz_offset_minutes * 60;
    let days = local / 86_400;
    let secs = local % 86_400;
    let date = civil_date(days);
    let offset = abs(tz_offset_minutes as int);
    signed_zero_padded(date.0, 4) + "-"@ + zero_padded(date.1 as nat, 2) + "-"@ + zero_padded(
        date.2 as nat,
        2,
    ) + "T"@ + zero_padded((secs / 3600) as nat, 2) + ":"@ + zero_padded(
        ((secs % 3600) / 60) as nat,
        2,
    ) + ":"@ + zero_padded((secs % 60) as nat, 2) + (if tz_offset_minutes < 0 {
        "-"@
    } else {
        "+"@
    }) + zero_padded(offset / 60, 2) + ":"@ + zero_padded(offset % 60, 2)
}

/// Converts a unix timestamp plus a timezone offset (minutes east of UTC)
/// into an ISO-8601 string in that timezone.
pub fn format_timestamp(unix_ts: i64, tz_offset_minutes: i32) -> (r: String)
    requires
        local_time_fits(unix_ts, tz_offset_minutes),
    ensures
        r@ == timestamp_text(unix_ts, tz_offset_minutes),
{
    let local_ts = unix_ts + tz_offset_minutes as i64 * 60;
    let (days, secs_of_day) = days_and_seconds(local_ts);
    assert(days == local_ts as int / 86_400);
    assert(secs_of_day == local_ts as int % 86_400);
    let (year, month, day) = civil_from_days(days);
    let hour = secs_of_day / 3600;
    let minute = (secs_of_day % 3600) / 60;
    let second = secs_of_day % 60;
    let offset_abs: u32 = if tz_offset_minutes < 0 {
        if tz_offset_minutes == i32::MIN {
            2_147_483_648u32
        } else {
            (-tz_offset_minutes) as u32
        }
    } else {
        tz_offset_minutes as u32
    };
    let mut out = String::new();
    push_signed_zero_padded(&mut out, year, 4);
    append_str(&mut out, "-");
    push_zero_padded(&mut out, month as u64, 2);
    append_str(&mut out, "-");
    push_zero_padded(&mut out, day as u64, 2);
    append_str(&mut out, "T");
    push_zero_padded(&mut out, hour as u64, 2);
    append_str(&mut out, ":");
    push_zero_padded(&mut out, minute as u64, 2);
    append_str(&mut out, ":");
    push_zero_padded(&mut out, second as u64, 2);
    if tz_offset_minutes < 0 {
        append_str(&mut out, "-");
    } else {
        append_str(&mut out, "+");
    }
    push_zero_padded(&mut out, (offset_abs / 60) as u64, 2);
    append_str(&mut out, ":");
    push_zero_padded(&mut out, (offset_abs % 60) as u64, 2);
    proof {
        reveal(timestamp_text);
    }
    assert(out@ =~= timestamp_text(unix_ts, tz_offset_minutes));
    out
}


/// One `parent <id>` line per parent, in order.
pub open spec fn parent_lines(parents: Seq<Seq<char>>) -> Seq<char>
    decreases parents.len(),
{
    if parents.len() == 0 {
        seq![]
    } else {
        parent_lines(parents.drop_last()) + "parent "@ + parents.last() + "\n"@
    }
}

/// The message, each line indented by four spaces; empty lines stay empty.
pub open spec fn message_lines(message: Seq<Seq<char>>) -> Seq<char>
    decreases message.len(),
{
    if message.len() == 0 {
        seq![]
    } else {
        message_lines(message.drop_last()) + if message.last().len() == 0 {
            "\n"@
        } else {
            "    "@ + message.last() + "\n"@
        }
    }
}

/// A label padded to twelve columns, then `Name <email>`.
pub open spec fn identity_line(label: Seq<char>, s: SignatureView) -> Seq<char> {
    label + s.name + " <"@ + s.email + ">\n"@
}

/// A label padded to twelve columns, then the signature's date.
pub open spec fn date_line(label: Seq<char>, s: SignatureView) -> Seq<char> {
    label + timestamp_text(s.timestamp, s.tz_offset_minutes) + "\n"@
}

/// The normalized text of a commit.
pub open spec fn pretty_text(c: CommitView) -> Seq<char> {
    "commit "@ + c.sha + "\n"@ + "tree   "@ + c.tree + "\n"@ + parent_lines(c.parents)
        + identity_line("Author:     "@, c.author) + date_line("AuthorDate: "@, c.author)
        + identity_line("Committer:  "@, c.committer) + date_line("CommitDate: "@, c.committer)
        + "\n"@ + message_lines(c.message)
}

/// The dates of a commit can be rendered: their local times fit in an `i64`.
pub open spec fn printable(c: CommitView) -> bool {
    &&& local_time_fits(c.author.timestamp, c.author.tz_offset_minutes)
    &&& local_time_fits(c.committer.timestamp, c.committer.tz_offset_minutes)
}

fn push_identity(out: &mut String, label: &str, s: &Signature)
    ensures
        final(out)@ == old(out)@ + identity_line(label@, s@),
{
    let ghost start = out@;
    append_str(out, label);
    append_str(out, s.name.as_str());
    append_str(out, " <");
    append_str(out, s.email.as_str());
    append_str(out, ">\n");
    assert(out@ =~= start + identity_line(label@, s@));
}

fn push_date(out: &mut String, label: &str, s: &Signature)
    requires
        local_time_fits(s.timestamp, s.tz_offset_minutes),
    ensures
        final(out)@ == old(out)@ + date_line(label@, s@),
{
    let ghost start = out@;
    append_str(out, label);
    let t = format_timestamp(s.timestamp, s.tz_offset_minutes);
    append_str(out, t.as_str());
    append_str(out, "\n");
    assert(out@ =~= start + date_line(label@, s@));
}

/// Turns a commit into normalized text: ids, `Author:` / `AuthorDate:` /
/// `Committer:` / `CommitDate:` lines with ISO-8601 dates, a blank line, and
/// the message indented by four spaces.
pub fn pretty_print(commit: &Commit) -> (r: String)
    requires
        printable(commit@),
    ensures
        r@ == pretty_text(commit@),
{
    let mut out = String::new();
    append_str(&mut out, "commit ");
    append_str(&mut out, commit.sha.as_str());
    append_str(&mut out, "\n");
    append_str(&mut out, "tree   ");
    append_str(&mut out, commit.tree.as_str());
    append_str(&mut out, "\n");
    let ghost head = out@;
    assert(head =~= "commit "@ + commit.sha@ + "\n"@ + "tree   "@ + commit.tree@ + "\n"@);
    let mut i: usize = 0;
    while i < commit.parents.len()
        invariant
            i <= commit.parents@.len(),
            out@ == head + parent_lines(strings_view(commit.parents@).take(i as int)),
        decreases commit.parents.len() - i,
    {
        let ghost before = out@;
        append_str(&mut out, "parent ");
        append_str(&mut out, commit.parents[i].as_str());
        append_str(&mut out, "\n");
        proof {
            let ps = strings_view(commit.parents@);
            assert(ps.take(i + 1).drop_last() =~= ps.take(i as int));
            assert(ps.take(i + 1).last() == commit.parents@[i as int]@);
            assert(out@ =~= head + parent_lines(ps.take(i + 1)));
        }
        i = i + 1;
    }
    assert(strings_view(commit.parents@).take(i as int) =~= strings_view(commit.parents@));
    push_identity(&mut out, "Author:     ", &commit.author);
    push_date(&mut out, "AuthorDate: ", &commit.author);
    push_identity(&mut out, "Committer:  ", &commit.committer);
    push_date(&mut out, "CommitDate: ", &commit.committer);
    append_str(&mut out, "\n");
    let ghost body = out@;
    let mut j: usize = 0;
    while j < commit.message.len()
        invariant
            j <= commit.message@.len(),
            out@ == body + message_lines(strings_view(commit.message@).take(j as int)),
        decreases commit.message.len() - j,
    {
        let ghost before = out@;
        let line = &commit.message[j];
        if line.as_str().is_empty() {
            append_str(&mut out, "\n");
        } else {
            append_str(&mut out, "    ");
            append_str(&mut out, line.as_str());
            append_str(&mut out, "\n");
        }
        proof {
            let ms = strings_view(commit.message@);
            assert(ms.take(j + 1).drop_last() =~= ms.take(j as int));
            assert(ms.take(j + 1).last() == commit.message@[j as int]@);
            assert(out@ =~= body + message_lines(ms.take(j + 1)));
        }
        j = j + 1;
    }
    assert(strings_view(commit.message@).take(j as int) =~= strings_view(commit.message@));
    assert(out@ =~= pretty_text(commit@));
    out
}


// ---------------------------------------------------------------------------
// What the printed date-time says
// ---------------------------------------------------------------------------

/// The two decimal digits of `n < 100`.
pub open spec fn two_digit_text(n: int) -> Seq<char> {
    seq![digit_char((n / 10) as nat), digit_char((n % 10) as nat)]
}

/// `t` spells the year `y`: an optional `-`, then digits whose value is `|y|`,
/// four characters at least, with no leading zero beyond that width.
pub open spec fn spells_year(t: Seq<char>, y: int) -> bool {
    if y < 0 {
        &&& t.len() >= 4
        &&& t[0] == '-'
        &&& all_digits(t.drop_first())
        &&& digits_value(t.drop_first()) == -y
        &&& t.len() > 4 ==> t[1] != '0'
    } else {
        &&& t.len() >= 4
        &&& all_digits(t)
        &&& digits_value(t) == y
        &&& t.len() > 4 ==> t[0] != '0'
    }
}

/// Leading zeros do not change a numeral's value.
proof fn lemma_leading_zeros(z: Seq<char>, d: Seq<char>)
    requires
        forall|i: int| 0 <= i < z.len() ==> z[i] == '0',
        all_digits(d),
    ensures
        all_digits(z + d),
        digits_value(z + d) == digits_value(d),
    decreases z.len() + d.len(),
{
    if d.len() == 0 {
        assert(z + d =~= z);
        if z.len() > 0 {
            lemma_leading_zeros(z.drop_last(), d);
            assert(z.drop_last() + d =~= z.drop_last());
            assert(z.last() == '0');
        } else {
            assert(digits_value(z) == 0);
        }
    } else {
        assert((z + d).drop_last() =~= z + d.drop_last());
        assert((z + d).last() == d.last());
        assert(all_digits(d.drop_last()));
        lemma_leading_zeros(z, d.drop_last());
    }
    assert(all_digits(z + d)) by {
        assert forall|i: int| 0 <= i < (z + d).len() implies is_digit_char(#[trigger] (z + d)[i]) by {
            if i >= z.len() {
                assert((z + d)[i] == d[i - z.len()]);
            }
        }
    }
}

/// A positive number's decimal rendering does not start with zero.
proof fn lemma_decimal_first_digit(n: nat)
    requires
        n >= 1,
    ensures
        decimal(n)[0] != '0',
        decimal(n).len() >= 2 ==> n >= 10,
    decreases n,
{
    if n >= 10 {
        lemma_decimal_first_digit(n / 10);
        lemma_decimal_digits(n / 10);
        assert(decimal(n)[0] == decimal(n / 10)[0]);
    }
}

/// Zero padding to `w` spells `n` with at least `w` digits and no leading
/// zero beyond that width.
proof fn lemma_zero_padded_spells(n: nat, w: nat)
    requires
        w >= 1,
    ensures
        all_digits(zero_padded(n, w)),
        digits_value(zero_padded(n, w)) == n,
        zero_padded(n, w).len() >= w,
        zero_padded(n, w).len() > w ==> zero_padded(n, w)[0] != '0',
{
    lemma_decimal_digits(n);
    let d = decimal(n);
    if d.len() < w {
        let z = Seq::new((w - d.len()) as nat, |i: int| '0');
        lemma_leading_zeros(z, d);
    } else if d.len() > w {
        assert(n != 0) by {
            if n == 0 {
                assert(d.len() == 1);
            }
        }
        lemma_decimal_first_digit(n);
    }
}

proof fn lemma_year_spelled(y: int)
    ensures
        spells_year(signed_zero_padded(y, 4), y),
{
    if y < 0 {
        lemma_zero_padded_spells((-y) as nat, 3);
        let t = signed_zero_padded(y, 4);
        assert(t.drop_first() =~= zero_padded((-y) as nat, 3));
    } else {
        lemma_zero_padded_spells(y as nat, 4);
    }
}

/// A local time split into days and a clock time.
proof fn lemma_local_time_parts(local: int, days: int, h: int, mi: int, s: int)
    requires
        0 <= h < 24,
        0 <= mi < 60,
        0 <= s < 60,
        local == days * 86_400 + h * 3600 + mi * 60 + s,
    ensures
        local / 86_400 == days,
        (local % 86_400) / 3600 == h,
        ((local % 86_400) % 3600) / 60 == mi,
        (local % 86_400) % 60 == s,
{
    let sod = h * 3600 + mi * 60 + s;
    assert(local / 86_400 == days && local % 86_400 == sod);
}

/// The pieces of a date-time text laid out as in `timestamp_text`: the year,
/// the month, day, hour, minute and second, the zone's sign, hours and
/// minutes.
spec fn clock_layout(
    yt: Seq<char>,
    mo: Seq<char>,
    d: Seq<char>,
    h: Seq<char>,
    mi: Seq<char>,
    s: Seq<char>,
    sign: Seq<char>,
    zh: Seq<char>,
    zm: Seq<char>,
) -> Seq<char> {
    yt + "-"@ + mo + "-"@ + d + "T"@ + h + ":"@ + mi + ":"@ + s + sign + zh + ":"@ + zm
}

proof fn lemma_timestamp_text_clock(unix_ts: i64, tz_offset_minutes: i32)
    ensures
        ({
            let local = unix_ts + tz_offset_minutes * 60;
            let date = civil_date(local / 86_400);
            let secs = local % 86_400;
            let a = abs(tz_offset_minutes as int);
            timestamp_text(unix_ts, tz_offset_minutes) == clock_layout(
                signed_zero_padded(date.0, 4),
                zero_padded(date.1 as nat, 2),
                zero_padded(date.2 as nat, 2),
                zero_padded((secs / 3600) as nat, 2),
                zero_padded(((secs % 3600) / 60) as nat, 2),
                zero_padded((secs % 60) as nat, 2),
                if tz_offset_minutes < 0 {
                    "-"@
                } else {
                    "+"@
                },
                zero_padded(a / 60, 2),
                zero_padded(a % 60, 2),
            )
        }),
{
    reveal(timestamp_text);
}

proof fn lemma_clock_layout_split(
    yt: Seq<char>,
    mo: Seq<char>,
    d: Seq<char>,
    h: Seq<char>,
    mi: Seq<char>,
    s: Seq<char>,
    sign: Seq<char>,
    zh: Seq<char>,
    zm: Seq<char>,
)
    requires
        mo.len() == 2,
        d.len() == 2,
        h.len() == 2,
        mi.len() == 2,
        s.len() == 2,
        sign.len() == 1,
        zh.len() == 2,
        zm.len() == 2,
    ensures
        clock_layout(yt, mo, d, h, mi, s, sign, zh, zm) == yt + (seq!['-'] + mo + seq!['-'] + d
            + seq!['T'] + h + seq![':'] + mi + seq![':'] + s + sign + zh + seq![':'] + zm),
        (seq!['-'] + mo + seq!['-'] + d + seq!['T'] + h + seq![':'] + mi + seq![':'] + s + sign + zh
            + seq![':'] + zm).len() == 21,
{
    reveal_strlit("-");
    reveal_strlit(":");
    reveal_strlit("T");
    assert(clock_layout(yt, mo, d, h, mi, s, sign, zh, zm) =~= yt + (seq!['-'] + mo + seq!['-']
        + d + seq!['T'] + h + seq![':'] + mi + seq![':'] + s + sign + zh + seq![':'] + zm));
}

/// A two-digit zero padding is the number's two decimal digits.
proof fn lemma_two_digit_text(n: int)
    requires
        0 <= n < 100,
    ensures
        zero_padded(n as nat, 2) == two_digit_text(n),
{
    lemma_two_digits(n as nat);
}

/// The text of a time reads back as that time: whatever calendar date and
/// clock time make up `unix_ts` shifted by the zone, the text spells that
/// year, month, day, hour, minute and second, then the zone's sign, its hours
/// and its minutes, in the ISO-8601 layout.
pub proof fn law_timestamp_text_spells_local_time(
    unix_ts: i64,
    tz_offset_minutes: i32,
    y: int,
    mo: int,
    d: int,
    h: int,
    mi: int,
    s: int,
)
    requires
        local_time_fits(unix_ts, tz_offset_minutes),
        -6000 < tz_offset_minutes < 6000,
        is_valid_date(y, mo, d),
        0 <= h < 24,
        0 <= mi < 60,
        0 <= s < 60,
        days_from_epoch(y, mo, d) * 86_400 + h * 3600 + mi * 60 + s == unix_ts + tz_offset_minutes
            * 60,
    ensures
        ({
            let t = timestamp_text(unix_ts, tz_offset_minutes);
            let n = t.len() as int;
            let a = abs(tz_offset_minutes as int) as int;
            &&& n >= 25
            &&& t.subrange(n - 21, n) == seq!['-'] + two_digit_text(mo) + seq!['-']
                + two_digit_text(d) + seq!['T'] + two_digit_text(h) + seq![':'] + two_digit_text(
                mi,
            ) + seq![':'] + two_digit_text(s) + seq![
                if tz_offset_minutes < 0 {
                    '-'
                } else {
                    '+'
                },
            ] + two_digit_text(a / 60) + seq![':'] + two_digit_text(a % 60)
            &&& spells_year(t.take(n - 21), y)
        }),
{
    let local = unix_ts + tz_offset_minutes * 60;
    let days = days_from_epoch(y, mo, d);
    assert(local / 86_400 == days && (local % 86_400) / 3600 == h && ((local % 86_400) % 3600) / 60
        == mi && (local % 86_400) % 60 == s) by {
        lemma_local_time_parts(local, days, h, mi, s);
    }
    assert(civil_date(days) == (y, mo, d)) by {
        lemma_civil_date(days);
    }
    assert(1 <= mo <= 12 && 1 <= d <= 31);
    let a: int = abs(tz_offset_minutes as int) as int;
    let sign_text = if tz_offset_minutes < 0 {
        "-"@
    } else {
        "+"@
    };
    assert(sign_text == seq![if tz_offset_minutes < 0 { '-' } else { '+' }]) by {
        reveal_strlit("-");
        reveal_strlit("+");
    }
    lemma_timestamp_text_clock(unix_ts, tz_offset_minutes);
    let t = timestamp_text(unix_ts, tz_offset_minutes);
    let yt = signed_zero_padded(y, 4);
    lemma_two_digit_text(mo);
    lemma_two_digit_text(d);
    lemma_two_digit_text(h);
    lemma_two_digit_text(mi);
    lemma_two_digit_text(s);
    lemma_two_digit_text(a / 60);
    lemma_two_digit_text(a % 60);
    assert(t == clock_layout(
        yt,
        two_digit_text(mo),
        two_digit_text(d),
        two_digit_text(h),
        two_digit_text(mi),
        two_digit_text(s),
        sign_text,
        two_digit_text(a / 60),
        two_digit_text(a % 60),
    ));
    lemma_clock_layout_split(
        yt,
        two_digit_text(mo),
        two_digit_text(d),
        two_digit_text(h),
        two_digit_text(mi),
        two_digit_text(s),
        sign_text,
        two_digit_text(a / 60),
        two_digit_text(a % 60),
    );
    let tail = seq!['-'] + two_digit_text(mo) + seq!['-'] + two_digit_text(d) + seq!['T']
        + two_digit_text(h) + seq![':'] + two_digit_text(mi) + seq![':'] + two_digit_text(s)
        + sign_text + two_digit_text(a / 60) + seq![':'] + two_digit_text(a % 60);
    lemma_concat_take_skip(yt, tail);
    lemma_year_spelled(y);
}


// ---------------------------------------------------------------------------
// Where each part of a commit stands in its printed text
// ---------------------------------------------------------------------------

/// The number of characters that the lines of the first `i` parents take.
pub open spec fn parent_block_len(ps: Seq<Seq<char>>, i: int) -> int
    decreases i,
{
    if i <= 0 {
        0
    } else {
        parent_block_len(ps, i - 1) + 8 + ps[i - 1].len()
    }
}

proof fn lemma_parent_block_len_prefix(ps: Seq<Seq<char>>, i: int)
    requires
        0 <= i < ps.len(),
    ensures
        parent_block_len(ps.drop_last(), i) == parent_block_len(ps, i),
    decreases i,
{
    if i > 0 {
        lemma_parent_block_len_prefix(ps, i - 1);
    }
}

proof fn lemma_parent_block_len_monotone(ps: Seq<Seq<char>>, i: int, j: int)
    requires
        0 <= i <= j <= ps.len(),
    ensures
        0 <= parent_block_len(ps, i) <= parent_block_len(ps, j),
    decreases j,
{
    if i < j {
        lemma_parent_block_len_monotone(ps, i, j - 1);
    } else if i > 0 {
        lemma_parent_block_len_monotone(ps, i - 1, i - 1);
    }
}

/// Parent `i` is printed on the `i`-th line of the parent lines.
proof fn lemma_parent_lines_index(ps: Seq<Seq<char>>)
    ensures
        parent_lines(ps).len() == parent_block_len(ps, ps.len() as int),
        forall|i: int|
            0 <= i < ps.len() ==> parent_lines(ps).subrange(
                parent_block_len(ps, i),
                parent_block_len(ps, i + 1),
            ) == "parent "@ + #[trigger] ps[i] + "\n"@,
    decreases ps.len(),
{
    reveal_strlit("parent ");
    reveal_strlit("\n");
    if ps.len() > 0 {
        let front = ps.drop_last();
        lemma_parent_lines_index(front);
        let k = ps.len() - 1;
        lemma_parent_block_len_prefix(ps, k);
        let t = parent_lines(ps);
        let f = parent_lines(front);
        let line = "parent "@ + ps.last() + "\n"@;
        assert(t == f + line);
        assert forall|i: int| 0 <= i < ps.len() implies t.subrange(
            parent_block_len(ps, i),
            parent_block_len(ps, i + 1),
        ) == "parent "@ + #[trigger] ps[i] + "\n"@ by {
            if i < k {
                lemma_parent_block_len_prefix(ps, i);
                lemma_parent_block_len_prefix(ps, i + 1);
                lemma_parent_block_len_monotone(front, i, i + 1);
                lemma_parent_block_len_monotone(front, i + 1, k);
                assert(front[i] == ps[i]);
                assert(t.subrange(parent_block_len(ps, i), parent_block_len(ps, i + 1)) =~= f.subrange(
                    parent_block_len(front, i),
                    parent_block_len(front, i + 1),
                ));
            } else {
                assert(t.subrange(parent_block_len(ps, i), parent_block_len(ps, i + 1)) =~= line);
            }
        }
    } else {
        assert(parent_block_len(ps, 0) == 0);
    }
}

/// The author's lines: `Author:` with name and email, `AuthorDate:` with the
/// author's own date.
pub open spec fn author_lines(a: SignatureView) -> Seq<char> {
    "Author:     "@ + a.name + " <"@ + a.email + ">\n"@ + "AuthorDate: "@ + timestamp_text(
        a.timestamp,
        a.tz_offset_minutes,
    ) + "\n"@
}

/// The committer's lines: `Committer:` with name and email, `CommitDate:`
/// with the committer's own date.
pub open spec fn committer_lines(m: SignatureView) -> Seq<char> {
    "Committer:  "@ + m.name + " <"@ + m.email + ">\n"@ + "CommitDate: "@ + timestamp_text(
        m.timestamp,
        m.tz_offset_minutes,
    ) + "\n"@
}

/// The `commit` and `tree` lines of `c`.
pub open spec fn id_lines(c: CommitView) -> Seq<char> {
    "commit "@ + c.sha + "\n"@ + "tree   "@ + c.tree + "\n"@
}

/// Where the author's lines begin in the printed text of `c`.
pub open spec fn author_start(c: CommitView) -> int {
    c.sha.len() + c.tree.len() + 16 + parent_block_len(c.parents, c.parents.len() as int)
}

proof fn lemma_concat_take_skip(p: Seq<char>, q: Seq<char>)
    ensures
        (p + q).take(p.len() as int) == p,
        (p + q).skip(p.len() as int) == q,
{
    assert((p + q).take(p.len() as int) =~= p);
    assert((p + q).skip(p.len() as int) =~= q);
}

proof fn lemma_concat_assoc(a: Seq<char>, b: Seq<char>, c: Seq<char>)
    ensures
        (a + b) + c == a + (b + c),
{
    assert((a + b) + c =~= a + (b + c));
}

proof fn lemma_concat_subrange(p: Seq<char>, q: Seq<char>, i: int, j: int)
    requires
        0 <= i <= j <= q.len(),
    ensures
        (p + q).subrange(p.len() + i, p.len() + j) == q.subrange(i, j),
{
    assert((p + q).subrange(p.len() + i, p.len() + j) =~= q.subrange(i, j));
}

proof fn lemma_concat_subrange_front(p: Seq<char>, q: Seq<char>, i: int, j: int)
    requires
        0 <= i <= j <= p.len(),
    ensures
        (p + q).subrange(i, j) == p.subrange(i, j),
{
    assert((p + q).subrange(i, j) =~= p.subrange(i, j));
}

/// The printed text of a commit cut at the start of its author's lines.
proof fn lemma_pretty_text_parts(c: CommitView)
    ensures
        pretty_text(c) == (id_lines(c) + parent_lines(c.parents)) + (author_lines(c.author)
            + committer_lines(c.committer) + "\n"@ + message_lines(c.message)),
        id_lines(c).len() == c.sha.len() + c.tree.len() + 16,
        (id_lines(c) + parent_lines(c.parents)).len() == author_start(c),
{
    reveal_strlit("commit ");
    reveal_strlit("tree   ");
    reveal_strlit("\n");
    lemma_parent_lines_index(c.parents);
    assert(pretty_text(c) =~= (id_lines(c) + parent_lines(c.parents)) + (author_lines(c.author)
        + committer_lines(c.committer) + "\n"@ + message_lines(c.message)));
}

/// The printed text of a commit, part by part: the commit and tree lines;
/// then parent `i`, for each `i` in order, on a line of its own; then the
/// author's lines, built from the author alone, the committer's lines, built
/// from the committer alone, a blank line, and the message.
pub proof fn law_pretty_text_layout(c: CommitView)
    ensures
        ({
            let t = pretty_text(c);
            let h = c.sha.len() + c.tree.len() + 16int;
            &&& t.take(h) == "commit "@ + c.sha + "\n"@ + "tree   "@ + c.tree + "\n"@
            &&& forall|i: int|
                0 <= i < c.parents.len() ==> t.subrange(
                    h + parent_block_len(c.parents, i),
                    h + parent_block_len(c.parents, i + 1),
                ) == "parent "@ + #[trigger] c.parents[i] + "\n"@
            &&& t.skip(author_start(c)) == author_lines(c.author) + committer_lines(c.committer)
                + "\n"@ + message_lines(c.message)
        }),
{
    lemma_pretty_text_parts(c);
    lemma_parent_lines_index(c.parents);
    let t = pretty_text(c);
    let head = id_lines(c);
    let pl = parent_lines(c.parents);
    let rest = author_lines(c.author) + committer_lines(c.committer) + "\n"@ + message_lines(
        c.message,
    );
    let h = c.sha.len() + c.tree.len() + 16int;
    lemma_concat_take_skip(head + pl, rest);
    lemma_concat_assoc(head, pl, rest);
    lemma_concat_take_skip(head, pl + rest);
    assert forall|i: int| 0 <= i < c.parents.len() implies t.subrange(
        h + parent_block_len(c.parents, i),
        h + parent_block_len(c.parents, i + 1),
    ) == "parent "@ + #[trigger] c.parents[i] + "\n"@ by {
        let lo = parent_block_len(c.parents, i);
        let hi = parent_block_len(c.parents, i + 1);
        lemma_parent_block_len_monotone(c.parents, i, i + 1);
        lemma_parent_block_len_monotone(c.parents, i + 1, c.parents.len() as int);
        lemma_concat_subrange(head, pl + rest, lo, hi);
        lemma_concat_subrange_front(pl, rest, lo, hi);
    }
}

/// Printing a commit whose committer alone differs leaves everything up to
/// the `Committer:` line unchanged; printing a commit whose author alone
/// differs leaves everything from the `Committer:` line on unchanged.
pub proof fn law_signatures_print_apart(c: CommitView, other: SignatureView)
    ensures
        ({
            let d = CommitView { committer: other, ..c };
            let k = author_start(c) + author_lines(c.author).len();
            pretty_text(c).take(k) == pretty_text(d).take(k)
        }),
        ({
            let e = CommitView { author: other, ..c };
            pretty_text(c).skip(author_start(c) + author_lines(c.author).len()) == pretty_text(
                e,
            ).skip(author_start(e) + author_lines(e.author).len())
        }),
{
    let d = CommitView { committer: other, ..c };
    let e = CommitView { author: other, ..c };
    lemma_pretty_text_parts(c);
    lemma_pretty_text_parts(d);
    lemma_pretty_text_parts(e);
    let x = id_lines(c) + parent_lines(c.parents);
    let tail = "\n"@ + message_lines(c.message);
    assert(id_lines(d) == id_lines(c) && id_lines(e) == id_lines(c));
    let ac = author_lines(c.author);
    let ae = author_lines(other);
    let cc = committer_lines(c.committer);
    let cd = committer_lines(other);
    // each text as (ids and parents + author's lines) + (committer's lines + tail)
    lemma_concat_assoc(ac + cc, "\n"@, message_lines(c.message));
    lemma_concat_assoc(ac, cc, tail);
    lemma_concat_assoc(x, ac, cc + tail);
    lemma_concat_assoc(ac + cd, "\n"@, message_lines(c.message));
    lemma_concat_assoc(ac, cd, tail);
    lemma_concat_assoc(x, ac, cd + tail);
    lemma_concat_assoc(ae + cc, "\n"@, message_lines(c.message));
    lemma_concat_assoc(ae, cc, tail);
    lemma_concat_assoc(x, ae, cc + tail);
    lemma_concat_take_skip(x + ac, cc + tail);
    lemma_concat_take_skip(x + ac, cd + tail);
    lemma_concat_take_skip(x + ae, cc + tail);
}

} // verus!
