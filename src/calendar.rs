//! The calendar month of an instant, in a fixed offset from UTC, and its
//! `YYYY-MM` label.
use vstd::prelude::*;

verus! {

/// The year and month (numbered from 1) at `secs` seconds after the Unix
/// epoch, seen in the fixed offset of `offset_secs` seconds east of UTC;
/// `None` where the calendar cannot hold that instant.
pub uninterp spec fn local_year_month(secs: int, offset_secs: int) -> Option<(int, int)>;

/// Relies on chrono's `DateTime::from_timestamp` (UTC epoch seconds, `None`
/// out of its calendar's range), `FixedOffset::east_opt` (`Some` for offsets
/// under a day), `DateTime::with_timezone`, and `Datelike::year` /
/// `Datelike::month` (months numbered 1 to 12).
#[verifier::external_body]
fn chrono_year_month(secs: i64, offset_secs: i32) -> (r: Option<(i32, u32)>)
    requires
        -86400 < offset_secs < 86400,
    ensures
        r is None <==> local_year_month(secs as int, offset_secs as int) is None,
        r matches Some((y, m)) ==> local_year_month(secs as int, offset_secs as int) == Some(
            (y as int, m as int),
        ) && 1 <= m <= 12,
{
    let offset = chrono::FixedOffset::east_opt(offset_secs)?;
    let local = chrono::DateTime::from_timestamp(secs, 0)?.with_timezone(&offset);
    Some((chrono::Datelike::year(&local), chrono::Datelike::month(&local)))
}

/// Offset of the reporting time zone, UTC+05:30, in seconds.
pub const REPORT_OFFSET_SECS: i32 = 19800;

/// The year and month in the reporting time zone of a start time given in
/// seconds since the epoch; `None` where no calendar date exists for it.
pub open spec fn report_year_month(secs: int) -> Option<(int, int)> {
    if i64::MIN <= secs <= i64::MAX {
        local_year_month(secs as int, REPORT_OFFSET_SECS as int)
    } else {
        None
    }
}

/// The year and month, in the reporting time zone, of `secs` seconds after
/// the epoch.
pub fn year_month_of(secs: i64) -> (r: Option<(i32, u32)>)
    ensures
        r is None <==> report_year_month(secs as int) is None,
        r matches Some((y, m)) ==> report_year_month(secs as int) == Some((y as int, m as int))
            && 1 <= m <= 12,
{
    chrono_year_month(secs, REPORT_OFFSET_SECS)
}

/// The ASCII digit for `d`, for `d` from 0 to 9.
pub open spec fn digit_char(d: int) -> char {
    if d == 0 {
        '0'
    } else if d == 1 {
        '1'
    } else if d == 2 {
        '2'
    } else if d == 3 {
        '3'
    } else if d == 4 {
        '4'
    } else if d == 5 {
        '5'
    } else if d == 6 {
        '6'
    } else if d == 7 {
        '7'
    } else if d == 8 {
        '8'
    } else {
        '9'
    }
}

/// `YYYY-MM`: the year in four digits and the month in two, zero-padded.
pub open spec fn month_label(year: int, month: int) -> Seq<char> {
    seq![
        digit_char(year / 1000),
        digit_char(year / 100 % 10),
        digit_char(year / 10 % 10),
        digit_char(year % 10),
        '-',
        digit_char(month / 10),
        digit_char(month % 10),
    ]
}

fn digit_text(d: u32) -> (r: &'static str)
    requires
        d <= 9,
    ensures
        r@ == seq![digit_char(d as int)],
{
    proof {
        reveal_strlit("0");
        reveal_strlit("1");
        reveal_strlit("2");
        reveal_strlit("3");
        reveal_strlit("4");
        reveal_strlit("5");
        reveal_strlit("6");
        reveal_strlit("7");
        reveal_strlit("8");
        reveal_strlit("9");
    }
    match d {
        0 => "0",
        1 => "1",
        2 => "2",
        3 => "3",
        4 => "4",
        5 => "5",
        6 => "6",
        7 => "7",
        8 => "8",
        _ => "9",
    }
}

/// The label of a month of a four-digit year.
pub fn month_label_of(year: i32, month: u32) -> (r: String)
    requires
        0 <= year <= 9999,
        1 <= month <= 12,
    ensures
        r@ == month_label(year as int, month as int),
{
    let y = year as u32;
    let mut r = String::from_str(digit_text(y / 1000));
    r.append(digit_text(y / 100 % 10));
    r.append(digit_text(y / 10 % 10));
    r.append(digit_text(y % 10));
    proof {
        reveal_strlit("-");
    }
    r.append("-");
    r.append(digit_text(month / 10));
    r.append(digit_text(month % 10));
    assert(r@ =~= month_label(year as int, month as int));
    r
}

} // verus!
