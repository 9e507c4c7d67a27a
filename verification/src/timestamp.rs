use vstd::prelude::*;

use crate::shims::string_push;

verus! {

/// The millisecond counts the record format carries: from the start of
/// 1970 up to the end of year 9999.
pub open spec fn ts_in_range(ms: i64) -> bool {
    0 <= ms < 253402300800000
}

pub open spec fn pow10(w: nat) -> nat
    decreases w,
{
    if w == 0 {
        1
    } else {
        10 * pow10((w - 1) as nat)
    }
}

pub proof fn lemma_pow10_vals()
    ensures
        pow10(2) == 100,
        pow10(3) == 1000,
        pow10(4) == 10000,
        pow10(11) == 100000000000,
        pow10(12) == 1000000000000,
{
    assert(pow10(0) == 1);
    assert(pow10(1) == 10);
    assert(pow10(2) == 100);
    assert(pow10(3) == 1000);
    assert(pow10(4) == 10000);
    assert(pow10(5) == 100000);
    assert(pow10(6) == 1000000);
    assert(pow10(7) == 10000000);
    assert(pow10(8) == 100000000);
    assert(pow10(9) == 1000000000);
    assert(pow10(10) == 10000000000);
    assert(pow10(11) == 100000000000);
    assert(pow10(12) == 1000000000000);
}

pub proof fn lemma_pow10_mono(a: nat, b: nat)
    requires
        a <= b,
    ensures
        pow10(a) <= pow10(b),
        pow10(a) >= 1,
    decreases b,
{
    if a < b {
        lemma_pow10_mono(a, (b - 1) as nat);
    } else if a == b && a > 0 {
        lemma_pow10_mono((a - 1) as nat, (a - 1) as nat);
    }
}

pub open spec fn dec_char_of(d: int) -> char {
    (0x30 + d) as char
}

pub open spec fn is_dec_char(c: char) -> bool {
    0x30 <= c as u32 <= 0x39
}

pub open spec fn dec_char_val(c: char) -> int {
    c as u32 - 0x30
}

/// The fixed-width decimal character form of `n`, leading zeros kept.
pub open spec fn dec_chars(n: nat, width: nat) -> Seq<char>
    decreases width,
{
    if width == 0 {
        Seq::empty()
    } else {
        dec_chars(n / 10, (width - 1) as nat).push(dec_char_of((n % 10) as int))
    }
}

pub open spec fn dec_chars_val(cs: Seq<char>) -> int
    decreases cs.len(),
{
    if cs.len() == 0 {
        0
    } else {
        dec_chars_val(cs.drop_last()) * 10 + dec_char_val(cs.last())
    }
}

pub proof fn lemma_dec_chars_shape(n: nat, w: nat)
    ensures
        dec_chars(n, w).len() == w,
        forall|i: int| 0 <= i < w ==> is_dec_char(#[trigger] dec_chars(n, w)[i]),
    decreases w,
{
    if w > 0 {
        lemma_dec_chars_shape(n / 10, (w - 1) as nat);
        let t = dec_chars(n, w);
        assert(t == dec_chars(n / 10, (w - 1) as nat).push(dec_char_of((n % 10) as int)));
        assert(is_dec_char(dec_char_of((n % 10) as int)));
        assert(forall|i: int|
            0 <= i < w - 1 ==> t[i] == #[trigger] dec_chars(n / 10, (w - 1) as nat)[i]);
    }
}

pub proof fn lemma_dec_chars_val(n: nat, w: nat)
    requires
        n < pow10(w),
    ensures
        dec_chars_val(dec_chars(n, w)) == n,
    decreases w,
{
    if w == 0 {
        assert(dec_chars(n, w) =~= Seq::<char>::empty());
    } else {
        assert(n / 10 < pow10((w - 1) as nat)) by {
            if n / 10 >= pow10((w - 1) as nat) {
                assert(n >= 10 * (n / 10));
            }
        }
        lemma_dec_chars_val(n / 10, (w - 1) as nat);
        let t = dec_chars(n, w);
        assert(t == dec_chars(n / 10, (w - 1) as nat).push(dec_char_of((n % 10) as int)));
        assert(t.drop_last() =~= dec_chars(n / 10, (w - 1) as nat));
        assert(t.last() == dec_char_of((n % 10) as int));
        assert(dec_char_val(dec_char_of((n % 10) as int)) == n % 10);
        assert(dec_chars_val(t) == (n / 10) * 10 + n % 10);
    }
}

/// Appends the fixed-width decimal characters of `n`.
fn push_dec_chars(out: &mut String, n: u64, width: usize)
    ensures
        final(out)@ == old(out)@ + dec_chars(n as nat, width as nat),
    decreases width,
{
    if width == 0 {
        proof {
            assert(final(out)@ =~= old(out)@ + dec_chars(n as nat, width as nat));
        }
    } else {
        push_dec_chars(out, n / 10, width - 1);
        let d: u8 = (n % 10) as u8;
        let c: char = (0x30 + d) as char;
        string_push(out, c);
        proof {
            assert(c == dec_char_of((n as nat % 10) as int));
            assert(final(out)@ =~= old(out)@ + dec_chars(n as nat, width as nat));
        }
    }
}

/// Reads fixed-width decimal characters of the text. Whatever else it
/// does, it reads the fixed-width form of every value that fits the width.
fn parse_dec_chars(u: &str, pos: usize, width: usize) -> (r: Option<u64>)
    requires
        pos + width <= u@.len(),
        width <= 12,
        pos + width <= usize::MAX,
    ensures
        r matches Some(v) ==> v < pow10(width as nat),
        forall|n: u64|
            n < pow10(width as nat) && u@.subrange(pos as int, pos + width) == dec_chars(
                n as nat,
                width as nat,
            ) ==> r == Some(n),
{
    proof {
        lemma_pow10_vals();
    }
    let mut j: usize = 0;
    let mut acc: u64 = 0;
    while j < width
        invariant
            0 <= j <= width,
            width <= 12,
            pos + width <= usize::MAX,
            pos + width <= u@.len(),
            acc as int == dec_chars_val(u@.subrange(pos as int, pos + j)),
            acc < pow10(j as nat),
        decreases width - j,
    {
        let c: char = vstd::string::StrSliceExecFns::get_char(u, pos + j);
        let cu: u32 = c as u32;
        if !(0x30 <= cu && cu <= 0x39) {
            proof {
                assert forall|n: u64|
                    n < pow10(width as nat) && u@.subrange(pos as int, pos + width) == dec_chars(
                        n as nat,
                        width as nat,
                    ) implies false by {
                    lemma_dec_chars_shape(n as nat, width as nat);
                    assert(u@[pos + j] == u@.subrange(pos as int, pos + width)[j as int]);
                    assert(is_dec_char(dec_chars(n as nat, width as nat)[j as int]));
                }
            }
            return None;
        }
        let v: u8 = (cu - 0x30) as u8;
        proof {
            lemma_pow10_vals();
            lemma_pow10_mono(j as nat, 11);
            assert(pow10(12) == 10 * pow10(11));
            assert(pow10((j + 1) as nat) == 10 * pow10(j as nat));
            assert(u@.subrange(pos as int, pos + j + 1).drop_last() =~= u@.subrange(
                pos as int,
                pos + j,
            ));
            assert(dec_char_val(u@[pos + j]) == v);
            assert(dec_chars_val(u@.subrange(pos as int, pos + j + 1)) == acc as int * 10 + v);
        }
        acc = acc * 10 + v as u64;
        j = j + 1;
    }
    proof {
        lemma_pow10_vals();
        assert forall|n: u64|
            n < pow10(width as nat) && u@.subrange(pos as int, pos + width) == dec_chars(
                n as nat,
                width as nat,
            ) implies acc == n by {
            lemma_dec_chars_val(n as nat, width as nat);
        }
    }
    Some(acc)
}

/// Days since the epoch, and the milliseconds into that day.
pub open spec fn ts_days(ms: i64) -> int {
    ms as int / 86400000
}

pub open spec fn ts_msod(ms: i64) -> int {
    ms as int % 86400000
}

pub open spec fn ts_hour(ms: i64) -> int {
    ts_msod(ms) / 3600000
}

pub open spec fn ts_minute(ms: i64) -> int {
    ts_msod(ms) % 3600000 / 60000
}

pub open spec fn ts_second(ms: i64) -> int {
    ts_msod(ms) % 60000 / 1000
}

pub open spec fn ts_milli(ms: i64) -> int {
    ts_msod(ms) % 1000
}

/// The civil calendar from a day count, as (year, month, day): days are
/// grouped into 400-year eras of 146097 days; within an era the year is
/// read off a day-of-era correction for leap days, and the month from a
/// March-first year so the leap day falls last.
pub open spec fn civil_of(days: int) -> (int, int, int) {
    let z = days + 719468;
    let era = z / 146097;
    let doe = z % 146097;
    let yoe = (doe - doe / 1460 + doe / 36524 - doe / 146096) / 365;
    let doy = doe - (365 * yoe + yoe / 4 - yoe / 100);
    let mp = (5 * doy + 2) / 153;
    let d = doy - (153 * mp + 2) / 5 + 1;
    let m = if mp < 10 {
        mp + 3
    } else {
        mp - 9
    };
    let y = yoe + era * 400 + if m <= 2 {
        1int
    } else {
        0int
    };
    (y, m, d)
}

pub open spec fn cd_year(days: int) -> int {
    civil_of(days).0
}

pub open spec fn cd_month(days: int) -> int {
    civil_of(days).1
}

pub open spec fn cd_day(days: int) -> int {
    civil_of(days).2
}

/// The day count of a civil date, the inverse direction.
pub open spec fn days_of_civil(y: int, m: int, d: int) -> int {
    let yy = if m <= 2 {
        y - 1
    } else {
        y
    };
    let era = yy / 400;
    let yoe = yy - era * 400;
    let mp = if m > 2 {
        m - 3
    } else {
        m + 9
    };
    let doy = (153 * mp + 2) / 5 + d - 1;
    let doe = yoe * 365 + yoe / 4 - yoe / 100 + doy;
    era * 146097 + doe - 719468
}

/// Within an era, the year read off the day count is the one the day falls
/// in: the day lies on or after the year's first day and within its
/// length, the year index stays below 400, and reassembling the date gives
/// the day count back.
pub proof fn lemma_civil_inverse(days: int)
    requires
        0 <= days <= 2932896,
    ensures
        days_of_civil(cd_year(days), cd_month(days), cd_day(days)) == days,
        1970 <= cd_year(days) <= 9999,
        1 <= cd_month(days) <= 12,
        1 <= cd_day(days) <= 31,
{
    let z = days + 719468;
    let era = z / 146097;
    let doe = z % 146097;
    assert(z == era * 146097 + doe);
    assert(0 <= doe < 146097);
    assert(4 <= era <= 24);
    let yoe = (doe - doe / 1460 + doe / 36524 - doe / 146096) / 365;
    assert(0 <= yoe <= 399);
    let start = 365 * yoe + yoe / 4 - yoe / 100;
    let doy = doe - start;
    assert(0 <= doy <= 365);
    let mp = (5 * doy + 2) / 153;
    assert(0 <= mp <= 11);
    let d = doy - (153 * mp + 2) / 5 + 1;
    assert(1 <= d <= 31);
    let m = if mp < 10 {
        mp + 3
    } else {
        mp - 9
    };
    assert(1 <= m <= 12);
    let year0 = yoe + era * 400 + if m <= 2 {
        1int
    } else {
        0int
    };
    assert(civil_of(days) == (year0, m, d));
    assert(cd_year(days) == year0 && cd_month(days) == m && cd_day(days) == d);
    assert(m <= 2 <==> mp >= 10);
    let year = year0;
    let yy = if m <= 2 {
        year - 1
    } else {
        year
    };
    assert(yy == yoe + era * 400);
    assert(yy / 400 == era);
    assert(yy - era * 400 == yoe);
    let mp2 = if m > 2 {
        m - 3
    } else {
        m + 9
    };
    assert(mp2 == mp);
    let doy2 = (153 * mp + 2) / 5 + d - 1;
    assert(doy2 == doy);
    let doe2 = yoe * 365 + yoe / 4 - yoe / 100 + doy;
    assert(doe2 == doe);
    assert(days_of_civil(year, m, d) == era * 146097 + doe - 719468);
    assert(1970 <= year <= 9999) by {
        if era <= 23 {
            assert(year <= 399 + 23 * 400 + 1);
        } else {
            assert(z <= 3652364);
            assert(doe <= 3652364 - 24 * 146097);
            if yoe == 399 && doy >= 306 {
                assert(doe >= 365 * 399 + 99 - 3 + 306);
                assert(false);
            }
            if yoe == 399 {
                assert(mp < 10 ==> m > 2);
                assert(doy < 306 ==> 5 * doy + 2 < 1532);
                assert(year <= 9999);
            } else {
                assert(year <= 398 + 24 * 400 + 1);
            }
        }
        assert(z >= 719468);
        if era == 4 {
            assert(doe >= 719468 - 4 * 146097);
            if yoe <= 368 {
                assert(start <= 365 * 368 + 92);
                assert(doy >= doe - start);
                assert(false);
            }
            assert(year >= 369 + 1600);
        } else {
            assert(era >= 5);
            assert(year >= 5 * 400);
        }
    }
}

/// The text of a timestamp: the civil date and the time of day, to the
/// millisecond, in the interchange date-time form, zone Z.
pub open spec fn ts_chars(ms: i64) -> Seq<char> {
    let days = ts_days(ms);
    dec_chars(cd_year(days) as nat, 4) + seq!['-'] + dec_chars(cd_month(days) as nat, 2) + seq![
        '-',
    ] + dec_chars(cd_day(days) as nat, 2) + seq!['T'] + dec_chars(ts_hour(ms) as nat, 2) + seq![
        ':',
    ] + dec_chars(ts_minute(ms) as nat, 2) + seq![':'] + dec_chars(ts_second(ms) as nat, 2) + seq![
        '.',
    ] + dec_chars(ts_milli(ms) as nat, 3) + seq!['Z']
}

/// The shape of a timestamp's text: twenty-four characters, the separators
/// in their places, each group the fixed-width form of its field.
proof fn lemma_ts_chars_shape(ms: i64)
    requires
        ts_in_range(ms),
    ensures
        ts_chars(ms).len() == 24,
        ts_chars(ms)[4] == '-',
        ts_chars(ms)[7] == '-',
        ts_chars(ms)[10] == 'T',
        ts_chars(ms)[13] == ':',
        ts_chars(ms)[16] == ':',
        ts_chars(ms)[19] == '.',
        ts_chars(ms)[23] == 'Z',
        ts_chars(ms).subrange(0, 4) == dec_chars(cd_year(ts_days(ms)) as nat, 4),
        ts_chars(ms).subrange(5, 7) == dec_chars(cd_month(ts_days(ms)) as nat, 2),
        ts_chars(ms).subrange(8, 10) == dec_chars(cd_day(ts_days(ms)) as nat, 2),
        ts_chars(ms).subrange(11, 13) == dec_chars(ts_hour(ms) as nat, 2),
        ts_chars(ms).subrange(14, 16) == dec_chars(ts_minute(ms) as nat, 2),
        ts_chars(ms).subrange(17, 19) == dec_chars(ts_second(ms) as nat, 2),
        ts_chars(ms).subrange(20, 23) == dec_chars(ts_milli(ms) as nat, 3),
        cd_year(ts_days(ms)) < 10000,
        cd_month(ts_days(ms)) < 100,
        cd_day(ts_days(ms)) < 100,
        0 <= ts_hour(ms) < 24,
        0 <= ts_minute(ms) < 60,
        0 <= ts_second(ms) < 60,
        0 <= ts_milli(ms) < 1000,
        0 <= ts_days(ms) <= 2932896,
{
    let days = ts_days(ms);
    assert(0 <= days <= 2932896);
    lemma_civil_inverse(days);
    lemma_dec_chars_shape(cd_year(days) as nat, 4);
    lemma_dec_chars_shape(cd_month(days) as nat, 2);
    lemma_dec_chars_shape(cd_day(days) as nat, 2);
    lemma_dec_chars_shape(ts_hour(ms) as nat, 2);
    lemma_dec_chars_shape(ts_minute(ms) as nat, 2);
    lemma_dec_chars_shape(ts_second(ms) as nat, 2);
    lemma_dec_chars_shape(ts_milli(ms) as nat, 3);
    let w = ts_chars(ms);
    assert(w.len() == 24);
    assert(w.subrange(0, 4) =~= dec_chars(cd_year(days) as nat, 4));
    assert(w.subrange(5, 7) =~= dec_chars(cd_month(days) as nat, 2));
    assert(w.subrange(8, 10) =~= dec_chars(cd_day(days) as nat, 2));
    assert(w.subrange(11, 13) =~= dec_chars(ts_hour(ms) as nat, 2));
    assert(w.subrange(14, 16) =~= dec_chars(ts_minute(ms) as nat, 2));
    assert(w.subrange(17, 19) =~= dec_chars(ts_second(ms) as nat, 2));
    assert(w.subrange(20, 23) =~= dec_chars(ts_milli(ms) as nat, 3));
}

/// The timestamp's text for a millisecond count the format carries.
pub fn timestamp_string(ms: i64) -> (r: String)
    requires
        ts_in_range(ms),
    ensures
        r@ == ts_chars(ms),
{
    proof {
        lemma_ts_chars_shape(ms);
    }
    let days: i64 = ms / 86400000;
    let msod: i64 = ms % 86400000;
    let z: i64 = days + 719468;
    let era: i64 = z / 146097;
    let doe: i64 = z % 146097;
    let yoe: i64 = (doe - doe / 1460 + doe / 36524 - doe / 146096) / 365;
    let doy: i64 = doe - (365 * yoe + yoe / 4 - yoe / 100);
    let mp: i64 = (5 * doy + 2) / 153;
    let day: i64 = doy - (153 * mp + 2) / 5 + 1;
    let month: i64 = if mp < 10 {
        mp + 3
    } else {
        mp - 9
    };
    let year: i64 = yoe + era * 400 + if month <= 2 {
        1
    } else {
        0
    };
    let hour: i64 = msod / 3600000;
    let minute: i64 = msod % 3600000 / 60000;
    let second: i64 = msod % 60000 / 1000;
    let milli: i64 = msod % 1000;
    proof {
        assert(days == ts_days(ms) && msod == ts_msod(ms));
        assert(civil_of(days as int) == (year as int, month as int, day as int));
        assert(year == cd_year(days as int) && month == cd_month(days as int) && day == cd_day(
            days as int,
        ));
        assert(hour == ts_hour(ms) && minute == ts_minute(ms) && second == ts_second(ms) && milli
            == ts_milli(ms));
    }
    let mut out = String::new();
    push_dec_chars(&mut out, year as u64, 4);
    string_push(&mut out, '-');
    push_dec_chars(&mut out, month as u64, 2);
    string_push(&mut out, '-');
    push_dec_chars(&mut out, day as u64, 2);
    string_push(&mut out, 'T');
    push_dec_chars(&mut out, hour as u64, 2);
    string_push(&mut out, ':');
    push_dec_chars(&mut out, minute as u64, 2);
    string_push(&mut out, ':');
    push_dec_chars(&mut out, second as u64, 2);
    string_push(&mut out, '.');
    push_dec_chars(&mut out, milli as u64, 3);
    string_push(&mut out, 'Z');
    proof {
        assert(out@ =~= ts_chars(ms));
    }
    out
}

/// A timestamp's fields reassemble to its own count: the date fields give
/// the day count back, and the day, hour, minute, second and millisecond
/// parts sum to the count.
proof fn lemma_ts_value(ms0: i64)
    requires
        ts_in_range(ms0),
    ensures
        days_of_civil(cd_year(ts_days(ms0)), cd_month(ts_days(ms0)), cd_day(ts_days(ms0)))
            == ts_days(ms0),
        ts_days(ms0) * 86400000 + ts_hour(ms0) * 3600000 + ts_minute(ms0) * 60000 + ts_second(ms0)
            * 1000 + ts_milli(ms0) == ms0,
        1970 <= cd_year(ts_days(ms0)) <= 9999,
        1 <= cd_month(ts_days(ms0)) <= 12,
        1 <= cd_day(ts_days(ms0)) <= 31,
        0 <= ts_hour(ms0) < 24,
        0 <= ts_minute(ms0) < 60,
        0 <= ts_second(ms0) < 60,
        0 <= ts_milli(ms0) < 1000,
{
    lemma_civil_inverse(ts_days(ms0));
    let a = ts_msod(ms0);
    assert(0 <= a < 86400000);
    let r1 = a % 3600000;
    let r2 = a % 60000;
    let r3 = a % 1000;
    assert(ts_hour(ms0) == a / 3600000 && ts_minute(ms0) == r1 / 60000 && ts_second(ms0) == r2
        / 1000 && ts_milli(ms0) == r3);
    assert(a == 3600000 * (a / 3600000) + r1);
    assert(r1 == 60000 * (r1 / 60000) + r1 % 60000);
    assert(r2 == 1000 * (r2 / 1000) + r2 % 1000);
    assert(r1 % 60000 == r2) by {
        vstd::arithmetic::div_mod::lemma_mod_multiples_vanish(60 * (a / 3600000), r1, 60000);
        assert(60000 * (60 * (a / 3600000)) + r1 == a);
    }
    assert(r2 % 1000 == r3) by {
        vstd::arithmetic::div_mod::lemma_mod_multiples_vanish(3600 * (a / 3600000), r1, 1000);
        assert(1000 * (3600 * (a / 3600000)) + r1 == a);
        vstd::arithmetic::div_mod::lemma_mod_multiples_vanish(60 * (r1 / 60000), r2, 1000);
        assert(1000 * (60 * (r1 / 60000)) + r2 == r1);
    }
    assert(a == 3600000 * ts_hour(ms0) + 60000 * ts_minute(ms0) + 1000 * ts_second(ms0) + ts_milli(
        ms0,
    ));
    assert(ms0 == 86400000 * ts_days(ms0) + a);
}

/// Reassembles a millisecond count from in-range calendar fields.
fn recompose_timestamp(y: u64, mo: u64, d: u64, h: u64, mi: u64, se: u64, f: u64) -> (r: i64)
    requires
        1970 <= y <= 9999,
        1 <= mo <= 12,
        1 <= d <= 31,
        h < 24,
        mi < 60,
        se < 60,
        f < 1000,
    ensures
        r == days_of_civil(y as int, mo as int, d as int) * 86400000 + h * 3600000 + mi * 60000
            + se * 1000 + f,
{
    let yi: i64 = y as i64;
    let moi: i64 = mo as i64;
    let di: i64 = d as i64;
    let yy: i64 = if moi <= 2 {
        yi - 1
    } else {
        yi
    };
    let era: i64 = yy / 400;
    let yoe: i64 = yy - era * 400;
    let mp: i64 = if moi > 2 {
        moi - 3
    } else {
        moi + 9
    };
    let doy: i64 = (153 * mp + 2) / 5 + di - 1;
    let doe: i64 = yoe * 365 + yoe / 4 - yoe / 100 + doy;
    let days: i64 = era * 146097 + doe - 719468;
    proof {
        assert(4 <= era <= 24);
        assert(0 <= yoe <= 399);
        assert(days == days_of_civil(y as int, mo as int, d as int));
        assert(-200000 <= days <= 2940000);
    }
    days * 86400000 + (h as i64) * 3600000 + (mi as i64) * 60000 + (se as i64) * 1000 + (f as i64)
}

/// Reads a timestamp's text back to its millisecond count. Whatever else
/// it does, it reads the text of every count the format carries.
#[verifier::rlimit(100)]
pub fn parse_timestamp_string(u: &str) -> (r: Option<i64>)
    ensures
        forall|ms: i64| ts_in_range(ms) && u@ == ts_chars(ms) ==> r == Some(ms),
{
    proof {
        lemma_pow10_vals();
        assert forall|ms: i64| ts_in_range(ms) && u@ == ts_chars(ms) implies u@.len() == 24
            && u@[4] == '-' && u@[7] == '-' && u@[10] == 'T' && u@[13] == ':' && u@[16] == ':'
            && u@[19] == '.' && u@[23] == 'Z' by {
            lemma_ts_chars_shape(ms);
        }
    }
    let n = vstd::string::StrSliceExecFns::unicode_len(u);
    if n != 24 {
        return None;
    }
    if !(vstd::string::StrSliceExecFns::get_char(u, 4) == '-'
        && vstd::string::StrSliceExecFns::get_char(u, 7) == '-'
        && vstd::string::StrSliceExecFns::get_char(u, 10) == 'T'
        && vstd::string::StrSliceExecFns::get_char(u, 13) == ':'
        && vstd::string::StrSliceExecFns::get_char(u, 16) == ':'
        && vstd::string::StrSliceExecFns::get_char(u, 19) == '.'
        && vstd::string::StrSliceExecFns::get_char(u, 23) == 'Z') {
        return None;
    }
    let c1 = parse_dec_chars(u, 0, 4);
    let c2 = parse_dec_chars(u, 5, 2);
    let c3 = parse_dec_chars(u, 8, 2);
    let c4 = parse_dec_chars(u, 11, 2);
    let c5 = parse_dec_chars(u, 14, 2);
    let c6 = parse_dec_chars(u, 17, 2);
    let c7 = parse_dec_chars(u, 20, 3);
    match (c1, c2, c3, c4, c5, c6, c7) {
        (Some(y), Some(mo), Some(d), Some(h), Some(mi), Some(se), Some(f)) => {
            proof {
                assert forall|ms0: i64| ts_in_range(ms0) && u@ == ts_chars(ms0) implies y
                    == cd_year(ts_days(ms0)) && mo == cd_month(ts_days(ms0)) && d == cd_day(
                    ts_days(ms0),
                ) && h == ts_hour(ms0) && mi == ts_minute(ms0) && se == ts_second(ms0) && f
                    == ts_milli(ms0) by {
                    lemma_ts_chars_shape(ms0);
                    lemma_ts_value(ms0);
                }
            }
            if !(1970 <= y && y <= 9999 && 1 <= mo && mo <= 12 && 1 <= d && d <= 31 && h < 24 && mi
                < 60 && se < 60 && f < 1000) {
                proof {
                    assert forall|ms0: i64| ts_in_range(ms0) && u@ == ts_chars(ms0) implies false by {
                        lemma_ts_value(ms0);
                    }
                }
                return None;
            }
            let ms: i64 = recompose_timestamp(y, mo, d, h, mi, se, f);
            if !(0 <= ms && ms < 253402300800000) {
                proof {
                    assert forall|ms0: i64| ts_in_range(ms0) && u@ == ts_chars(ms0) implies false by {
                        lemma_ts_value(ms0);
                    }
                }
                return None;
            }
            proof {
                assert forall|ms0: i64| ts_in_range(ms0) && u@ == ts_chars(ms0) implies ms
                    == ms0 by {
                    lemma_ts_value(ms0);
                }
            }
            Some(ms)
        },
        _ => {
            proof {
                assert forall|ms: i64| ts_in_range(ms) && u@ == ts_chars(ms) implies false by {
                    lemma_ts_chars_shape(ms);
                }
            }
            None
        },
    }
}

} // verus!
