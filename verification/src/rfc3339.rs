//! Instants as RFC 3339 UTC strings ("2026-10-09T14:30:05Z"), the persisted
//! form of a task's due time: a writer, a parser that accepts exactly the
//! strings the writer produces, and the round-trip law between them.

use vstd::prelude::*;
use vstd::arithmetic::div_mod::{lemma_fundamental_div_mod, lemma_fundamental_div_mod_converse};
use crate::date::{
    CivilTime, SEC_COUNT, civil_of_local, digit_char, lemma_civil_exists,
    lemma_civil_of_local_agrees, days_in_month, secs_of_civil_time,
};
use crate::timeparse::{is_digit, digit_val};

verus! {

/// A calendar time as the twenty characters "YYYY-MM-DDTHH:MM:SSZ".
pub open spec fn rfc3339_display(c: CivilTime) -> Seq<char> {
    seq![
        digit_char(c.year as int / 1000),
        digit_char(c.year as int % 1000 / 100),
        digit_char(c.year as int % 1000 % 100 / 10),
        digit_char(c.year as int % 1000 % 100 % 10),
        '-',
        digit_char(c.month as int / 10),
        digit_char(c.month as int % 10),
        '-',
        digit_char(c.day as int / 10),
        digit_char(c.day as int % 10),
        'T',
        digit_char(c.hour as int / 10),
        digit_char(c.hour as int % 10),
        ':',
        digit_char(c.minute as int / 10),
        digit_char(c.minute as int % 10),
        ':',
        digit_char(c.second as int / 10),
        digit_char(c.second as int % 10),
        'Z',
    ]
}

/// The character for a digit has that digit's code.
proof fn lemma_digit_char_code(d: int)
    requires
        0 <= d <= 9,
    ensures
        digit_char(d) as u32 == 48 + d,
        is_digit(digit_char(d)),
        digit_val(digit_char(d)) == d,
{
}

/// A digit character is the character of its value.
proof fn lemma_char_of_digit(c: char)
    requires
        is_digit(c),
    ensures
        digit_char(digit_val(c)) == c,
{
    lemma_digit_char_code(digit_val(c));
    vstd::utf8::char_u32_cast(c, c as u32);
    vstd::utf8::char_u32_cast(digit_char(digit_val(c)), digit_char(digit_val(c)) as u32);
}

fn digit_str(d: u64) -> (r: &'static str)
    requires
        d <= 9,
    ensures
        r@ == seq![digit_char(d as int)],
{
    proof {
        reveal_strlit("0");
        reveal_strlit("1");
        reveal_strlit("2");
        reveal_strlit("3");
        reveal_strlit("4");
        reveal_strlit("5");
        reveal_strlit("6");
        reveal_strlit("7");
        reveal_strlit("8");
        reveal_strlit("9");
    }
    let r: &'static str = if d == 0 {
        "0"
    } else if d == 1 {
        "1"
    } else if d == 2 {
        "2"
    } else if d == 3 {
        "3"
    } else if d == 4 {
        "4"
    } else if d == 5 {
        "5"
    } else if d == 6 {
        "6"
    } else if d == 7 {
        "7"
    } else if d == 8 {
        "8"
    } else {
        "9"
    };
    proof {
        assert(r@ =~= seq![digit_char(d as int)]);
    }
    r
}

/// Write an instant as an RFC 3339 UTC string; nothing when it lies outside
/// the representable calendar.
pub fn rfc3339_utc(t: i64) -> (r: Option<String>)
    ensures
        0 <= t < SEC_COUNT ==> (r matches Some(s) && s@ == rfc3339_display(
            civil_of_local(t as int),
        )),
        !(0 <= t < SEC_COUNT) ==> r is None,
{
    if t < 0 || t as u64 >= SEC_COUNT {
        return None;
    }
    let c = crate::date::civil_of_secs(t as u64);
    proof {
        lemma_civil_of_local_agrees(t as int, c);
    }
    let mut out = String::new();
    out.append(digit_str(c.year / 1000));
    out.append(digit_str(c.year % 1000 / 100));
    out.append(digit_str(c.year % 1000 % 100 / 10));
    out.append(digit_str(c.year % 1000 % 100 % 10));
    out.append("-");
    out.append(digit_str(c.month / 10));
    out.append(digit_str(c.month % 10));
    out.append("-");
    out.append(digit_str(c.day / 10));
    out.append(digit_str(c.day % 10));
    out.append("T");
    out.append(digit_str(c.hour / 10));
    out.append(digit_str(c.hour % 10));
    out.append(":");
    out.append(digit_str(c.minute / 10));
    out.append(digit_str(c.minute % 10));
    out.append(":");
    out.append(digit_str(c.second / 10));
    out.append(digit_str(c.second % 10));
    out.append("Z");
    proof {
        reveal_strlit("-");
        reveal_strlit("T");
        reveal_strlit(":");
        reveal_strlit("Z");
        assert(out@ =~= rfc3339_display(c));
    }
    Some(out)
}

/// The string is what some representable instant writes as.
pub open spec fn is_rfc3339_utc(s: Seq<char>) -> bool {
    exists|t: i64|
        0 <= t < SEC_COUNT && s == rfc3339_display(civil_of_local(t as int))
}

fn digit_at(s: &str, i: usize) -> (r: Option<u64>)
    requires
        i < s@.len(),
    ensures
        (match r {
            Some(d) => d <= 9 && is_digit(s@[i as int]) && d == digit_val(s@[i as int]),
            None => !is_digit(s@[i as int]),
        }),
{
    let c = s.get_char(i);
    let cv = c as u32;
    if 48 <= cv && cv <= 57 {
        Some((cv - 48) as u64)
    } else {
        None
    }
}

/// Read an instant back from an RFC 3339 UTC string. Exactly the canonical
/// strings — those `rfc3339_utc` writes — are accepted.
#[verifier::rlimit(100)]
pub fn parse_rfc3339_utc(s: &str) -> (r: Option<i64>)
    ensures
        (match r {
            Some(t) => 0 <= t < SEC_COUNT && s@ == rfc3339_display(civil_of_local(t as int)),
            None => !is_rfc3339_utc(s@),
        }),
{
    proof {
        if is_rfc3339_utc(s@) {
            let gt = choose|t: i64|
                0 <= t < SEC_COUNT && s@ == rfc3339_display(civil_of_local(t as int));
            lemma_civil_exists(gt as int);
            let gc = civil_of_local(gt as int);
            assert(s@ == rfc3339_display(gc));
            lemma_digit_char_code(gc.year as int / 1000);
            lemma_digit_char_code(gc.year as int % 1000 / 100);
            lemma_digit_char_code(gc.year as int % 1000 % 100 / 10);
            lemma_digit_char_code(gc.year as int % 1000 % 100 % 10);
            lemma_digit_char_code(gc.month as int / 10);
            lemma_digit_char_code(gc.month as int % 10);
            lemma_digit_char_code(gc.day as int / 10);
            lemma_digit_char_code(gc.day as int % 10);
            lemma_digit_char_code(gc.hour as int / 10);
            lemma_digit_char_code(gc.hour as int % 10);
            lemma_digit_char_code(gc.minute as int / 10);
            lemma_digit_char_code(gc.minute as int % 10);
            lemma_digit_char_code(gc.second as int / 10);
            lemma_digit_char_code(gc.second as int % 10);
            lemma_fundamental_div_mod(gc.year as int, 1000);
            lemma_fundamental_div_mod(gc.year as int % 1000, 100);
            lemma_fundamental_div_mod(gc.year as int % 1000 % 100, 10);
            lemma_fundamental_div_mod(gc.month as int, 10);
            lemma_fundamental_div_mod(gc.day as int, 10);
            lemma_fundamental_div_mod(gc.hour as int, 10);
            lemma_fundamental_div_mod(gc.minute as int, 10);
            lemma_fundamental_div_mod(gc.second as int, 10);
        }
    }
    let n = s.unicode_len();
    if n != 20 {
        return None;
    }
    let y0 = digit_at(s, 0);
    let y1 = digit_at(s, 1);
    let y2 = digit_at(s, 2);
    let y3 = digit_at(s, 3);
    let m0 = digit_at(s, 5);
    let m1 = digit_at(s, 6);
    let d0 = digit_at(s, 8);
    let d1 = digit_at(s, 9);
    let h0 = digit_at(s, 11);
    let h1 = digit_at(s, 12);
    let i0 = digit_at(s, 14);
    let i1 = digit_at(s, 15);
    let s0 = digit_at(s, 17);
    let s1 = digit_at(s, 18);
    let seps = s.get_char(4) == '-' && s.get_char(7) == '-' && s.get_char(10) == 'T'
        && s.get_char(13) == ':' && s.get_char(16) == ':' && s.get_char(19) == 'Z';
    let digits = y0.is_some() && y1.is_some() && y2.is_some() && y3.is_some() && m0.is_some()
        && m1.is_some() && d0.is_some() && d1.is_some() && h0.is_some() && h1.is_some()
        && i0.is_some() && i1.is_some() && s0.is_some() && s1.is_some();
    if !(seps && digits) {
        return None;
    }
    let y = y0.unwrap() * 1000 + y1.unwrap() * 100 + y2.unwrap() * 10 + y3.unwrap();
    let mo = m0.unwrap() * 10 + m1.unwrap();
    let dy = d0.unwrap() * 10 + d1.unwrap();
    let hr = h0.unwrap() * 10 + h1.unwrap();
    let mi = i0.unwrap() * 10 + i1.unwrap();
    let se = s0.unwrap() * 10 + s1.unwrap();
    if !(1 <= y && 1 <= mo && mo <= 12) {
        return None;
    }
    if !(1 <= dy && dy <= days_in_month(y, mo)) {
        return None;
    }
    if !(hr <= 23 && mi <= 59 && se <= 59) {
        return None;
    }
    let c = CivilTime { year: y, month: mo, day: dy, hour: hr, minute: mi, second: se };
    let t = secs_of_civil_time(&c);
    proof {
        lemma_civil_of_local_agrees(t as int, c);
        let v0 = digit_val(s@[0]);
        let v1 = digit_val(s@[1]);
        let v2 = digit_val(s@[2]);
        let v3 = digit_val(s@[3]);
        lemma_fundamental_div_mod_converse(y as int, 1000, v0, v1 * 100 + v2 * 10 + v3);
        lemma_fundamental_div_mod_converse(v1 * 100 + v2 * 10 + v3, 100, v1, v2 * 10 + v3);
        lemma_fundamental_div_mod_converse(v2 * 10 + v3, 10, v2, v3);
        lemma_fundamental_div_mod_converse(mo as int, 10, digit_val(s@[5]), digit_val(s@[6]));
        lemma_fundamental_div_mod_converse(dy as int, 10, digit_val(s@[8]), digit_val(s@[9]));
        lemma_fundamental_div_mod_converse(hr as int, 10, digit_val(s@[11]), digit_val(s@[12]));
        lemma_fundamental_div_mod_converse(mi as int, 10, digit_val(s@[14]), digit_val(s@[15]));
        lemma_fundamental_div_mod_converse(se as int, 10, digit_val(s@[17]), digit_val(s@[18]));
        lemma_char_of_digit(s@[0]);
        lemma_char_of_digit(s@[1]);
        lemma_char_of_digit(s@[2]);
        lemma_char_of_digit(s@[3]);
        lemma_char_of_digit(s@[5]);
        lemma_char_of_digit(s@[6]);
        lemma_char_of_digit(s@[8]);
        lemma_char_of_digit(s@[9]);
        lemma_char_of_digit(s@[11]);
        lemma_char_of_digit(s@[12]);
        lemma_char_of_digit(s@[14]);
        lemma_char_of_digit(s@[15]);
        lemma_char_of_digit(s@[17]);
        lemma_char_of_digit(s@[18]);
        assert(s@ =~= rfc3339_display(c));
    }
    Some(t as i64)
}

/// Two instants that write as the same string are the same instant: saving
/// a due time and loading it back cannot change it.
pub proof fn lemma_rfc3339_round_trip(t1: i64, t2: i64)
    requires
        0 <= t1 < SEC_COUNT,
        0 <= t2 < SEC_COUNT,
        rfc3339_display(civil_of_local(t1 as int)) == rfc3339_display(civil_of_local(t2 as int)),
    ensures
        t1 == t2,
{
    lemma_civil_exists(t1 as int);
    lemma_civil_exists(t2 as int);
    let c1 = civil_of_local(t1 as int);
    let c2 = civil_of_local(t2 as int);
    let a = rfc3339_display(c1);
    let b = rfc3339_display(c2);
    assert forall|k: int| 0 <= k < 20 implies a[k] == b[k] by {}
    lemma_digit_char_code(c1.year as int / 1000);
    lemma_digit_char_code(c1.year as int % 1000 / 100);
    lemma_digit_char_code(c1.year as int % 1000 % 100 / 10);
    lemma_digit_char_code(c1.year as int % 1000 % 100 % 10);
    lemma_digit_char_code(c1.month as int / 10);
    lemma_digit_char_code(c1.month as int % 10);
    lemma_digit_char_code(c1.day as int / 10);
    lemma_digit_char_code(c1.day as int % 10);
    lemma_digit_char_code(c1.hour as int / 10);
    lemma_digit_char_code(c1.hour as int % 10);
    lemma_digit_char_code(c1.minute as int / 10);
    lemma_digit_char_code(c1.minute as int % 10);
    lemma_digit_char_code(c1.second as int / 10);
    lemma_digit_char_code(c1.second as int % 10);
    lemma_digit_char_code(c2.year as int / 1000);
    lemma_digit_char_code(c2.year as int % 1000 / 100);
    lemma_digit_char_code(c2.year as int % 1000 % 100 / 10);
    lemma_digit_char_code(c2.year as int % 1000 % 100 % 10);
    lemma_digit_char_code(c2.month as int / 10);
    lemma_digit_char_code(c2.month as int % 10);
    lemma_digit_char_code(c2.day as int / 10);
    lemma_digit_char_code(c2.day as int % 10);
    lemma_digit_char_code(c2.hour as int / 10);
    lemma_digit_char_code(c2.hour as int % 10);
    lemma_digit_char_code(c2.minute as int / 10);
    lemma_digit_char_code(c2.minute as int % 10);
    lemma_digit_char_code(c2.second as int / 10);
    lemma_digit_char_code(c2.second as int % 10);
    lemma_fundamental_div_mod(c1.year as int, 1000);
    lemma_fundamental_div_mod(c1.year as int % 1000, 100);
    lemma_fundamental_div_mod(c1.year as int % 1000 % 100, 10);
    lemma_fundamental_div_mod(c2.year as int, 1000);
    lemma_fundamental_div_mod(c2.year as int % 1000, 100);
    lemma_fundamental_div_mod(c2.year as int % 1000 % 100, 10);
    lemma_fundamental_div_mod(c1.month as int, 10);
    lemma_fundamental_div_mod(c2.month as int, 10);
    lemma_fundamental_div_mod(c1.day as int, 10);
    lemma_fundamental_div_mod(c2.day as int, 10);
    lemma_fundamental_div_mod(c1.hour as int, 10);
    lemma_fundamental_div_mod(c2.hour as int, 10);
    lemma_fundamental_div_mod(c1.minute as int, 10);
    lemma_fundamental_div_mod(c2.minute as int, 10);
    lemma_fundamental_div_mod(c1.second as int, 10);
    lemma_fundamental_div_mod(c2.second as int, 10);
    assert(c1.year == c2.year && c1.month == c2.month && c1.day == c2.day && c1.hour == c2.hour
        && c1.minute == c2.minute && c1.second == c2.second);
    assert(c1 == c2);
}

} // verus!
