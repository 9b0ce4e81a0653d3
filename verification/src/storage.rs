//! Deterministic storage layout.
//!
//! A capture is stored at `screenshots/<year>/<month>/<day>/<HHMMSS>-<id>.jpg`,
//! a reversible encoding of its timestamp and source screen: the ingestion
//! path writes it, the rebuilder parses it back, and the search path reads
//! through it, so the encoding is specified once here and proved a bijection
//! on valid inputs.

use vstd::prelude::*;

verus! {

use crate::datetime::DateTime;

/// The ten decimal digit characters.
pub open spec fn is_digit(c: char) -> bool {
    c == '0' || c == '1' || c == '2' || c == '3' || c == '4' || c == '5' || c == '6' || c == '7'
        || c == '8' || c == '9'
}

/// The character that renders one decimal digit.
pub open spec fn digit_char(d: nat) -> char
    recommends
        d < 10,
{
    if d == 0 {
        '0'
    } else if d == 1 {
        '1'
    } else if d == 2 {
        '2'
    } else if d == 3 {
        '3'
    } else if d == 4 {
        '4'
    } else if d == 5 {
        '5'
    } else if d == 6 {
        '6'
    } else if d == 7 {
        '7'
    } else if d == 8 {
        '8'
    } else {
        '9'
    }
}

/// The digit a character stands for.
pub open spec fn digit_val(c: char) -> nat
    recommends
        is_digit(c),
{
    if c == '0' {
        0
    } else if c == '1' {
        1
    } else if c == '2' {
        2
    } else if c == '3' {
        3
    } else if c == '4' {
        4
    } else if c == '5' {
        5
    } else if c == '6' {
        6
    } else if c == '7' {
        7
    } else if c == '8' {
        8
    } else {
        9
    }
}

/// The decimal rendering of `n`, most significant digit first, without
/// leading zeros (`0` renders as the single digit `0`).
pub open spec fn dec_digits(n: nat) -> Seq<char>
    decreases n,
{
    if n < 10 {
        seq![digit_char(n)]
    } else {
        dec_digits(n / 10).push(digit_char(n % 10))
    }
}

/// Exactly two digits, zero padded; the rendering of the clock fields.
pub open spec fn two_digits(n: nat) -> Seq<char>
    recommends
        n < 100,
{
    seq![digit_char(n / 10), digit_char(n % 10)]
}

/// Every character of `cs` is a decimal digit.
pub open spec fn all_digits(cs: Seq<char>) -> bool {
    forall|i: int| 0 <= i < cs.len() ==> is_digit(#[trigger] cs[i])
}

/// The number a digit string stands for, read most significant digit first.
pub open spec fn value_of(cs: Seq<char>) -> nat
    decreases cs.len(),
{
    if cs.len() == 0 {
        0
    } else {
        value_of(cs.drop_last()) * 10 + digit_val(cs.last())
    }
}

/// The directory a capture's image is stored under.
pub open spec fn dir_chars(dt: DateTime) -> Seq<char> {
    "screenshots/"@ + dec_digits(dt.year as nat) + "/"@ + dec_digits(dt.month as nat) + "/"@
        + dec_digits(dt.day as nat) + "/"@
}

/// The file name a capture's image is stored as.
pub open spec fn fname_chars(dt: DateTime, screen_id: u32) -> Seq<char> {
    two_digits(dt.hour as nat) + two_digits(dt.minute as nat) + two_digits(dt.second as nat)
        + "-"@ + dec_digits(screen_id as nat) + ".jpg"@
}

/// The full storage path of a capture.
pub open spec fn path_chars(dt: DateTime, screen_id: u32) -> Seq<char> {
    dir_chars(dt) + fname_chars(dt, screen_id)
}

/// Rendering a digit and reading it back are inverses.
pub proof fn lemma_digit_char(d: nat)
    requires
        d < 10,
    ensures
        is_digit(digit_char(d)),
        digit_val(digit_char(d)) == d,
{
}

/// Reading a digit character and rendering it back are inverses, and a
/// digit's value is below ten.
pub proof fn lemma_digit_val(c: char)
    requires
        is_digit(c),
    ensures
        digit_val(c) < 10,
        digit_char(digit_val(c)) == c,
{
}

/// Shape of a decimal rendering: nonempty, all digits, value `n`, and a
/// leading zero exactly for zero itself.
pub proof fn lemma_dec_digits(n: nat)
    ensures
        dec_digits(n).len() >= 1,
        all_digits(dec_digits(n)),
        value_of(dec_digits(n)) == n,
        dec_digits(n)[0] == '0' <==> n == 0,
        n < 10 <==> dec_digits(n).len() == 1,
    decreases n,
{
    if n < 10 {
        lemma_digit_char(n);
        assert(dec_digits(n).drop_last() =~= Seq::<char>::empty());
        assert(value_of(Seq::<char>::empty()) == 0);
    } else {
        lemma_dec_digits(n / 10);
        lemma_digit_char(n % 10);
        let ds = dec_digits(n);
        assert(ds.drop_last() =~= dec_digits(n / 10));
        assert(ds[0] == dec_digits(n / 10)[0]);
        assert(forall|i: int| 0 <= i < ds.len() ==> is_digit(#[trigger] ds[i])) by {
            assert(forall|i: int|
                0 <= i < ds.len() - 1 ==> #[trigger] ds[i] == dec_digits(n / 10)[i]);
        }
    }
}

/// A digit string with no leading zero is the decimal rendering of its value.
pub proof fn lemma_value_canonical(cs: Seq<char>)
    requires
        all_digits(cs),
        cs.len() >= 1,
        cs[0] != '0' || cs.len() == 1,
    ensures
        cs == dec_digits(value_of(cs)),
    decreases cs.len(),
{
    if cs.len() == 1 {
        lemma_digit_val(cs[0]);
        assert(cs.drop_last() =~= Seq::<char>::empty());
        assert(value_of(Seq::<char>::empty()) == 0);
        assert(value_of(cs) == digit_val(cs[0]));
        assert(cs =~= dec_digits(value_of(cs)));
    } else {
        let head = cs.drop_last();
        let d = cs.last();
        assert(head[0] == cs[0]);
        lemma_value_first_digit(head);
        lemma_value_canonical(head);
        lemma_digit_val(d);
        let v = value_of(cs);
        assert(v == value_of(head) * 10 + digit_val(d));
        assert(value_of(head) >= 1);
        assert(v >= 10);
        assert(v / 10 == value_of(head) && v % 10 == digit_val(d)) by (nonlinear_arith)
            requires
                v == value_of(head) * 10 + digit_val(d),
                digit_val(d) < 10,
        ;
        assert(cs =~= dec_digits(v));
    }
}

/// A digit string whose first digit is not zero stands for a positive value.
pub proof fn lemma_value_first_digit(cs: Seq<char>)
    requires
        all_digits(cs),
        cs.len() >= 1,
        cs[0] != '0',
    ensures
        value_of(cs) >= 1,
    decreases cs.len(),
{
    if cs.len() > 1 {
        let head = cs.drop_last();
        assert(head[0] == cs[0]);
        lemma_value_first_digit(head);
    } else {
        lemma_digit_val(cs[0]);
        assert(cs.drop_last() =~= Seq::<char>::empty());
    }
}

/// A digit string of value zero is all zero characters.
pub proof fn lemma_value_zero(cs: Seq<char>)
    requires
        all_digits(cs),
        value_of(cs) == 0,
    ensures
        forall|i: int| 0 <= i < cs.len() ==> cs[i] == '0',
    decreases cs.len(),
{
    if cs.len() >= 1 {
        let head = cs.drop_last();
        assert(value_of(head) * 10 + digit_val(cs.last()) == 0);
        assert(is_digit(cs[cs.len() - 1]));
        lemma_digit_val(cs.last());
        assert(cs.last() == '0');
        lemma_value_zero(head);
        assert forall|i: int| 0 <= i < cs.len() implies cs[i] == '0' by {
            if i < cs.len() - 1 {
                assert(cs[i] == head[i]);
                assert(head[i] == '0');
            } else {
                assert(cs[i] == cs.last());
            }
        }
    }
}

/// A prefix of a digit string stands for no more than the whole.
pub proof fn lemma_value_prefix(cs: Seq<char>, k: int)
    requires
        all_digits(cs),
        0 <= k <= cs.len(),
    ensures
        value_of(cs.take(k)) <= value_of(cs),
    decreases cs.len() - k,
{
    if k == cs.len() {
        assert(cs.take(k) =~= cs);
    } else {
        lemma_value_prefix(cs, k + 1);
        let shorter = cs.take(k);
        let longer = cs.take(k + 1);
        assert(longer.drop_last() =~= shorter);
        lemma_digit_val(longer.last());
        assert(value_of(shorter) * 10 >= value_of(shorter)) by (nonlinear_arith);
    }
}

/// Append the rendering of one digit.
fn push_digit(s: &mut String, d: u32)
    requires
        d < 10,
    ensures
        final(s)@ == old(s)@.push(digit_char(d as nat)),
{
    proof {
        reveal_strlit("0");
        reveal_strlit("1");
        reveal_strlit("2");
        reveal_strlit("3");
        reveal_strlit("4");
        reveal_strlit("5");
        reveal_strlit("6");
        reveal_strlit("7");
        reveal_strlit("8");
        reveal_strlit("9");
    }
    let t: &str = if d == 0 {
        "0"
    } else if d == 1 {
        "1"
    } else if d == 2 {
        "2"
    } else if d == 3 {
        "3"
    } else if d == 4 {
        "4"
    } else if d == 5 {
        "5"
    } else if d == 6 {
        "6"
    } else if d == 7 {
        "7"
    } else if d == 8 {
        "8"
    } else {
        "9"
    };
    s.append(t);
    proof {
        assert(s@ =~= old(s)@.push(digit_char(d as nat)));
    }
}

/// Append the decimal rendering of `n`.
fn push_decimal(s: &mut String, n: u32)
    ensures
        final(s)@ == old(s)@ + dec_digits(n as nat),
    decreases n,
{
    if n < 10 {
        push_digit(s, n);
        proof {
            assert(s@ =~= old(s)@ + dec_digits(n as nat));
        }
    } else {
        push_decimal(s, n / 10);
        push_digit(s, n % 10);
        proof {
            assert(s@ =~= old(s)@ + dec_digits(n as nat));
        }
    }
}

/// Append the zero-padded two-digit rendering of `n`.
fn push_two_digits(s: &mut String, n: u32)
    requires
        n < 100,
    ensures
        final(s)@ == old(s)@ + two_digits(n as nat),
{
    push_digit(s, n / 10);
    push_digit(s, n % 10);
    proof {
        assert(s@ =~= old(s)@ + two_digits(n as nat));
    }
}

/// The storage directory and file name of a capture taken at `dt` on screen
/// `screen_id`; their concatenation is the full storage path.
pub fn datetime_to_screen_path(dt: DateTime, screen_id: u32) -> (r: (String, String))
    requires
        dt.valid(),
    ensures
        r.0@ == dir_chars(dt),
        r.1@ == fname_chars(dt, screen_id),
{
    let mut dir = String::new();
    dir.append("screenshots/");
    push_decimal(&mut dir, dt.year);
    dir.append("/");
    push_decimal(&mut dir, dt.month);
    dir.append("/");
    push_decimal(&mut dir, dt.day);
    dir.append("/");
    let mut fname = String::new();
    push_two_digits(&mut fname, dt.hour);
    push_two_digits(&mut fname, dt.minute);
    push_two_digits(&mut fname, dt.second);
    fname.append("-");
    push_decimal(&mut fname, screen_id);
    fname.append(".jpg");
    proof {
        assert(dir@ =~= dir_chars(dt));
        assert(fname@ =~= fname_chars(dt, screen_id));
    }
    (dir, fname)
}

/// The full storage path of a capture.
pub fn screen_path(dt: DateTime, screen_id: u32) -> (r: String)
    requires
        dt.valid(),
    ensures
        r@ == path_chars(dt, screen_id),
{
    let (dir, fname) = datetime_to_screen_path(dt, screen_id);
    let full = dir.concat(fname.as_str());
    proof {
        assert(full@ =~= path_chars(dt, screen_id));
    }
    full
}

/// The digit a character stands for at runtime; `None` exactly on
/// non-digits.
fn digit_value(c: char) -> (r: Option<u32>)
    ensures
        r matches Some(v) ==> is_digit(c) && v < 10 && v as nat == digit_val(c),
        r is None ==> !is_digit(c),
{
    match c {
        '0' => Some(0),
        '1' => Some(1),
        '2' => Some(2),
        '3' => Some(3),
        '4' => Some(4),
        '5' => Some(5),
        '6' => Some(6),
        '7' => Some(7),
        '8' => Some(8),
        '9' => Some(9),
        _ => None,
    }
}

/// Whether `lit` occurs in `path` at position `pos`.
fn has_lit_at(path: &str, pos: usize, lit: &str) -> (r: bool)
    ensures
        r == (pos + lit@.len() <= path@.len() && path@.subrange(
            pos as int,
            pos as int + lit@.len() as int,
        ) == lit@),
{
    let n = path.unicode_len();
    let m = lit.unicode_len();
    if m > n || pos > n - m {
        return false;
    }
    let mut i: usize = 0;
    while i < m
        invariant
            n == path@.len(),
            m == lit@.len(),
            pos + m <= n,
            i <= m,
            forall|j: int| 0 <= j < i ==> path@[pos + j] == lit@[j],
        decreases m - i,
    {
        if path.get_char(pos + i) != lit.get_char(i) {
            proof {
                assert(path@.subrange(pos as int, pos as int + m as int)[i as int] == path@[pos
                    + i]);
            }
            return false;
        }
        i += 1;
    }
    proof {
        assert(path@.subrange(pos as int, pos as int + m as int) =~= lit@);
    }
    true
}

/// Parse exactly two digits at `pos`, the rendering of a clock field.
fn parse_two_digits(path: &str, pos: usize) -> (r: Option<u32>)
    ensures
        r matches Some(v) ==> v < 100 && pos + 2 <= path@.len() && path@.subrange(
            pos as int,
            pos as int + 2,
        ) == two_digits(v as nat),
        forall|v: u32|
            v < 100 && pos + 2 <= path@.len() && path@.subrange(pos as int, pos as int + 2)
                == two_digits(v as nat) ==> r == Some(v),
{
    let n = path.unicode_len();
    if pos >= n || n - pos < 2 {
        return None;
    }
    let c1 = path.get_char(pos);
    let c2 = path.get_char(pos + 1);
    proof {
        assert(forall|v: u32|
            v < 100 && path@.subrange(pos as int, pos as int + 2) == two_digits(v as nat)
                ==> #[trigger] two_digits(v as nat)[0] == c1 && two_digits(v as nat)[1] == c2);
    }
    let d1 = match digit_value(c1) {
        Some(d) => d,
        None => {
            proof {
                assert forall|v: u32|
                    v < 100 && pos + 2 <= path@.len() && path@.subrange(pos as int, pos as int + 2)
                        == two_digits(v as nat) implies false by {
                    lemma_digit_char((v as nat) / 10);
                }
            }
            return None;
        },
    };
    let d2 = match digit_value(c2) {
        Some(d) => d,
        None => {
            proof {
                assert forall|v: u32|
                    v < 100 && pos + 2 <= path@.len() && path@.subrange(pos as int, pos as int + 2)
                        == two_digits(v as nat) implies false by {
                    lemma_digit_char((v as nat) % 10);
                }
            }
            return None;
        },
    };
    let v = d1 * 10 + d2;
    proof {
        lemma_digit_val(c1);
        lemma_digit_val(c2);
        assert((v as nat) / 10 == digit_val(c1) && (v as nat) % 10 == digit_val(c2));
        assert(path@.subrange(pos as int, pos as int + 2) =~= two_digits(v as nat));
        assert forall|w: u32|
            w < 100 && pos + 2 <= path@.len() && path@.subrange(pos as int, pos as int + 2)
                == two_digits(w as nat) implies w == v by {
            lemma_digit_char((w as nat) / 10);
            lemma_digit_char((w as nat) % 10);
        }
    }
    Some(v)
}

/// Parse a maximal run of digits at `start` as a decimal number without
/// leading zeros; on success the run is exactly the number's rendering and
/// ends at the string's end or at a non-digit.
fn parse_decimal(path: &str, start: usize) -> (r: Option<(u32, usize)>)
    requires
        start <= path@.len(),
    ensures
        r matches Some(p) ==> start < p.1 <= path@.len() && path@.subrange(
            start as int,
            p.1 as int,
        ) == dec_digits(p.0 as nat) && (p.1 == path@.len() || !is_digit(path@[p.1 as int])),
        forall|v: u32, end: int|
            start < end <= path@.len() && path@.subrange(start as int, end) == dec_digits(v as nat)
                && (end == path@.len() || !is_digit(path@[end])) ==> r == Some((v, end as usize)),
{
    let n = path.unicode_len();
    let mut i: usize = start;
    let mut val: u64 = 0;
    loop
        invariant
            n == path@.len(),
            start <= i <= n,
            all_digits(path@.subrange(start as int, i as int)),
            val == value_of(path@.subrange(start as int, i as int)),
            val <= 0xFFFF_FFFF,
            (i > start && path@[start as int] == '0') ==> (i == start + 1 && val == 0),
        ensures
            n == path@.len(),
            start <= i <= n,
            all_digits(path@.subrange(start as int, i as int)),
            val == value_of(path@.subrange(start as int, i as int)),
            val <= 0xFFFF_FFFF,
            (i > start && path@[start as int] == '0') ==> (i == start + 1 && val == 0),
            i == n || !is_digit(path@[i as int]),
        decreases n - i,
    {
        if i == n {
            break;
        }
        let c = path.get_char(i);
        let d = match digit_value(c) {
            None => { break; },
            Some(d) => d,
        };
        // The run so far renders zero: accepting another digit would mean a
        // leading zero, which no encoded path carries.
        if i > start && val == 0 {
            proof {
                let scanned = path@.subrange(start as int, i as int);
                lemma_value_zero(scanned);
                assert(scanned[0] == path@[start as int]);
                assert(path@[start as int] == '0');
                assert forall|v: u32, end: int|
                    start < end <= path@.len() && path@.subrange(start as int, end) == dec_digits(
                        v as nat,
                    ) && (end == path@.len() || !is_digit(path@[end])) implies false by {
                    lemma_dec_digits(v as nat);
                    assert(dec_digits(v as nat)[0] == path@[start as int]);
                    assert(v == 0);
                    assert(end == start + 1);
                    assert(is_digit(path@[end]));
                }
            }
            return None;
        }
        let next = val * 10 + (d as u64);
        // A value past u32 range cannot come from an encoded path.
        if next > 0xFFFF_FFFF {
            proof {
                assert forall|v: u32, end: int|
                    start < end <= path@.len() && path@.subrange(start as int, end) == dec_digits(
                        v as nat,
                    ) && (end == path@.len() || !is_digit(path@[end])) implies false by {
                    lemma_dec_digits(v as nat);
                    if end <= i {
                        assert(is_digit(path@.subrange(start as int, i as int)[end - start]));
                    } else {
                        let run = path@.subrange(start as int, end);
                        let longer = path@.subrange(start as int, i + 1);
                        assert(longer =~= run.take(i + 1 - start));
                        lemma_value_prefix(run, i + 1 - start);
                        assert(longer.drop_last() =~= path@.subrange(start as int, i as int));
                        assert(longer.last() == c);
                        assert(value_of(longer) == val * 10 + digit_val(c));
                    }
                }
            }
            return None;
        }
        proof {
            let scanned = path@.subrange(start as int, i as int);
            let extended = path@.subrange(start as int, i + 1);
            assert(extended.drop_last() =~= scanned);
            assert(extended.last() == c);
            assert(value_of(extended) == val * 10 + digit_val(c));
            assert(all_digits(extended)) by {
                assert(forall|j: int|
                    0 <= j < extended.len() - 1 ==> #[trigger] extended[j] == scanned[j]);
            }
            assert(extended[0] == path@[start as int]);
        }
        val = next;
        i += 1;
    }
    if i == start {
        proof {
            assert forall|v: u32, end: int|
                start < end <= path@.len() && path@.subrange(start as int, end) == dec_digits(
                    v as nat,
                ) && (end == path@.len() || !is_digit(path@[end])) implies false by {
                lemma_dec_digits(v as nat);
                assert(dec_digits(v as nat)[0] == path@[start as int]);
                assert(is_digit(path@[start as int]));
            }
        }
        return None;
    }
    let out = val as u32;
    proof {
        let run = path@.subrange(start as int, i as int);
        assert(run[0] == path@[start as int]);
        lemma_value_canonical(run);
        assert(run == dec_digits(out as nat));
        lemma_dec_digits(out as nat);
        assert forall|v: u32, end: int|
            start < end <= path@.len() && path@.subrange(start as int, end) == dec_digits(v as nat)
                && (end == path@.len() || !is_digit(path@[end])) implies v == out && end == i by {
            lemma_dec_digits(v as nat);
            if end < i {
                assert(is_digit(path@.subrange(start as int, i as int)[end - start]));
            } else if end > i {
                assert(is_digit(path@.subrange(start as int, end)[i - start]));
            } else {
                assert(path@.subrange(start as int, end) == run);
                assert(value_of(dec_digits(v as nat)) == value_of(dec_digits(out as nat)));
            }
        }
    }
    Some((out, i))
}

/// Where the year's rendering ends in an encoded path.
spec fn y_end(dt: DateTime) -> int {
    12 + dec_digits(dt.year as nat).len() as int
}

/// Where the month's rendering ends in an encoded path.
spec fn m_end(dt: DateTime) -> int {
    y_end(dt) + 1 + dec_digits(dt.month as nat).len() as int
}

/// Where the day's rendering ends in an encoded path.
spec fn d_end(dt: DateTime) -> int {
    m_end(dt) + 1 + dec_digits(dt.day as nat).len() as int
}

/// Where the screen id's rendering ends in an encoded path.
spec fn sid_end(dt: DateTime, sid: u32) -> int {
    d_end(dt) + 8 + dec_digits(sid as nat).len() as int
}

/// How an encoded path splits into its components.
proof fn lemma_path_decomposition(dt: DateTime, sid: u32)
    ensures
        y_end(dt) >= 13,
        m_end(dt) >= y_end(dt) + 2,
        d_end(dt) >= m_end(dt) + 2,
        sid_end(dt, sid) >= d_end(dt) + 9,
        path_chars(dt, sid).len() == sid_end(dt, sid) + 4,
        path_chars(dt, sid).subrange(0, 12) == "screenshots/"@,
        path_chars(dt, sid).subrange(12, y_end(dt)) == dec_digits(dt.year as nat),
        path_chars(dt, sid).subrange(y_end(dt), y_end(dt) + 1) == "/"@,
        path_chars(dt, sid)[y_end(dt)] == '/',
        path_chars(dt, sid).subrange(y_end(dt) + 1, m_end(dt)) == dec_digits(dt.month as nat),
        path_chars(dt, sid).subrange(m_end(dt), m_end(dt) + 1) == "/"@,
        path_chars(dt, sid)[m_end(dt)] == '/',
        path_chars(dt, sid).subrange(m_end(dt) + 1, d_end(dt)) == dec_digits(dt.day as nat),
        path_chars(dt, sid).subrange(d_end(dt), d_end(dt) + 1) == "/"@,
        path_chars(dt, sid)[d_end(dt)] == '/',
        path_chars(dt, sid).subrange(d_end(dt) + 1, d_end(dt) + 3) == two_digits(dt.hour as nat),
        path_chars(dt, sid).subrange(d_end(dt) + 3, d_end(dt) + 5) == two_digits(dt.minute as nat),
        path_chars(dt, sid).subrange(d_end(dt) + 5, d_end(dt) + 7) == two_digits(dt.second as nat),
        path_chars(dt, sid).subrange(d_end(dt) + 7, d_end(dt) + 8) == "-"@,
        path_chars(dt, sid)[d_end(dt) + 7] == '-',
        path_chars(dt, sid).subrange(d_end(dt) + 8, sid_end(dt, sid)) == dec_digits(sid as nat),
        path_chars(dt, sid).subrange(sid_end(dt, sid), sid_end(dt, sid) + 4) == ".jpg"@,
        path_chars(dt, sid)[sid_end(dt, sid)] == '.',
        path_chars(dt, sid).subrange(d_end(dt) + 1, sid_end(dt, sid) + 4) == fname_tail_chars(
            dt.hour,
            dt.minute,
            dt.second,
            sid,
        ),
{
    reveal_strlit("screenshots/");
    reveal_strlit("/");
    reveal_strlit("-");
    reveal_strlit(".jpg");
    lemma_dec_digits(dt.year as nat);
    lemma_dec_digits(dt.month as nat);
    lemma_dec_digits(dt.day as nat);
    lemma_dec_digits(sid as nat);
    let s = path_chars(dt, sid);
    assert(s.subrange(0, 12) =~= "screenshots/"@);
    assert(s.subrange(12, y_end(dt)) =~= dec_digits(dt.year as nat));
    assert(s.subrange(y_end(dt), y_end(dt) + 1) =~= "/"@);
    assert(s.subrange(y_end(dt) + 1, m_end(dt)) =~= dec_digits(dt.month as nat));
    assert(s.subrange(m_end(dt), m_end(dt) + 1) =~= "/"@);
    assert(s.subrange(m_end(dt) + 1, d_end(dt)) =~= dec_digits(dt.day as nat));
    assert(s.subrange(d_end(dt), d_end(dt) + 1) =~= "/"@);
    assert(s.subrange(d_end(dt) + 1, d_end(dt) + 3) =~= two_digits(dt.hour as nat));
    assert(s.subrange(d_end(dt) + 3, d_end(dt) + 5) =~= two_digits(dt.minute as nat));
    assert(s.subrange(d_end(dt) + 5, d_end(dt) + 7) =~= two_digits(dt.second as nat));
    assert(s.subrange(d_end(dt) + 7, d_end(dt) + 8) =~= "-"@);
    assert(s.subrange(d_end(dt) + 8, sid_end(dt, sid)) =~= dec_digits(sid as nat));
    assert(s.subrange(sid_end(dt, sid), sid_end(dt, sid) + 4) =~= ".jpg"@);
    assert(s[y_end(dt)] == s.subrange(y_end(dt), y_end(dt) + 1)[0]);
    assert(s[m_end(dt)] == s.subrange(m_end(dt), m_end(dt) + 1)[0]);
    assert(s[d_end(dt)] == s.subrange(d_end(dt), d_end(dt) + 1)[0]);
    assert(s[d_end(dt) + 7] == s.subrange(d_end(dt) + 7, d_end(dt) + 8)[0]);
    assert(s[sid_end(dt, sid)] == s.subrange(sid_end(dt, sid), sid_end(dt, sid) + 4)[0]);
    assert(s.subrange(d_end(dt) + 1, sid_end(dt, sid) + 4) =~= fname_tail_chars(
        dt.hour,
        dt.minute,
        dt.second,
        sid,
    ));
}

/// The encoded directory prefix of a path, through the trailing slash.
spec fn date_prefix_chars(y: u32, m: u32, d: u32) -> Seq<char> {
    "screenshots/"@ + dec_digits(y as nat) + "/"@ + dec_digits(m as nat) + "/"@ + dec_digits(
        d as nat,
    ) + "/"@
}

/// The encoded file name tail of a path, from the hour on.
spec fn fname_tail_chars(h: u32, mi: u32, s: u32, sid: u32) -> Seq<char> {
    two_digits(h as nat) + two_digits(mi as nat) + two_digits(s as nat) + "-"@ + dec_digits(
        sid as nat,
    ) + ".jpg"@
}

/// Parse the directory part `screenshots/<year>/<month>/<day>/` of a path.
#[verifier::rlimit(100)]
fn parse_date_part(path: &str) -> (r: Option<((u32, u32, u32), usize)>)
    ensures
        r matches Some(p) ==> p.1 <= path@.len() && path@.subrange(0, p.1 as int)
            == date_prefix_chars(p.0.0, p.0.1, p.0.2),
        forall|dt: DateTime, sid: u32|
            dt.valid() && path@ == path_chars(dt, sid) ==> r == Some(
                ((dt.year, dt.month, dt.day), (d_end(dt) + 1) as usize),
            ),
{
    proof {
        reveal_strlit("screenshots/");
        reveal_strlit("/");
    }
    let _n = path.unicode_len();
    if !has_lit_at(path, 0, "screenshots/") {
        proof {
            assert forall|dt: DateTime, sid: u32|
                dt.valid() && path@ == path_chars(dt, sid) implies false by {
                lemma_path_decomposition(dt, sid);
            }
        }
        return None;
    }
    let (year, e1) = match parse_decimal(path, 12) {
        Some(p) => p,
        None => {
            proof {
                assert forall|dt: DateTime, sid: u32|
                    dt.valid() && path@ == path_chars(dt, sid) implies false by {
                    lemma_path_decomposition(dt, sid);
                }
            }
            return None;
        },
    };
    if !has_lit_at(path, e1, "/") {
        proof {
            assert forall|dt: DateTime, sid: u32|
                dt.valid() && path@ == path_chars(dt, sid) implies false by {
                lemma_path_decomposition(dt, sid);
            }
        }
        return None;
    }
    let (month, e2) = match parse_decimal(path, e1 + 1) {
        Some(p) => p,
        None => {
            proof {
                assert forall|dt: DateTime, sid: u32|
                    dt.valid() && path@ == path_chars(dt, sid) implies false by {
                    lemma_path_decomposition(dt, sid);
                }
            }
            return None;
        },
    };
    if !has_lit_at(path, e2, "/") {
        proof {
            assert forall|dt: DateTime, sid: u32|
                dt.valid() && path@ == path_chars(dt, sid) implies false by {
                lemma_path_decomposition(dt, sid);
            }
        }
        return None;
    }
    let (day, e3) = match parse_decimal(path, e2 + 1) {
        Some(p) => p,
        None => {
            proof {
                assert forall|dt: DateTime, sid: u32|
                    dt.valid() && path@ == path_chars(dt, sid) implies false by {
                    lemma_path_decomposition(dt, sid);
                }
            }
            return None;
        },
    };
    if !has_lit_at(path, e3, "/") {
        proof {
            assert forall|dt: DateTime, sid: u32|
                dt.valid() && path@ == path_chars(dt, sid) implies false by {
                lemma_path_decomposition(dt, sid);
            }
        }
        return None;
    }
    let t0 = e3 + 1;
    proof {
        let s = path@;
        assert(s.subrange(0, e1 as int) =~= "screenshots/"@ + dec_digits(year as nat));
        assert(s.subrange(0, e1 + 1) =~= s.subrange(0, e1 as int) + "/"@);
        assert(s.subrange(0, e2 as int) =~= s.subrange(0, e1 + 1) + dec_digits(month as nat));
        assert(s.subrange(0, e2 + 1) =~= s.subrange(0, e2 as int) + "/"@);
        assert(s.subrange(0, e3 as int) =~= s.subrange(0, e2 + 1) + dec_digits(day as nat));
        assert(s.subrange(0, t0 as int) =~= s.subrange(0, e3 as int) + "/"@);
        assert(s.subrange(0, t0 as int) =~= date_prefix_chars(year, month, day));
        assert forall|dt: DateTime, sid: u32|
            dt.valid() && path@ == path_chars(dt, sid) implies (year, month, day) == (
            dt.year,
            dt.month,
            dt.day,
        ) && t0 == d_end(dt) + 1 by {
            lemma_path_decomposition(dt, sid);
        }
    }
    Some(((year, month, day), t0))
}

/// How an encoded file name tail splits into its components.
proof fn lemma_fname_decomposition(h: u32, mi: u32, s2: u32, sid: u32)
    ensures
        fname_tail_chars(h, mi, s2, sid).len() == 11 + dec_digits(sid as nat).len(),
        fname_tail_chars(h, mi, s2, sid).subrange(0, 2) == two_digits(h as nat),
        fname_tail_chars(h, mi, s2, sid).subrange(2, 4) == two_digits(mi as nat),
        fname_tail_chars(h, mi, s2, sid).subrange(4, 6) == two_digits(s2 as nat),
        fname_tail_chars(h, mi, s2, sid)[6] == '-',
        fname_tail_chars(h, mi, s2, sid).subrange(
            7,
            7 + dec_digits(sid as nat).len() as int,
        ) == dec_digits(sid as nat),
        fname_tail_chars(h, mi, s2, sid)[7 + dec_digits(sid as nat).len() as int] == '.',
        fname_tail_chars(h, mi, s2, sid).subrange(
            7 + dec_digits(sid as nat).len() as int,
            11 + dec_digits(sid as nat).len() as int,
        ) == ".jpg"@,
{
    reveal_strlit("-");
    reveal_strlit(".jpg");
    lemma_dec_digits(sid as nat);
    let t = fname_tail_chars(h, mi, s2, sid);
    let ls = dec_digits(sid as nat).len() as int;
    assert(t.subrange(0, 2) =~= two_digits(h as nat));
    assert(t.subrange(2, 4) =~= two_digits(mi as nat));
    assert(t.subrange(4, 6) =~= two_digits(s2 as nat));
    assert(t.subrange(6, 7) =~= "-"@);
    assert(t[6] == t.subrange(6, 7)[0]);
    assert(t.subrange(7, 7 + ls) =~= dec_digits(sid as nat));
    assert(t.subrange(7 + ls, 11 + ls) =~= ".jpg"@);
    assert(t[7 + ls] == t.subrange(7 + ls, 11 + ls)[0]);
}

/// Parse the file name part `<HHMMSS>-<id>.jpg` of a path, which must run to
/// the path's end.
#[verifier::rlimit(100)]
fn parse_fname_part(path: &str, t0: usize) -> (r: Option<(u32, u32, u32, u32)>)
    requires
        t0 <= path@.len(),
    ensures
        r matches Some(q) ==> path@.subrange(t0 as int, path@.len() as int) == fname_tail_chars(
            q.0,
            q.1,
            q.2,
            q.3,
        ),
        forall|h: u32, mi: u32, s2: u32, sid: u32|
            h < 100 && mi < 100 && s2 < 100 && path@.subrange(t0 as int, path@.len() as int)
                == fname_tail_chars(h, mi, s2, sid) ==> r == Some((h, mi, s2, sid)),
{
    proof {
        reveal_strlit("-");
        reveal_strlit(".jpg");
    }
    let n = path.unicode_len();
    let ghost tail = path@.subrange(t0 as int, path@.len() as int);
    let hour = match parse_two_digits(path, t0) {
        Some(v) => v,
        None => {
            proof {
                assert forall|h: u32, mi: u32, s2: u32, sid: u32|
                    h < 100 && mi < 100 && s2 < 100 && tail == fname_tail_chars(
                        h,
                        mi,
                        s2,
                        sid,
                    ) implies false by {
                    lemma_fname_decomposition(h, mi, s2, sid);
                    assert(path@.subrange(t0 as int, t0 + 2) =~= tail.subrange(0, 2));
                }
            }
            return None;
        },
    };
    let minute = match parse_two_digits(path, t0 + 2) {
        Some(v) => v,
        None => {
            proof {
                assert forall|h: u32, mi: u32, s2: u32, sid: u32|
                    h < 100 && mi < 100 && s2 < 100 && tail == fname_tail_chars(
                        h,
                        mi,
                        s2,
                        sid,
                    ) implies false by {
                    lemma_fname_decomposition(h, mi, s2, sid);
                    assert(path@.subrange(t0 + 2, t0 + 4) =~= tail.subrange(2, 4));
                }
            }
            return None;
        },
    };
    let second = match parse_two_digits(path, t0 + 4) {
        Some(v) => v,
        None => {
            proof {
                assert forall|h: u32, mi: u32, s2: u32, sid: u32|
                    h < 100 && mi < 100 && s2 < 100 && tail == fname_tail_chars(
                        h,
                        mi,
                        s2,
                        sid,
                    ) implies false by {
                    lemma_fname_decomposition(h, mi, s2, sid);
                    assert(path@.subrange(t0 + 4, t0 + 6) =~= tail.subrange(4, 6));
                }
            }
            return None;
        },
    };
    if !has_lit_at(path, t0 + 6, "-") {
        proof {
            assert forall|h: u32, mi: u32, s2: u32, sid: u32|
                h < 100 && mi < 100 && s2 < 100 && tail == fname_tail_chars(
                    h,
                    mi,
                    s2,
                    sid,
                ) implies false by {
                lemma_fname_decomposition(h, mi, s2, sid);
                reveal_strlit("-");
                assert(path@.subrange(t0 + 6, t0 + 7) =~= tail.subrange(6, 7));
                assert(tail.subrange(6, 7) =~= "-"@);
            }
        }
        return None;
    }
    let (screen_id, e4) = match parse_decimal(path, t0 + 7) {
        Some(p) => p,
        None => {
            proof {
                assert forall|h: u32, mi: u32, s2: u32, sid: u32|
                    h < 100 && mi < 100 && s2 < 100 && tail == fname_tail_chars(
                        h,
                        mi,
                        s2,
                        sid,
                    ) implies false by {
                    lemma_fname_decomposition(h, mi, s2, sid);
                    let ls = dec_digits(sid as nat).len() as int;
                    assert(path@.subrange(t0 + 7, t0 + 7 + ls) =~= tail.subrange(7, 7 + ls));
                    assert(path@[t0 + 7 + ls] == tail[7 + ls]);
                }
            }
            return None;
        },
    };
    if !has_lit_at(path, e4, ".jpg") {
        proof {
            assert forall|h: u32, mi: u32, s2: u32, sid: u32|
                h < 100 && mi < 100 && s2 < 100 && tail == fname_tail_chars(
                    h,
                    mi,
                    s2,
                    sid,
                ) implies false by {
                lemma_fname_decomposition(h, mi, s2, sid);
                let ls = dec_digits(sid as nat).len() as int;
                assert(path@.subrange(t0 + 7, t0 + 7 + ls) =~= tail.subrange(7, 7 + ls));
                assert(path@[t0 + 7 + ls] == tail[7 + ls]);
                assert(e4 == t0 + 7 + ls);
                assert(path@.subrange(e4 as int, e4 + 4) =~= tail.subrange(7 + ls, 11 + ls));
            }
        }
        return None;
    }
    if e4 + 4 != n {
        proof {
            assert forall|h: u32, mi: u32, s2: u32, sid: u32|
                h < 100 && mi < 100 && s2 < 100 && tail == fname_tail_chars(
                    h,
                    mi,
                    s2,
                    sid,
                ) implies false by {
                lemma_fname_decomposition(h, mi, s2, sid);
                let ls = dec_digits(sid as nat).len() as int;
                assert(path@.subrange(t0 + 7, t0 + 7 + ls) =~= tail.subrange(7, 7 + ls));
                assert(path@[t0 + 7 + ls] == tail[7 + ls]);
                assert(e4 == t0 + 7 + ls);
            }
        }
        return None;
    }
    proof {
        let s = path@;
        assert(s.subrange(t0 as int, t0 + 4) =~= two_digits(hour as nat) + two_digits(
            minute as nat,
        ));
        assert(s.subrange(t0 as int, t0 + 6) =~= s.subrange(t0 as int, t0 + 4) + two_digits(
            second as nat,
        ));
        assert(s.subrange(t0 as int, t0 + 7) =~= s.subrange(t0 as int, t0 + 6) + "-"@);
        assert(s.subrange(t0 as int, e4 as int) =~= s.subrange(t0 as int, t0 + 7) + dec_digits(
            screen_id as nat,
        ));
        assert(s.subrange(t0 as int, n as int) =~= s.subrange(t0 as int, e4 as int) + ".jpg"@);
        assert(s.subrange(t0 as int, n as int) =~= fname_tail_chars(
            hour,
            minute,
            second,
            screen_id,
        ));
        assert forall|h: u32, mi: u32, s2: u32, sid: u32|
            h < 100 && mi < 100 && s2 < 100 && tail == fname_tail_chars(
                h,
                mi,
                s2,
                sid,
            ) implies (hour, minute, second, screen_id) == (h, mi, s2, sid) by {
            lemma_fname_decomposition(h, mi, s2, sid);
            let ls = dec_digits(sid as nat).len() as int;
            assert(path@.subrange(t0 as int, t0 + 2) =~= tail.subrange(0, 2));
            assert(path@.subrange(t0 + 2, t0 + 4) =~= tail.subrange(2, 4));
            assert(path@.subrange(t0 + 4, t0 + 6) =~= tail.subrange(4, 6));
            assert(path@.subrange(t0 + 7, t0 + 7 + ls) =~= tail.subrange(7, 7 + ls));
            assert(path@[t0 + 7 + ls] == tail[7 + ls]);
            lemma_two_digits_eq(hour as nat, h as nat);
            lemma_two_digits_eq(minute as nat, mi as nat);
            lemma_two_digits_eq(second as nat, s2 as nat);
            lemma_dec_digits(sid as nat);
            lemma_dec_digits(screen_id as nat);
        }
    }
    Some((hour, minute, second, screen_id))
}

/// Parse a storage path back into the capture time and screen id it encodes.
/// Succeeds exactly on the paths that `screen_path` produces for valid
/// inputs, and then returns exactly the encoded pair.
pub fn parse_screen_path(path: &str) -> (r: Option<(DateTime, u32)>)
    ensures
        r matches Some(p) ==> p.0.valid() && path@ == path_chars(p.0, p.1),
        forall|dt: DateTime, sid: u32|
            dt.valid() && path@ == path_chars(dt, sid) ==> r == Some((dt, sid)),
{
    let ((year, month, day), t0) = match parse_date_part(path) {
        Some(p) => p,
        None => {
            return None;
        },
    };
    let (hour, minute, second, screen_id) = match parse_fname_part(path, t0) {
        Some(q) => q,
        None => {
            proof {
                assert forall|dt: DateTime, sid: u32|
                    dt.valid() && path@ == path_chars(dt, sid) implies false by {
                    lemma_path_decomposition(dt, sid);
                }
            }
            return None;
        },
    };
    let parsed = DateTime { year, month, day, hour, minute, second };
    if !parsed.check_valid() {
        proof {
            assert forall|dt: DateTime, sid: u32|
                dt.valid() && path@ == path_chars(dt, sid) implies false by {
                lemma_path_decomposition(dt, sid);
            }
        }
        return None;
    }
    proof {
        let s = path@;
        assert(s =~= s.subrange(0, t0 as int) + s.subrange(t0 as int, s.len() as int));
        assert(dir_chars(parsed) =~= date_prefix_chars(year, month, day));
        assert(fname_chars(parsed, screen_id) =~= fname_tail_chars(
            hour,
            minute,
            second,
            screen_id,
        ));
        assert(s == path_chars(parsed, screen_id));
        assert forall|dt: DateTime, sid: u32|
            dt.valid() && path@ == path_chars(dt, sid) implies (parsed, screen_id) == (
            dt,
            sid,
        ) by {
            lemma_path_decomposition(dt, sid);
        }
    }
    Some((parsed, screen_id))
}

/// The storage path is a bijection: two valid capture identities that encode
/// to the same path are the same identity, so parsing an encoded path always
/// recovers exactly the pair that was encoded.
#[verifier::rlimit(100)]
pub proof fn lemma_path_round_trip(a: DateTime, x: u32, b: DateTime, y: u32)
    requires
        a.valid(),
        b.valid(),
        path_chars(a, x) == path_chars(b, y),
    ensures
        a == b,
        x == y,
{
    lemma_path_decomposition(a, x);
    lemma_path_decomposition(b, y);
    let s = path_chars(a, x);
    lemma_dec_digits(a.year as nat);
    lemma_dec_digits(b.year as nat);
    lemma_dec_digits(a.month as nat);
    lemma_dec_digits(b.month as nat);
    lemma_dec_digits(a.day as nat);
    lemma_dec_digits(b.day as nat);
    lemma_dec_digits(x as nat);
    lemma_dec_digits(y as nat);
    lemma_same_run_end(s, 12, y_end(a), y_end(b));
    assert(dec_digits(a.year as nat) == dec_digits(b.year as nat));
    assert(a.year == b.year);
    lemma_same_run_end(s, y_end(a) + 1, m_end(a), m_end(b));
    assert(a.month == b.month);
    lemma_same_run_end(s, m_end(a) + 1, d_end(a), d_end(b));
    assert(a.day == b.day);
    lemma_two_digits_eq(a.hour as nat, b.hour as nat);
    lemma_two_digits_eq(a.minute as nat, b.minute as nat);
    lemma_two_digits_eq(a.second as nat, b.second as nat);
    lemma_same_run_end(s, d_end(a) + 8, sid_end(a, x), sid_end(b, y));
    assert(x == y);
}

/// Two digit runs that start together in the same string and each end at a
/// non-digit end together.
proof fn lemma_same_run_end(s: Seq<char>, start: int, end_a: int, end_b: int)
    requires
        0 <= start <= end_a < s.len(),
        start <= end_b < s.len(),
        all_digits(s.subrange(start, end_a)),
        all_digits(s.subrange(start, end_b)),
        !is_digit(s[end_a]),
        !is_digit(s[end_b]),
    ensures
        end_a == end_b,
        s.subrange(start, end_a) == s.subrange(start, end_b),
{
    if end_a < end_b {
        assert(is_digit(s.subrange(start, end_b)[end_a - start]));
    } else if end_b < end_a {
        assert(is_digit(s.subrange(start, end_a)[end_b - start]));
    }
    assert(s.subrange(start, end_a) =~= s.subrange(start, end_b));
}

/// Two-digit renderings are injective below one hundred.
proof fn lemma_two_digits_eq(u: nat, v: nat)
    requires
        u < 100,
        v < 100,
        two_digits(u) == two_digits(v),
    ensures
        u == v,
{
    lemma_digit_char(u / 10);
    lemma_digit_char(u % 10);
    lemma_digit_char(v / 10);
    lemma_digit_char(v % 10);
    assert(two_digits(u)[0] == two_digits(v)[0]);
    assert(two_digits(u)[1] == two_digits(v)[1]);
}

/// The glob pattern that matches the stored captures of every screen at one
/// timestamp: the directory, the time of day, then any screen id.
pub open spec fn glob_pattern_chars(dt: DateTime) -> Seq<char> {
    dir_chars(dt) + two_digits(dt.hour as nat) + two_digits(dt.minute as nat) + two_digits(
        dt.second as nat,
    ) + "-*.jpg"@
}

/// Build the glob pattern for all screens captured at `dt`.
pub fn screens_glob_pattern(dt: DateTime) -> (r: String)
    requires
        dt.valid(),
    ensures
        r@ == glob_pattern_chars(dt),
{
    let (dir, _fname) = datetime_to_screen_path(dt, 0);
    let mut pat = dir;
    push_two_digits(&mut pat, dt.hour);
    push_two_digits(&mut pat, dt.minute);
    push_two_digits(&mut pat, dt.second);
    pat.append("-*.jpg");
    proof {
        assert(pat@ =~= glob_pattern_chars(dt));
    }
    pat
}

} // verus!
