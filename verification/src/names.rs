//! Inference of the migration filename numbering convention, and the next
//! filename under it.
//!
//! A filename follows the integer convention when it starts with decimal
//! digits that fit a 32-bit count, followed by `.`, `_` or `-`. A name
//! whose leading digit run is not so delimited, or whose number is too
//! large, sets no convention. When any existing name follows the integer
//! convention the next filename takes the highest number plus one;
//! otherwise it takes the current UTC time as a 14-digit stamp. The stamp
//! itself comes from `chrono`; everything else is verified.

use vstd::prelude::*;
use crate::canon::{canon, clean_line, comment_start, kept_lines, lemma_nl_index_props, nl_index,
    strip_comment};
use crate::hash::{content_hash, hex_digit, lemma_hash_from_canon, push_hex_digit};
use chrono::{Datelike, Timelike};

verus! {

/// A decimal digit.
pub open spec fn is_digit_char(c: char) -> bool {
    48 <= c as u32 <= 57
}

/// The value of a decimal digit.
pub open spec fn digit_value(c: char) -> int {
    c as u32 - 48
}

/// A filename separator that may delimit a leading number.
pub open spec fn is_sep_char(c: char) -> bool {
    c == '.' || c == '_' || c == '-'
}

/// Length of the name's leading run of decimal digits.
pub open spec fn digits_run(s: Seq<char>) -> int
    decreases s.len(),
{
    if s.len() == 0 {
        0
    } else if !is_digit_char(s[0]) {
        0
    } else {
        1 + digits_run(s.drop_first())
    }
}

/// `digits_run` counts exactly the leading digits.
pub proof fn lemma_digits_run_props(s: Seq<char>)
    ensures
        0 <= digits_run(s) <= s.len(),
        forall|j: int| 0 <= j < digits_run(s) ==> is_digit_char(#[trigger] s[j]),
        digits_run(s) < s.len() ==> !is_digit_char(s[digits_run(s)]),
    decreases s.len(),
{
    if s.len() > 0 && is_digit_char(s[0]) {
        let t = s.drop_first();
        lemma_digits_run_props(t);
        assert forall|j: int| 0 <= j < digits_run(s) implies is_digit_char(#[trigger] s[j]) by {
            if j > 0 {
                assert(t[j - 1] == s[j]);
            }
        }
        if digits_run(s) < s.len() {
            assert(t[digits_run(s) - 1] == s[digits_run(s)]);
        }
    }
}

/// The number written by a digit run, most significant digit first.
pub open spec fn digits_val(ds: Seq<char>) -> nat
    decreases ds.len(),
{
    if ds.len() == 0 {
        0
    } else {
        digits_val(ds.drop_last()) * 10 + digit_value(ds.last()) as nat
    }
}

/// Longer digit prefixes write no smaller numbers.
pub proof fn lemma_digits_val_monotone(s: Seq<char>, i: int, j: int)
    requires
        0 <= i <= j <= s.len(),
        forall|k: int| 0 <= k < j ==> is_digit_char(#[trigger] s[k]),
    ensures
        digits_val(s.subrange(0, i)) <= digits_val(s.subrange(0, j)),
    decreases j - i,
{
    if i < j {
        lemma_digits_val_monotone(s, i, j - 1);
        let p = s.subrange(0, j);
        assert(p.drop_last() =~= s.subrange(0, j - 1));
        assert(digits_val(p) == digits_val(p.drop_last()) * 10 + digit_value(s[j - 1]));
        assert(digits_val(p.drop_last()) * 10 >= digits_val(p.drop_last()));
    }
}

/// Whether the name follows the integer convention, whatever its number's
/// size: at least one leading digit, delimited by a separator.
pub open spec fn matches_number(s: Seq<char>) -> bool {
    &&& digits_run(s) >= 1
    &&& digits_run(s) < s.len()
    &&& is_sep_char(s[digits_run(s)])
}

/// The number a convention-following name carries.
pub open spec fn leading_number(s: Seq<char>) -> Option<nat> {
    if matches_number(s) {
        Some(digits_val(s.subrange(0, digits_run(s))))
    } else {
        None
    }
}

/// Whether the character is a decimal digit.
fn char_is_digit(c: char) -> (r: bool)
    ensures
        r == is_digit_char(c),
{
    (c as u32) >= 48 && (c as u32) <= 57
}

/// Whether the character may delimit a leading number.
fn char_is_sep(c: char) -> (r: bool)
    ensures
        r == is_sep_char(c),
{
    c == '.' || c == '_' || c == '-'
}

/// Parses the name's leading number under the integer convention: its
/// value when the name follows the convention and the value fits a
/// 32-bit count, nothing otherwise.
pub fn parse_leading_number(name: &str) -> (r: Option<u32>)
    ensures
        match leading_number(name@) {
            Some(m) => if m <= u32::MAX {
                r == Some(m as u32)
            } else {
                r is None
            },
            None => r is None,
        },
{
    let n = name.unicode_len();
    let mut d: usize = 0;
    while d < n && char_is_digit(name.get_char(d))
        invariant
            n == name@.len(),
            0 <= d <= n,
            forall|j: int| 0 <= j < d ==> is_digit_char(#[trigger] name@[j]),
        decreases n - d,
    {
        d = d + 1;
    }
    proof {
        lemma_digits_run_props(name@);
        assert(d == digits_run(name@)) by {
            if d < n {
                assert(!is_digit_char(name@[d as int]));
            }
        }
    }
    if d == 0 || d >= n || !char_is_sep(name.get_char(d)) {
        return None;
    }
    let ghost run = name@.subrange(0, d as int);
    let mut acc: u64 = 0;
    let mut i: usize = 0;
    while i < d
        invariant
            n == name@.len(),
            0 < d <= n,
            d == digits_run(name@),
            run == name@.subrange(0, d as int),
            0 <= i <= d,
            forall|j: int| 0 <= j < d ==> is_digit_char(#[trigger] name@[j]),
            acc == digits_val(name@.subrange(0, i as int)),
            acc <= u32::MAX,
        decreases d - i,
    {
        let c = name.get_char(i);
        let dv: u64 = (c as u32 as u64) - 48;
        proof {
            let p = name@.subrange(0, i + 1);
            assert(p.drop_last() =~= name@.subrange(0, i as int));
            assert(p.last() == name@[i as int]);
        }
        acc = acc * 10 + dv;
        if acc > 0xFFFF_FFFFu64 {
            proof {
                lemma_digits_val_monotone(name@, i + 1, d as int);
                assert(digits_val(run) > u32::MAX);
            }
            return None;
        }
        i = i + 1;
    }
    proof {
        assert(name@.subrange(0, i as int) =~= run);
    }
    Some(acc as u32)
}

/// The filenames of the listing.
pub open spec fn name_views(names: Seq<String>) -> Seq<Seq<char>> {
    names.map_values(|s: String| s@)
}

/// The highest number any name carries under the integer convention, over
/// names whose number fits a 32-bit count; nothing when no name follows
/// the convention.
pub open spec fn max_number(names: Seq<Seq<char>>) -> Option<nat>
    decreases names.len(),
{
    if names.len() == 0 {
        None
    } else {
        let prior = max_number(names.drop_last());
        let cur = leading_number(names.last());
        if cur is Some && cur->0 <= u32::MAX {
            match prior {
                None => cur,
                Some(p) => if cur->0 > p {
                    cur
                } else {
                    Some(p)
                },
            }
        } else {
            prior
        }
    }
}

/// Scans the existing filenames for the integer convention: the highest
/// number in use, or nothing when no name follows the convention.
pub fn scan_max_number(names: &Vec<String>) -> (r: Option<u32>)
    ensures
        match max_number(name_views(names@)) {
            Some(m) => m <= u32::MAX && r == Some(m as u32),
            None => r is None,
        },
{
    let mut best: Option<u32> = None;
    let mut i: usize = 0;
    while i < names.len()
        invariant
            0 <= i <= names@.len(),
            match max_number(name_views(names@).subrange(0, i as int)) {
                Some(m) => m <= u32::MAX && best == Some(m as u32),
                None => best is None,
            },
        decreases names@.len() - i,
    {
        let ghost pre = name_views(names@).subrange(0, i as int);
        let cur = parse_leading_number(names[i].as_str());
        proof {
            let ext = name_views(names@).subrange(0, i + 1);
            assert(ext.drop_last() =~= pre);
            assert(ext.last() == name_views(names@)[i as int]);
            assert(name_views(names@)[i as int] == names@[i as int]@);
        }
        match cur {
            Some(v) => {
                match best {
                    None => {
                        best = Some(v);
                    },
                    Some(b) => {
                        if v > b {
                            best = Some(v);
                        }
                    },
                }
            },
            None => {},
        }
        i = i + 1;
    }
    proof {
        assert(name_views(names@).subrange(0, names@.len() as int) =~= name_views(names@));
    }
    best
}


/// The decimal digits of a number, most significant first. Digits below
/// ten share the hexadecimal digit table.
pub open spec fn dec_digits(n: nat) -> Seq<char>
    decreases n,
{
    if n < 10 {
        seq![hex_digit(n as int)]
    } else {
        dec_digits(n / 10) + seq![hex_digit((n % 10) as int)]
    }
}

/// Renders a number in decimal.
pub fn u32_dec(n: u32) -> (r: String)
    ensures
        r@ == dec_digits(n as nat),
    decreases n,
{
    if n < 10 {
        let mut s = String::new();
        push_hex_digit(&mut s, n as u8);
        proof {
            assert(s@ =~= dec_digits(n as nat));
        }
        s
    } else {
        let mut s = u32_dec(n / 10);
        push_hex_digit(&mut s, (n % 10) as u8);
        proof {
            assert(s@ =~= dec_digits(n as nat));
        }
        s
    }
}

/// A two-digit zero-padded field.
pub open spec fn pad2(n: int) -> Seq<char> {
    seq![hex_digit(n / 10), hex_digit(n % 10)]
}

/// A four-digit zero-padded field.
pub open spec fn pad4(n: int) -> Seq<char> {
    seq![hex_digit(n / 1000), hex_digit((n / 100) % 10), hex_digit((n / 10) % 10), hex_digit(n % 10)]
}

/// A 14-digit timestamp: year, month, day, hour, minute, second, each
/// zero-padded.
pub open spec fn ts14(y: int, mo: int, d: int, h: int, mi: int, s: int) -> Seq<char> {
    pad4(y) + pad2(mo) + pad2(d) + pad2(h) + pad2(mi) + pad2(s)
}

/// Appends a two-digit zero-padded field.
fn push_pad2(out: &mut String, n: u32)
    requires
        n < 100,
    ensures
        final(out)@ == old(out)@ + pad2(n as int),
{
    push_hex_digit(out, (n / 10) as u8);
    push_hex_digit(out, (n % 10) as u8);
    proof {
        assert(final(out)@ =~= old(out)@ + pad2(n as int));
    }
}

/// Renders the timestamp fields as a 14-digit stamp.
pub fn format_timestamp14(y: u32, mo: u32, d: u32, h: u32, mi: u32, s: u32) -> (r: String)
    requires
        y < 10000,
        mo < 100,
        d < 100,
        h < 100,
        mi < 100,
        s < 100,
    ensures
        r@ == ts14(y as int, mo as int, d as int, h as int, mi as int, s as int),
{
    let mut out = String::new();
    push_hex_digit(&mut out, (y / 1000) as u8);
    push_hex_digit(&mut out, ((y / 100) % 10) as u8);
    push_hex_digit(&mut out, ((y / 10) % 10) as u8);
    push_hex_digit(&mut out, (y % 10) as u8);
    push_pad2(&mut out, mo);
    push_pad2(&mut out, d);
    push_pad2(&mut out, h);
    push_pad2(&mut out, mi);
    push_pad2(&mut out, s);
    proof {
        assert(out@ =~= ts14(y as int, mo as int, d as int, h as int, mi as int, s as int));
    }
    out
}

/// Relies on chrono::DateTime::from_timestamp (which returns nothing
/// rather than fail) and the Datelike and Timelike accessors: on the
/// produced value, month runs 1 to 12, day 1 to 31, hour 0 to 23, minute
/// and second 0 to 59, as chrono documents; nothing is promised of the
/// year. Yields nothing when the clock stands before the Unix epoch or
/// beyond chrono's range.
#[verifier::external_body]
fn utc_now_fields() -> (r: Option<(i64, u32, u32, u32, u32, u32)>)
    ensures
        r matches Some(f) ==> 1 <= f.1 <= 12 && 1 <= f.2 <= 31 && f.3 <= 23 && f.4 <= 59 && f.5
            <= 59,
{
    let elapsed = std::time::SystemTime::now().duration_since(std::time::UNIX_EPOCH).ok()?;
    let secs = i64::try_from(elapsed.as_secs()).ok()?;
    let now = chrono::DateTime::<chrono::Utc>::from_timestamp(secs, 0)?;
    Some((now.year() as i64, now.month(), now.day(), now.hour(), now.minute(), now.second()))
}

/// Digits below ten render as decimal digit characters.
pub proof fn lemma_small_hex_digit_is_digit(k: int)
    requires
        0 <= k <= 9,
    ensures
        is_digit_char(hex_digit(k)),
{
}

/// Renders clock fields as a 14-digit stamp: one is produced exactly when
/// the year can be written with four digits.
pub fn stamp_from_fields(y: i64, mo: u32, d: u32, h: u32, mi: u32, s: u32) -> (r: Option<String>)
    requires
        mo < 100,
        d < 100,
        h < 100,
        mi < 100,
        s < 100,
    ensures
        0 <= y <= 9999 ==> (r matches Some(t) && t@ == ts14(
            y as int,
            mo as int,
            d as int,
            h as int,
            mi as int,
            s as int,
        )),
        !(0 <= y <= 9999) ==> r is None,
{
    if y < 0 || y > 9999 {
        return None;
    }
    Some(format_timestamp14(y as u32, mo, d, h, mi, s))
}

/// Every field of a stamp within its range renders as a digit.
pub proof fn lemma_ts14_digits(y: int, mo: int, d: int, h: int, mi: int, s: int)
    requires
        0 <= y <= 9999,
        0 <= mo < 100,
        0 <= d < 100,
        0 <= h < 100,
        0 <= mi < 100,
        0 <= s < 100,
    ensures
        ts14(y, mo, d, h, mi, s).len() == 14,
        forall|i: int| 0 <= i < 14 ==> is_digit_char(#[trigger] ts14(y, mo, d, h, mi, s)[i]),
{
    assert forall|i: int| 0 <= i < 14 implies is_digit_char(
        #[trigger] ts14(y, mo, d, h, mi, s)[i],
    ) by {
        lemma_small_hex_digit_is_digit(y / 1000);
        lemma_small_hex_digit_is_digit((y / 100) % 10);
        lemma_small_hex_digit_is_digit((y / 10) % 10);
        lemma_small_hex_digit_is_digit(y % 10);
        lemma_small_hex_digit_is_digit(mo / 10);
        lemma_small_hex_digit_is_digit(mo % 10);
        lemma_small_hex_digit_is_digit(d / 10);
        lemma_small_hex_digit_is_digit(d % 10);
        lemma_small_hex_digit_is_digit(h / 10);
        lemma_small_hex_digit_is_digit(h % 10);
        lemma_small_hex_digit_is_digit(mi / 10);
        lemma_small_hex_digit_is_digit(mi % 10);
        lemma_small_hex_digit_is_digit(s / 10);
        lemma_small_hex_digit_is_digit(s % 10);
    }
}

/// The current UTC time as a 14-digit stamp, or nothing when the clock
/// cannot be read or its year cannot be written with four digits. Which
/// stamp each clock reading yields is fixed by `stamp_from_fields`.
pub fn current_timestamp14() -> (r: Option<String>)
    ensures
        r matches Some(t) ==> t@.len() == 14 && forall|i: int|
            0 <= i < 14 ==> is_digit_char(#[trigger] t@[i]),
{
    match utc_now_fields() {
        None => None,
        Some((y, mo, d, h, mi, s)) => {
            let r = stamp_from_fields(y, mo, d, h, mi, s);
            proof {
                if 0 <= y <= 9999 {
                    lemma_ts14_digits(y as int, mo as int, d as int, h as int, mi as int, s as int);
                }
            }
            r
        },
    }
}

/// Why no new filename could be produced.
#[derive(Debug)]
pub enum NewNameError {
    /// The integer convention is in use and its highest number cannot
    /// grow.
    NumberOverflow,
    /// The clock's year cannot be written with four digits.
    ClockOutOfRange,
}

/// The suffix every migration filename ends with.
pub open spec fn sql_suffix() -> Seq<char> {
    seq!['.', 's', 'q', 'l']
}

/// The next migration filename under the convention the existing names
/// establish: the highest integer prefix plus one when any name follows
/// the integer convention, the current UTC time as a 14-digit stamp
/// otherwise, each followed by an underscore, the requested name, and
/// `.sql`.
pub fn next_migration_name(names: &Vec<String>, name: &str) -> (r: Result<String, NewNameError>)
    ensures
        match max_number(name_views(names@)) {
            Some(m) => if m < u32::MAX {
                r matches Ok(t) && t@ == dec_digits((m + 1) as nat) + seq!['_'] + name@
                    + sql_suffix()
            } else {
                r matches Err(e) && e is NumberOverflow
            },
            None => {
                &&& r matches Ok(t) ==> {
                    &&& t@.len() == 19 + name@.len()
                    &&& (forall|i: int| 0 <= i < 14 ==> is_digit_char(#[trigger] t@[i]))
                    &&& t@[14] == '_'
                    &&& t@.subrange(15, t@.len() - 4) == name@
                    &&& t@.subrange(t@.len() - 4, t@.len() as int) == sql_suffix()
                }
                &&& (r matches Err(e) ==> e is ClockOutOfRange)
            },
        },
{
    proof {
        reveal_strlit("_");
        reveal_strlit(".sql");
    }
    match scan_max_number(names) {
        Some(m) => {
            if m == u32::MAX {
                return Err(NewNameError::NumberOverflow);
            }
            let t = u32_dec(m + 1).concat("_").concat(name).concat(".sql");
            proof {
                assert("_"@ =~= seq!['_']);
                assert(".sql"@ =~= sql_suffix());
            }
            Ok(t)
        },
        None => {
            match current_timestamp14() {
                None => Err(NewNameError::ClockOutOfRange),
                Some(stamp) => {
                    let t = stamp.concat("_").concat(name).concat(".sql");
                    proof {
                        assert("_"@ =~= seq!['_']);
                        assert(".sql"@ =~= sql_suffix());
                        assert(t@.subrange(15, t@.len() - 4) =~= name@);
                        assert(t@.subrange(t@.len() - 4, t@.len() as int) =~= sql_suffix());
                    }
                    Ok(t)
                },
            }
        },
    }
}

/// The single header line a freshly created migration file holds: a line
/// comment naming the file.
pub fn migration_header(filename: &str) -> (r: String)
    ensures
        r@ == "-- Migration: "@ + filename@ + "\n"@,
{
    String::from_str("-- Migration: ").concat(filename).concat("\n")
}


/// Law: a fresh migration file holds nothing but its header comment, so
/// its content hash is the hash of empty text — creating a file never
/// adds executable content.
pub proof fn lemma_header_hashes_like_empty(name: Seq<char>)
    requires
        forall|j: int| 0 <= j < name.len() ==> name[j] != '\n',
    ensures
        content_hash("-- Migration: "@ + name + "\n"@) == content_hash(Seq::<char>::empty()),
{
    reveal_strlit("-- Migration: ");
    reveal_strlit("\n");
    let head = "-- Migration: "@;
    let h = head + name + "\n"@;
    assert(head.len() == 14);
    let k = 14 + name.len() as int;
    assert(h.len() == k + 1);
    assert(h[k] == '\n');
    assert forall|j: int| 0 <= j < k implies h[j] != '\n' by {
        if j < 14 {
            assert(h[j] == head[j]);
        } else {
            assert(h[j] == name[j - 14]);
        }
    }
    lemma_nl_index_props(h);
    assert(nl_index(h) == k) by {
        if nl_index(h) < k {
            assert(h[nl_index(h)] != '\n');
        }
        if nl_index(h) > k {
            assert(h[k] != '\n');
        }
    }
    let line = h.subrange(0, k);
    assert(line[0] == '-');
    assert(line[1] == '-');
    assert(comment_start(line) == 0);
    assert(strip_comment(line) =~= Seq::<char>::empty());
    assert(clean_line(line).len() == 0);
    assert(h.subrange(k + 1, h.len() as int) =~= Seq::<char>::empty());
    assert(kept_lines(Seq::<char>::empty()) =~= Seq::<Seq<char>>::empty());
    assert(kept_lines(h) =~= Seq::<Seq<char>>::empty());
    assert(canon(h) =~= Seq::<char>::empty());
    assert(canon(Seq::<char>::empty()) =~= Seq::<char>::empty());
    lemma_hash_from_canon(h, Seq::<char>::empty());
}

} // verus!
