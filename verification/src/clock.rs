//! The local time, as text.

use chrono::Local;
use vstd::prelude::*;

verus! {

/// The format of the time in a snapshot directory's name.
pub open spec fn snapshot_stamp_format() -> Seq<char> {
    "%Y-%m-%d_%H%M%S"@
}

/// The format of the time in the name of an exported file.
pub open spec fn file_stamp_format() -> Seq<char> {
    "%Y%m%d_%H%M%S"@
}

/// The format of the time in the header of an exported file.
pub open spec fn header_stamp_format() -> Seq<char> {
    "%Y-%m-%d %H:%M:%S"@
}

/// One of the formats that the library writes the time in.
pub open spec fn is_stamp_format(format: Seq<char>) -> bool {
    ||| format == snapshot_stamp_format()
    ||| format == file_stamp_format()
    ||| format == header_stamp_format()
}

/// A decimal digit.
pub open spec fn is_digit(c: char) -> bool {
    '0' <= c <= '9'
}

/// The characters of `s` from `from` up to `to` are digits.
pub open spec fn digits_at(s: Seq<char>, from: int, to: int) -> bool {
    forall|i: int| from <= i < to ==> is_digit(#[trigger] s[i])
}

/// A year as `%Y` writes it: four digits, or a sign and four or more digits
/// for a year before 0 or after 9999.
pub open spec fn is_year(s: Seq<char>) -> bool {
    ||| s.len() == 4 && digits_at(s, 0, 4)
    ||| s.len() >= 5 && (s[0] == '+' || s[0] == '-') && digits_at(s, 1, s.len() as int)
}

/// A time as the snapshot format writes it: `<year>-mm-dd_HHMMSS`.
pub open spec fn is_snapshot_stamp(s: Seq<char>) -> bool {
    let n = s.len() as int;
    &&& n >= 17
    &&& is_year(s.subrange(0, n - 13))
    &&& s[n - 13] == '-'
    &&& digits_at(s, n - 12, n - 10)
    &&& s[n - 10] == '-'
    &&& digits_at(s, n - 9, n - 7)
    &&& s[n - 7] == '_'
    &&& digits_at(s, n - 6, n)
}

/// A time as the format for file names writes it: `<year>mmdd_HHMMSS`.
pub open spec fn is_file_stamp(s: Seq<char>) -> bool {
    let n = s.len() as int;
    &&& n >= 15
    &&& is_year(s.subrange(0, n - 11))
    &&& digits_at(s, n - 11, n - 7)
    &&& s[n - 7] == '_'
    &&& digits_at(s, n - 6, n)
}

/// A time as the format for headers writes it: `<year>-mm-dd HH:MM:SS`.
pub open spec fn is_header_stamp(s: Seq<char>) -> bool {
    let n = s.len() as int;
    &&& n >= 19
    &&& is_year(s.subrange(0, n - 15))
    &&& s[n - 15] == '-'
    &&& digits_at(s, n - 14, n - 12)
    &&& s[n - 12] == '-'
    &&& digits_at(s, n - 11, n - 9)
    &&& s[n - 9] == ' '
    &&& digits_at(s, n - 8, n - 6)
    &&& s[n - 6] == ':'
    &&& digits_at(s, n - 5, n - 3)
    &&& s[n - 3] == ':'
    &&& digits_at(s, n - 2, n)
}

/// The time `stamp` has the shape that `format` writes.
pub open spec fn stamp_fits(format: Seq<char>, stamp: Seq<char>) -> bool {
    if format == snapshot_stamp_format() {
        is_snapshot_stamp(stamp)
    } else if format == file_stamp_format() {
        is_file_stamp(stamp)
    } else {
        is_header_stamp(stamp)
    }
}

/// A character that is safe in a file's name on every file system and can
/// stand in a time: a digit, a sign, or an underscore.
pub open spec fn is_name_stamp_char(c: char) -> bool {
    ||| is_digit(c)
    ||| c == '-'
    ||| c == '+'
    ||| c == '_'
}

/// A time made of characters that are safe in a file's name.
pub open spec fn is_name_stamp(stamp: Seq<char>) -> bool {
    forall|i: int| 0 <= i < stamp.len() ==> is_name_stamp_char(#[trigger] stamp[i])
}

/// The three formats are three different texts.
pub proof fn lemma_formats_differ()
    ensures
        snapshot_stamp_format() != file_stamp_format(),
        snapshot_stamp_format() != header_stamp_format(),
        file_stamp_format() != header_stamp_format(),
{
    reveal_strlit("%Y-%m-%d %H:%M:%S");
    reveal_strlit("%Y-%m-%d_%H%M%S");
    reveal_strlit("%Y%m%d_%H%M%S");
    assert(header_stamp_format()[8] == ' ');
    assert(snapshot_stamp_format()[8] == '_');
    assert(file_stamp_format().len() == 13);
    assert(snapshot_stamp_format().len() == 15);
    assert(header_stamp_format().len() == 17);
}

/// The characters of a year are digits and signs.
proof fn lemma_year_chars(s: Seq<char>, n: int)
    requires
        0 <= n <= s.len(),
        is_year(s.subrange(0, n)),
    ensures
        forall|i: int| 0 <= i < n ==> is_name_stamp_char(#[trigger] s[i]),
{
    let y = s.subrange(0, n);
    assert forall|i: int| 0 <= i < n implies is_name_stamp_char(#[trigger] s[i]) by {
        assert(s[i] == y[i]);
        if i >= 1 || y.len() == 4 {
            assert(is_digit(y[i]));
        }
    }
}

/// A time in the snapshot format is safe in a file's name.
pub proof fn lemma_snapshot_stamp_is_safe(s: Seq<char>)
    requires
        is_snapshot_stamp(s),
    ensures
        is_name_stamp(s),
{
    let n = s.len() as int;
    lemma_year_chars(s, n - 13);
    assert forall|i: int| 0 <= i < n implies is_name_stamp_char(#[trigger] s[i]) by {
        if i >= n - 13 {
            if i == n - 13 || i == n - 10 || i == n - 7 {
            } else {
                assert(is_digit(s[i]));
            }
        }
    }
}

/// A time in the format for file names is safe in a file's name.
pub proof fn lemma_file_stamp_is_safe(s: Seq<char>)
    requires
        is_file_stamp(s),
    ensures
        is_name_stamp(s),
{
    let n = s.len() as int;
    lemma_year_chars(s, n - 11);
    assert forall|i: int| 0 <= i < n implies is_name_stamp_char(#[trigger] s[i]) by {
        if i >= n - 11 {
            if i == n - 7 {
            } else {
                assert(is_digit(s[i]));
            }
        }
    }
}

/// `chrono::Local::now`, written out by `DateTime::format` in each of the
/// formats: one reading of the clock, so the texts tell the same moment.
///
/// What the time is depends on the clock and the time zone, so only this is
/// claimed of each text: it has the shape that its format writes. `%Y` writes
/// four digits, or a sign and at least four digits for a year outside 0 to
/// 9999; `%m`, `%d`, `%H`, `%M` and `%S` write two digits each; the hyphens,
/// the underscore, the blank and the colons are the format's own. The formats
/// are limited to the library's three, which `format` can write; it fails on a
/// format it cannot read.
#[verifier::external_body]
pub(crate) fn local_time_texts(formats: &[&str]) -> (stamps: Vec<String>)
    requires
        forall|i: int| 0 <= i < formats@.len() ==> is_stamp_format(#[trigger] formats@[i]@),
    ensures
        stamps@.len() == formats@.len(),
        forall|i: int|
            0 <= i < stamps@.len() ==> stamp_fits(formats@[i]@, (#[trigger] stamps@[i])@),
{
    let now = Local::now();
    formats.iter().map(|f| now.format(f).to_string()).collect()
}

} // verus!
