//! Display helpers: sizes as human-readable text, timestamps as dates, and
//! entry kinds as labels.

use vstd::prelude::*;
use vstd::string::*;
use crate::entries::{after_last_dot, name_has_extension, raw_extension};
use crate::numbers::{dec_str, fmt_u64};
use crate::text::{str_eq, to_upper, upper_of};

verus! {

/// One kibibyte.
pub const BYTES_PER_KB: u64 = 1024;

/// One mebibyte.
pub const BYTES_PER_MB: u64 = 1048576;

/// One gibibyte.
pub const BYTES_PER_GB: u64 = 1073741824;

/// `size / div` in tenths, rounded half-up.
pub open spec fn scaled_tenths(size: int, div: int) -> int {
    10 * (size / div) + ((size % div) * 10 + div / 2) / div
}

/// The size as text: whole bytes below one KB, otherwise one decimal place
/// of the largest unit reached.
pub open spec fn human_bytes_spec(size: u64) -> Seq<char> {
    if size >= BYTES_PER_GB {
        let t = scaled_tenths(size as int, BYTES_PER_GB as int);
        dec_str(t / 10) + "."@ + dec_str(t % 10) + " GB"@
    } else if size >= BYTES_PER_MB {
        let t = scaled_tenths(size as int, BYTES_PER_MB as int);
        dec_str(t / 10) + "."@ + dec_str(t % 10) + " MB"@
    } else if size >= BYTES_PER_KB {
        let t = scaled_tenths(size as int, BYTES_PER_KB as int);
        dec_str(t / 10) + "."@ + dec_str(t % 10) + " KB"@
    } else {
        dec_str(size as int) + " B"@
    }
}

/// `size / div` in tenths, rounded half-up.
fn tenths_of(size: u64, div: u64) -> (t: u64)
    requires
        1024 <= div <= 1073741824,
    ensures
        t as int == scaled_tenths(size as int, div as int),
{
    let whole = size / div;
    let rest = size % div;
    proof {
        vstd::arithmetic::div_mod::lemma_fundamental_div_mod(size as int, div as int);
        vstd::arithmetic::div_mod::lemma_mod_bound(size as int, div as int);
        assert((whole as int) * 1024 <= (div as int) * (whole as int)) by (nonlinear_arith)
            requires
                (div as int) >= 1024,
                (whole as int) >= 0,
        ;
        assert((div as int) * (whole as int) <= size as int);
        let num = (rest as int) * 10 + (div as int) / 2;
        let frac = num / (div as int);
        vstd::arithmetic::div_mod::lemma_fundamental_div_mod(num, div as int);
        vstd::arithmetic::div_mod::lemma_mod_bound(num, div as int);
        assert(frac * 1024 <= (div as int) * frac) by (nonlinear_arith)
            requires
                (div as int) >= 1024,
                frac >= 0,
        ;
        assert((div as int) * frac <= num);
    }
    10 * whole + (rest * 10 + div / 2) / div
}

/// One unit's rendering: the tenths as `W.D` followed by the unit suffix.
fn render_scaled(t: u64, suffix: &str) -> (r: String)
    ensures
        r@ == dec_str(t as int / 10) + "."@ + dec_str(t as int % 10) + suffix@,
{
    let mut out = fmt_u64(t / 10);
    out.append(".");
    let frac = fmt_u64(t % 10);
    out.append(frac.as_str());
    out.append(suffix);
    proof {
        assert(out@ =~= dec_str(t as int / 10) + "."@ + dec_str(t as int % 10) + suffix@);
    }
    out
}

/// The size as human-readable text: `N B` below one KB, otherwise one
/// decimal place of the largest unit reached, as in `1.5 GB`.
pub fn human_bytes(size: u64) -> (r: String)
    ensures
        r@ == human_bytes_spec(size),
{
    if size >= BYTES_PER_GB {
        render_scaled(tenths_of(size, BYTES_PER_GB), " GB")
    } else if size >= BYTES_PER_MB {
        render_scaled(tenths_of(size, BYTES_PER_MB), " MB")
    } else if size >= BYTES_PER_KB {
        render_scaled(tenths_of(size, BYTES_PER_KB), " KB")
    } else {
        let mut out = fmt_u64(size);
        out.append(" B");
        proof {
            assert(out@ =~= dec_str(size as int) + " B"@);
        }
        out
    }
}

/// The number zero-padded to at least two digits.
pub open spec fn pad2(n: int) -> Seq<char> {
    if n <= 9 {
        "0"@ + dec_str(n)
    } else {
        dec_str(n)
    }
}

/// The number zero-padded to at least four digits.
pub open spec fn pad4(n: int) -> Seq<char> {
    if n <= 9 {
        "000"@ + dec_str(n)
    } else if n <= 99 {
        "00"@ + dec_str(n)
    } else if n <= 999 {
        "0"@ + dec_str(n)
    } else {
        dec_str(n)
    }
}

/// The date a Unix timestamp falls on, under the library's flat calendar:
/// years of 365 days, months of 30 days, rendered `YYYY/MM/DD`.
pub open spec fn format_date_spec(timestamp: u64) -> Seq<char> {
    let days = (timestamp as int) / 86400;
    let year = 1970 + days / 365;
    let rem = days % 365;
    let month = rem / 30 + 1;
    let day = rem % 30 + 1;
    pad4(year) + "/"@ + pad2(month) + "/"@ + pad2(day)
}

fn fmt_pad2(n: u64) -> (r: String)
    ensures
        r@ == pad2(n as int),
{
    if n <= 9 {
        let mut out = String::from_str("0");
        let d = fmt_u64(n);
        out.append(d.as_str());
        proof {
            assert(out@ =~= pad2(n as int));
        }
        out
    } else {
        fmt_u64(n)
    }
}

fn fmt_pad4(n: u64) -> (r: String)
    ensures
        r@ == pad4(n as int),
{
    let prefix = if n <= 9 {
        "000"
    } else if n <= 99 {
        "00"
    } else if n <= 999 {
        "0"
    } else {
        ""
    };
    let mut out = String::from_str(prefix);
    let d = fmt_u64(n);
    out.append(d.as_str());
    proof {
        reveal_strlit("");
        assert(out@ =~= pad4(n as int));
    }
    out
}

/// Renders a Unix timestamp as a coarse `YYYY/MM/DD` date (365-day years,
/// 30-day months: accepted imprecision, kept for stable display).
pub fn format_date(timestamp: &u64) -> (r: String)
    ensures
        r@ == format_date_spec(*timestamp),
{
    let days = *timestamp / 86400;
    let year = 1970 + days / 365;
    let rem = days % 365;
    let month = rem / 30 + 1;
    let day = rem % 30 + 1;
    let mut out = fmt_pad4(year);
    out.append("/");
    let m = fmt_pad2(month);
    out.append(m.as_str());
    out.append("/");
    let d = fmt_pad2(day);
    out.append(d.as_str());
    proof {
        assert(out@ =~= format_date_spec(*timestamp));
    }
    out
}

/// The display label of one entry kind: a folder label for directories, the
/// uppercased extension (or a plain file label) for files, a link label for
/// symlinks, and the kind text itself otherwise.
pub open spec fn file_type_spec(name: Seq<char>, kind: Seq<char>) -> Seq<char> {
    if kind == "dir"@ {
        "フォルダ"@
    } else if kind == "file"@ {
        if name_has_extension(name) {
            upper_of(name.subrange(after_last_dot(name), name.len() as int))
        } else {
            "ファイル"@
        }
    } else if kind == "symlink"@ {
        "リンク"@
    } else {
        kind
    }
}

/// The display label of one entry's type.
pub fn get_file_type(name: &str, kind: &str) -> (r: String)
    ensures
        r@ == file_type_spec(name@, kind@),
{
    if str_eq(kind, "dir") {
        return String::from_str("フォルダ");
    }
    if str_eq(kind, "file") {
        return match raw_extension(name) {
            Some(e) => to_upper(e),
            None => String::from_str("ファイル"),
        };
    }
    if str_eq(kind, "symlink") {
        return String::from_str("リンク");
    }
    String::from_str(kind)
}

} // verus!
