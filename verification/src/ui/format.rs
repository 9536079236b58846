//! How figures, times and paths are shown.
use vstd::prelude::*;

use crate::text;

verus! {

/// The dash that stands for what is not known.
pub const NONE: &'static str = "—";

/// `n / d` rounded to the nearest whole number, ties to the even one.
pub open spec fn half_even(n: nat, d: nat) -> nat {
    let q = n / d;
    let r = n % d;
    if 2 * r < d || (2 * r == d && q % 2 == 0) {
        q
    } else {
        q + 1
    }
}

fn round_half_even(n: u128, d: u128) -> (r: u128)
    requires
        0 < d <= 0x1_0000_0000_0000,
        n <= 0xffff_ffff_ffff_ffff_ffff_ffff,
    ensures
        r == half_even(n as nat, d as nat),
        r <= n + 1,
{
    let q: u128 = n / d;
    let m: u128 = n % d;
    proof {
        assert(q <= n) by (nonlinear_arith)
            requires
                q == n / d,
                d > 0,
                n >= 0,
        ;
        assert(n as nat / d as nat == q);
        assert(n as nat % d as nat == m);
        assert(m < d);
    }
    if 2 * m < d || (2 * m == d && q % 2 == 0) {
        q
    } else {
        q + 1
    }
}

/// A number of tenths with one decimal place.
pub open spec fn one_decimal(tenths: nat) -> Seq<char> {
    text::decimal(tenths / 10) + "."@ + text::decimal(tenths % 10)
}

fn with_one_decimal(tenths: u64) -> (r: String)
    ensures
        r@ == one_decimal(tenths as nat),
{
    let mut out = text::to_decimal(tenths / 10);
    out.append(".");
    let last = text::to_decimal(tenths % 10);
    out.append(last.as_str());
    out
}

/// A CPU share, in billionths of a percent, with one decimal place.
pub open spec fn cpu_text(cpu: nat) -> Seq<char> {
    one_decimal(half_even(cpu, 100_000_000)) + "%"@
}

/// A CPU share as it is shown.
pub fn fmt_cpu(cpu: u64) -> (r: String)
    ensures
        r@ == cpu_text(cpu as nat),
{
    let tenths = round_half_even(cpu as u128, 100_000_000);
    proof {
        assert(half_even(cpu as nat, 100_000_000) <= u64::MAX) by {
            assert(cpu as nat / 100_000_000 <= 184467440738);
        }
    }
    let mut out = with_one_decimal(tenths as u64);
    out.append("%");
    out
}

/// How long ago `start` was, in its largest whole unit. Zero is no start at all.
pub open spec fn uptime_text(start: u64, now: u64) -> Seq<char> {
    let s: nat = if now >= start {
        (now - start) as nat
    } else {
        0
    };
    if start == 0 {
        NONE@
    } else if s < 60 {
        text::decimal(s) + "s"@
    } else if s < 3600 {
        text::decimal(s / 60) + "m"@
    } else if s < 86_400 {
        text::decimal(s / 3600) + "h"@
    } else {
        text::decimal(s / 86_400) + "d"@
    }
}

/// Time since `start`; both in seconds since the epoch.
pub fn fmt_uptime(start: u64, now: u64) -> (r: String)
    ensures
        r@ == uptime_text(start, now),
{
    if start == 0 {
        return NONE.to_owned();
    }
    let s: u64 = if now >= start {
        now - start
    } else {
        0
    };
    let (n, unit) = if s < 60 {
        (s, "s")
    } else if s < 3600 {
        (s / 60, "m")
    } else if s < 86_400 {
        (s / 3600, "h")
    } else {
        (s / 86_400, "d")
    };
    let mut out = text::to_decimal(n);
    out.append(unit);
    out
}

/// Bytes in whole megabytes, or in gigabytes with one decimal place.
pub open spec fn mem_text(bytes: nat) -> Seq<char> {
    if bytes >= 1_073_741_824 {
        one_decimal(half_even(10 * bytes, 1_073_741_824)) + "GB"@
    } else {
        text::decimal(bytes / 1_048_576) + "MB"@
    }
}

/// An amount of memory as it is shown.
pub fn fmt_mem(bytes: u64) -> (r: String)
    ensures
        r@ == mem_text(bytes as nat),
{
    if bytes >= 1_073_741_824 {
        let ten: u128 = 10 * (bytes as u128);
        let tenths = round_half_even(ten, 1_073_741_824);
        proof {
            assert(tenths <= u64::MAX) by {
                assert(ten / 1_073_741_824 <= 171798691840);
            }
        }
        let mut out = with_one_decimal(tenths as u64);
        out.append("GB");
        out
    } else {
        let mut out = text::to_decimal(bytes / 1_048_576);
        out.append("MB");
        out
    }
}

/// A path with the home directory shortened to a tilde.
pub open spec fn shortened(path: Seq<char>, home: Option<Seq<char>>) -> Seq<char> {
    match home {
        Some(h) => if h.len() > 0 && h.is_prefix_of(path) {
            "~"@ + path.skip(h.len() as int)
        } else {
            path
        },
        None => path,
    }
}

/// Shorten the home directory in a path to `~`.
pub fn tildify(path: &str, home: Option<&str>) -> (r: String)
    ensures
        r@ == shortened(path@, crate::paths::opt_str(home)),
{
    match home {
        Some(h) => {
            if h.unicode_len() > 0 {
                match text::strip_prefix(path, h) {
                    Some(rest) => {
                        let mut out = "~".to_owned();
                        out.append(rest.as_str());
                        return out;
                    },
                    None => {},
                }
            }
            path.to_owned()
        },
        None => path.to_owned(),
    }
}

/// A rectangle of terminal cells.
#[derive(Clone, Copy, Debug, PartialEq, Eq, Structural)]
pub struct Rect {
    pub x: u16,
    pub y: u16,
    pub width: u16,
    pub height: u16,
}

/// The rectangle ends within the range of coordinates.
pub open spec fn fits(r: Rect) -> bool {
    r.x + r.width <= u16::MAX && r.y + r.height <= u16::MAX
}

/// Half of what `inner` leaves of `outer`.
pub open spec fn margin(outer: u16, inner: u16) -> int {
    if inner <= outer {
        (outer - inner) / 2
    } else {
        0
    }
}

/// `r` has the given size, or as much of it as there is room for, in the middle of an area.
pub open spec fn is_centered(r: Rect, w: u16, h: u16, area: Rect) -> bool {
    &&& r.x == area.x + margin(area.width, w)
    &&& r.y == area.y + margin(area.height, h)
    &&& r.width == (if w <= area.width { w } else { area.width })
    &&& r.height == (if h <= area.height { h } else { area.height })
}

/// A rectangle of `w` by `h` in the middle of `area`, cut to it.
pub fn centered_rect(w: u16, h: u16, area: Rect) -> (r: Rect)
    requires
        fits(area),
    ensures
        is_centered(r, w, h, area),
        fits(r),
{
    let dx: u16 = if w <= area.width {
        (area.width - w) / 2
    } else {
        0
    };
    let dy: u16 = if h <= area.height {
        (area.height - h) / 2
    } else {
        0
    };
    Rect {
        x: area.x + dx,
        y: area.y + dy,
        width: if w <= area.width {
            w
        } else {
            area.width
        },
        height: if h <= area.height {
            h
        } else {
            area.height
        },
    }
}

/// Whether a point lies in a rectangle.
pub fn rect_contains(r: Rect, x: u16, y: u16) -> (b: bool)
    ensures
        b == (r.x <= x < r.x + r.width && r.y <= y < r.y + r.height),
{
    x >= r.x && x - r.x < r.width && y >= r.y && y - r.y < r.height
}

} // verus!
