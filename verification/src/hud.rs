//! The status line shown over the wallpaper: pattern, camera, zoom,
//! population, generation, pause state and speed.

use crate::camera::Camera;
use crate::controls::TickSpeed;
use crate::pattern::{digits_value, is_digit};
use crate::renderer::geometry::{pixel_size, pixel_size_for_scale};
use crate::text::chars_of;
use vstd::arithmetic::power2::pow2;
use vstd::bits::{lemma_u64_pow2_no_overflow, lemma_u64_shl_is_mul};
use vstd::prelude::*;

verus! {

/// The decimal digit of `d`, for `0 <= d < 10`.
pub open spec fn digit_char(d: int) -> char {
    if d == 0 {
        '0'
    } else if d == 1 {
        '1'
    } else if d == 2 {
        '2'
    } else if d == 3 {
        '3'
    } else if d == 4 {
        '4'
    } else if d == 5 {
        '5'
    } else if d == 6 {
        '6'
    } else if d == 7 {
        '7'
    } else if d == 8 {
        '8'
    } else {
        '9'
    }
}

/// The decimal digit of `d`, for `0 <= d < 10`.
fn digit(d: u64) -> (c: char)
    requires
        d < 10,
    ensures
        c == digit_char(d as int),
{
    if d == 0 {
        '0'
    } else if d == 1 {
        '1'
    } else if d == 2 {
        '2'
    } else if d == 3 {
        '3'
    } else if d == 4 {
        '4'
    } else if d == 5 {
        '5'
    } else if d == 6 {
        '6'
    } else if d == 7 {
        '7'
    } else if d == 8 {
        '8'
    } else {
        '9'
    }
}

/// The decimal representation of `n`, without leading zeros.
pub open spec fn decimal(n: nat) -> Seq<char>
    decreases n,
{
    if n < 10 {
        seq![digit_char(n as int)]
    } else {
        decimal(n / 10).push(digit_char((n % 10) as int))
    }
}

/// The decimal representation of `i`, with a leading `-` when negative.
pub open spec fn signed_decimal(i: int) -> Seq<char> {
    if i < 0 {
        seq!['-'] + decimal((-i) as nat)
    } else {
        decimal(i as nat)
    }
}

/// The speed of `2^e` ticks per second as text: `N.00 ticks/s` at one tick
/// per second or faster, `1 tick/N.0s` when slower.
pub open spec fn speed_text(e: int) -> Seq<char> {
    if e >= 0 {
        decimal(pow2(e as nat)) + ".00 ticks/s"@
    } else {
        "1 tick/"@ + decimal(pow2((-e) as nat)) + ".0s"@
    }
}

/// The status line for pattern `name`, a camera at `(x, y)` drawing cells
/// `zoom` pixels wide, `cells` live cells at generation `generation`
/// (marked rewound while replaying), the pause state, and a speed of
/// `2^speed` ticks per second.
pub open spec fn status_line(
    name: Seq<char>,
    x: int,
    y: int,
    zoom: int,
    cells: nat,
    generation: nat,
    replaying: bool,
    paused: bool,
    speed: int,
) -> Seq<char> {
    "Current Pattern = "@ + name + " | Camera: ("@ + signed_decimal(x) + ", "@ + signed_decimal(y)
        + ") | Zoom: "@ + decimal(zoom as nat) + "x | Cells: "@ + decimal(cells) + " | Gen: "@
        + decimal(generation) + (if replaying {
        " rewound"@
    } else {
        ""@
    }) + " | "@ + (if paused {
        "\u{23f8} Paused"@
    } else {
        "\u{25b6} Running"@
    }) + " | Speed: "@ + speed_text(speed)
}

/// Appends the characters of `s` to `out`.
fn push_str(out: &mut Vec<char>, s: &str)
    ensures
        final(out)@ == old(out)@ + s@,
{
    let mut t = chars_of(s);
    out.append(&mut t);
}

/// Appends the decimal representation of `n` to `out`.
fn push_decimal(out: &mut Vec<char>, n: u64)
    ensures
        final(out)@ == old(out)@ + decimal(n as nat),
    decreases n,
{
    if n >= 10 {
        push_decimal(out, n / 10);
    }
    let c = digit(n % 10);
    out.push(c);
    proof {
        if n >= 10 {
            assert(final(out)@ =~= old(out)@ + decimal(n as nat));
        } else {
            assert(final(out)@ =~= old(out)@ + decimal(n as nat));
        }
    }
}

/// Appends the decimal representation of `i`, with a leading `-` when
/// negative, to `out`.
fn push_signed(out: &mut Vec<char>, i: i32)
    ensures
        final(out)@ == old(out)@ + signed_decimal(i as int),
{
    if i < 0 {
        out.push('-');
        let magnitude = (-(i as i64)) as u64;
        push_decimal(out, magnitude);
        proof {
            assert(final(out)@ =~= old(out)@ + signed_decimal(i as int));
        }
    } else {
        push_decimal(out, i as u64);
    }
}

/// `2^k` as a `u64`, for `k < 64`.
fn power_of_two(k: u32) -> (p: u64)
    requires
        k < 64,
    ensures
        p == pow2(k as nat),
{
    proof {
        lemma_u64_pow2_no_overflow(k as nat);
        lemma_u64_shl_is_mul(1, k as u64);
    }
    1u64 << (k as u64)
}

/// The status line (see `status_line`) for the pattern named
/// `pattern_name` (`None` when no pattern has loaded), the camera, the
/// number of live cells, the generation, whether history is being
/// replayed, the pause state and the speed.
pub fn hud_text(
    pattern_name: Option<&str>,
    camera: &Camera,
    cell_count: usize,
    generation: u64,
    replaying: bool,
    paused: bool,
    speed: &TickSpeed,
) -> (text: Vec<char>)
    ensures
        text@ == status_line(
            match pattern_name {
                Some(n) => n@,
                None => "None"@,
            },
            camera@.x,
            camera@.y,
            pixel_size(camera@.scale),
            cell_count as nat,
            generation as nat,
            replaying,
            paused,
            speed@,
        ),
{
    let mut out: Vec<char> = Vec::new();
    push_str(&mut out, "Current Pattern = ");
    match pattern_name {
        Some(n) => push_str(&mut out, n),
        None => push_str(&mut out, "None"),
    }
    push_str(&mut out, " | Camera: (");
    push_signed(&mut out, camera.x());
    push_str(&mut out, ", ");
    push_signed(&mut out, camera.y());
    push_str(&mut out, ") | Zoom: ");
    let zoom = pixel_size_for_scale(camera.scale());
    push_decimal(&mut out, zoom as u64);
    push_str(&mut out, "x | Cells: ");
    push_decimal(&mut out, cell_count as u64);
    push_str(&mut out, " | Gen: ");
    push_decimal(&mut out, generation);
    if replaying {
        push_str(&mut out, " rewound");
    } else {
        push_str(&mut out, "");
    }
    push_str(&mut out, " | ");
    if paused {
        push_str(&mut out, "\u{23f8} Paused");
    } else {
        push_str(&mut out, "\u{25b6} Running");
    }
    push_str(&mut out, " | Speed: ");
    let e = speed.exponent();
    if e >= 0 {
        push_decimal(&mut out, power_of_two(e as u32));
        push_str(&mut out, ".00 ticks/s");
    } else {
        push_str(&mut out, "1 tick/");
        push_decimal(&mut out, power_of_two((-e) as u32));
        push_str(&mut out, ".0s");
    }
    proof {
        assert(out@ =~= status_line(
            match pattern_name {
                Some(n) => n@,
                None => "None"@,
            },
            camera@.x,
            camera@.y,
            pixel_size(camera@.scale),
            cell_count as nat,
            generation as nat,
            replaying,
            paused,
            speed@,
        ));
    }
    out
}


/// A decimal text reads back as its number: it is made of digits only, at
/// least one, has no leading zero unless the number is 0, and the digits,
/// read most significant first, have the number's value.
pub proof fn law_decimal_reads_back(n: nat)
    ensures
        decimal(n).len() >= 1,
        forall|i: int| 0 <= i < decimal(n).len() ==> is_digit(#[trigger] decimal(n)[i]),
        n > 0 ==> decimal(n)[0] != '0',
        n == 0 ==> decimal(n) == seq!['0'],
        digits_value(decimal(n)) == n,
    decreases n,
{
    if n >= 10 {
        law_decimal_reads_back(n / 10);
        let d = decimal(n);
        let q = decimal(n / 10);
        assert(d.drop_last() =~= q);
        assert(d[0] == q[0]);
        assert(forall|i: int| 0 <= i < q.len() ==> d[i] == q[i]);
        let r = (n % 10) as int;
        assert(0 <= r < 10);
        assert(d.last() == digit_char(r));
        assert(digit_char(r) as u32 - 48 == r);
        assert(is_digit(digit_char(r)));
        assert((n / 10) as int * 10 + r == n as int);
        assert(digits_value(d) == digits_value(d.drop_last()) * 10 + (d.last() as u32 - 48));
        assert(digits_value(d) == digits_value(q) * 10 + r);
    } else {
        assert(decimal(n) =~= seq![digit_char(n as int)]);
        assert(seq![digit_char(n as int)].drop_last() =~= Seq::<char>::empty());
        assert(digit_char(n as int) as u32 - 48 == n);
        let d = decimal(n);
        assert(digits_value(d) == digits_value(d.drop_last()) * 10 + (d.last() as u32 - 48));
        assert(digits_value(d.drop_last()) == 0);
    }
}

} // verus!
