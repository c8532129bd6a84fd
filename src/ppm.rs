use vstd::prelude::*;

use crate::canvas::Canvas;

verus! {

/// A color quantised to 8-bit channel levels, as the bitmap format stores it.
#[derive(Clone, Copy, Debug, PartialEq, Eq, Structural)]
pub struct Rgb {
    pub red: u8,
    pub green: u8,
    pub blue: u8,
}

impl Rgb {
    pub fn new(red: u8, green: u8, blue: u8) -> (r: Rgb)
        ensures
            r == (Rgb { red, green, blue }),
    {
        Rgb { red, green, blue }
    }
}

/// Longest line, in characters counting one trailing separator per value,
/// that the encoder writes before wrapping.
pub const MAX_LINE_LEN: usize = 70;

/// The character of a decimal digit.
pub open spec fn digit_char(d: int) -> char {
    if d == 0 {
        '0'
    } else if d == 1 {
        '1'
    } else if d == 2 {
        '2'
    } else if d == 3 {
        '3'
    } else if d == 4 {
        '4'
    } else if d == 5 {
        '5'
    } else if d == 6 {
        '6'
    } else if d == 7 {
        '7'
    } else if d == 8 {
        '8'
    } else {
        '9'
    }
}

/// Decimal notation of `n`, without leading zeros.
pub open spec fn decimal(n: nat) -> Seq<char>
    decreases n,
{
    if n < 10 {
        seq![digit_char(n as int)]
    } else {
        decimal(n / 10) + seq![digit_char((n % 10) as int)]
    }
}

/// Level of channel `i` (0 red, 1 green, 2 blue) of `p`.
pub open spec fn channel(p: Rgb, i: int) -> u8 {
    if i == 0 {
        p.red
    } else if i == 1 {
        p.green
    } else {
        p.blue
    }
}

/// The channel levels of `pixels` in order: red, green, blue of the first
/// pixel, then of the second, and so on.
pub open spec fn channel_levels(pixels: Seq<Rgb>) -> Seq<u8> {
    Seq::new(3 * pixels.len(), |k: int| channel(pixels[k / 3], k % 3))
}

/// The decimal notation of each level.
pub open spec fn level_tokens(levels: Seq<u8>) -> Seq<Seq<char>> {
    levels.map_values(|v: u8| decimal(v as nat))
}

/// What precedes `t` and `t` itself, when `t` is written on a line of which
/// `used` characters are taken (each earlier value counted with one
/// separator): nothing at the start of a line, a space where `t` and its
/// separator still fit, else a line break.
pub open spec fn wrap_step_text(t: Seq<char>, used: int) -> Seq<char> {
    if used == 0 {
        t
    } else if used + t.len() + 1 > MAX_LINE_LEN {
        seq!['\n'] + t
    } else {
        seq![' '] + t
    }
}

/// Characters of the line taken once `t` is written.
pub open spec fn wrap_step_used(t: Seq<char>, used: int) -> int {
    if used == 0 || used + t.len() + 1 > MAX_LINE_LEN {
        t.len() + 1 as int
    } else {
        used + t.len() + 1
    }
}

/// `tokens` written one after another, wrapped greedily at `MAX_LINE_LEN`.
pub open spec fn wrap_tokens(tokens: Seq<Seq<char>>, used: int) -> Seq<char>
    decreases tokens.len(),
{
    if tokens.len() == 0 {
        Seq::empty()
    } else {
        wrap_step_text(tokens[0], used) + wrap_tokens(
            tokens.drop_first(),
            wrap_step_used(tokens[0], used),
        )
    }
}

/// The pixels of row `y` of a raster `width` pixels wide.
pub open spec fn row_pixels(pixels: Seq<Rgb>, width: int, y: int) -> Seq<Rgb> {
    pixels.subrange(y * width, y * width + width)
}

/// The text of row `y`: its channel levels, wrapped.
pub open spec fn row_text(pixels: Seq<Rgb>, width: int, y: int) -> Seq<char> {
    wrap_tokens(level_tokens(channel_levels(row_pixels(pixels, width, y))), 0)
}

/// The text of rows `y` to `height - 1`, separated by line breaks.
pub open spec fn rows_text(pixels: Seq<Rgb>, width: int, height: int, y: int) -> Seq<char>
    decreases height - y,
{
    if y + 1 >= height {
        row_text(pixels, width, y)
    } else {
        row_text(pixels, width, y) + seq!['\n'] + rows_text(pixels, width, height, y + 1)
    }
}

/// Format tag, dimensions and highest level, each line ended.
pub open spec fn ppm_header(width: int, height: int) -> Seq<char> {
    seq!['P', '3', '\n'] + decimal(width as nat) + seq![' '] + decimal(height as nat) + seq![
        '\n',
        '2',
        '5',
        '5',
        '\n',
    ]
}

/// The plain-text bitmap of a `width` by `height` raster: the header, then
/// one block of lines per row, and a final line break. A raster without
/// pixels is the header alone.
pub open spec fn ppm_text(width: int, height: int, pixels: Seq<Rgb>) -> Seq<char> {
    if width == 0 || height == 0 {
        ppm_header(width, height)
    } else {
        ppm_header(width, height) + rows_text(pixels, width, height, 0) + seq!['\n']
    }
}

fn digit_str(d: u32) -> (r: &'static str)
    requires
        d < 10,
    ensures
        r@ == seq![digit_char(d as int)],
{
    proof {
        reveal_strlit("0");
        reveal_strlit("1");
        reveal_strlit("2");
        reveal_strlit("3");
        reveal_strlit("4");
        reveal_strlit("5");
        reveal_strlit("6");
        reveal_strlit("7");
        reveal_strlit("8");
        reveal_strlit("9");
    }
    if d == 0 {
        "0"
    } else if d == 1 {
        "1"
    } else if d == 2 {
        "2"
    } else if d == 3 {
        "3"
    } else if d == 4 {
        "4"
    } else if d == 5 {
        "5"
    } else if d == 6 {
        "6"
    } else if d == 7 {
        "7"
    } else if d == 8 {
        "8"
    } else {
        "9"
    }
}

/// Appends the decimal notation of `n` to `out`.
fn push_decimal(out: &mut String, n: u32)
    ensures
        final(out)@ == old(out)@ + decimal(n as nat),
    decreases n,
{
    if n >= 10 {
        push_decimal(out, n / 10);
    }
    out.append(digit_str(n % 10));
    proof {
        assert(final(out)@ =~= old(out)@ + decimal(n as nat));
    }
}

fn decimal_len(v: u8) -> (r: usize)
    ensures
        r == decimal(v as nat).len(),
        1 <= r <= 3,
{
    proof {
        reveal_with_fuel(decimal, 3);
    }
    if v < 10 {
        1
    } else if v < 100 {
        2
    } else {
        3
    }
}

/// Appends level `v` to `out` on a line of which `used` characters are
/// taken; returns the characters taken afterwards.
fn push_level(out: &mut String, v: u8, used: usize) -> (r: usize)
    requires
        used <= MAX_LINE_LEN,
    ensures
        final(out)@ == old(out)@ + wrap_step_text(decimal(v as nat), used as int),
        r == wrap_step_used(decimal(v as nat), used as int),
        r <= MAX_LINE_LEN,
{
    let len = decimal_len(v);
    let r: usize;
    if used == 0 {
        r = len + 1;
    } else if used + len + 1 > MAX_LINE_LEN {
        out.append("\n");
        r = len + 1;
    } else {
        out.append(" ");
        r = used + len + 1;
    }
    proof {
        reveal_strlit("\n");
        reveal_strlit(" ");
    }
    push_decimal(out, v as u32);
    proof {
        assert(final(out)@ =~= old(out)@ + wrap_step_text(decimal(v as nat), used as int));
    }
    r
}

proof fn lemma_wrap_unfold(ts: Seq<Seq<char>>, k: int, used: int)
    requires
        0 <= k < ts.len(),
    ensures
        wrap_tokens(ts.skip(k), used) == wrap_step_text(ts[k], used) + wrap_tokens(
            ts.skip(k + 1),
            wrap_step_used(ts[k], used),
        ),
{
    assert(ts.skip(k).drop_first() =~= ts.skip(k + 1));
}

/// Writes one row's channel levels; `rest` is what the target text holds
/// after the row.
fn push_row(
    out: &mut String,
    c: &Canvas<Rgb>,
    y: i32,
    Ghost(rest): Ghost<Seq<char>>,
    Ghost(target): Ghost<Seq<char>>,
)
    requires
        c.wf(),
        0 <= y < c.height,
        old(out)@ + row_text(c.pixels@, c.width as int, y as int) + rest == target,
    ensures
        final(out)@ + rest == target,
{
    let ghost pix = c.pixels@;
    let ghost w = c.width as int;
    let ghost row_toks = level_tokens(channel_levels(row_pixels(pix, w, y as int)));
    proof {
        assert(row_toks.skip(0) =~= row_toks);
        assert(0 <= y * w) by (nonlinear_arith)
            requires
                0 <= y,
                0 <= w,
        ;
        assert(y * w + w <= w * c.height) by (nonlinear_arith)
            requires
                0 <= y < c.height,
                0 <= w,
        ;
    }
    let mut used: usize = 0;
    let mut x: i32 = 0;
    while x < c.width
        invariant
            c.wf(),
            0 <= y < c.height,
            pix == c.pixels@,
            w == c.width,
            0 <= y * w,
            y * w + w <= w * c.height,
            row_toks == level_tokens(channel_levels(row_pixels(pix, w, y as int))),
            row_toks.len() == 3 * w,
            0 <= x <= c.width,
            used <= MAX_LINE_LEN,
            out@ + wrap_tokens(row_toks.skip(3 * x), used as int) + rest == target,
        decreases c.width - x,
    {
        let p = c.pixel_at(x, y);
        let ghost k = 3 * x as int;
        proof {
            assert(row_toks[k] == decimal(p.red as nat));
            assert(row_toks[k + 1] == decimal(p.green as nat));
            assert(row_toks[k + 2] == decimal(p.blue as nat));
            lemma_wrap_unfold(row_toks, k, used as int);
        }
        let ghost before = out@;
        let ghost used0 = used;
        used = push_level(out, p.red, used);
        proof {
            assert(before + wrap_tokens(row_toks.skip(k), used0 as int) + rest =~= out@
                + wrap_tokens(row_toks.skip(k + 1), used as int) + rest);
            lemma_wrap_unfold(row_toks, k + 1, used as int);
        }
        let ghost before = out@;
        let ghost used1 = used;
        used = push_level(out, p.green, used);
        proof {
            assert(before + wrap_tokens(row_toks.skip(k + 1), used1 as int) + rest =~= out@
                + wrap_tokens(row_toks.skip(k + 2), used as int) + rest);
            lemma_wrap_unfold(row_toks, k + 2, used as int);
        }
        let ghost before = out@;
        let ghost used2 = used;
        used = push_level(out, p.blue, used);
        proof {
            assert(before + wrap_tokens(row_toks.skip(k + 2), used2 as int) + rest =~= out@
                + wrap_tokens(row_toks.skip(k + 3), used as int) + rest);
        }
        x = x + 1;
    }
    proof {
        assert(row_toks.skip(3 * x).len() == 0);
        assert(out@ + wrap_tokens(row_toks.skip(3 * x), used as int) + rest =~= out@ + rest);
    }
}

/// Encodes a raster of 8-bit levels as a plain-text bitmap: the `P3` tag,
/// `width height`, the highest level 255, then the channel levels in
/// decimal, row by row, one row per block of lines, and a final line
/// break. Values on a line are separated by single spaces; a line is broken
/// before a value that, counting one separator after each value, would take
/// it past `MAX_LINE_LEN` characters.
pub fn canvas_to_ppm(c: Canvas<Rgb>) -> (r: String)
    requires
        c.wf(),
    ensures
        r@ == ppm_text(c.width as int, c.height as int, c.pixels@),
{
    let mut out = String::new();
    out.append("P3\n");
    push_decimal(&mut out, c.width as u32);
    out.append(" ");
    push_decimal(&mut out, c.height as u32);
    out.append("\n255\n");
    proof {
        reveal_strlit("P3\n");
        reveal_strlit(" ");
        reveal_strlit("\n255\n");
        assert(out@ =~= ppm_header(c.width as int, c.height as int));
    }
    if c.width == 0 || c.height == 0 {
        return out;
    }
    let ghost target = ppm_text(c.width as int, c.height as int, c.pixels@);
    let ghost pix = c.pixels@;
    let ghost w = c.width as int;
    let ghost h = c.height as int;
    let mut y: i32 = 0;
    while y < c.height
        invariant
            c.wf(),
            pix == c.pixels@,
            w == c.width,
            h == c.height,
            0 < w,
            0 < h,
            0 <= y <= h,
            target == ppm_text(w, h, pix),
            out@ + (if y < h {
                rows_text(pix, w, h, y as int)
            } else {
                Seq::empty()
            }) + seq!['\n'] == target,
        decreases c.height - y,
    {
        let ghost rest = (if y + 1 < h {
            seq!['\n'] + rows_text(pix, w, h, y + 1)
        } else {
            Seq::empty()
        }) + seq!['\n'];
        proof {
            assert(out@ + row_text(pix, w, y as int) + rest =~= out@ + rows_text(pix, w, h, y as int)
                + seq!['\n']);
        }
        push_row(&mut out, &c, y, Ghost(rest), Ghost(target));
        if y + 1 < c.height {
            let ghost before = out@;
            out.append("\n");
            proof {
                reveal_strlit("\n");
                assert(out@ + rows_text(pix, w, h, y + 1) + seq!['\n'] =~= before + rest);
            }
        } else {
            proof {
                assert(out@ + Seq::<char>::empty() + seq!['\n'] =~= out@ + rest);
            }
        }
        y = y + 1;
    }
    let ghost before = out@;
    out.append("\n");
    proof {
        reveal_strlit("\n");
        assert(out@ =~= before + Seq::<char>::empty() + seq!['\n']);
    }
    out
}

} // verus!
