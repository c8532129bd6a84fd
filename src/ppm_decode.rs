use vstd::prelude::*;
use vstd::utf8::is_ascii_chars;

use crate::canvas::Canvas;
use crate::ppm::{
    channel_levels, decimal, digit_char, level_tokens, ppm_header, ppm_text, row_pixels, row_text,
    rows_text, wrap_step_text, wrap_step_used, wrap_tokens, Rgb,
};

verus! {

/// Characters that separate values in the bitmap text.
pub open spec fn is_ws(c: char) -> bool {
    c == ' ' || c == '\n' || c == '\t' || c == '\r'
}

pub open spec fn is_digit(c: char) -> bool {
    48 <= c as u32 <= 57
}

pub open spec fn digit_value(c: char) -> int {
    c as u32 - 48
}

/// The maximal runs of non-separator characters of `s`, `cur` being the
/// part of a run already read.
pub open spec fn split_from(s: Seq<char>, cur: Seq<char>) -> Seq<Seq<char>>
    decreases s.len(),
{
    if s.len() == 0 {
        if cur.len() == 0 {
            Seq::empty()
        } else {
            seq![cur]
        }
    } else if is_ws(s[0]) {
        (if cur.len() == 0 {
            Seq::empty()
        } else {
            seq![cur]
        }) + split_from(s.drop_first(), Seq::empty())
    } else {
        split_from(s.drop_first(), cur.push(s[0]))
    }
}

/// The whitespace-separated tokens of `s`.
pub open spec fn tokens(s: Seq<char>) -> Seq<Seq<char>> {
    split_from(s, Seq::empty())
}

/// Value of a string of decimal digits.
pub open spec fn parse_decimal(s: Seq<char>) -> int
    decreases s.len(),
{
    if s.len() == 0 {
        0
    } else {
        parse_decimal(s.drop_last()) * 10 + digit_value(s.last())
    }
}

/// `t` is a non-empty string of decimal digits.
pub open spec fn is_number(t: Seq<char>) -> bool {
    t.len() > 0 && forall|i: int| 0 <= i < t.len() ==> is_digit(#[trigger] t[i])
}

/// `t` is a number no greater than `max`.
pub open spec fn is_number_upto(t: Seq<char>, max: int) -> bool {
    is_number(t) && parse_decimal(t) <= max
}

/// The width, height and channel levels a plain-text bitmap holds: the
/// text is ASCII; its tokens are `P3`, the width and the height (each at
/// most `i32::MAX`, their product too), the highest level 255, then three
/// levels of at most 255 per pixel. `None` for any other text.
pub open spec fn ppm_decode(s: Seq<char>) -> Option<(int, int, Seq<u8>)> {
    let ts = tokens(s);
    let w = parse_decimal(ts[1]);
    let h = parse_decimal(ts[2]);
    if is_ascii_chars(s) && ts.len() >= 4 && ts[0] == seq!['P', '3']
        && is_number_upto(ts[1], i32::MAX as int) && is_number_upto(ts[2], i32::MAX as int)
        && is_number_upto(ts[3], 255) && parse_decimal(ts[3]) == 255 && w * h <= i32::MAX
        && ts.len() == 4 + 3 * w * h && forall|k: int|
        4 <= k < ts.len() ==> is_number_upto(#[trigger] ts[k], 255) {
        Some((w, h, Seq::new((ts.len() - 4) as nat, |k: int| parse_decimal(ts[k + 4]) as u8)))
    } else {
        None
    }
}

// ---- tokenizing what the encoder writes ----

/// `t` is a token the encoder may write: non-empty, without separators.
pub open spec fn is_word(t: Seq<char>) -> bool {
    t.len() > 0 && forall|i: int| 0 <= i < t.len() ==> !is_ws(#[trigger] t[i])
}

/// `rest` ends a token: it is empty or opens with a separator.
pub open spec fn ends_token(rest: Seq<char>) -> bool {
    rest.len() == 0 || is_ws(rest[0])
}

proof fn lemma_read_word(t: Seq<char>, rest: Seq<char>, cur: Seq<char>)
    requires
        forall|i: int| 0 <= i < t.len() ==> !is_ws(#[trigger] t[i]),
    ensures
        split_from(t + rest, cur) == split_from(rest, cur + t),
    decreases t.len(),
{
    if t.len() == 0 {
        assert(t + rest =~= rest);
        assert(cur + t =~= cur);
    } else {
        assert((t + rest)[0] == t[0]);
        assert((t + rest).drop_first() =~= t.drop_first() + rest);
        lemma_read_word(t.drop_first(), rest, cur.push(t[0]));
        assert(cur.push(t[0]) + t.drop_first() =~= cur + t);
    }
}

proof fn lemma_tokens_word(t: Seq<char>, rest: Seq<char>)
    requires
        is_word(t),
        ends_token(rest),
    ensures
        tokens(t + rest) == seq![t] + tokens(rest),
{
    lemma_read_word(t, rest, Seq::empty());
    assert(Seq::<char>::empty() + t =~= t);
    if rest.len() == 0 {
        assert(seq![t] + tokens(rest) =~= seq![t]);
    } else {
        assert(Seq::<Seq<char>>::empty() + split_from(rest.drop_first(), Seq::empty())
            =~= split_from(rest.drop_first(), Seq::empty()));
    }
}

proof fn lemma_tokens_ws(c: char, rest: Seq<char>)
    requires
        is_ws(c),
    ensures
        tokens(seq![c] + rest) == tokens(rest),
{
    let s = seq![c] + rest;
    assert(s.drop_first() =~= rest);
    assert(Seq::<Seq<char>>::empty() + split_from(rest, Seq::empty()) =~= split_from(
        rest,
        Seq::empty(),
    ));
}

proof fn lemma_digit_char(d: int)
    requires
        0 <= d < 10,
    ensures
        is_digit(digit_char(d)),
        digit_value(digit_char(d)) == d,
{
}

proof fn lemma_decimal_digits(n: nat)
    ensures
        decimal(n).len() > 0,
        forall|i: int| 0 <= i < decimal(n).len() ==> is_digit(#[trigger] decimal(n)[i]),
        parse_decimal(decimal(n)) == n,
    decreases n,
{
    if n < 10 {
        lemma_digit_char(n as int);
        let s = decimal(n);
        assert(s.drop_last() =~= Seq::<char>::empty());
        assert(parse_decimal(Seq::<char>::empty()) == 0);
        assert(s.last() == digit_char(n as int));
    } else {
        lemma_decimal_digits(n / 10);
        lemma_digit_char((n % 10) as int);
        let s = decimal(n);
        assert(s.drop_last() =~= decimal(n / 10));
        assert(s.last() == digit_char((n % 10) as int));
        assert(parse_decimal(s) == parse_decimal(decimal(n / 10)) * 10 + (n % 10) as int);
        assert forall|i: int| 0 <= i < s.len() implies is_digit(#[trigger] s[i]) by {
            if i < s.len() - 1 {
                assert(s[i] == decimal(n / 10)[i]);
            }
        }
    }
}

proof fn lemma_decimal_word(n: nat)
    ensures
        is_word(decimal(n)),
        is_number(decimal(n)),
        parse_decimal(decimal(n)) == n,
{
    lemma_decimal_digits(n);
    assert forall|i: int| 0 <= i < decimal(n).len() implies !is_ws(#[trigger] decimal(n)[i]) by {
        assert(is_digit(decimal(n)[i]));
    }
}

proof fn lemma_tokens_wrap(ts: Seq<Seq<char>>, used: int, rest: Seq<char>)
    requires
        forall|k: int| 0 <= k < ts.len() ==> is_word(#[trigger] ts[k]),
        ends_token(rest),
        0 <= used,
    ensures
        tokens(wrap_tokens(ts, used) + rest) == ts + tokens(rest),
    decreases ts.len(),
{
    if ts.len() == 0 {
        assert(wrap_tokens(ts, used) + rest =~= rest);
        assert(ts + tokens(rest) =~= tokens(rest));
    } else {
        let t = ts[0];
        let tail = ts.drop_first();
        let used2 = wrap_step_used(t, used);
        let w2 = wrap_tokens(tail, used2);
        assert(is_word(ts[0]));
        assert forall|k: int| 0 <= k < tail.len() implies is_word(#[trigger] tail[k]) by {
            assert(tail[k] == ts[k + 1]);
        }
        lemma_tokens_wrap(tail, used2, rest);
        assert(ends_token(w2 + rest)) by {
            if tail.len() > 0 {
                assert((w2 + rest)[0] == w2[0]);
                assert(used2 > 0);
            } else {
                assert(w2 + rest =~= rest);
            }
        }
        lemma_tokens_word(t, w2 + rest);
        let step = wrap_step_text(t, used);
        if used == 0 {
            assert(step + w2 + rest =~= t + (w2 + rest));
        } else {
            let c = step[0];
            assert(step + w2 + rest =~= seq![c] + (t + (w2 + rest)));
            lemma_tokens_ws(c, t + (w2 + rest));
        }
        assert(seq![t] + (tail + tokens(rest)) =~= ts + tokens(rest));
    }
}

/// The decimal notation of every level of `pixels`.
pub open spec fn pixel_tokens(pixels: Seq<Rgb>) -> Seq<Seq<char>> {
    level_tokens(channel_levels(pixels))
}

proof fn lemma_pixel_tokens_split(a: Seq<Rgb>, b: Seq<Rgb>)
    ensures
        pixel_tokens(a + b) == pixel_tokens(a) + pixel_tokens(b),
{
    let l = channel_levels(a + b);
    assert(l =~= channel_levels(a) + channel_levels(b)) by {
        assert forall|k: int| 0 <= k < l.len() implies l[k] == (channel_levels(a) + channel_levels(
            b,
        ))[k] by {
            if k >= 3 * a.len() {
                assert((k - 3 * a.len()) / 3 == k / 3 - a.len());
                assert((k - 3 * a.len()) % 3 == k % 3);
            }
        }
    }
    assert(pixel_tokens(a + b) =~= pixel_tokens(a) + pixel_tokens(b));
}

proof fn lemma_pixel_tokens_words(pixels: Seq<Rgb>)
    ensures
        forall|k: int| 0 <= k < pixel_tokens(pixels).len() ==> is_word(#[trigger] pixel_tokens(pixels)[k]),
{
    assert forall|k: int| 0 <= k < pixel_tokens(pixels).len() implies is_word(
        #[trigger] pixel_tokens(pixels)[k],
    ) by {
        lemma_decimal_word(channel_levels(pixels)[k] as nat);
    }
}

proof fn lemma_tokens_rows(pixels: Seq<Rgb>, width: int, height: int, y: int, rest: Seq<char>)
    requires
        0 <= y < height,
        0 < width,
        pixels.len() == width * height,
        ends_token(rest),
    ensures
        tokens(rows_text(pixels, width, height, y) + rest) == pixel_tokens(
            pixels.subrange(y * width, width * height),
        ) + tokens(rest),
    decreases height - y,
{
    assert(0 <= y * width) by (nonlinear_arith)
        requires
            0 <= y,
            0 < width,
    ;
    assert(y * width + width <= width * height) by (nonlinear_arith)
        requires
            y < height,
            0 < width,
    ;
    assert((y + 1) * width == y * width + width) by (nonlinear_arith);
    let row = row_pixels(pixels, width, y);
    lemma_pixel_tokens_words(row);
    if y + 1 >= height {
        lemma_tokens_wrap(pixel_tokens(row), 0, rest);
        assert(y * width + width == width * height) by (nonlinear_arith)
            requires
                y + 1 == height,
        ;
        assert(rows_text(pixels, width, height, y) == row_text(pixels, width, y));
    } else {
        let later = rows_text(pixels, width, height, y + 1);
        lemma_tokens_rows(pixels, width, height, y + 1, rest);
        lemma_tokens_ws('\n', later + rest);
        lemma_tokens_wrap(pixel_tokens(row), 0, seq!['\n'] + (later + rest));
        assert(rows_text(pixels, width, height, y) + rest =~= row_text(pixels, width, y) + (seq![
            '\n',
        ] + (later + rest)));
        let tail = pixels.subrange(y * width + width, width * height);
        assert(pixels.subrange(y * width, width * height) =~= row + tail);
        lemma_pixel_tokens_split(row, tail);
        assert(pixel_tokens(row) + (pixel_tokens(tail) + tokens(rest)) =~= pixel_tokens(row)
            + pixel_tokens(tail) + tokens(rest));
    }
}

/// The four header tokens.
pub open spec fn header_tokens(width: int, height: int) -> Seq<Seq<char>> {
    seq![seq!['P', '3'], decimal(width as nat), decimal(height as nat), seq!['2', '5', '5']]
}

proof fn lemma_tokens_header(width: int, height: int, rest: Seq<char>)
    requires
        0 <= width,
        0 <= height,
    ensures
        tokens(ppm_header(width, height) + rest) == header_tokens(width, height) + tokens(rest),
{
    let dw = decimal(width as nat);
    let dh = decimal(height as nat);
    let p3 = seq!['P', '3'];
    let l255 = seq!['2', '5', '5'];
    lemma_decimal_word(width as nat);
    lemma_decimal_word(height as nat);
    assert(is_word(p3)) by {
        assert forall|i: int| 0 <= i < p3.len() implies !is_ws(#[trigger] p3[i]) by {}
    }
    assert(is_word(l255)) by {
        assert forall|i: int| 0 <= i < l255.len() implies !is_ws(#[trigger] l255[i]) by {}
    }
    let r4 = seq!['\n'] + rest;
    let r3 = l255 + r4;
    let r2 = seq!['\n'] + r3;
    let r1 = dh + r2;
    let r0 = seq![' '] + r1;
    let q1 = dw + r0;
    let q0 = seq!['\n'] + q1;
    assert(ppm_header(width, height) + rest =~= p3 + q0);
    lemma_tokens_ws('\n', rest);
    lemma_tokens_word(l255, r4);
    lemma_tokens_ws('\n', r3);
    lemma_tokens_word(dh, r2);
    lemma_tokens_ws(' ', r1);
    lemma_tokens_word(dw, r0);
    lemma_tokens_ws('\n', q1);
    lemma_tokens_word(p3, q0);
    assert(seq![p3] + (seq![dw] + (seq![dh] + (seq![l255] + tokens(rest)))) =~= header_tokens(
        width,
        height,
    ) + tokens(rest));
}

proof fn lemma_digit_ascii(c: char)
    requires
        is_digit(c),
    ensures
        '\0' <= c <= '\u{7f}',
{
}

proof fn lemma_decimal_ascii(n: nat)
    ensures
        is_ascii_chars(decimal(n)),
{
    lemma_decimal_digits(n);
    let s = decimal(n);
    assert forall|i: int| 0 <= i < s.len() implies '\0' <= #[trigger] s[i] <= '\u{7f}' by {
        lemma_digit_ascii(s[i]);
    }
}

proof fn lemma_wrap_ascii(ts: Seq<Seq<char>>, used: int)
    requires
        forall|k: int| 0 <= k < ts.len() ==> is_ascii_chars(#[trigger] ts[k]),
    ensures
        is_ascii_chars(wrap_tokens(ts, used)),
    decreases ts.len(),
{
    if ts.len() > 0 {
        let tail = ts.drop_first();
        assert forall|k: int| 0 <= k < tail.len() implies is_ascii_chars(
            #[trigger] tail[k],
        ) by {
            assert(tail[k] == ts[k + 1]);
        }
        lemma_wrap_ascii(tail, wrap_step_used(ts[0], used));
        assert(is_ascii_chars(ts[0]));
    }
}

proof fn lemma_rows_ascii(pixels: Seq<Rgb>, width: int, height: int, y: int)
    ensures
        is_ascii_chars(rows_text(pixels, width, height, y)),
    decreases height - y,
{
    let toks = pixel_tokens(row_pixels(pixels, width, y));
    assert forall|k: int| 0 <= k < toks.len() implies is_ascii_chars(
        #[trigger] toks[k],
    ) by {
        lemma_decimal_ascii(channel_levels(row_pixels(pixels, width, y))[k] as nat);
    }
    lemma_wrap_ascii(toks, 0);
    if y + 1 < height {
        lemma_rows_ascii(pixels, width, height, y + 1);
    }
}

proof fn lemma_ppm_text_ascii(width: int, height: int, pixels: Seq<Rgb>)
    requires
        0 <= width,
        0 <= height,
    ensures
        is_ascii_chars(ppm_text(width, height, pixels)),
{
    lemma_decimal_ascii(width as nat);
    lemma_decimal_ascii(height as nat);
    lemma_rows_ascii(pixels, width, height, 0);
}

/// Decoding what `canvas_to_ppm` writes gives back the canvas's width,
/// height and every channel level of its pixels, in order.
pub proof fn lemma_ppm_round_trip(c: Canvas<Rgb>)
    requires
        c.wf(),
    ensures
        ppm_decode(ppm_text(c.width as int, c.height as int, c.pixels@)) == Some(
            (c.width as int, c.height as int, channel_levels(c.pixels@)),
        ),
{
    let w = c.width as int;
    let h = c.height as int;
    let pix = c.pixels@;
    let s = ppm_text(w, h, pix);
    let empty = Seq::<char>::empty();
    assert(tokens(empty) =~= Seq::<Seq<char>>::empty());
    if w == 0 || h == 0 {
        lemma_tokens_header(w, h, empty);
        assert(ppm_header(w, h) + empty =~= s);
        assert(pix.len() == 0) by (nonlinear_arith)
            requires
                pix.len() == w * h,
                w == 0 || h == 0,
        ;
    } else {
        let nl = seq!['\n'];
        lemma_tokens_ws('\n', empty);
        assert(nl + empty =~= nl);
        lemma_tokens_rows(pix, w, h, 0, nl);
        assert(pix.subrange(0 * w, w * h) =~= pix);
        lemma_tokens_header(w, h, rows_text(pix, w, h, 0) + nl);
        assert(ppm_header(w, h) + (rows_text(pix, w, h, 0) + nl) =~= s);
    }
    let ts = tokens(s);
    let levels = channel_levels(pix);
    assert(ts =~= header_tokens(w, h) + pixel_tokens(pix));
    lemma_decimal_word(w as nat);
    lemma_decimal_word(h as nat);
    lemma_ppm_text_ascii(w, h, pix);
    assert(parse_decimal(seq!['2', '5', '5']) == 255) by {
        let t = seq!['2', '5', '5'];
        lemma_digit_char(2);
        lemma_digit_char(5);
        assert(t.drop_last() =~= seq!['2', '5']);
        assert(seq!['2', '5'].drop_last() =~= seq!['2']);
        assert(seq!['2'].drop_last() =~= Seq::<char>::empty());
        assert(parse_decimal(Seq::<char>::empty()) == 0);
        assert(parse_decimal(seq!['2']) == 2);
        assert(parse_decimal(seq!['2', '5']) == 25);
    }
    assert(is_number(seq!['2', '5', '5'])) by {
        let t = seq!['2', '5', '5'];
        assert forall|i: int| 0 <= i < t.len() implies is_digit(#[trigger] t[i]) by {}
    }
    assert forall|k: int| 4 <= k < ts.len() implies is_number_upto(#[trigger] ts[k], 255) by {
        assert(ts[k] == decimal(levels[k - 4] as nat));
        lemma_decimal_word(levels[k - 4] as nat);
    }
    assert(levels.len() == 3 * w * h) by (nonlinear_arith)
        requires
            levels.len() == 3 * pix.len(),
            pix.len() == w * h,
    ;
    let decoded = Seq::new((ts.len() - 4) as nat, |k: int| parse_decimal(ts[k + 4]) as u8);
    assert(decoded =~= levels) by {
        assert forall|k: int| 0 <= k < levels.len() implies decoded[k] == levels[k] by {
            assert(ts[k + 4] == decimal(levels[k] as nat));
            lemma_decimal_word(levels[k] as nat);
        }
    }
}

// ---- the decoder ----

proof fn lemma_ascii_byte(c: char)
    requires
        '\0' <= c <= '\u{7f}',
    ensures
        (c as u8) as u32 == c as u32,
        is_ws(c) <==> (c as u8 == 32 || c as u8 == 10 || c as u8 == 9 || c as u8 == 13),
        is_digit(c) <==> (48 <= c as u8 <= 57),
        is_digit(c) ==> digit_value(c) == (c as u8) - 48,
        c == 'P' <==> c as u8 == 80,
        c == '3' <==> c as u8 == 51,
{
}

/// The text `s` as bytes: one byte per character.
pub open spec fn ascii_bytes(s: Seq<char>) -> Seq<u8> {
    Seq::new(s.len(), |i: int| s[i] as u8)
}

/// The substrings of `s` that `spans` delimit.
pub open spec fn span_texts(s: Seq<char>, spans: Seq<(usize, usize)>) -> Seq<Seq<char>> {
    Seq::new(spans.len(), |k: int| s.subrange(spans[k].0 as int, spans[k].1 as int))
}

fn is_ws_byte(b: u8) -> (r: bool)
    ensures
        r == (b == 32 || b == 10 || b == 9 || b == 13),
{
    b == 32 || b == 10 || b == 9 || b == 13
}

/// Start and end of each whitespace-separated token of the text.
fn token_spans(bytes: &[u8], Ghost(s): Ghost<Seq<char>>) -> (r: Vec<(usize, usize)>)
    requires
        is_ascii_chars(s),
        bytes@ == ascii_bytes(s),
    ensures
        span_texts(s, r@) == tokens(s),
        forall|k: int|
            0 <= k < r@.len() ==> #[trigger] r@[k].0 < r@[k].1 && r@[k].1 <= s.len(),
{
    let n = bytes.len();
    let mut spans: Vec<(usize, usize)> = Vec::new();
    let mut start: usize = 0;
    let mut i: usize = 0;
    proof {
        assert(s.skip(0) =~= s);
        assert(s.subrange(0, 0) =~= Seq::<char>::empty());
        assert(span_texts(s, spans@) =~= Seq::<Seq<char>>::empty());
        assert(tokens(s) =~= span_texts(s, spans@) + split_from(s.skip(0), s.subrange(0, 0)));
    }
    while i < n
        invariant
            n == s.len(),
            is_ascii_chars(s),
            bytes@ == ascii_bytes(s),
            start <= i <= n,
            tokens(s) == span_texts(s, spans@) + split_from(
                s.skip(i as int),
                s.subrange(start as int, i as int),
            ),
            forall|k: int|
                0 <= k < spans@.len() ==> #[trigger] spans@[k].0 < spans@[k].1 && spans@[k].1
                    <= start,
        decreases n - i,
    {
        let ghost cur = s.subrange(start as int, i as int);
        let ghost old_spans = spans@;
        let ghost start0 = start;
        proof {
            lemma_ascii_byte(s[i as int]);
            assert(s.skip(i as int)[0] == s[i as int]);
            assert(s.skip(i as int).drop_first() =~= s.skip(i as int + 1));
        }
        if is_ws_byte(bytes[i]) {
            if start < i {
                spans.push((start, i));
                proof {
                    assert(span_texts(s, spans@) =~= span_texts(s, old_spans) + seq![cur]);
                }
            } else {
                proof {
                    assert(cur =~= Seq::<char>::empty());
                    assert(span_texts(s, spans@) + Seq::<Seq<char>>::empty() =~= span_texts(
                        s,
                        old_spans,
                    ));
                }
            }
            start = i + 1;
            proof {
                assert forall|k: int| 0 <= k < spans@.len() implies #[trigger] spans@[k].0
                    < spans@[k].1 && spans@[k].1 <= start by {
                    if k < old_spans.len() {
                        assert(spans@[k] == old_spans[k]);
                        let old_k = old_spans[k];
                        assert(old_k.0 < old_k.1 && old_k.1 <= start0);
                    } else {
                        assert(spans@[k] == (start0, i));
                    }
                }
                assert(s.subrange(start as int, i as int + 1) =~= Seq::<char>::empty());
                assert(span_texts(s, old_spans) + ((if cur.len() == 0 {
                    Seq::empty()
                } else {
                    seq![cur]
                }) + split_from(s.skip(i as int + 1), Seq::empty())) =~= span_texts(s, spans@)
                    + split_from(s.skip(i as int + 1), Seq::empty()));
            }
        } else {
            proof {
                assert(cur.push(s[i as int]) =~= s.subrange(start as int, i as int + 1));
            }
        }
        i = i + 1;
    }
    let ghost cur = s.subrange(start as int, n as int);
    let ghost old_spans = spans@;
    proof {
        assert(s.skip(n as int) =~= Seq::<char>::empty());
    }
    if start < n {
        spans.push((start, n));
        proof {
            assert(span_texts(s, spans@) =~= span_texts(s, old_spans) + seq![cur]);
        }
    } else {
        proof {
            assert(cur =~= Seq::<char>::empty());
            assert(span_texts(s, old_spans) + Seq::<Seq<char>>::empty() =~= span_texts(s, spans@));
        }
    }
    spans
}

/// The value of the digits `s[a..b]` if they form a number no greater
/// than `max`.
fn parse_span(bytes: &[u8], a: usize, b: usize, max: u32, Ghost(s): Ghost<Seq<char>>) -> (r:
    Option<u32>)
    requires
        is_ascii_chars(s),
        bytes@ == ascii_bytes(s),
        a < b <= s.len(),
        max <= i32::MAX,
    ensures
        match r {
            Some(v) => is_number_upto(s.subrange(a as int, b as int), max as int) && v as int
                == parse_decimal(s.subrange(a as int, b as int)),
            None => !is_number_upto(s.subrange(a as int, b as int), max as int),
        },
{
    let ghost t = s.subrange(a as int, b as int);
    let mut acc: u32 = 0;
    let mut over = false;
    let mut j: usize = a;
    proof {
        assert(s.subrange(a as int, a as int) =~= Seq::<char>::empty());
    }
    while j < b
        invariant
            is_ascii_chars(s),
            bytes@ == ascii_bytes(s),
            a <= j <= b <= s.len(),
            max <= i32::MAX,
            t == s.subrange(a as int, b as int),
            forall|k: int| a <= k < j ==> is_digit(#[trigger] s[k]),
            parse_decimal(s.subrange(a as int, j as int)) >= 0,
            !over ==> acc == parse_decimal(s.subrange(a as int, j as int)) && acc <= max,
            over ==> parse_decimal(s.subrange(a as int, j as int)) > max,
        decreases b - j,
    {
        let c = bytes[j];
        proof {
            lemma_ascii_byte(s[j as int]);
        }
        if c < 48 || c > 57 {
            proof {
                assert(t[j - a] == s[j as int]);
            }
            return None;
        }
        let ghost prev = s.subrange(a as int, j as int);
        let ghost next = s.subrange(a as int, j as int + 1);
        proof {
            assert(next.drop_last() =~= prev);
            assert(next.last() == s[j as int]);
            assert(parse_decimal(next) == parse_decimal(prev) * 10 + (c - 48));
        }
        if !over {
            let v: u64 = acc as u64 * 10 + (c - 48) as u64;
            if v > max as u64 {
                over = true;
            } else {
                acc = v as u32;
            }
        }
        j = j + 1;
    }
    proof {
        assert(s.subrange(a as int, j as int) == t);
        assert forall|i: int| 0 <= i < t.len() implies is_digit(#[trigger] t[i]) by {
            assert(t[i] == s[a + i]);
        }
    }
    if over {
        None
    } else {
        Some(acc)
    }
}

/// Reads a plain-text bitmap back into a canvas of 8-bit levels: `None`
/// exactly when `ppm_decode` rejects the text.
pub fn canvas_from_ppm(text: &str) -> (r: Option<Canvas<Rgb>>)
    ensures
        match r {
            Some(c) => c.wf() && ppm_decode(text@) == Some(
                (c.width as int, c.height as int, channel_levels(c.pixels@)),
            ),
            None => ppm_decode(text@) is None,
        },
{
    let ghost s = text@;
    if !text.is_ascii() {
        return None;
    }
    let bytes = text.as_bytes();
    proof {
        vstd::string::is_ascii_spec_bytes(text);
        assert(bytes@ =~= ascii_bytes(s));
    }
    let spans = token_spans(bytes, Ghost(s));
    let ghost ts = tokens(s);
    proof {
        assert(ts.len() == spans@.len());
    }
    if spans.len() < 4 {
        return None;
    }
    let (a0, b0) = spans[0];
    proof {
        assert(ts[0] == s.subrange(a0 as int, b0 as int));
    }
    if b0 - a0 != 2 {
        return None;
    }
    proof {
        lemma_ascii_byte(s[a0 as int]);
        lemma_ascii_byte(s[a0 as int + 1]);
    }
    if bytes[a0] != 80 || bytes[a0 + 1] != 51 {
        proof {
            assert(ts[0][0] == s[a0 as int]);
            assert(ts[0][1] == s[a0 as int + 1]);
        }
        return None;
    }
    proof {
        assert(ts[0] =~= seq!['P', '3']);
    }
    let (a1, b1) = spans[1];
    let (a2, b2) = spans[2];
    let (a3, b3) = spans[3];
    proof {
        assert(ts[1] == s.subrange(a1 as int, b1 as int));
        assert(ts[2] == s.subrange(a2 as int, b2 as int));
        assert(ts[3] == s.subrange(a3 as int, b3 as int));
    }
    let w = match parse_span(bytes, a1, b1, 0x7fff_ffff, Ghost(s)) {
        Some(v) => v,
        None => {
            return None;
        },
    };
    let h = match parse_span(bytes, a2, b2, 0x7fff_ffff, Ghost(s)) {
        Some(v) => v,
        None => {
            return None;
        },
    };
    let m = match parse_span(bytes, a3, b3, 255, Ghost(s)) {
        Some(v) => v,
        None => {
            return None;
        },
    };
    if m != 255 {
        return None;
    }
    proof {
        assert(w as u64 * h as u64 <= 0x7fff_ffffu64 * 0x7fff_ffffu64) by (nonlinear_arith)
            requires
                w <= 0x7fff_ffff,
                h <= 0x7fff_ffff,
        ;
    }
    let wh: u64 = w as u64 * h as u64;
    proof {
        assert(wh == w as int * h as int);
        assert(parse_decimal(ts[1]) == w as int);
        assert(parse_decimal(ts[2]) == h as int);
        assert(3 * w as int * h as int == 3 * (w as int * h as int)) by (nonlinear_arith);
    }
    if wh > 0x7fff_ffff {
        return None;
    }
    if (spans.len() - 4) as u64 != 3 * wh {
        return None;
    }
    let mut levels: Vec<u8> = Vec::new();
    let mut k: usize = 4;
    while k < spans.len()
        invariant
            s == text@,
            ts == tokens(s),
            is_ascii_chars(s),
            bytes@ == ascii_bytes(s),
            span_texts(s, spans@) == ts,
            forall|q: int|
                0 <= q < spans@.len() ==> #[trigger] spans@[q].0 < spans@[q].1 && spans@[q].1
                    <= s.len(),
            4 <= k <= spans@.len(),
            levels@.len() == k - 4,
            forall|q: int| 4 <= q < k ==> is_number_upto(#[trigger] ts[q], 255),
            forall|q: int| 0 <= q < k - 4 ==> #[trigger] levels@[q] == parse_decimal(ts[q + 4]) as u8,
        decreases spans.len() - k,
    {
        let (a, b) = spans[k];
        proof {
            assert(ts[k as int] == s.subrange(a as int, b as int));
        }
        match parse_span(bytes, a, b, 255, Ghost(s)) {
            Some(v) => {
                proof {
                    assert(parse_decimal(ts[k as int]) <= 255);
                }
                levels.push(v as u8);
            },
            None => {
                proof {
                    assert(!is_number_upto(ts[k as int], 255));
                    assert(!(forall|q: int| 4 <= q < ts.len() ==> is_number_upto(#[trigger] ts[q], 255)));
                }
                return None;
            },
        }
        k = k + 1;
    }
    let n: usize = wh as usize;
    let n_levels = levels.len();
    proof {
        assert(n_levels == 3 * n);
    }
    let mut pixels: Vec<Rgb> = Vec::new();
    let mut p: usize = 0;
    while p < n
        invariant
            n == wh,
            levels@.len() == 3 * n,
            n_levels == 3 * n,
            p <= n,
            pixels@.len() == p,
            forall|q: int| 0 <= q < 3 * p ==> #[trigger] channel_levels(pixels@)[q] == levels@[q],
        decreases n - p,
    {
        let px = Rgb { red: levels[3 * p], green: levels[3 * p + 1], blue: levels[3 * p + 2] };
        let ghost before = pixels@;
        pixels.push(px);
        proof {
            assert forall|q: int| 0 <= q < 3 * (p + 1) implies #[trigger] channel_levels(pixels@)[q]
                == levels@[q] by {
                if q < 3 * p {
                    assert(channel_levels(pixels@)[q] == channel_levels(before)[q]);
                }
            }
        }
        p = p + 1;
    }
    let c = Canvas { width: w as i32, height: h as i32, pixels };
    proof {
        assert(wh == w as int * h as int);
        assert(3 * w as int * h as int == 3 * (w as int * h as int)) by (nonlinear_arith);
        assert(parse_decimal(ts[1]) == w as int);
        assert(parse_decimal(ts[2]) == h as int);
        assert(parse_decimal(ts[3]) == 255);
        assert(channel_levels(c.pixels@) =~= Seq::new(
            (ts.len() - 4) as nat,
            |q: int| parse_decimal(ts[q + 4]) as u8,
        ));
    }
    Some(c)
}

} // verus!
