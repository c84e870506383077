//! Turning a second count into what the countdown shows: the show-mode
//! and message flags, the hours/minutes/seconds decomposition, and the
//! assembly of oversized glyph-art lines.

use vstd::prelude::*;

use crate::text::{contains_char, digit_val, find_char, first_pos, is_digit};

verus! {

/// How the countdown is displayed: compact text, large glyph art, or not
/// at all.
#[derive(Debug, PartialEq, Eq, Structural)]
pub enum Show {
    Small,
    Big,
    Silent,
}

/// A non-negative second count as whole hours, minutes within the hour,
/// and seconds within the minute; the three always rebuild the input.
pub fn get_time(time_seconds: i64) -> (r: (i64, i64, i64))
    requires
        time_seconds >= 0,
    ensures
        r.0 == time_seconds as int / 3600,
        r.1 == (time_seconds as int / 60) % 60,
        r.2 == time_seconds as int % 60,
        r.0 * 3600 + r.1 * 60 + r.2 == time_seconds,
{
    proof {
        lemma_hms_round_trip(time_seconds as int);
    }
    (time_seconds / (60 * 60), (time_seconds / 60) % 60, time_seconds % 60)
}

/// Decomposing a non-negative second count into hours, minutes and
/// seconds and recombining them recovers the count exactly.
pub proof fn lemma_hms_round_trip(t: int)
    requires
        0 <= t,
    ensures
        (t / 3600) * 3600 + ((t / 60) % 60) * 60 + t % 60 == t,
{
    vstd::arithmetic::div_mod::lemma_fundamental_div_mod(t, 60);
    vstd::arithmetic::div_mod::lemma_fundamental_div_mod(t / 60, 60);
    vstd::arithmetic::div_mod::lemma_div_denominator(t, 60, 60);
    assert(t == 60 * (t / 60) + t % 60);
    assert(t / 60 == 60 * ((t / 60) / 60) + (t / 60) % 60);
    assert((t / 60) / 60 == t / 3600);
}

/// `s` with the first occurrence of `c` cut out.
pub open spec fn without_first(s: Seq<char>, c: char) -> Seq<char> {
    s.take(first_pos(s, c)) + s.skip(first_pos(s, c) + 1)
}

/// Copies `s` without the first occurrence of `c`.
fn remove_first(s: &str, c: char) -> (r: String)
    requires
        s@.contains(c),
    ensures
        r@ == without_first(s@, c),
{
    proof {
        crate::text::lemma_first_pos(s@, c);
    }
    let p = match find_char(s, c) {
        Some(p) => p,
        None => {
            proof {
                assert(false);
            }
            0
        }
    };
    let len: usize = s.unicode_len();
    let mut out = s.substring_char(0, p).to_owned();
    out.append(s.substring_char(p + 1, len));
    proof {
        assert(s@.subrange(0, p as int) =~= s@.take(p as int));
        assert(s@.subrange(p + 1, len as int) =~= s@.skip(p + 1));
    }
    out
}

/// What `show_handle` leaves as the head argument and answers: the first
/// `s` or `S` is cut out and names the mode; otherwise nothing changes.
pub open spec fn show_outcome(s: Seq<char>) -> (Seq<char>, Show) {
    if s.contains('s') {
        (without_first(s, 's'), Show::Small)
    } else if s.contains('S') {
        (without_first(s, 'S'), Show::Big)
    } else {
        (s, Show::Silent)
    }
}

/// Reads the show-mode marker out of the head argument: a lower-case `s`
/// asks for the compact countdown, an upper-case `S` for the large one;
/// the marker itself is removed from the argument.
pub fn show_handle(args: &mut Vec<String>) -> (r: Show)
    requires
        old(args).len() > 0,
    ensures
        final(args).deep_view() == old(args).deep_view().update(
            0,
            show_outcome(old(args)@[0]@).0,
        ),
        r == show_outcome(old(args)@[0]@).1,
{
    let ghost before = args.deep_view();
    let r = if contains_char(args[0].as_str(), 's') {
        let trimmed = remove_first(args[0].as_str(), 's');
        args.set(0, trimmed);
        Show::Small
    } else if contains_char(args[0].as_str(), 'S') {
        let trimmed = remove_first(args[0].as_str(), 'S');
        args.set(0, trimmed);
        Show::Big
    } else {
        Show::Silent
    };
    proof {
        assert(before[0] == old(args)@[0]@);
        assert(args.deep_view() =~= before.update(0, show_outcome(before[0]).0));
    }
    r
}

/// What `message_handle` leaves behind: with an `m` marker in the head
/// argument, the marker is cut out and a `-m` flag is slotted in before
/// the last argument; without one, nothing changes.
pub open spec fn message_outcome(args: Seq<Seq<char>>) -> Seq<Seq<char>> {
    if args[0].contains('m') {
        args.update(0, without_first(args[0], 'm')).insert(args.len() - 1, "-m"@)
    } else {
        args
    }
}

/// Reads the message marker out of the head argument: an `m` is removed
/// and a `-m` flag is inserted before the final argument, which will be
/// printed as the message.
pub fn message_handle(args: &mut Vec<String>)
    requires
        old(args).len() > 0,
    ensures
        final(args).deep_view() == message_outcome(old(args).deep_view()),
{
    let ghost before = args.deep_view();
    if contains_char(args[0].as_str(), 'm') {
        let trimmed = remove_first(args[0].as_str(), 'm');
        args.set(0, trimmed);
        let pos = args.len() - 1;
        args.insert(pos, String::from_str("-m"));
        proof {
            assert(before[0] == old(args)@[0]@);
            assert(args.deep_view() =~= before.update(0, without_first(before[0], 'm')).insert(
                before.len() - 1,
                "-m"@,
            ));
        }
    }
}

/// The character for one decimal digit.
pub open spec fn digit_char(d: int) -> char {
    if d == 0 {
        '0'
    } else if d == 1 {
        '1'
    } else if d == 2 {
        '2'
    } else if d == 3 {
        '3'
    } else if d == 4 {
        '4'
    } else if d == 5 {
        '5'
    } else if d == 6 {
        '6'
    } else if d == 7 {
        '7'
    } else if d == 8 {
        '8'
    } else {
        '9'
    }
}

/// The decimal digits of `n`, most significant first.
pub open spec fn dec_rep(n: int) -> Seq<char>
    decreases n,
{
    if n <= 9 {
        seq![digit_char(n)]
    } else {
        dec_rep(n / 10).push(digit_char(n % 10))
    }
}

/// The compact clock text `H:M:S` for a second count.
pub open spec fn clock_text(t: int) -> Seq<char> {
    dec_rep(t / 3600) + seq![':'] + dec_rep((t / 60) % 60) + seq![':'] + dec_rep(t % 60)
}

/// A character the glyph table has art for.
pub open spec fn glyph_ok(c: char) -> bool {
    is_digit(c) || c == ':'
}

/// The glyph table slot for a clock-text character: a digit's value, or
/// slot ten for the colon.
pub open spec fn glyph_slot(c: char) -> int {
    if c == ':' {
        10
    } else {
        digit_val(c)
    }
}

/// `n` spaces.
pub open spec fn spaces(n: int) -> Seq<char>
    decreases n,
{
    if n <= 0 {
        Seq::empty()
    } else {
        spaces(n - 1).push(' ')
    }
}

/// One glyph row padded to the fixed cell width of ten characters.
pub open spec fn pad_cell(cell: Seq<char>) -> Seq<char> {
    cell + spaces(10 - cell.len())
}

/// Row `j` of the rendered clock text: the `j`-th row of each character's
/// glyph, each padded to the cell width, laid side by side.
pub open spec fn render_row(text: Seq<char>, glyphs: Seq<Seq<Seq<char>>>, j: int) -> Seq<char>
    decreases text.len(),
{
    if text.len() == 0 {
        Seq::empty()
    } else {
        pad_cell(glyphs[glyph_slot(text[0])][j]) + render_row(text.drop_first(), glyphs, j)
    }
}

/// Rendering one more trailing character appends one more padded cell.
proof fn lemma_render_row_snoc(text: Seq<char>, c: char, glyphs: Seq<Seq<Seq<char>>>, j: int)
    ensures
        render_row(text.push(c), glyphs, j) == render_row(text, glyphs, j) + pad_cell(
            glyphs[glyph_slot(c)][j],
        ),
    decreases text.len(),
{
    let cell = pad_cell(glyphs[glyph_slot(c)][j]);
    if text.len() == 0 {
        assert(text.push(c)[0] == c);
        assert(text.push(c).drop_first() =~= Seq::<char>::empty());
        assert(render_row(Seq::<char>::empty(), glyphs, j) == Seq::<char>::empty());
        assert(render_row(text.push(c), glyphs, j) == cell + Seq::<char>::empty());
        assert(cell + Seq::<char>::empty() =~= cell);
        assert(Seq::<char>::empty() + cell =~= cell);
    } else {
        assert(text.push(c)[0] == text[0]);
        assert(text.push(c).drop_first() =~= text.drop_first().push(c));
        lemma_render_row_snoc(text.drop_first(), c, glyphs, j);
        let head = pad_cell(glyphs[glyph_slot(text[0])][j]);
        let rest = render_row(text.drop_first(), glyphs, j);
        assert(head + (rest + cell) =~= (head + rest) + cell);
    }
}

/// Every character of a decimal representation is a digit.
proof fn lemma_dec_rep_digits(n: int)
    ensures
        dec_rep(n).len() >= 1,
        forall|i: int| 0 <= i < dec_rep(n).len() ==> is_digit(#[trigger] dec_rep(n)[i]),
    decreases n,
{
    if n > 9 {
        lemma_dec_rep_digits(n / 10);
    }
}

/// Concatenation keeps the glyph-character property.
proof fn lemma_glyph_concat(a: Seq<char>, b: Seq<char>)
    requires
        forall|i: int| 0 <= i < a.len() ==> glyph_ok(#[trigger] a[i]),
        forall|i: int| 0 <= i < b.len() ==> glyph_ok(#[trigger] b[i]),
    ensures
        forall|i: int| 0 <= i < (a + b).len() ==> glyph_ok(#[trigger] (a + b)[i]),
{
    assert forall|i: int| 0 <= i < (a + b).len() implies glyph_ok(#[trigger] (a + b)[i]) by {
        if i < a.len() {
            assert((a + b)[i] == a[i]);
        } else {
            assert((a + b)[i] == b[i - a.len()]);
        }
    }
}

/// Every character of the clock text has a glyph.
proof fn lemma_clock_text_glyphs(t: int)
    ensures
        forall|i: int| 0 <= i < clock_text(t).len() ==> glyph_ok(#[trigger] clock_text(t)[i]),
{
    lemma_dec_rep_digits(t / 3600);
    lemma_dec_rep_digits((t / 60) % 60);
    lemma_dec_rep_digits(t % 60);
    let colon = seq![':'];
    assert(glyph_ok(colon[0]));
    lemma_glyph_concat(dec_rep(t / 3600), colon);
    lemma_glyph_concat(dec_rep(t / 3600) + colon, dec_rep((t / 60) % 60));
    lemma_glyph_concat(dec_rep(t / 3600) + colon + dec_rep((t / 60) % 60), colon);
    lemma_glyph_concat(dec_rep(t / 3600) + colon + dec_rep((t / 60) % 60) + colon, dec_rep(t % 60));
}

/// One digit as text.
fn digit_str(d: i64) -> (r: &'static str)
    requires
        0 <= d <= 9,
    ensures
        r@ == seq![digit_char(d as int)],
{
    proof {
        reveal_strlit("0");
        reveal_strlit("1");
        reveal_strlit("2");
        reveal_strlit("3");
        reveal_strlit("4");
        reveal_strlit("5");
        reveal_strlit("6");
        reveal_strlit("7");
        reveal_strlit("8");
        reveal_strlit("9");
    }
    if d == 0 {
        proof {
            assert("0"@ =~= seq![digit_char(0)]);
        }
        "0"
    } else if d == 1 {
        proof {
            assert("1"@ =~= seq![digit_char(1)]);
        }
        "1"
    } else if d == 2 {
        proof {
            assert("2"@ =~= seq![digit_char(2)]);
        }
        "2"
    } else if d == 3 {
        proof {
            assert("3"@ =~= seq![digit_char(3)]);
        }
        "3"
    } else if d == 4 {
        proof {
            assert("4"@ =~= seq![digit_char(4)]);
        }
        "4"
    } else if d == 5 {
        proof {
            assert("5"@ =~= seq![digit_char(5)]);
        }
        "5"
    } else if d == 6 {
        proof {
            assert("6"@ =~= seq![digit_char(6)]);
        }
        "6"
    } else if d == 7 {
        proof {
            assert("7"@ =~= seq![digit_char(7)]);
        }
        "7"
    } else if d == 8 {
        proof {
            assert("8"@ =~= seq![digit_char(8)]);
        }
        "8"
    } else {
        proof {
            assert("9"@ =~= seq![digit_char(9)]);
        }
        "9"
    }
}

/// A non-negative number as decimal text.
pub fn num_to_string(n: i64) -> (r: String)
    requires
        0 <= n,
    ensures
        r@ == dec_rep(n as int),
    decreases n,
{
    if n <= 9 {
        String::from_str(digit_str(n))
    } else {
        let mut front = num_to_string(n / 10);
        front.append(digit_str(n % 10));
        proof {
            assert(front@ =~= dec_rep(n as int / 10).push(digit_char(n as int % 10)));
        }
        front
    }
}

/// Lays the countdown out in large glyph art: one entry of `ascii_art`
/// per digit, the colon's art last, every glyph the same number of rows
/// and no row wider than the ten-character cell.  Returns the art rows of
/// the clock text `H:M:S`, one assembled line per row.
pub fn print_big_time(time_seconds: i64, ascii_art: &Vec<Vec<String>>) -> (r: Vec<String>)
    requires
        time_seconds >= 0,
        ascii_art@.len() == 11,
        forall|g: int| 0 <= g < 11 ==> (#[trigger] ascii_art@[g])@.len() == ascii_art@[0]@.len(),
        forall|g: int, j: int|
            0 <= g < 11 && 0 <= j < ascii_art@[g]@.len() ==> (#[trigger] ascii_art@[g]@[j])@.len()
                <= 10,
    ensures
        r@.len() == ascii_art@[0]@.len(),
        forall|j: int|
            0 <= j < r@.len() ==> (#[trigger] r@[j])@ == render_row(
                clock_text(time_seconds as int),
                ascii_art.deep_view(),
                j,
            ),
{
    let ghost glyphs = ascii_art.deep_view();
    let (h, m, s) = get_time(time_seconds);
    let mut text = num_to_string(h);
    text.append(":");
    let mid = num_to_string(m);
    text.append(mid.as_str());
    text.append(":");
    let tail = num_to_string(s);
    text.append(tail.as_str());
    proof {
        reveal_strlit(":");
        assert(":"@ =~= seq![':']);
        assert(text@ =~= clock_text(time_seconds as int));
        lemma_clock_text_glyphs(time_seconds as int);
    }
    let rows: usize = ascii_art[0].len();
    let tlen: usize = text.as_str().unicode_len();
    let mut out: Vec<String> = Vec::new();
    let mut j: usize = 0;
    while j < rows
        invariant
            j <= rows,
            out@.len() == j,
            rows == glyphs[0].len(),
            glyphs == ascii_art.deep_view(),
            ascii_art@.len() == 11,
            forall|g: int| 0 <= g < 11 ==> (#[trigger] ascii_art@[g])@.len() == rows,
            forall|g: int, q: int|
                0 <= g < 11 && 0 <= q < rows ==> (#[trigger] ascii_art@[g]@[q])@.len() <= 10,
            tlen == text@.len(),
            text@ == clock_text(time_seconds as int),
            forall|i: int| 0 <= i < text@.len() ==> glyph_ok(#[trigger] text@[i]),
            forall|q: int| 0 <= q < j ==> (#[trigger] out@[q])@ == render_row(text@, glyphs, q),
        decreases rows - j,
    {
        let mut line = String::new();
        proof {
            assert(text@.take(0) =~= Seq::<char>::empty());
        }
        let mut idx: usize = 0;
        while idx < tlen
            invariant
                idx <= tlen,
                j < rows,
                rows == glyphs[0].len(),
                glyphs == ascii_art.deep_view(),
                ascii_art@.len() == 11,
                forall|g: int| 0 <= g < 11 ==> (#[trigger] ascii_art@[g])@.len() == rows,
                forall|g: int, q: int|
                    0 <= g < 11 && 0 <= q < rows ==> (#[trigger] ascii_art@[g]@[q])@.len() <= 10,
                tlen == text@.len(),
                forall|i: int| 0 <= i < text@.len() ==> glyph_ok(#[trigger] text@[i]),
                line@ == render_row(text@.take(idx as int), glyphs, j as int),
            decreases tlen - idx,
        {
            let c = text.as_str().get_char(idx);
            let g: usize = if c == ':' {
                10
            } else {
                proof {
                    assert(glyph_ok(text@[idx as int]));
                }
                ((c as u32) - 48) as usize
            };
            proof {
                assert(glyph_ok(text@[idx as int]));
                assert(g == glyph_slot(text@[idx as int]));
                assert(0 <= g < 11);
                assert(glyphs[g as int][j as int] == ascii_art@[g as int]@[j as int]@);
            }
            let cell = &ascii_art[g][j];
            let clen: usize = cell.as_str().unicode_len();
            line.append(cell.as_str());
            proof {
                assert(spaces(0) =~= Seq::<char>::empty());
                assert(line@ =~= render_row(text@.take(idx as int), glyphs, j as int) + cell@
                    + spaces(clen - clen));
            }
            let mut k: usize = clen;
            while k < 10
                invariant
                    clen <= k <= 10,
                    line@ == render_row(text@.take(idx as int), glyphs, j as int) + cell@ + spaces(
                        k - clen,
                    ),
                decreases 10 - k,
            {
                line.append(" ");
                proof {
                    reveal_strlit(" ");
                    assert(" "@ =~= seq![' ']);
                    assert(line@ =~= render_row(text@.take(idx as int), glyphs, j as int) + cell@
                        + spaces(k + 1 - clen));
                }
                k += 1;
            }
            proof {
                assert(pad_cell(cell@) == cell@ + spaces(10 - clen));
                lemma_render_row_snoc(text@.take(idx as int), text@[idx as int], glyphs, j as int);
                assert(text@.take(idx + 1) =~= text@.take(idx as int).push(text@[idx as int]));
                assert(line@ =~= render_row(text@.take(idx + 1), glyphs, j as int));
            }
            idx += 1;
        }
        proof {
            assert(text@.take(tlen as int) =~= text@);
        }
        out.push(line);
        j += 1;
    }
    out
}

} // verus!
