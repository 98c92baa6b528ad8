//! The pixel buffer as a plain-text PPM image: a header, then one grey
//! triplet of decimal numbers per sample, on lines of at most seventy
//! characters that also break where an image row ends.

use crate::decimal::{
    decimal_digits, lemma_decimal_len, lemma_decimal_round_trip, pow10, push_front_decimal,
};
use crate::inline_bytes::InlineBytes;
use crate::sink::{cut_short, emit, keeps_promise, lemma_cut_short_extends, Sink};
use vstd::prelude::*;

verus! {

/// The format tag of a plain-text PPM image, `P3`.
pub const PPM_MAGIC: [u8; 2] = [80, 51];

/// The line break, `\n`.
pub const PPM_NEW_LINE: [u8; 1] = [10];

/// The separator within a line, a space.
pub const PPM_SPACE: [u8; 1] = [32];

/// The largest value of a colour channel, `255`.
pub const PPM_MAX_COLOR_VAL: [u8; 3] = [50, 53, 53];

/// The most characters on one line of the image's body.
pub const PPM_MAX_CHARS_PER_LINE: usize = 70;

/// The byte `' '`.
pub const SPACE_BYTE: u8 = 32;

/// The most decimal digits of a width or a height.
pub const MAX_DIMENSION_DIGITS: u32 = 6;

/// The most decimal digits of a colour channel.
pub const MAX_CHANNEL_DIGITS: u32 = 3;

/// The image's header: the tag, the width and the height, the largest
/// channel value, each on a line of its own.
pub open spec fn ppm_header(width: nat, height: nat) -> Seq<u8> {
    PPM_MAGIC@ + PPM_NEW_LINE@ + decimal_digits(width) + PPM_SPACE@ + decimal_digits(height)
        + PPM_NEW_LINE@ + PPM_MAX_COLOR_VAL@ + PPM_NEW_LINE@
}

/// The brightness that stands for a stored sample: the display keeps
/// `0xFF` for black, an image keeps it for white.
pub open spec fn channel(pixel: u8) -> nat {
    (255 - pixel) as nat
}

/// The text of one sample: its brightness three times, for red, green and
/// blue, with a space between.
pub open spec fn pixel_token(pixel: u8) -> Seq<u8> {
    let text = decimal_digits(channel(pixel));
    text + seq![SPACE_BYTE] + text + seq![SPACE_BYTE] + text
}

/// Whether a line of `in_line` characters has no room left for a space and
/// a token of `token_len` characters.
pub open spec fn exceeds_line(in_line: nat, token_len: nat) -> bool {
    in_line + token_len + 1 > PPM_MAX_CHARS_PER_LINE
}

/// Whether the sample at `idx` is the first of an image row other than the
/// first row.
pub open spec fn begins_row(width: nat, idx: nat) -> bool {
    idx > 0 && idx % width == 0
}

/// Whether a line break comes before the sample at `idx`, given the length
/// of the line so far and of the sample's token.
pub open spec fn breaks_before(width: nat, idx: nat, in_line: nat, token_len: nat) -> bool {
    exceeds_line(in_line, token_len) || begins_row(width, idx)
}

/// The length of the last line of the body once `samples` have been written.
pub open spec fn line_len(width: nat, samples: Seq<u8>) -> nat
    decreases samples.len(),
{
    if samples.len() == 0 {
        0
    } else {
        let earlier = samples.drop_last();
        let token_len = pixel_token(samples.last()).len();
        let in_line = line_len(width, earlier);
        if breaks_before(width, earlier.len(), in_line, token_len) {
            token_len
        } else if earlier.len() > 0 {
            in_line + 1 + token_len
        } else {
            in_line + token_len
        }
    }
}

/// What stands between the text of `earlier` samples and the token of the
/// sample `pixel` that follows them: a line break, a space, or, before the
/// first sample, nothing.
pub open spec fn separator(width: nat, earlier: Seq<u8>, pixel: u8) -> Seq<u8> {
    if breaks_before(
        width,
        earlier.len(),
        line_len(width, earlier),
        pixel_token(pixel).len(),
    ) {
        PPM_NEW_LINE@
    } else if earlier.len() > 0 {
        PPM_SPACE@
    } else {
        Seq::empty()
    }
}

/// The image's body: the tokens of `samples` in order, each after its
/// separator.
pub open spec fn ppm_body(width: nat, samples: Seq<u8>) -> Seq<u8>
    decreases samples.len(),
{
    if samples.len() == 0 {
        Seq::empty()
    } else {
        let earlier = samples.drop_last();
        ppm_body(width, earlier) + separator(width, earlier, samples.last()) + pixel_token(
            samples.last(),
        )
    }
}

/// The whole image: header, body, and a blank line to end it.
pub open spec fn ppm_text(width: nat, height: nat, samples: Seq<u8>) -> Seq<u8> {
    ppm_header(width, height) + ppm_body(width, samples) + PPM_NEW_LINE@ + PPM_NEW_LINE@
}

/// The decimal text of `val`, which has at most six digits.
pub fn small_u32_as_utf8(val: u32) -> (text: InlineBytes)
    requires
        val < 1_000_000,
    ensures
        text@ == decimal_digits(val as nat),
{
    let mut vec = InlineBytes::new();
    proof {
        lemma_pow10_values();
    }
    push_front_decimal(&mut vec, val, MAX_DIMENSION_DIGITS);
    assert(vec@ =~= decimal_digits(val as nat));
    vec
}

/// The token of one sample: the inverted value as red, green and blue.
pub fn pixel_as_utf8(pixel: u8) -> (text: InlineBytes)
    ensures
        text@ == pixel_token(pixel),
{
    let r: u32 = 255 - pixel as u32;
    let g: u32 = r;
    let b: u32 = r;
    let mut vec = InlineBytes::new();
    proof {
        lemma_pow10_values();
    }
    push_front_decimal(&mut vec, b, MAX_CHANNEL_DIGITS);
    vec.push_front(SPACE_BYTE);
    push_front_decimal(&mut vec, g, MAX_CHANNEL_DIGITS);
    vec.push_front(SPACE_BYTE);
    push_front_decimal(&mut vec, r, MAX_CHANNEL_DIGITS);
    assert(vec@ =~= pixel_token(pixel));
    vec
}

/// Whether a line that holds `written_in_line` characters has no room left
/// for a space and a token of `token_len` characters.
pub fn pixel_overflows_line(written_in_line: usize, token_len: usize) -> (full: bool)
    requires
        written_in_line + token_len + 1 <= usize::MAX,
    ensures
        full == exceeds_line(written_in_line as nat, token_len as nat),
{
    written_in_line + token_len + 1 > PPM_MAX_CHARS_PER_LINE
}

/// Whether the sample at `idx` opens a new image row.
pub fn needs_new_row(idx: usize, width: usize) -> (row: bool)
    requires
        width > 0,
    ensures
        row == begins_row(width as nat, idx as nat),
{
    idx > 0 && idx % width == 0
}

/// A token has between five and eleven characters, from `0 0 0` to
/// `255 255 255`.
pub proof fn lemma_pixel_token_len(pixel: u8)
    ensures
        5 <= pixel_token(pixel).len() <= 11,
{
    lemma_pow10_values();
    lemma_decimal_len(channel(pixel), 3);
}

/// Writes the image's header to `writer` and returns its length. The first
/// failed write ends the call and its failure is returned. A sink that is
/// sure to take the whole header makes the call succeed.
pub fn write_ppm_header<W: Sink>(width: usize, height: usize, writer: &mut W) -> (r: Result<
    usize,
    W::Error,
>)
    requires
        width < 1_000_000,
        height < 1_000_000,
    ensures
        r matches Ok(n) ==> final(writer).written() == old(writer).written() + ppm_header(
            width as nat,
            height as nat,
        ) && n == ppm_header(width as nat, height as nat).len(),
        r is Ok ==> final(writer).last_failure() == old(writer).last_failure(),
        r matches Err(e) ==> final(writer).last_failure() == Some(e),
        r is Err ==> cut_short(
            old(writer).written(),
            final(writer).written(),
            ppm_header(width as nat, height as nat),
        ),
        keeps_promise(
            *old(writer),
            *final(writer),
            ppm_header(width as nat, height as nat).len(),
            r is Ok,
        ),
{
    let ghost first = *writer;
    let ghost before = writer.written();
    let ghost full = ppm_header(width as nat, height as nat);
    let ghost mut done = Seq::<u8>::empty();
    let width_text = small_u32_as_utf8(width as u32);
    let height_text = small_u32_as_utf8(height as u32);
    let mut written: usize = 0;
    proof {
        lemma_pow10_values();
        lemma_decimal_len(width as nat, 6);
        lemma_decimal_len(height as nat, 6);
        assert(before + done =~= before);
    }

    assert((done + PPM_MAGIC@).is_prefix_of(full));
    match emit(writer, PPM_MAGIC.as_slice(), Ghost(first), Ghost(done), Ghost(full)) {
        Err(e) => {
            return Err(e);
        },
        Ok(()) => {},
    }
    written = written + PPM_MAGIC.len();
    proof {
        done = done + PPM_MAGIC@;
    }

    assert((done + PPM_NEW_LINE@).is_prefix_of(full));
    match emit(writer, PPM_NEW_LINE.as_slice(), Ghost(first), Ghost(done), Ghost(full)) {
        Err(e) => {
            return Err(e);
        },
        Ok(()) => {},
    }
    written = written + PPM_NEW_LINE.len();
    proof {
        done = done + PPM_NEW_LINE@;
    }

    assert((done + width_text@).is_prefix_of(full));
    match emit(writer, width_text.as_slice(), Ghost(first), Ghost(done), Ghost(full)) {
        Err(e) => {
            return Err(e);
        },
        Ok(()) => {},
    }
    written = written + width_text.len();
    proof {
        done = done + width_text@;
    }

    assert((done + PPM_SPACE@).is_prefix_of(full));
    match emit(writer, PPM_SPACE.as_slice(), Ghost(first), Ghost(done), Ghost(full)) {
        Err(e) => {
            return Err(e);
        },
        Ok(()) => {},
    }
    written = written + PPM_SPACE.len();
    proof {
        done = done + PPM_SPACE@;
    }

    assert((done + height_text@).is_prefix_of(full));
    match emit(writer, height_text.as_slice(), Ghost(first), Ghost(done), Ghost(full)) {
        Err(e) => {
            return Err(e);
        },
        Ok(()) => {},
    }
    written = written + height_text.len();
    proof {
        done = done + height_text@;
    }

    assert((done + PPM_NEW_LINE@).is_prefix_of(full));
    match emit(writer, PPM_NEW_LINE.as_slice(), Ghost(first), Ghost(done), Ghost(full)) {
        Err(e) => {
            return Err(e);
        },
        Ok(()) => {},
    }
    written = written + PPM_NEW_LINE.len();
    proof {
        done = done + PPM_NEW_LINE@;
    }

    assert((done + PPM_MAX_COLOR_VAL@).is_prefix_of(full));
    match emit(writer, PPM_MAX_COLOR_VAL.as_slice(), Ghost(first), Ghost(done), Ghost(full)) {
        Err(e) => {
            return Err(e);
        },
        Ok(()) => {},
    }
    written = written + PPM_MAX_COLOR_VAL.len();
    proof {
        done = done + PPM_MAX_COLOR_VAL@;
    }

    assert(done + PPM_NEW_LINE@ =~= full);
    match emit(writer, PPM_NEW_LINE.as_slice(), Ghost(first), Ghost(done), Ghost(full)) {
        Err(e) => {
            return Err(e);
        },
        Ok(()) => {},
    }
    written = written + PPM_NEW_LINE.len();

    Ok(written)
}

/// The body for the first `n` samples begins the body for all of them.
pub proof fn lemma_ppm_body_prefix(width: nat, samples: Seq<u8>, n: int)
    requires
        0 <= n <= samples.len(),
    ensures
        ppm_body(width, samples.take(n)).is_prefix_of(ppm_body(width, samples)),
    decreases samples.len(),
{
    if n == samples.len() {
        assert(samples.take(n) =~= samples);
    } else {
        lemma_ppm_body_prefix(width, samples.drop_last(), n);
        assert(samples.drop_last().take(n) =~= samples.take(n));
    }
}

/// No line under construction is longer than seventy characters.
pub proof fn lemma_line_len_bound(width: nat, samples: Seq<u8>)
    ensures
        line_len(width, samples) <= PPM_MAX_CHARS_PER_LINE,
    decreases samples.len(),
{
    if samples.len() > 0 {
        lemma_line_len_bound(width, samples.drop_last());
        lemma_pixel_token_len(samples.last());
    }
}

/// Writes the image of `buf` to `writer`: the header, one token per sample
/// in order, and a blank line. From the second sample on a token follows a
/// line break where the line has no room for it or where an image row
/// begins, and a space otherwise. `width` and `height` are written as given:
/// that `buf` holds `width * height` samples is the caller's affair. The
/// first failed write ends the call and its failure is returned; what has
/// been written by then is a proper prefix of the text. A sink that is sure
/// to take the whole text makes the call succeed.
pub fn write_ppm_buffer<W: Sink>(width: usize, height: usize, buf: &[u8], writer: &mut W) -> (r:
    Result<(), W::Error>)
    requires
        0 < width < 1_000_000,
        height < 1_000_000,
    ensures
        r is Ok ==> final(writer).written() == old(writer).written() + ppm_text(
            width as nat,
            height as nat,
            buf@,
        ),
        r is Ok ==> final(writer).last_failure() == old(writer).last_failure(),
        r matches Err(e) ==> final(writer).last_failure() == Some(e),
        r is Err ==> cut_short(
            old(writer).written(),
            final(writer).written(),
            ppm_text(width as nat, height as nat, buf@),
        ),
        keeps_promise(
            *old(writer),
            *final(writer),
            ppm_text(width as nat, height as nat, buf@).len(),
            r is Ok,
        ),
{
    let ghost first = *writer;
    let ghost before = writer.written();
    let ghost header = ppm_header(width as nat, height as nat);
    let ghost full = ppm_text(width as nat, height as nat, buf@);
    match write_ppm_header(width, height, writer) {
        Err(e) => {
            proof {
                assert(header.is_prefix_of(full));
                lemma_cut_short_extends(before, writer.written(), header, full);
            }
            return Err(e);
        },
        Ok(_) => {},
    }
    let ghost mut done = header;
    proof {
        assert(done =~= header + ppm_body(width as nat, buf@.take(0)));
    }

    let mut written_in_line: usize = 0;
    let mut idx: usize = 0;
    while idx < buf.len()
        invariant
            idx <= buf.len(),
            width > 0,
            first == *old(writer),
            before == first.written(),
            keeps_promise(first, *writer, done.len(), true),
            writer.last_failure() == first.last_failure(),
            header == ppm_header(width as nat, height as nat),
            full == ppm_text(width as nat, height as nat, buf@),
            done == header + ppm_body(width as nat, buf@.take(idx as int)),
            writer.written() == before + done,
            written_in_line == line_len(width as nat, buf@.take(idx as int)),
        decreases buf.len() - idx,
    {
        let encoded_c = pixel_as_utf8(buf[idx]);
        let token = encoded_c.as_slice();
        let ghost earlier = buf@.take(idx as int);
        let ghost upto = buf@.take(idx + 1);
        let ghost next = header + ppm_body(width as nat, upto);
        proof {
            lemma_pixel_token_len(buf[idx as int]);
            lemma_line_len_bound(width as nat, earlier);
            lemma_line_len_bound(width as nat, upto);
            lemma_ppm_body_prefix(width as nat, buf@, idx + 1);
            assert(upto.drop_last() =~= earlier);
            assert(upto.last() == buf[idx as int]);
            assert(next =~= done + separator(width as nat, earlier, buf[idx as int]) + token@);
            assert(next.is_prefix_of(full));
        }

        let line_is_full = pixel_overflows_line(written_in_line, token.len());
        let starts_row = needs_new_row(idx, width);
        if line_is_full || starts_row {
            assert((done + PPM_NEW_LINE@).is_prefix_of(next));
            match emit(writer, PPM_NEW_LINE.as_slice(), Ghost(first), Ghost(done), Ghost(full)) {
                Err(e) => {
                    return Err(e);
                },
                Ok(()) => {},
            }
            written_in_line = 0;
            proof {
                done = done + PPM_NEW_LINE@;
            }
        } else if idx > 0 {
            assert((done + PPM_SPACE@).is_prefix_of(next));
            match emit(writer, PPM_SPACE.as_slice(), Ghost(first), Ghost(done), Ghost(full)) {
                Err(e) => {
                    return Err(e);
                },
                Ok(()) => {},
            }
            written_in_line = written_in_line + PPM_SPACE.len();
            proof {
                done = done + PPM_SPACE@;
            }
        }
        assert(done + token@ =~= next);
        match emit(writer, token, Ghost(first), Ghost(done), Ghost(full)) {
            Err(e) => {
                return Err(e);
            },
            Ok(()) => {},
        }
        written_in_line = written_in_line + token.len();
        proof {
            done = next;
        }
        idx = idx + 1;
    }

    proof {
        assert(buf@.take(idx as int) =~= buf@);
        assert((done + PPM_NEW_LINE@).is_prefix_of(full));
    }
    match emit(writer, PPM_NEW_LINE.as_slice(), Ghost(first), Ghost(done), Ghost(full)) {
        Err(e) => {
            return Err(e);
        },
        Ok(()) => {},
    }
    proof {
        done = done + PPM_NEW_LINE@;
        assert(done + PPM_NEW_LINE@ =~= full);
    }
    match emit(writer, PPM_NEW_LINE.as_slice(), Ghost(first), Ghost(done), Ghost(full)) {
        Err(e) => Err(e),
        Ok(()) => Ok(()),
    }
}

/// What the body gains with the sample at `idx`: its separator and its
/// token.
pub proof fn lemma_ppm_body_step(width: nat, samples: Seq<u8>, idx: int)
    requires
        0 <= idx < samples.len(),
    ensures
        ppm_body(width, samples.take(idx + 1)) == ppm_body(width, samples.take(idx)) + separator(
            width,
            samples.take(idx),
            samples[idx],
        ) + pixel_token(samples[idx]),
        ppm_body(width, samples.take(idx + 1)).is_prefix_of(ppm_body(width, samples)),
{
    let upto = samples.take(idx + 1);
    assert(upto.drop_last() =~= samples.take(idx));
    assert(upto.last() == samples[idx]);
    lemma_ppm_body_prefix(width, samples, idx + 1);
}

/// A new line begins wherever an image row begins: the token of a sample
/// whose index is a positive multiple of `width` follows a line break and
/// opens its line, however short the line before it was.
pub proof fn lemma_row_starts_on_new_line(width: nat, samples: Seq<u8>, idx: int)
    requires
        width > 0,
        0 < idx < samples.len(),
        idx % (width as int) == 0,
    ensures
        ppm_body(width, samples.take(idx + 1)) == ppm_body(width, samples.take(idx)) + PPM_NEW_LINE@
            + pixel_token(samples[idx]),
        ppm_body(width, samples.take(idx + 1)).is_prefix_of(ppm_body(width, samples)),
        line_len(width, samples.take(idx + 1)) == pixel_token(samples[idx]).len(),
{
    lemma_ppm_body_step(width, samples, idx);
    let upto = samples.take(idx + 1);
    assert(upto.drop_last() =~= samples.take(idx));
    assert(upto.last() == samples[idx]);
    assert(begins_row(width, samples.take(idx).len()));
}

/// `text` with every line break turned into a space.
pub open spec fn on_one_line(text: Seq<u8>) -> Seq<u8> {
    Seq::new(
        text.len(),
        |i: int|
            if text[i] == 10 {
                SPACE_BYTE
            } else {
                text[i]
            },
    )
}

/// The tokens of `samples` in order, with one space between neighbours.
pub open spec fn spaced_tokens(samples: Seq<u8>) -> Seq<u8>
    decreases samples.len(),
{
    if samples.len() == 0 {
        Seq::empty()
    } else if samples.len() == 1 {
        pixel_token(samples.last())
    } else {
        spaced_tokens(samples.drop_last()) + seq![SPACE_BYTE] + pixel_token(samples.last())
    }
}

/// The body holds exactly one token for each sample, in the order of the
/// samples, and between two neighbours exactly one character, a space or a
/// line break: with its line breaks turned into spaces it is the tokens
/// joined by single spaces.
pub proof fn lemma_ppm_body_triplets(width: nat, samples: Seq<u8>)
    ensures
        on_one_line(ppm_body(width, samples)) == spaced_tokens(samples),
    decreases samples.len(),
{
    if samples.len() > 0 {
        let earlier = samples.drop_last();
        let head = ppm_body(width, earlier);
        let gap = separator(width, earlier, samples.last());
        let token = pixel_token(samples.last());
        lemma_ppm_body_triplets(width, earlier);
        lemma_pixel_token_unbroken(samples.last());
        lemma_pixel_token_len(samples.last());
        assert(on_one_line(token) =~= token);
        if earlier.len() == 0 {
            assert(head + gap + token =~= token);
        } else {
            assert(on_one_line(gap) =~= seq![SPACE_BYTE]);
            assert(on_one_line(head + gap + token) =~= on_one_line(head) + on_one_line(gap)
                + on_one_line(token));
        }
    }
}

/// Whether `text` holds no line break from `from` up to `to`.
pub open spec fn unbroken(text: Seq<u8>, from: int, to: int) -> bool {
    forall|k: int| from <= k < to ==> #[trigger] text[k] != 10
}

/// Whether no line of `text` is longer than `limit`: every stretch without
/// a line break is at most that long.
pub open spec fn lines_within(text: Seq<u8>, limit: nat) -> bool {
    forall|from: int, to: int|
        0 <= from <= to <= text.len() && #[trigger] unbroken(text, from, to) ==> to - from <= limit
}

/// Whether the last line of `text`, the stretch after its last line break,
/// is at most `limit` long.
pub open spec fn last_line_within(text: Seq<u8>, limit: nat) -> bool {
    forall|from: int|
        0 <= from <= text.len() && #[trigger] unbroken(text, from, text.len() as int) ==> text.len()
            - from <= limit
}

/// A token holds digits and spaces only, so no line break.
pub proof fn lemma_pixel_token_unbroken(pixel: u8)
    ensures
        unbroken(pixel_token(pixel), 0, pixel_token(pixel).len() as int),
{
    lemma_decimal_round_trip(channel(pixel));
}

/// No line of the body is longer than seventy characters, and its last
/// line is as long as the running count says.
pub proof fn lemma_body_lines_within(width: nat, samples: Seq<u8>)
    ensures
        lines_within(ppm_body(width, samples), PPM_MAX_CHARS_PER_LINE as nat),
        last_line_within(ppm_body(width, samples), line_len(width, samples)),
    decreases samples.len(),
{
    if samples.len() > 0 {
        let earlier = samples.drop_last();
        let head = ppm_body(width, earlier);
        let gap = separator(width, earlier, samples.last());
        let token = pixel_token(samples.last());
        let body = ppm_body(width, samples);
        let at = head.len() as int;
        lemma_body_lines_within(width, earlier);
        lemma_line_len_bound(width, earlier);
        lemma_line_len_bound(width, samples);
        lemma_pixel_token_len(samples.last());
        lemma_pixel_token_unbroken(samples.last());
        assert(body == head + gap + token);
        assert(gap.len() <= 1);
        assert forall|from: int, to: int|
            0 <= from <= to <= body.len() && #[trigger] unbroken(body, from, to) implies to - from
            <= PPM_MAX_CHARS_PER_LINE && (to == body.len() ==> to - from <= line_len(
            width,
            samples,
        )) by {
            let reach = if to <= at {
                to
            } else {
                at
            };
            if from <= at {
                assert forall|k: int| from <= k < reach implies #[trigger] head[k] != 10 by {
                    assert(body[k] == head[k]);
                }
                assert(unbroken(head, from, reach));
                if to > at && gap.len() == 1 {
                    assert(body[at] == gap[0]);
                }
            }
        }
    }
}

/// The powers of ten that bound a channel and a dimension.
pub proof fn lemma_pow10_values()
    ensures
        pow10(3) == 1_000,
        pow10(6) == 1_000_000,
{
    reveal_with_fuel(pow10, 7);
}

} // verus!
