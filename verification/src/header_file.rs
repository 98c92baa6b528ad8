//! The pixel buffer as source text: a C array initializer with one
//! hexadecimal token per byte.

use crate::sink::{cut_short, emit, keeps_promise, Sink};
use vstd::prelude::*;

verus! {

/// How many tokens stand on one line of the array's body.
pub const TOKENS_PER_LINE: usize = 16;

/// The byte `'\n'`.
pub const NEW_LINE_BYTE: u8 = 10;

/// The line that opens the array:
/// `const unsigned char gImage_alberteinstein[15000] = {`.
pub const START_LINE: [u8; 53] = [
    99, 111, 110, 115, 116, 32, 117, 110, 115, 105, 103, 110, 101, 100,
    32, 99, 104, 97, 114, 32, 103, 73, 109, 97, 103, 101, 95, 97,
    108, 98, 101, 114, 116, 101, 105, 110, 115, 116, 101, 105, 110, 91,
    49, 53, 48, 48, 48, 93, 32, 61, 32, 123, 10,
];

/// The line that closes the array: `};`.
pub const END_LINE: [u8; 3] = [125, 59, 10];

/// The lowercase hexadecimal digit for `d`, which is below sixteen.
pub open spec fn hex_digit_byte(d: nat) -> u8 {
    if d < 10 {
        (48 + d) as u8
    } else {
        (87 + d) as u8
    }
}

/// The token for one byte: `0x`, two lowercase hexadecimal digits, a comma.
pub open spec fn hex_token(byte: u8) -> Seq<u8> {
    seq![
        48u8,
        120u8,
        hex_digit_byte((byte / 16) as nat),
        hex_digit_byte((byte % 16) as nat),
        44u8,
    ]
}

/// The array's body: the tokens of `buf` in order, with a line break after
/// every sixteenth.
pub open spec fn hex_body(buf: Seq<u8>) -> Seq<u8>
    decreases buf.len(),
{
    if buf.len() == 0 {
        Seq::empty()
    } else {
        let tokens = hex_body(buf.drop_last()) + hex_token(buf.last());
        if buf.len() % 16 == 0 {
            tokens.push(NEW_LINE_BYTE)
        } else {
            tokens
        }
    }
}

/// The whole text for `buf`: opening line, body, closing line.
pub open spec fn hex_array_text(buf: Seq<u8>) -> Seq<u8> {
    START_LINE@ + hex_body(buf) + END_LINE@
}

/// The tokens of `buf` in order, with nothing between them.
pub open spec fn hex_tokens(buf: Seq<u8>) -> Seq<u8>
    decreases buf.len(),
{
    if buf.len() == 0 {
        Seq::empty()
    } else {
        hex_tokens(buf.drop_last()) + hex_token(buf.last())
    }
}

/// `text` with its line breaks taken out.
pub open spec fn without_line_breaks(text: Seq<u8>) -> Seq<u8>
    decreases text.len(),
{
    if text.len() == 0 {
        Seq::empty()
    } else if text.last() == NEW_LINE_BYTE {
        without_line_breaks(text.drop_last())
    } else {
        without_line_breaks(text.drop_last()).push(text.last())
    }
}

/// Whether `c` is one of `0` to `9` or `a` to `f`.
pub open spec fn is_lower_hex(c: u8) -> bool {
    48 <= c <= 57 || 97 <= c <= 102
}

/// The number that a lowercase hexadecimal digit stands for.
pub open spec fn hex_digit_value(c: u8) -> nat {
    if c <= 57 {
        (c - 48) as nat
    } else {
        (c - 87) as nat
    }
}

/// A token is `0x`, two lowercase hexadecimal digits and a comma, and its
/// digits read back give the byte: the value is kept, padded to two digits.
pub proof fn lemma_hex_token_round_trip(byte: u8)
    ensures
        hex_token(byte).len() == 5,
        hex_token(byte)[0] == 48,
        hex_token(byte)[1] == 120,
        is_lower_hex(hex_token(byte)[2]),
        is_lower_hex(hex_token(byte)[3]),
        hex_token(byte)[4] == 44,
        16 * hex_digit_value(hex_token(byte)[2]) + hex_digit_value(hex_token(byte)[3]) == byte,
{
}

/// Taking the line breaks out of two texts in a row is taking them out of
/// each.
pub proof fn lemma_without_line_breaks_concat(a: Seq<u8>, b: Seq<u8>)
    ensures
        without_line_breaks(a + b) == without_line_breaks(a) + without_line_breaks(b),
    decreases b.len(),
{
    if b.len() == 0 {
        assert(a + b =~= a);
        assert(without_line_breaks(a) + without_line_breaks(b) =~= without_line_breaks(a));
    } else {
        lemma_without_line_breaks_concat(a, b.drop_last());
        assert((a + b).drop_last() =~= a + b.drop_last());
        assert((a + b).last() == b.last());
        if b.last() != NEW_LINE_BYTE {
            assert(without_line_breaks(a + b) =~= without_line_breaks(a) + without_line_breaks(b));
        }
    }
}

/// The body holds exactly one token for each byte of `buf`, in the order of
/// the bytes, and besides the tokens only line breaks: with the breaks taken
/// out, the token of the byte at `i` stands at `5 * i`.
pub proof fn lemma_hex_body_tokens(buf: Seq<u8>)
    ensures
        without_line_breaks(hex_body(buf)) == hex_tokens(buf),
        hex_tokens(buf).len() == 5 * buf.len(),
        forall|i: int|
            0 <= i < buf.len() ==> #[trigger] hex_tokens(buf).subrange(5 * i, 5 * i + 5)
                == hex_token(buf[i]),
    decreases buf.len(),
{
    if buf.len() > 0 {
        let head = buf.drop_last();
        let token = hex_token(buf.last());
        lemma_hex_body_tokens(head);
        lemma_hex_token_unbroken(buf.last());
        lemma_without_line_breaks_concat(hex_body(head), token);
        let tokens = hex_body(head) + token;
        if buf.len() % 16 == 0 {
            assert(tokens.push(NEW_LINE_BYTE).drop_last() =~= tokens);
        }
        assert forall|i: int| 0 <= i < buf.len() implies #[trigger] hex_tokens(buf).subrange(
            5 * i,
            5 * i + 5,
        ) == hex_token(buf[i]) by {
            if i < head.len() {
                assert(hex_tokens(head).subrange(5 * i, 5 * i + 5) == hex_token(head[i]));
                assert(hex_tokens(buf).subrange(5 * i, 5 * i + 5) =~= hex_tokens(head).subrange(
                    5 * i,
                    5 * i + 5,
                ));
            } else {
                assert(hex_tokens(buf).subrange(5 * i, 5 * i + 5) =~= token);
            }
        }
    }
}

/// A token holds no line break.
pub proof fn lemma_hex_token_unbroken(byte: u8)
    ensures
        without_line_breaks(hex_token(byte)) == hex_token(byte),
{
    let t = hex_token(byte);
    lemma_hex_token_round_trip(byte);
    reveal_with_fuel(without_line_breaks, 6);
    let t4 = t.drop_last();
    let t3 = t4.drop_last();
    let t2 = t3.drop_last();
    let t1 = t2.drop_last();
    let t0 = t1.drop_last();
    assert(t0 =~= Seq::<u8>::empty());
    assert(without_line_breaks(t1) =~= t1);
    assert(without_line_breaks(t2) =~= t2);
    assert(without_line_breaks(t3) =~= t3);
    assert(without_line_breaks(t4) =~= t4);
    assert(without_line_breaks(t) =~= t);
}

/// The lowercase hexadecimal digit for `d`.
pub fn hex_digit(d: u8) -> (c: u8)
    requires
        d < 16,
    ensures
        c == hex_digit_byte(d as nat),
{
    if d < 10 {
        48 + d
    } else {
        87 + d
    }
}

/// The body for the first `n` bytes of `buf` begins the body for all of it.
pub proof fn lemma_hex_body_prefix(buf: Seq<u8>, n: int)
    requires
        0 <= n <= buf.len(),
    ensures
        hex_body(buf.take(n)).is_prefix_of(hex_body(buf)),
    decreases buf.len(),
{
    if n == buf.len() {
        assert(buf.take(n) =~= buf);
    } else {
        lemma_hex_body_prefix(buf.drop_last(), n);
        assert(buf.drop_last().take(n) =~= buf.take(n));
    }
}

/// What the body gains with the byte at `idx`: its token, and a line break
/// where that token is the sixteenth of its line.
pub proof fn lemma_hex_body_step(buf: Seq<u8>, idx: int)
    requires
        0 <= idx < buf.len(),
    ensures
        hex_body(buf.take(idx + 1)) == hex_body(buf.take(idx)) + hex_token(buf[idx]) + (if (idx
            + 1) % 16 == 0 {
            seq![NEW_LINE_BYTE]
        } else {
            Seq::empty()
        }),
{
    let next = buf.take(idx + 1);
    assert(next.drop_last() =~= buf.take(idx));
    assert(next.last() == buf[idx]);
    let tokens = hex_body(buf.take(idx)) + hex_token(buf[idx]);
    assert(tokens.push(NEW_LINE_BYTE) =~= tokens + seq![NEW_LINE_BYTE]);
    assert(tokens =~= tokens + Seq::<u8>::empty());
}

/// Writes `buf` to `writer` as a C array initializer: the opening line, one
/// `0xNN,` token per byte in order, a line break after every sixteenth token,
/// and the closing line. The first failed write ends the call and its
/// failure is returned; what has been written by then is a proper prefix of
/// the text. A sink that is sure to take the whole text makes the call
/// succeed.
pub fn write_header_buffer<W: Sink>(buf: &[u8], writer: &mut W) -> (r: Result<(), W::Error>)
    ensures
        r is Ok ==> final(writer).written() == old(writer).written() + hex_array_text(buf@),
        r is Ok ==> final(writer).last_failure() == old(writer).last_failure(),
        r matches Err(e) ==> final(writer).last_failure() == Some(e),
        r is Err ==> cut_short(
            old(writer).written(),
            final(writer).written(),
            hex_array_text(buf@),
        ),
        keeps_promise(*old(writer), *final(writer), hex_array_text(buf@).len(), r is Ok),
{
    let ghost first = *writer;
    let ghost before = writer.written();
    let ghost full = hex_array_text(buf@);
    let ghost mut done = Seq::<u8>::empty();
    proof {
        assert(before + done =~= before);
        assert((done + START_LINE@).is_prefix_of(full));
    }
    match emit(writer, START_LINE.as_slice(), Ghost(first), Ghost(done), Ghost(full)) {
        Err(e) => {
            return Err(e);
        },
        Ok(()) => {},
    }
    proof {
        done = START_LINE@ + hex_body(buf@.take(0));
        assert(done =~= Seq::<u8>::empty() + START_LINE@);
    }
    let mut idx: usize = 0;
    while idx < buf.len()
        invariant
            idx <= buf.len(),
            first == *old(writer),
            before == first.written(),
            keeps_promise(first, *writer, done.len(), true),
            writer.last_failure() == first.last_failure(),
            full == hex_array_text(buf@),
            done == START_LINE@ + hex_body(buf@.take(idx as int)),
            writer.written() == before + done,
        decreases buf.len() - idx,
    {
        let byte = buf[idx];
        let token: [u8; 5] = [48, 120, hex_digit(byte / 16), hex_digit(byte % 16), 44];
        let ends_line = (idx + 1) % TOKENS_PER_LINE == 0;
        let ghost next = START_LINE@ + hex_body(buf@.take(idx + 1));
        proof {
            lemma_hex_body_step(buf@, idx as int);
            lemma_hex_body_prefix(buf@, idx + 1);
            assert(token@ =~= hex_token(byte));
            assert(next.is_prefix_of(full));
            assert((done + token@).is_prefix_of(next));
            assert((done + token@).is_prefix_of(full));
        }
        match emit(writer, token.as_slice(), Ghost(first), Ghost(done), Ghost(full)) {
            Err(e) => {
                return Err(e);
            },
            Ok(()) => {},
        }
        proof {
            done = done + token@;
        }
        if ends_line {
            let line_break: [u8; 1] = [NEW_LINE_BYTE];
            proof {
                assert(line_break@ =~= seq![NEW_LINE_BYTE]);
                assert(done + line_break@ =~= next);
            }
            match emit(writer, line_break.as_slice(), Ghost(first), Ghost(done), Ghost(full)) {
                Err(e) => {
                    return Err(e);
                },
                Ok(()) => {},
            }
        }
        proof {
            assert(done + (if ends_line { seq![NEW_LINE_BYTE] } else { Seq::empty() }) =~= next);
            done = next;
        }
        idx = idx + 1;
    }
    proof {
        assert(buf@.take(idx as int) =~= buf@);
        assert(done + END_LINE@ =~= full);
    }
    match emit(writer, END_LINE.as_slice(), Ghost(first), Ghost(done), Ghost(full)) {
        Err(e) => Err(e),
        Ok(()) => Ok(()),
    }
}

/// The C array initializer for `buf` as a buffer of its own.
pub fn header_definition(buf: &[u8]) -> (text: Vec<u8>)
    ensures
        text@ == hex_array_text(buf@),
{
    let mut buff: Vec<u8> = Vec::with_capacity(1024 * 1024);
    let ghost empty = buff;
    let r = write_header_buffer(buf, &mut buff);
    assert(r is Ok) by {
        assert(empty.takes(hex_array_text(buf@).len()));
    }
    assert(buff@ =~= hex_array_text(buf@));
    buff
}

} // verus!
