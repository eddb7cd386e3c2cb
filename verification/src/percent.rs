//! Percent-encoding of text in URLs and header values.
use vstd::prelude::*;
use vstd::utf8::{decode_utf8, encode_utf8, is_ascii_chars, is_ascii_chars_encode_utf8, valid_utf8};

use crate::offsets::lemma_encode_add;

verus! {

/// The upper-case hexadecimal digit `d`.
pub open spec fn hex_digit(d: u8) -> char {
    if d < 10 {
        (0x30 + d) as u8 as char
    } else {
        (0x41 + d - 10) as u8 as char
    }
}

/// Whether the byte `b` is a hexadecimal digit in ASCII.
pub open spec fn is_hex(b: u8) -> bool {
    0x30 <= b <= 0x39 || 0x41 <= b <= 0x46 || 0x61 <= b <= 0x66
}

/// The number that the hexadecimal digit `b` stands for.
pub open spec fn hex_value(b: u8) -> int {
    if b <= 0x39 {
        b - 0x30
    } else if b <= 0x46 {
        b - 0x41 + 10
    } else {
        b - 0x61 + 10
    }
}

/// A byte in encoded form: `%` and two digits.
pub open spec fn percent_byte(b: u8) -> Seq<char> {
    seq!['%', hex_digit(b / 16), hex_digit(b % 16)]
}

/// `percent_encoding::percent_encode_byte` gives `%` and the byte's two
/// hexadecimal digits, in upper case.
pub assume_specification[ percent_encoding::percent_encode_byte ](byte: u8) -> (r: &'static str)
    ensures
        r@ == percent_byte(byte),
;

/// Where an encoded text is to stand, which decides the bytes that stay as they
/// are. Bytes outside ASCII and control characters never do.
#[derive(Clone, Copy)]
pub enum Place {
    /// A header value: every other character stays but `%` itself.
    Header,
    /// A query value that holds a relative URL reference: letters, digits, `-`,
    /// `.`, `_`, `~` and `/` stay, and so does `%`, which already begins an
    /// encoded byte there.
    Query,
}

/// Whether the byte `b` stays as it is.
pub open spec fn kept(place: Place, b: u8) -> bool {
    match place {
        Place::Header => 0x20 <= b <= 0x7E && b != 0x25,
        Place::Query => (0x30 <= b <= 0x39) || (0x41 <= b <= 0x5A) || (0x61 <= b <= 0x7A) || b
            == 0x2D || b == 0x2E || b == 0x5F || b == 0x7E || b == 0x2F || b == 0x25,
    }
}

/// `bytes` in encoded form.
pub open spec fn percent_encoded(bytes: Seq<u8>, place: Place) -> Seq<char>
    decreases bytes.len(),
{
    if bytes.len() == 0 {
        seq![]
    } else {
        let b = bytes.last();
        percent_encoded(bytes.drop_last(), place) + if kept(place, b) {
            seq![b as char]
        } else {
            percent_byte(b)
        }
    }
}

/// The UTF-8 form of `s` in encoded form.
pub fn percent_encode(s: &str, place: Place) -> (r: String)
    ensures
        r@ == percent_encoded(encode_utf8(s@), place),
{
    let bytes = s.as_bytes();
    let mut out = String::new();
    let mut i: usize = 0;
    while i < bytes.len()
        invariant
            bytes@ == encode_utf8(s@),
            i <= bytes@.len(),
            out@ == percent_encoded(bytes@.take(i as int), place),
        decreases bytes@.len() - i,
    {
        let b: u8 = bytes[i];
        let keep: bool = match place {
            Place::Header => 0x20 <= b && b <= 0x7E && b != 0x25,
            Place::Query => (0x30 <= b && b <= 0x39) || (0x41 <= b && b <= 0x5A) || (0x61 <= b && b
                <= 0x7A) || b == 0x2D || b == 0x2E || b == 0x5F || b == 0x7E || b == 0x2F || b
                == 0x25,
        };
        assert(bytes@.take(i + 1).drop_last() =~= bytes@.take(i as int));
        if keep {
            out.push(b as char);
        } else {
            out.append(percent_encoding::percent_encode_byte(b));
        }
        i = i + 1;
        assert(out@ =~= percent_encoded(bytes@.take(i as int), place));
    }
    assert(bytes@.take(i as int) =~= bytes@);
    out
}

/// `bytes` with each `%` and two hexadecimal digits replaced by the byte that
/// they stand for.
pub open spec fn percent_decoded(bytes: Seq<u8>) -> Seq<u8>
    decreases bytes.len(),
{
    if bytes.len() == 0 {
        seq![]
    } else if bytes[0] == 0x25 && bytes.len() >= 3 && is_hex(bytes[1]) && is_hex(bytes[2]) {
        seq![(hex_value(bytes[1]) * 16 + hex_value(bytes[2])) as u8] + percent_decoded(
            bytes.skip(3),
        )
    } else {
        seq![bytes[0]] + percent_decoded(bytes.skip(1))
    }
}

/// `percent_encoding::percent_decode_str`, read as UTF-8: the decoded bytes as
/// text, or nothing where they are no UTF-8.
#[verifier::external_body]
pub(crate) fn percent_decode(s: &str) -> (r: Option<String>)
    ensures
        match r {
            Some(t) => valid_utf8(percent_decoded(encode_utf8(s@))) && t@ == decode_utf8(
                percent_decoded(encode_utf8(s@)),
            ),
            None => !valid_utf8(percent_decoded(encode_utf8(s@))),
        },
{
    percent_encoding::percent_decode_str(s).decode_utf8().ok().map(|t| t.into_owned())
}

// ---------------------------------------------------------------------------
// Laws
// ---------------------------------------------------------------------------

/// What stands for the byte `b`.
pub open spec fn encoded_byte(b: u8, place: Place) -> Seq<char> {
    if kept(place, b) {
        seq![b as char]
    } else {
        percent_byte(b)
    }
}

/// Encoded text begins with what stands for the first byte.
proof fn lemma_encoded_front(bytes: Seq<u8>, place: Place)
    requires
        bytes.len() > 0,
    ensures
        percent_encoded(bytes, place) == encoded_byte(bytes[0], place) + percent_encoded(
            bytes.drop_first(),
            place,
        ),
    decreases bytes.len(),
{
    if bytes.len() == 1 {
        assert(bytes.drop_last() =~= seq![]);
        assert(bytes.drop_first() =~= seq![]);
        assert(percent_encoded(bytes.drop_last(), place) =~= seq![]);
        assert(bytes.last() == bytes[0]);
        assert(percent_encoded(bytes, place) =~= encoded_byte(bytes[0], place));
        assert(encoded_byte(bytes[0], place) + percent_encoded(bytes.drop_first(), place)
            =~= encoded_byte(bytes[0], place));
    } else {
        let shorter = bytes.drop_last();
        lemma_encoded_front(shorter, place);
        assert(shorter.drop_first() =~= bytes.drop_first().drop_last());
        assert(bytes.drop_first().last() == bytes.last());
        assert(percent_encoded(bytes, place) =~= encoded_byte(bytes[0], place) + percent_encoded(
            bytes.drop_first(),
            place,
        ));
    }
}

/// What stands for a byte is decoded to that byte.
proof fn lemma_byte_comes_back(b: u8, place: Place, rest: Seq<u8>)
    requires
        !(kept(place, b) && b == 0x25),
    ensures
        percent_decoded(encode_utf8(encoded_byte(b, place)) + rest) == seq![b] + percent_decoded(
            rest,
        ),
{
    let piece = encoded_byte(b, place);
    assert(is_ascii_chars(piece));
    is_ascii_chars_encode_utf8(piece);
    let bytes = encode_utf8(piece);
    assert(bytes =~= Seq::new(piece.len(), |i: int| piece[i] as u8));
    let all = bytes + rest;
    if kept(place, b) {
        assert(all[0] == b);
        assert(all.skip(1) =~= rest);
    } else {
        let hi = b / 16;
        let lo = b % 16;
        assert(all[0] == 0x25);
        assert(all[1] == hex_digit(hi) as u8);
        assert(all[2] == hex_digit(lo) as u8);
        assert(is_hex(all[1]) && hex_value(all[1]) == hi);
        assert(is_hex(all[2]) && hex_value(all[2]) == lo);
        assert(all.skip(3) =~= rest);
    }
}

/// Decoding undoes encoding, where `%` itself is encoded or does not occur.
pub proof fn law_decoding_undoes_encoding(bytes: Seq<u8>, place: Place)
    requires
        place == Place::Query ==> !bytes.contains(0x25),
    ensures
        percent_decoded(encode_utf8(percent_encoded(bytes, place))) == bytes,
    decreases bytes.len(),
{
    if bytes.len() == 0 {
        assert(percent_encoded(bytes, place) =~= seq![]);
        assert(encode_utf8(percent_encoded(bytes, place)) =~= seq![]);
        assert(percent_decoded(encode_utf8(percent_encoded(bytes, place))) =~= bytes);
    } else {
        let rest = bytes.drop_first();
        assert(!bytes.contains(0x25) ==> bytes[0] != 0x25);
        assert(!bytes.contains(0x25) ==> !rest.contains(0x25)) by {
            if rest.contains(0x25) {
                let i = rest.index_of(0x25);
                assert(bytes[i + 1] == 0x25);
            }
        }
        law_decoding_undoes_encoding(rest, place);
        lemma_encoded_front(bytes, place);
        lemma_encode_add(encoded_byte(bytes[0], place), percent_encoded(rest, place));
        lemma_byte_comes_back(
            bytes[0],
            place,
            encode_utf8(percent_encoded(rest, place)),
        );
        assert(seq![bytes[0]] + rest =~= bytes);
    }
}

/// The bytes of encoded text begin with those of what stands for the first byte.
proof fn lemma_encoded_bytes_front(bytes: Seq<u8>)
    requires
        bytes.len() > 0,
    ensures
        ({
            let all = encode_utf8(percent_encoded(bytes, Place::Query));
            let rest = encode_utf8(percent_encoded(bytes.drop_first(), Place::Query));
            &&& all.len() > 0
            &&& all[0] == if kept(Place::Query, bytes[0]) {
                bytes[0]
            } else {
                0x25
            }
            &&& kept(Place::Query, bytes[0]) ==> all == seq![bytes[0]] + rest
            &&& all == encode_utf8(encoded_byte(bytes[0], Place::Query)) + rest
        }),
{
    let piece = encoded_byte(bytes[0], Place::Query);
    lemma_encoded_front(bytes, Place::Query);
    lemma_encode_add(piece, percent_encoded(bytes.drop_first(), Place::Query));
    assert(is_ascii_chars(piece));
    is_ascii_chars_encode_utf8(piece);
    assert(encode_utf8(piece) =~= Seq::new(piece.len(), |i: int| piece[i] as u8));
    if kept(Place::Query, bytes[0]) {
        assert(encode_utf8(piece) =~= seq![bytes[0]]);
    }
}

/// A reference that is encoded for a query means what it meant: it is decoded to
/// what it would have been decoded to before.
pub proof fn law_encoding_keeps_the_meaning(bytes: Seq<u8>)
    ensures
        percent_decoded(encode_utf8(percent_encoded(bytes, Place::Query))) == percent_decoded(
            bytes,
        ),
    decreases bytes.len(),
{
    let all = encode_utf8(percent_encoded(bytes, Place::Query));
    if bytes.len() == 0 {
        assert(percent_encoded(bytes, Place::Query) =~= seq![]);
        assert(all =~= seq![]);
    } else {
        let rest = bytes.drop_first();
        let tail = encode_utf8(percent_encoded(rest, Place::Query));
        lemma_encoded_bytes_front(bytes);
        assert(bytes.skip(1) =~= rest);
        if bytes[0] != 0x25 {
            law_encoding_keeps_the_meaning(rest);
            lemma_byte_comes_back(bytes[0], Place::Query, tail);
        } else {
            if rest.len() == 0 {
                assert(percent_encoded(rest, Place::Query) =~= seq![]);
                assert(tail =~= seq![]);
            } else {
                lemma_encoded_bytes_front(rest);
                assert(all[1] == tail[0]);
                let rest2 = rest.drop_first();
                let tail2 = encode_utf8(percent_encoded(rest2, Place::Query));
                if rest2.len() == 0 {
                    assert(percent_encoded(rest2, Place::Query) =~= seq![]);
                    assert(tail2 =~= seq![]);
                } else {
                    lemma_encoded_bytes_front(rest2);
                    if is_hex(bytes[1]) {
                        assert(all[2] == tail[1]);
                        assert(tail[1] == tail2[0]);
                        if is_hex(bytes[2]) {
                            let tail3 = encode_utf8(
                                percent_encoded(rest2.drop_first(), Place::Query),
                            );
                            assert(rest2.drop_first() =~= bytes.skip(3));
                            assert(all.skip(3) =~= tail3);
                            law_encoding_keeps_the_meaning(bytes.skip(3));
                        }
                    }
                }
            }
            assert(all.skip(1) =~= tail);
            law_encoding_keeps_the_meaning(rest);
        }
    }
}

/// Without a `%` there is nothing to decode.
pub proof fn lemma_nothing_to_decode(bytes: Seq<u8>)
    requires
        !bytes.contains(0x25),
    ensures
        percent_decoded(bytes) == bytes,
    decreases bytes.len(),
{
    if bytes.len() > 0 {
        let rest = bytes.skip(1);
        assert(bytes[0] != 0x25);
        assert(!rest.contains(0x25)) by {
            if rest.contains(0x25) {
                let i = rest.index_of(0x25);
                assert(bytes[i + 1] == 0x25);
            }
        }
        lemma_nothing_to_decode(rest);
        assert(seq![bytes[0]] + rest =~= bytes);
    }
}

/// Encoded text holds no character that parts the pieces of a query.
pub proof fn lemma_encoded_has_no(bytes: Seq<u8>, c: char)
    requires
        c == '&' || c == '=' || c == '?',
    ensures
        !percent_encoded(bytes, Place::Query).contains(c),
    decreases bytes.len(),
{
    if bytes.len() > 0 {
        lemma_encoded_has_no(bytes.drop_last(), c);
        let before = percent_encoded(bytes.drop_last(), Place::Query);
        let piece = encoded_byte(bytes.last(), Place::Query);
        let all = percent_encoded(bytes, Place::Query);
        assert(all == before + piece);
        assert forall|i: int| 0 <= i < all.len() implies all[i] != c by {
            if i < before.len() {
                assert(all[i] == before[i]);
            } else {
                assert(all[i] == piece[i - before.len()]);
            }
        }
    }
}

/// Bytes that need no encoding stay as they are: in a header all that are printed in
/// ASCII but `%`, in a query letters, digits and `-._~/%`.
pub proof fn law_plain_bytes_are_not_encoded(bytes: Seq<u8>, place: Place)
    requires
        forall|i: int|
            0 <= i < bytes.len() ==> match place {
                Place::Header => 0x20 <= #[trigger] bytes[i] && bytes[i] <= 0x7E && bytes[i]
                    != 0x25,
                Place::Query => (0x30 <= bytes[i] && bytes[i] <= 0x39) || (0x41 <= bytes[i]
                    && bytes[i] <= 0x5A) || (0x61 <= bytes[i] && bytes[i] <= 0x7A) || bytes[i]
                    == 0x2D || bytes[i] == 0x2E || bytes[i] == 0x5F || bytes[i] == 0x7E || bytes[i]
                    == 0x2F || bytes[i] == 0x25,
            },
    ensures
        percent_encoded(bytes, place) == bytes.map_values(|b: u8| b as char),
    decreases bytes.len(),
{
    let f = |b: u8| b as char;
    if bytes.len() == 0 {
        assert(percent_encoded(bytes, place) =~= bytes.map_values(f));
    } else {
        let front = bytes.drop_last();
        assert forall|i: int| 0 <= i < front.len() implies front[i] == #[trigger] bytes[i] by {}
        law_plain_bytes_are_not_encoded(front, place);
        assert(bytes[bytes.len() - 1] == bytes.last());
        assert(bytes.map_values(f) =~= front.map_values(f).push(f(bytes.last())));
        assert(percent_encoded(bytes, place) =~= bytes.map_values(f));
    }
}

} // verus!
