//! What an HTTP/1.1 chunked encoding decodes to: the chunks joined, with
//! the encoding's length, and nothing yet while only part of it is in.
use vstd::prelude::*;
use vstd::utf8::{decode_utf8, encode_utf8, valid_utf8};
use super::http::{chunked_from, crlf_bytes, room};
use crate::text::{
    all_hex, before_first, first_index, first_occurrence_from, hex_value, is_hex_digit_char,
    lemma_first_occurrence_from, occurs_at, parse_hex_usize_spec, trim, trim_end, trim_start,
};

verus! {

/// The size line of the last chunk: `0`.
pub open spec fn last_chunk_size() -> Seq<char> {
    seq!['0']
}

/// A chunked body: for each chunk its size line, CRLF, its data and CRLF;
/// then the last chunk's size line `0`, CRLF, and the empty trailer's CRLF.
pub open spec fn chunked_encoding(sizes: Seq<Seq<char>>, chunks: Seq<Seq<u8>>) -> Seq<u8>
    decreases chunks.len(),
{
    if chunks.len() == 0 || sizes.len() == 0 {
        encode_utf8(last_chunk_size()) + crlf_bytes() + crlf_bytes()
    } else {
        encode_utf8(sizes[0]) + crlf_bytes() + chunks[0] + crlf_bytes() + chunked_encoding(
            sizes.drop_first(),
            chunks.drop_first(),
        )
    }
}

/// The chunks' data, one after another.
pub open spec fn chunks_joined(chunks: Seq<Seq<u8>>) -> Seq<u8>
    decreases chunks.len(),
{
    if chunks.len() == 0 {
        Seq::empty()
    } else {
        chunks[0] + chunks_joined(chunks.drop_first())
    }
}

/// One size line per chunk; each chunk holds data, and its size line is a
/// run of hex digits (either case, leading zeros allowed, as `{:x}` writes
/// one) whose value is the chunk's length.
pub open spec fn valid_chunk_sizes(sizes: Seq<Seq<char>>, chunks: Seq<Seq<u8>>) -> bool {
    &&& sizes.len() == chunks.len()
    &&& forall|i: int| 0 <= i < chunks.len() ==> #[trigger] chunks[i].len() > 0 && sizes[i].len() > 0
        && all_hex(sizes[i]) && hex_value(sizes[i]) == chunks[i].len()
}

/// Hex digits are one byte each in UTF-8, none of them a carriage return.
proof fn lemma_hex_text_bytes(line: Seq<char>)
    requires
        all_hex(line),
    ensures
        encode_utf8(line).len() == line.len(),
        forall|i: int| 0 <= i < line.len() ==> #[trigger] encode_utf8(line)[i] != 13u8,
    decreases line.len(),
{
    if line.len() > 0 {
        let rest = line.drop_first();
        assert(all_hex(rest)) by {
            assert forall|i: int| 0 <= i < rest.len() implies is_hex_digit_char(#[trigger] rest[i]) by {
                assert(rest[i] == line[i + 1]);
            }
        }
        lemma_hex_text_bytes(rest);
        assert(is_hex_digit_char(line[0]));
        let s = line[0] as u32;
        assert(s <= 0x7f);
        assert(s != 13);
        assert((s & 0x7f) as u8 == s as u8) by (bit_vector)
            requires
                s <= 0x7f,
        ;
        let first = encode_utf8(seq![line[0]]);
        assert(encode_utf8(line) == vstd::utf8::encode_scalar(s) + encode_utf8(rest));
        assert(vstd::utf8::encode_scalar(s) == seq![(s & 0x7f) as u8]);
        assert forall|i: int| 0 <= i < line.len() implies #[trigger] encode_utf8(line)[i] != 13u8 by {
            if i > 0 {
                assert(encode_utf8(line)[i] == encode_utf8(rest)[i - 1]);
            }
        }
    }
}

/// A size line followed by CRLF at `o`: the first CRLF from `o` ends it.
proof fn lemma_size_line_found(b: Seq<u8>, o: int, line: Seq<char>)
    requires
        all_hex(line),
        0 <= o,
        o + line.len() + 2 <= b.len(),
        forall|j: int| o <= j < o + line.len() ==> #[trigger] b[j] == encode_utf8(line)[j - o],
        b[o + line.len()] == 13u8,
        b[o + line.len() + 1] == 10u8,
    ensures
        first_occurrence_from(b, crlf_bytes(), o) == Some(o + line.len()),
{
    lemma_hex_text_bytes(line);
    lemma_first_occurrence_from(b, crlf_bytes(), o);
    let e = o + line.len();
    assert(occurs_at(b, crlf_bytes(), e)) by {
        assert(b.subrange(e, e + 2) =~= crlf_bytes());
    }
    assert forall|j: int| o <= j < e implies !#[trigger] occurs_at(b, crlf_bytes(), j) by {
        if occurs_at(b, crlf_bytes(), j) {
            assert(b.subrange(j, j + 2)[0] == b[j]);
            assert(b[j] == encode_utf8(line)[j - o]);
        }
    }
}

/// Only part of a size line and its CR at `o`: no CRLF from `o`.
proof fn lemma_size_line_missing(b: Seq<u8>, o: int, line: Seq<char>)
    requires
        all_hex(line),
        0 <= o,
        b.len() <= o + line.len() + 1,
        forall|j: int| o <= j < b.len() && j < o + line.len() ==> #[trigger] b[j] == encode_utf8(line)[j - o],
    ensures
        first_occurrence_from(b, crlf_bytes(), o) is None,
{
    lemma_hex_text_bytes(line);
    lemma_first_occurrence_from(b, crlf_bytes(), o);
    assert forall|j: int| o <= j implies !#[trigger] occurs_at(b, crlf_bytes(), j) by {
        if occurs_at(b, crlf_bytes(), j) {
            assert(b.subrange(j, j + 2)[0] == b[j]);
            assert(b[j] == encode_utf8(line)[j - o]);
        }
    }
}

/// The relay reads a size line back as its value.
proof fn lemma_size_line_parses(line: Seq<char>)
    requires
        line.len() > 0,
        all_hex(line),
        hex_value(line) <= usize::MAX,
    ensures
        valid_utf8(encode_utf8(line)),
        parse_hex_usize_spec(trim(before_first(decode_utf8(encode_utf8(line)), ';'))) == Some(
            hex_value(line) as usize,
        ),
{
    vstd::utf8::encode_utf8_valid_utf8(line);
    vstd::utf8::encode_utf8_decode_utf8(line);
    assert(!is_hex_digit_char(';'));
    assert(!(exists|i: int| 0 <= i < line.len() && line[i] == ';')) by {
        assert forall|i: int| 0 <= i < line.len() implies line[i] != ';' by {
            assert(is_hex_digit_char(line[i]));
        }
    }
    assert(first_index(line, ';') is None);
    assert(before_first(line, ';') == line);
    assert(is_hex_digit_char(line[0]));
    assert(is_hex_digit_char(line.last()));
    assert(trim_start(line) == line);
    assert(trim_end(line) == line);
    assert(trim(line) == line);
}

proof fn lemma_joined_len(chunks: Seq<Seq<u8>>)
    ensures
        chunks.len() > 0 ==> chunks_joined(chunks).len() >= chunks[0].len(),
{
}

proof fn lemma_valid_rest(sizes: Seq<Seq<char>>, chunks: Seq<Seq<u8>>)
    requires
        valid_chunk_sizes(sizes, chunks),
        chunks.len() > 0,
    ensures
        valid_chunk_sizes(sizes.drop_first(), chunks.drop_first()),
        chunks[0].len() > 0,
        sizes[0].len() > 0,
        all_hex(sizes[0]),
        hex_value(sizes[0]) == chunks[0].len(),
{
    assert(chunks[0].len() > 0);
    let (s, c) = (sizes.drop_first(), chunks.drop_first());
    assert forall|i: int| 0 <= i < c.len() implies #[trigger] c[i].len() > 0 && s[i].len() > 0 && all_hex(s[i])
        && hex_value(s[i]) == c[i].len() by {
        assert(c[i] == chunks[i + 1] && s[i] == sizes[i + 1]);
        assert(chunks[i + 1].len() > 0);
    }
}

proof fn lemma_hex_zero()
    ensures
        all_hex(last_chunk_size()),
        hex_value(last_chunk_size()) == 0,
        last_chunk_size().len() == 1,
{
    let z = last_chunk_size();
    assert(z.drop_last() =~= Seq::<char>::empty());
    assert(hex_value(Seq::<char>::empty()) == 0);
    assert(z.last() == '0');
    assert(crate::text::hex_digit_value('0') == 0);
    assert(hex_value(z) == hex_value(z.drop_last()) * 16 + crate::text::hex_digit_value(z.last()));
}

/// A whole encoding at `o` decodes to the chunks and ends where it ends.
proof fn lemma_round_trip_from(
    b: Seq<u8>,
    o: int,
    decoded: Seq<u8>,
    sizes: Seq<Seq<char>>,
    chunks: Seq<Seq<u8>>,
    max: usize,
)
    requires
        valid_chunk_sizes(sizes, chunks),
        0 <= o,
        o + chunked_encoding(sizes, chunks).len() <= b.len(),
        forall|j: int| o <= j < o + chunked_encoding(sizes, chunks).len() ==> #[trigger] b[j]
            == chunked_encoding(sizes, chunks)[j - o],
        decoded.len() + chunks_joined(chunks).len() <= max,
    ensures
        chunked_from(b, o, decoded, max) == Ok::<Option<(Seq<u8>, int)>, super::CaptureError>(
            Some((decoded + chunks_joined(chunks), o + chunked_encoding(sizes, chunks).len())),
        ),
    decreases chunks.len(),
{
    let enc = chunked_encoding(sizes, chunks);
    if chunks.len() == 0 {
        let zero = last_chunk_size();
        lemma_hex_zero();
        lemma_hex_text_bytes(zero);
        assert(enc.len() == 5);
        assert forall|j: int| o <= j < o + zero.len() implies #[trigger] b[j] == encode_utf8(zero)[j - o] by {
            assert(enc[j - o] == encode_utf8(zero)[j - o]);
        }
        assert(b[o + 1] == enc[1] && b[o + 2] == enc[2] && b[o + 3] == enc[3] && b[o + 4] == enc[4]);
        lemma_size_line_found(b, o, zero);
        assert(b.subrange(o, o + 1) =~= encode_utf8(zero));
        lemma_size_line_parses(zero);
        assert(encode_utf8(Seq::<char>::empty()) =~= Seq::<u8>::empty());
        lemma_size_line_found(b, o + 3, Seq::<char>::empty());
        assert(chunks_joined(chunks) =~= Seq::<u8>::empty());
        assert(decoded + chunks_joined(chunks) =~= decoded);
    } else {
        lemma_valid_rest(sizes, chunks);
        let line = sizes[0];
        let c = chunks[0];
        let n = c.len() as int;
        let l = line.len() as int;
        let rest_enc = chunked_encoding(sizes.drop_first(), chunks.drop_first());
        lemma_hex_text_bytes(line);
        lemma_joined_len(chunks);
        assert(enc == encode_utf8(line) + crlf_bytes() + c + crlf_bytes() + rest_enc);
        assert forall|j: int| o <= j < o + l implies #[trigger] b[j] == encode_utf8(line)[j - o] by {
            assert(enc[j - o] == encode_utf8(line)[j - o]);
        }
        assert(b[o + l] == enc[l] && b[o + l + 1] == enc[l + 1]);
        lemma_size_line_found(b, o, line);
        assert(b.subrange(o, o + l) =~= encode_utf8(line));
        lemma_size_line_parses(line);
        let data = o + l + 2;
        assert(room(max, decoded.len() as int) >= n);
        assert(b.subrange(data, data + n) =~= c) by {
            assert forall|k: int| 0 <= k < n implies b.subrange(data, data + n)[k] == c[k] by {
                assert(b[data + k] == enc[l + 2 + k]);
            }
        }
        assert(b.subrange(data + n, data + n + 2) =~= crlf_bytes()) by {
            assert(b[data + n] == enc[l + 2 + n]);
            assert(b[data + n + 1] == enc[l + 2 + n + 1]);
        }
        let o2 = data + n + 2;
        assert forall|j: int| o2 <= j < o2 + rest_enc.len() implies #[trigger] b[j] == rest_enc[j - o2] by {
            assert(b[j] == enc[j - o]);
            assert(enc[j - o] == rest_enc[j - o2]);
        }
        lemma_round_trip_from(b, o2, decoded + c, sizes.drop_first(), chunks.drop_first(), max);
        assert(decoded + c + chunks_joined(chunks.drop_first()) =~= decoded + chunks_joined(chunks));
    }
}

/// Part of the last chunk and trailer at `o`: nothing decoded yet.
proof fn lemma_prefix_of_last_chunk(b: Seq<u8>, o: int, decoded: Seq<u8>, max: usize)
    requires
        0 <= o <= b.len(),
        b.len() < o + chunked_encoding(Seq::empty(), Seq::empty()).len(),
        forall|j: int| o <= j < b.len() ==> #[trigger] b[j] == chunked_encoding(Seq::empty(), Seq::empty())[j - o],
    ensures
        chunked_from(b, o, decoded, max) == Ok::<Option<(Seq<u8>, int)>, super::CaptureError>(None),
{
    let enc = chunked_encoding(Seq::<Seq<char>>::empty(), Seq::<Seq<u8>>::empty());
    let zero = last_chunk_size();
    lemma_hex_zero();
    lemma_hex_text_bytes(zero);
    assert(enc.len() == 5);
    assert forall|j: int| o <= j < b.len() && j < o + zero.len() implies #[trigger] b[j] == encode_utf8(zero)[j - o] by {
        assert(enc[j - o] == encode_utf8(zero)[j - o]);
    }
    if b.len() <= o + 2 {
        lemma_size_line_missing(b, o, zero);
    } else {
        assert forall|j: int| o <= j < o + zero.len() implies #[trigger] b[j] == encode_utf8(zero)[j - o] by {
            assert(enc[j - o] == encode_utf8(zero)[j - o]);
        }
        assert(b[o + 1] == enc[1] && b[o + 2] == enc[2]);
        lemma_size_line_found(b, o, zero);
        assert(b.subrange(o, o + 1) =~= encode_utf8(zero));
        lemma_size_line_parses(zero);
        assert(encode_utf8(Seq::<char>::empty()) =~= Seq::<u8>::empty());
        lemma_size_line_missing(b, o + 3, Seq::<char>::empty());
    }
}

/// Part of an encoding at `o`, cut short anywhere: nothing decoded yet and
/// no error.
#[verifier::rlimit(40)]
proof fn lemma_prefix_from(
    b: Seq<u8>,
    o: int,
    decoded: Seq<u8>,
    sizes: Seq<Seq<char>>,
    chunks: Seq<Seq<u8>>,
    max: usize,
)
    requires
        valid_chunk_sizes(sizes, chunks),
        0 <= o <= b.len(),
        b.len() < o + chunked_encoding(sizes, chunks).len(),
        forall|j: int| o <= j < b.len() ==> #[trigger] b[j] == chunked_encoding(sizes, chunks)[j - o],
        decoded.len() + chunks_joined(chunks).len() <= max,
    ensures
        chunked_from(b, o, decoded, max) == Ok::<Option<(Seq<u8>, int)>, super::CaptureError>(None),
    decreases chunks.len(),
{
    let enc = chunked_encoding(sizes, chunks);
    if chunks.len() == 0 {
        assert(enc == chunked_encoding(Seq::<Seq<char>>::empty(), Seq::<Seq<u8>>::empty()));
        lemma_prefix_of_last_chunk(b, o, decoded, max);
    } else {
        lemma_valid_rest(sizes, chunks);
        let line = sizes[0];
        let c = chunks[0];
        let n = c.len() as int;
        let l = line.len() as int;
        let rest_enc = chunked_encoding(sizes.drop_first(), chunks.drop_first());
        lemma_hex_text_bytes(line);
        lemma_joined_len(chunks);
        assert(enc == encode_utf8(line) + crlf_bytes() + c + crlf_bytes() + rest_enc);
        assert forall|j: int| o <= j < b.len() && j < o + l implies #[trigger] b[j] == encode_utf8(line)[j - o] by {
            assert(enc[j - o] == encode_utf8(line)[j - o]);
        }
        if b.len() <= o + l + 1 {
            lemma_size_line_missing(b, o, line);
        } else {
            assert forall|j: int| o <= j < o + l implies #[trigger] b[j] == encode_utf8(line)[j - o] by {
                assert(enc[j - o] == encode_utf8(line)[j - o]);
            }
            assert(b[o + l] == enc[l] && b[o + l + 1] == enc[l + 1]);
            lemma_size_line_found(b, o, line);
            assert(b.subrange(o, o + l) =~= encode_utf8(line));
            lemma_size_line_parses(line);
            let data = o + l + 2;
            assert(room(max, decoded.len() as int) >= n);
            if b.len() >= data + n + 2 {
                assert(b.subrange(data, data + n) =~= c) by {
                    assert forall|k: int| 0 <= k < n implies b.subrange(data, data + n)[k] == c[k] by {
                        assert(b[data + k] == enc[l + 2 + k]);
                    }
                }
                assert(b.subrange(data + n, data + n + 2) =~= crlf_bytes()) by {
                    assert(b[data + n] == enc[l + 2 + n]);
                    assert(b[data + n + 1] == enc[l + 2 + n + 1]);
                }
                let o2 = data + n + 2;
                assert forall|j: int| o2 <= j < b.len() implies #[trigger] b[j] == rest_enc[j - o2] by {
                    assert(b[j] == enc[j - o]);
                    assert(enc[j - o] == rest_enc[j - o2]);
                }
                lemma_prefix_from(b, o2, decoded + c, sizes.drop_first(), chunks.drop_first(), max);
            }
        }
    }
}

/// A chunked encoding of chunks that fit the limit decodes to the chunks
/// joined, with the encoding's length, whatever follows it; and every
/// proper prefix of it decodes to `Ok(None)`: an incomplete body is never
/// an error.
pub proof fn lemma_chunked_encoding_decodes(
    sizes: Seq<Seq<char>>,
    chunks: Seq<Seq<u8>>,
    rest: Seq<u8>,
    max: usize,
)
    requires
        valid_chunk_sizes(sizes, chunks),
        chunks_joined(chunks).len() <= max,
    ensures
        chunked_from(chunked_encoding(sizes, chunks) + rest, 0, Seq::empty(), max) == Ok::<
            Option<(Seq<u8>, int)>,
            super::CaptureError,
        >(Some((chunks_joined(chunks), chunked_encoding(sizes, chunks).len() as int))),
        forall|n: int| 0 <= n < chunked_encoding(sizes, chunks).len() ==> chunked_from(
            #[trigger] chunked_encoding(sizes, chunks).take(n),
            0,
            Seq::empty(),
            max,
        ) == Ok::<Option<(Seq<u8>, int)>, super::CaptureError>(None),
{
    let enc = chunked_encoding(sizes, chunks);
    let b = enc + rest;
    assert forall|j: int| 0 <= j < enc.len() implies #[trigger] b[j] == enc[j - 0] by {}
    lemma_round_trip_from(b, 0, Seq::empty(), sizes, chunks, max);
    assert(Seq::<u8>::empty() + chunks_joined(chunks) =~= chunks_joined(chunks));
    assert forall|n: int| 0 <= n < enc.len() implies chunked_from(#[trigger] enc.take(n), 0, Seq::empty(), max)
        == Ok::<Option<(Seq<u8>, int)>, super::CaptureError>(None) by {
        let p = enc.take(n);
        assert forall|j: int| 0 <= j < p.len() implies #[trigger] p[j] == enc[j - 0] by {}
        lemma_prefix_from(p, 0, Seq::empty(), sizes, chunks, max);
    }
}

/// The lowercase hexadecimal digits, by value.
pub open spec fn lower_hex_digits() -> Seq<char> {
    "0123456789abcdef"@
}

/// `n` written in lowercase hexadecimal with no leading zeros, as
/// `format!("{:x}", n)` writes it.
pub open spec fn lower_hex_text(n: nat) -> Seq<char>
    decreases n,
{
    if n < 16 {
        seq![lower_hex_digits()[n as int]]
    } else {
        lower_hex_text(n / 16).push(lower_hex_digits()[(n % 16) as int])
    }
}

proof fn lemma_lower_hex_digit(d: int)
    requires
        0 <= d < 16,
    ensures
        is_hex_digit_char(lower_hex_digits()[d]),
        crate::text::hex_digit_value(lower_hex_digits()[d]) == d,
{
    reveal_strlit("0123456789abcdef");
}

proof fn lemma_lower_hex_text(n: nat)
    ensures
        lower_hex_text(n).len() > 0,
        all_hex(lower_hex_text(n)),
        hex_value(lower_hex_text(n)) == n,
    decreases n,
{
    let s = lower_hex_text(n);
    if n < 16 {
        lemma_lower_hex_digit(n as int);
        assert(s.drop_last() =~= Seq::<char>::empty());
        assert(hex_value(Seq::<char>::empty()) == 0);
    } else {
        lemma_lower_hex_text(n / 16);
        lemma_lower_hex_digit((n % 16) as int);
        let t = lower_hex_text(n / 16);
        assert(s.drop_last() =~= t);
        assert(s.last() == lower_hex_digits()[(n % 16) as int]);
        assert(n == (n / 16) * 16 + n % 16);
        assert forall|i: int| 0 <= i < s.len() implies is_hex_digit_char(#[trigger] s[i]) by {
            if i < t.len() {
                assert(s[i] == t[i]);
            }
        }
    }
}

/// The size lines `format!("{:x}", len)` of the chunks.
pub open spec fn lower_hex_sizes(chunks: Seq<Seq<u8>>) -> Seq<Seq<char>> {
    Seq::new(chunks.len(), |i: int| lower_hex_text(chunks[i].len()))
}

/// A body written with `{:x}` size lines, as HTTP senders write it: for
/// non-empty chunks whose total fits the limit, the encoding decodes to the
/// chunks joined and its own length whatever follows it, and every proper
/// prefix of it decodes to `Ok(None)`.
pub proof fn lemma_lower_hex_chunked_decodes(chunks: Seq<Seq<u8>>, rest: Seq<u8>, max: usize)
    requires
        forall|i: int| 0 <= i < chunks.len() ==> #[trigger] chunks[i].len() > 0,
        chunks_joined(chunks).len() <= max,
    ensures
        chunked_from(chunked_encoding(lower_hex_sizes(chunks), chunks) + rest, 0, Seq::empty(), max) == Ok::<
            Option<(Seq<u8>, int)>,
            super::CaptureError,
        >(Some((chunks_joined(chunks), chunked_encoding(lower_hex_sizes(chunks), chunks).len() as int))),
        forall|n: int| 0 <= n < chunked_encoding(lower_hex_sizes(chunks), chunks).len() ==> chunked_from(
            #[trigger] chunked_encoding(lower_hex_sizes(chunks), chunks).take(n),
            0,
            Seq::empty(),
            max,
        ) == Ok::<Option<(Seq<u8>, int)>, super::CaptureError>(None),
{
    let sizes = lower_hex_sizes(chunks);
    assert forall|i: int| 0 <= i < chunks.len() implies #[trigger] chunks[i].len() > 0 && sizes[i].len() > 0
        && all_hex(sizes[i]) && hex_value(sizes[i]) == chunks[i].len() by {
        lemma_lower_hex_text(chunks[i].len());
    }
    lemma_chunked_encoding_decodes(sizes, chunks, rest, max);
}

} // verus!
