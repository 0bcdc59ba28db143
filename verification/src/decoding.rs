//! Decoding of the bytes of a reply into text.
//!
//! Each word of a reply is decoded as UTF-8; a word that begins with `=` (an
//! attribute) is put on a line of its own with the `=` dropped, and the zero
//! byte that closes a sentence ends the line, except at the very end.

use vstd::prelude::*;
use vstd::utf8::valid_utf8;
use vstd::utf8::decode_utf8;
use crate::encoding::encode_word;
use crate::encoding::encode_words;
use crate::encoding::encode_length;
use crate::encoding::line_bytes;
use crate::encoding::sentence;
use vstd::utf8::encode_utf8;
use vstd::utf8::encode_scalar;
use vstd::utf8::has_width_1_encoding;
use vstd::utf8::has_width_2_encoding;
use vstd::utf8::has_width_3_encoding;
use vstd::utf8::char_is_scalar;
use vstd::utf8::encode_utf8_valid_utf8;
use vstd::utf8::encode_utf8_decode_utf8;
use crate::text::join;

verus! {

/// The text of one word: its UTF-8 decoding, or nothing when it is not
/// well-formed UTF-8.
pub open spec fn word_text(w: Seq<u8>) -> Seq<char> {
    if valid_utf8(w) {
        decode_utf8(w)
    } else {
        Seq::empty()
    }
}

/// `p` in front of the text in `r`, when there is one.
pub open spec fn prepend(p: Seq<char>, r: Option<Seq<char>>) -> Option<Seq<char>> {
    match r {
        Some(t) => Some(p + t),
        None => None,
    }
}

/// How many bytes the length field takes that begins with the byte `b0`:
/// one below `0x80`, then two, three and four for the tags `10`, `110` and
/// `1110` in the top bits, and five (the tag byte `0xF0` and four bytes)
/// beyond.
pub open spec fn header_size(b0: u8) -> nat {
    if b0 < 0x80 {
        1
    } else if b0 < 0xC0 {
        2
    } else if b0 < 0xE0 {
        3
    } else if b0 < 0xF0 {
        4
    } else {
        5
    }
}

/// The length that the length field at position `i` of `b` gives: the bits
/// below the tag of its first byte followed by its other bytes, most
/// significant first.
pub open spec fn header_value(b: Seq<u8>, i: int) -> nat {
    let b0 = b[i];
    if b0 < 0x80 {
        b0 as nat
    } else if b0 < 0xC0 {
        ((b0 - 0x80) * 0x100 + b[i + 1]) as nat
    } else if b0 < 0xE0 {
        ((b0 - 0xC0) * 0x1_0000 + b[i + 1] * 0x100 + b[i + 2]) as nat
    } else if b0 < 0xF0 {
        ((b0 - 0xE0) * 0x100_0000 + b[i + 1] * 0x1_0000 + b[i + 2] * 0x100 + b[i + 3]) as nat
    } else {
        (b[i + 1] * 0x100_0000 + b[i + 2] * 0x1_0000 + b[i + 3] * 0x100 + b[i + 4]) as nat
    }
}

/// The text decoded from `b` starting at position `i` with `l` bytes of the
/// current word still to read (`l == 0`: a length field or a zero byte comes
/// next). `None` where the bytes are malformed in a way that stops decoding:
/// a length field or a word that runs past the end, a length of zero in front
/// of `=`, or a word that begins with a control byte (`0xF8` and above).
pub open spec fn decode_from(b: Seq<u8>, i: nat, l: nat) -> Option<Seq<char>>
    decreases b.len() - i,
{
    if i >= b.len() {
        Some(Seq::empty())
    } else if l == 0 {
        if b[i as int] == 0 {
            prepend(
                if i + 1 != b.len() {
                    seq!['\n']
                } else {
                    Seq::empty()
                },
                decode_from(b, i + 1, 0),
            )
        } else {
            let j: nat = (i + header_size(b[i as int]) - 1) as nat;
            let n: nat = header_value(b, i as int);
            if j + 1 >= b.len() {
                None
            } else if b[(j + 1) as int] == 61 {
                if n == 0 {
                    None
                } else {
                    prepend(seq!['\n'], decode_from(b, j + 2, (n - 1) as nat))
                }
            } else if b[(j + 1) as int] >= 248 {
                None
            } else {
                decode_from(b, j + 1, n)
            }
        }
    } else if i + l > b.len() {
        None
    } else {
        prepend(word_text(b.subrange(i as int, (i + l) as int)), decode_from(b, i + l, 0))
    }
}

/// The text of a whole reply.
pub open spec fn reply_text(b: Seq<u8>) -> Option<Seq<char>> {
    decode_from(b, 0, 0)
}

proof fn lemma_prepend_assoc(p: Seq<char>, q: Seq<char>, r: Option<Seq<char>>)
    ensures
        prepend(p, prepend(q, r)) == prepend(p + q, r),
{
    if let Some(t) = r {
        assert(p + (q + t) =~= (p + q) + t);
    }
}

/// `std::str::from_utf8`. Claimed: it succeeds exactly on well-formed UTF-8
/// (`valid_utf8`), and then gives the characters that the bytes encode
/// (`decode_utf8`).
#[verifier::external_body]
fn utf8_text(bytes: &[u8]) -> (res: Option<&str>)
    ensures
        res is Some <==> valid_utf8(bytes@),
        res matches Some(t) ==> t@ == decode_utf8(bytes@),
{
    std::str::from_utf8(bytes).ok()
}

/// Decodes the bytes of a reply into text, or `None` where the bytes are
/// malformed so that decoding cannot go on (see [`decode_from`]).
pub fn decode_reply(bytes: &[u8]) -> (res: Option<String>)
    ensures
        match res {
            Some(s) => reply_text(bytes@) == Some(s@),
            None => reply_text(bytes@) is None,
        },
{
    let n = bytes.len();
    let mut out: Vec<char> = Vec::new();
    let mut i: usize = 0;
    let mut l: u32 = 0;
    while i < n
        invariant
            n == bytes.len(),
            reply_text(bytes@) == prepend(out@, decode_from(bytes@, i as nat, l as nat)),
        decreases n - i,
    {
        let ghost b = bytes@;
        if l == 0 {
            if bytes[i] == 0 {
                let ghost before = out@;
                proof {
                    lemma_prepend_assoc(
                        before,
                        if i + 1 != n {
                            seq!['\n']
                        } else {
                            Seq::empty()
                        },
                        decode_from(b, (i + 1) as nat, 0),
                    );
                }
                if i != n - 1 {
                    out.push('\n');
                }
                assert(out@ =~= before + if i + 1 != n {
                    seq!['\n']
                } else {
                    Seq::<char>::empty()
                });
                i = i + 1;
            } else {
                let b0 = bytes[i];
                let size: usize = if b0 < 0x80 {
                    1
                } else if b0 < 0xC0 {
                    2
                } else if b0 < 0xE0 {
                    3
                } else if b0 < 0xF0 {
                    4
                } else {
                    5
                };
                if size >= n - i {
                    return None;
                }
                let j = i + size - 1;
                let nl: u32 = if b0 < 0x80 {
                    b0 as u32
                } else if b0 < 0xC0 {
                    (b0 as u32 - 0x80) * 0x100 + bytes[i + 1] as u32
                } else if b0 < 0xE0 {
                    (b0 as u32 - 0xC0) * 0x1_0000 + bytes[i + 1] as u32 * 0x100 + bytes[i + 2] as u32
                } else if b0 < 0xF0 {
                    (b0 as u32 - 0xE0) * 0x100_0000 + bytes[i + 1] as u32 * 0x1_0000 + bytes[i + 2] as u32
                        * 0x100 + bytes[i + 3] as u32
                } else {
                    bytes[i + 1] as u32 * 0x100_0000 + bytes[i + 2] as u32 * 0x1_0000 + bytes[i + 3] as u32
                        * 0x100 + bytes[i + 4] as u32
                };
                assert(nl == header_value(b, i as int));
                assert(j == i + header_size(b0) - 1);
                if bytes[j + 1] == 61 {
                    if nl == 0 {
                        return None;
                    }
                    let ghost before = out@;
                    proof {
                        lemma_prepend_assoc(
                            before,
                            seq!['\n'],
                            decode_from(b, (j + 2) as nat, (nl - 1) as nat),
                        );
                    }
                    out.push('\n');
                    assert(out@ =~= before + seq!['\n']);
                    l = nl - 1;
                    i = j + 2;
                } else if bytes[j + 1] >= 248 {
                    return None;
                } else {
                    l = nl;
                    i = j + 1;
                }
            }
        } else {
            if l as usize > n - i {
                return None;
            }
            let end = i + l as usize;
            let word = &bytes[i..end];
            let ghost before = out@;
            proof {
                lemma_prepend_assoc(
                    before,
                    word_text(b.subrange(i as int, end as int)),
                    decode_from(b, end as nat, 0),
                );
            }
            match utf8_text(word) {
                Some(t) => {
                    crate::text::extend_str(&mut out, t);
                },
                None => {
                    assert(out@ =~= before + Seq::<char>::empty());
                },
            }
            i = end;
            l = 0;
        }
    }
    Some(crate::text::string_of(out.as_slice()))
}

/// Decodes the bytes of a reply into text.
pub fn bytes_to_str(bytes: &[u8]) -> (res: String)
    requires
        reply_text(bytes@) is Some,
    ensures
        reply_text(bytes@) == Some(res@),
{
    match decode_reply(bytes) {
        Some(s) => s,
        None => String::new(),
    }
}

/// The seven bytes that close a reply: the word `!done` and the zero byte
/// that ends its sentence.
pub open spec fn done_mark() -> Seq<u8> {
    seq![5u8, 33u8, 100u8, 111u8, 110u8, 101u8, 0u8]
}

/// A chunk read from the connection ends the reply when it is short (seven
/// bytes or fewer) or ends with [`done_mark`].
pub open spec fn ends_reply(chunk: Seq<u8>) -> bool {
    chunk.len() <= 7 || chunk.subrange(chunk.len() - 7, chunk.len() as int) == done_mark()
}

/// Adds a chunk read from the connection to the reply gathered so far and
/// tells whether the reply is complete.
pub fn append_chunk(reply: &mut Vec<u8>, chunk: &[u8]) -> (done: bool)
    ensures
        final(reply)@ == old(reply)@ + chunk@,
        done == ends_reply(chunk@),
{
    let ghost start = reply@;
    for k in 0..chunk.len()
        invariant
            reply@ == start + chunk@.take(k as int),
    {
        reply.push(chunk[k]);
        assert(chunk@.take(k + 1) == chunk@.take(k as int).push(chunk@[k as int]));
    }
    assert(chunk@.take(chunk.len() as int) == chunk@);
    let size = chunk.len();
    if size <= 7 {
        return true;
    }
    let ghost tail = chunk@.subrange(size - 7, size as int);
    let r = chunk[size - 7] == 5 && chunk[size - 6] == 33 && chunk[size - 5] == 100 && chunk[size
        - 4] == 111 && chunk[size - 3] == 110 && chunk[size - 2] == 101 && chunk[size - 1] == 0;
    proof {
        if r {
            assert(tail =~= done_mark());
        } else {
            assert(tail != done_mark()) by {
                if tail == done_mark() {
                    assert(tail[0] == 5 && tail[1] == 33 && tail[2] == 100 && tail[3] == 111 && tail[4]
                        == 110 && tail[5] == 101 && tail[6] == 0);
                }
            }
        }
    }
    r
}

/// How a word reads back: a word that begins with `=` on a new line without
/// its `=`, any other word as it is.
pub open spec fn word_reading(w: Seq<u8>) -> Seq<char> {
    if w.len() > 0 && w[0] == 61 {
        seq!['\n'] + word_text(w.drop_first())
    } else {
        word_text(w)
    }
}

/// How the words of a sentence read back, one after the other.
pub open spec fn sentence_reading(ws: Seq<Seq<u8>>) -> Seq<char>
    decreases ws.len(),
{
    if ws.len() == 0 {
        Seq::empty()
    } else {
        sentence_reading(ws.drop_last()) + word_reading(ws.last())
    }
}

/// A word that the reply decoder reads back: not empty, shorter than 2^32
/// bytes (the lengths that a length field holds), and not starting with a
/// control byte.
pub open spec fn readable_word(w: Seq<u8>) -> bool {
    0 < w.len() < 0x1_0000_0000 && w[0] < 248
}

proof fn lemma_header(b: Seq<u8>, p: int, n: nat)
    requires
        0 < n < 0x1_0000_0000,
        0 <= p,
        p + encode_length(n).len() <= b.len(),
        forall|k: int| 0 <= k < encode_length(n).len() ==> b[p + k] == #[trigger] encode_length(n)[k],
    ensures
        b[p] != 0,
        header_size(b[p]) == encode_length(n).len(),
        header_value(b, p) == n,
{
    let h = encode_length(n);
    assert(b[p] == h[0]);
    if n < 128 {
    } else if n < 0x4000 {
        assert(b[p + 1] == h[1]);
    } else if n < 0x20_0000 {
        assert(b[p + 1] == h[1]);
        assert(b[p + 2] == h[2]);
    } else if n < 0x1000_0000 {
        lemma_header_four(b, p, n);
    } else {
        lemma_header_five(b, p, n);
    }
}

proof fn lemma_header_four(b: Seq<u8>, p: int, n: nat)
    requires
        0x20_0000 <= n < 0x1000_0000,
        0 <= p,
        p + encode_length(n).len() <= b.len(),
        forall|k: int| 0 <= k < encode_length(n).len() ==> b[p + k] == #[trigger] encode_length(n)[k],
    ensures
        b[p] != 0,
        header_size(b[p]) == encode_length(n).len(),
        header_value(b, p) == n,
{
    let h = encode_length(n);
    assert(h.len() == 4);
    assert(b[p] == h[0]);
    assert(b[p + 1] == h[1]);
    assert(b[p + 2] == h[2]);
    assert(b[p + 3] == h[3]);
    assert(b[p] == 0xE0 + n / 0x100_0000);
    assert((n / 0x100_0000) * 0x100_0000 + (n / 0x1_0000 % 0x100) * 0x1_0000 + (n / 0x100 % 0x100)
        * 0x100 + n % 0x100 == n);
}

proof fn lemma_header_five(b: Seq<u8>, p: int, n: nat)
    requires
        0x1000_0000 <= n < 0x1_0000_0000,
        0 <= p,
        p + encode_length(n).len() <= b.len(),
        forall|k: int| 0 <= k < encode_length(n).len() ==> b[p + k] == #[trigger] encode_length(n)[k],
    ensures
        b[p] != 0,
        header_size(b[p]) == encode_length(n).len(),
        header_value(b, p) == n,
{
    let h = encode_length(n);
    crate::encoding::lemma_le_bytes_small(n);
    assert(h =~= seq![
        0xF0u8,
        (n / 0x100_0000) as u8,
        (n / 0x1_0000 % 0x100) as u8,
        (n / 0x100 % 0x100) as u8,
        (n % 0x100) as u8,
    ]);
    assert(b[p] == h[0]);
    assert(b[p + 1] == h[1]);
    assert(b[p + 2] == h[2]);
    assert(b[p + 3] == h[3]);
    assert(b[p + 4] == h[4]);
    assert((n / 0x100_0000) * 0x100_0000 + (n / 0x1_0000 % 0x100) * 0x1_0000 + (n / 0x100 % 0x100)
        * 0x100 + n % 0x100 == n);
}

proof fn lemma_read_word(b: Seq<u8>, i: nat, w: Seq<u8>)
    requires
        readable_word(w),
        i + encode_word(w, false).len() <= b.len(),
        b.subrange(i as int, (i + encode_word(w, false).len()) as int) == encode_word(w, false),
    ensures
        decode_from(b, i, 0) == prepend(
            word_reading(w),
            decode_from(b, i + encode_word(w, false).len(), 0),
        ),
{
    let e = encode_word(w, false);
    let len: int = w.len() as int;
    let h = encode_length(w.len());
    let p: int = i as int;
    assert(e =~= h + w);
    assert forall|k: int| 0 <= k < e.len() implies b[p + k] == #[trigger] e[k] by {
        assert(b.subrange(p, p + e.len())[k] == b[p + k]);
    }
    let j: int = p + h.len() - 1;
    assert forall|k: int| 0 <= k < h.len() implies b[p + k] == #[trigger] h[k] by {
        assert(e[k] == h[k]);
    }
    lemma_header(b, p, w.len());
    assert(b[j + 1] == e[h.len() as int]);
    assert(b[j + 1] == w[0]);
    let end: int = p + e.len();
    assert(end == j + 1 + len);
    assert(b[p] != 0);
    assert(j + 1 < b.len());
    if w[0] == 61 {
        if len == 1 {
            assert(w.drop_first() =~= Seq::<u8>::empty());
            assert(word_text(w.drop_first()) =~= Seq::<char>::empty());
            lemma_prepend_assoc(seq!['\n'], Seq::empty(), decode_from(b, end as nat, 0));
            assert(seq!['\n'] + Seq::<char>::empty() =~= seq!['\n']);
        } else {
            assert(b.subrange(j + 2, j + 2 + (len - 1)) =~= w.drop_first()) by {
                assert forall|k: int| 0 <= k < len - 1 implies b.subrange(
                    j + 2,
                    j + 2 + (len - 1),
                )[k] == w.drop_first()[k] by {
                    assert(b[j + 2 + k] == e[h.len() + 1 + k]);
                }
            }
            assert(decode_from(b, (j + 2) as nat, (len - 1) as nat) == prepend(
                word_text(w.drop_first()),
                decode_from(b, end as nat, 0),
            ));
            assert(decode_from(b, i, 0) == prepend(
                seq!['\n'],
                decode_from(b, (j + 2) as nat, (len - 1) as nat),
            ));
            lemma_prepend_assoc(
                seq!['\n'],
                word_text(w.drop_first()),
                decode_from(b, end as nat, 0),
            );
        }
    } else {
        assert(b.subrange(j + 1, j + 1 + len) =~= w) by {
            assert forall|k: int| 0 <= k < len implies b.subrange(j + 1, j + 1 + len)[k] == w[k] by {
                assert(b[j + 1 + k] == e[h.len() + k]);
            }
        }
        assert(decode_from(b, (j + 1) as nat, len as nat) == prepend(
            word_text(w),
            decode_from(b, end as nat, 0),
        ));
        assert(decode_from(b, i, 0) == decode_from(b, (j + 1) as nat, len as nat));
    }
}

proof fn lemma_read_prefix(ws: Seq<Seq<u8>>, k: int)
    requires
        0 <= k <= ws.len(),
        forall|m: int| 0 <= m < ws.len() ==> readable_word(#[trigger] ws[m]),
    ensures
        reply_text(encode_words(ws) + seq![0u8]) == prepend(
            sentence_reading(ws.take(k)),
            decode_from(encode_words(ws) + seq![0u8], encode_words(ws.take(k)).len(), 0),
        ),
    decreases k,
{
    let b = encode_words(ws) + seq![0u8];
    if k == 0 {
        assert(ws.take(0) =~= Seq::<Seq<u8>>::empty());
        if let Some(t) = decode_from(b, 0, 0) {
            assert(Seq::<char>::empty() + t =~= t);
        }
    } else {
        lemma_read_prefix(ws, k - 1);
        let pre = encode_words(ws.take(k - 1));
        let w = ws[k - 1];
        assert(ws.take(k).drop_last() =~= ws.take(k - 1));
        assert(ws.take(k).last() == w);
        let next = encode_words(ws.take(k));
        assert(next == pre + encode_word(w, false));
        lemma_encode_words_prefix(ws, k);
        assert(b.subrange(0, next.len() as int) =~= next) by {
            assert forall|m: int| 0 <= m < next.len() implies b.subrange(0, next.len() as int)[m]
                == next[m] by {
                assert(b[m] == encode_words(ws)[m]);
                assert(encode_words(ws).subrange(0, next.len() as int)[m] == encode_words(ws)[m]);
            }
        }
        assert(b.subrange(pre.len() as int, next.len() as int) =~= encode_word(w, false)) by {
            assert forall|m: int| 0 <= m < encode_word(w, false).len() implies b.subrange(
                pre.len() as int,
                next.len() as int,
            )[m] == encode_word(w, false)[m] by {
                assert(b.subrange(0, next.len() as int)[pre.len() + m] == next[pre.len() + m]);
            }
        }
        lemma_read_word(b, pre.len(), w);
        lemma_prepend_assoc(
            sentence_reading(ws.take(k - 1)),
            word_reading(w),
            decode_from(b, next.len(), 0),
        );
    }
}

/// Reading a sentence back gives its words as [`sentence_reading`] renders
/// them: the decoder reads what the encoder writes, for words of fewer than
/// 2^32 bytes that are not empty and do not start with a control byte.
pub proof fn read_back_sentence(ws: Seq<Seq<u8>>)
    requires
        forall|k: int| 0 <= k < ws.len() ==> readable_word(#[trigger] ws[k]),
    ensures
        reply_text(encode_words(ws) + seq![0u8]) == Some(sentence_reading(ws)),
{
    let b = encode_words(ws) + seq![0u8];
    lemma_read_prefix(ws, ws.len() as int);
    assert(ws.take(ws.len() as int) =~= ws);
    let n = encode_words(ws).len();
    assert(b[n as int] == 0);
    assert(n + 1 == b.len());
    assert(decode_from(b, n + 1, 0) == Some(Seq::<char>::empty()));
    assert(decode_from(b, n, 0) == Some(Seq::<char>::empty())) by {
        assert(Seq::<char>::empty() + Seq::<char>::empty() =~= Seq::<char>::empty());
    }
    assert(sentence_reading(ws) + Seq::<char>::empty() =~= sentence_reading(ws));
}

proof fn lemma_encode_words_prefix(ws: Seq<Seq<u8>>, k: int)
    requires
        0 <= k <= ws.len(),
    ensures
        encode_words(ws).len() >= encode_words(ws.take(k)).len(),
        encode_words(ws).subrange(0, encode_words(ws.take(k)).len() as int) == encode_words(
            ws.take(k),
        ),
    decreases ws.len(),
{
    if k == ws.len() {
        assert(ws.take(k) =~= ws);
        assert(encode_words(ws).subrange(0, encode_words(ws).len() as int) =~= encode_words(ws));
    } else {
        let d = ws.drop_last();
        lemma_encode_words_prefix(d, k);
        assert(d.take(k) =~= ws.take(k));
        let p = encode_words(ws.take(k));
        assert(encode_words(ws) == encode_words(d) + encode_word(ws.last(), false));
        assert(encode_words(ws).subrange(0, p.len() as int) =~= encode_words(d).subrange(
            0,
            p.len() as int,
        ));
    }
}

/// How a line reads back: a line that begins with `=` on a new line without
/// its `=`, any other line as it is.
pub open spec fn line_reading(s: Seq<char>) -> Seq<char> {
    if s.len() > 0 && s[0] == '=' {
        seq!['\n'] + s.drop_first()
    } else {
        s
    }
}

/// How the lines of a sentence read back, one after the other.
pub open spec fn lines_reading(lines: Seq<String>) -> Seq<char>
    decreases lines.len(),
{
    if lines.len() == 0 {
        Seq::empty()
    } else {
        lines_reading(lines.drop_last()) + line_reading(lines.last()@)
    }
}

proof fn lemma_first_byte(c: char)
    ensures
        encode_scalar(c as u32).len() > 0,
        encode_scalar(c as u32)[0] < 248,
        (encode_scalar(c as u32)[0] == 61) == (c == '='),
        c == '=' ==> encode_scalar(c as u32) == seq![61u8],
{
    let v = c as u32;
    char_is_scalar(c);
    assert(c == '=' <==> v == 61);
    if has_width_1_encoding(v) {
        assert(v <= 0x7F ==> ((v & 0x7F) as u8 == 61 <==> v == 61)) by (bit_vector);
        assert(v <= 0x7F ==> ((v & 0x7F) as u8) < 248) by (bit_vector);
        assert(v == 61 ==> (v & 0x7F) as u8 == 61) by (bit_vector);
    } else if has_width_2_encoding(v) {
        assert(0xC0 <= (0xC0u8 | ((v >> 6) & 0x1F) as u8) <= 0xDF) by (bit_vector);
    } else if has_width_3_encoding(v) {
        assert(0xE0 <= (0xE0u8 | ((v >> 12) & 0x0F) as u8) <= 0xEF) by (bit_vector);
    } else {
        assert(0xF0 <= (0xF0u8 | ((v >> 18) & 0x7) as u8) <= 0xF7) by (bit_vector);
    }
}

proof fn lemma_line_word(s: Seq<char>)
    requires
        s.len() > 0,
    ensures
        encode_utf8(s).len() > 0,
        encode_utf8(s)[0] < 248,
        word_reading(encode_utf8(s)) == line_reading(s),
{
    let e = encode_utf8(s);
    lemma_first_byte(s[0]);
    assert(e == encode_scalar(s[0] as u32) + encode_utf8(s.drop_first()));
    assert(e[0] == encode_scalar(s[0] as u32)[0]);
    encode_utf8_valid_utf8(s);
    encode_utf8_decode_utf8(s);
    if s[0] == '=' {
        assert(e.drop_first() =~= encode_utf8(s.drop_first()));
        encode_utf8_valid_utf8(s.drop_first());
        encode_utf8_decode_utf8(s.drop_first());
    }
}

proof fn lemma_lines_reading(lines: Seq<String>)
    requires
        forall|k: int| 0 <= k < lines.len() ==> (#[trigger] lines[k])@.len() > 0,
    ensures
        sentence_reading(line_bytes(lines)) == lines_reading(lines),
    decreases lines.len(),
{
    if lines.len() > 0 {
        let d = lines.drop_last();
        assert(line_bytes(lines).drop_last() =~= line_bytes(d));
        lemma_lines_reading(d);
        lemma_line_word(lines.last()@);
    }
}

/// Reading back the sentence that [`crate::encoding::sentence_bytes`] writes
/// for `lines` gives the lines as [`lines_reading`] renders them, for lines
/// that are not empty and take fewer than 2^32 bytes.
pub proof fn read_back_lines(lines: Seq<String>)
    requires
        forall|k: int|
            0 <= k < lines.len() ==> (#[trigger] lines[k])@.len() > 0 && encode_utf8(lines[k]@).len()
                < 0x1_0000_0000,
    ensures
        reply_text(sentence(lines)) == Some(lines_reading(lines)),
{
    let ws = line_bytes(lines);
    assert forall|k: int| 0 <= k < ws.len() implies readable_word(#[trigger] ws[k]) by {
        lemma_line_word(lines[k]@);
    }
    read_back_sentence(ws);
    lemma_lines_reading(lines);
}

proof fn lemma_read_words_at(b: Seq<u8>, p: nat, ws: Seq<Seq<u8>>, k: int)
    requires
        0 <= k <= ws.len(),
        forall|m: int| 0 <= m < ws.len() ==> readable_word(#[trigger] ws[m]),
        p + encode_words(ws).len() <= b.len(),
        b.subrange(p as int, (p + encode_words(ws).len()) as int) == encode_words(ws),
    ensures
        decode_from(b, p, 0) == prepend(
            sentence_reading(ws.take(k)),
            decode_from(b, p + encode_words(ws.take(k)).len(), 0),
        ),
    decreases k,
{
    let e = encode_words(ws);
    if k == 0 {
        assert(ws.take(0) =~= Seq::<Seq<u8>>::empty());
        if let Some(t) = decode_from(b, p, 0) {
            assert(Seq::<char>::empty() + t =~= t);
        }
    } else {
        lemma_read_words_at(b, p, ws, k - 1);
        let pre = encode_words(ws.take(k - 1));
        let w = ws[k - 1];
        assert(ws.take(k).drop_last() =~= ws.take(k - 1));
        assert(ws.take(k).last() == w);
        let next = encode_words(ws.take(k));
        assert(next == pre + encode_word(w, false));
        lemma_encode_words_prefix(ws, k);
        assert(b.subrange((p + pre.len()) as int, (p + next.len()) as int) =~= encode_word(w, false)) by {
            assert forall|m: int| 0 <= m < encode_word(w, false).len() implies b.subrange(
                (p + pre.len()) as int,
                (p + next.len()) as int,
            )[m] == encode_word(w, false)[m] by {
                assert(b.subrange(p as int, (p + e.len()) as int)[pre.len() + m] == b[p + pre.len() + m]);
                assert(e.subrange(0, next.len() as int)[pre.len() + m] == e[pre.len() + m]);
                assert(next[pre.len() + m] == encode_word(w, false)[m]);
            }
        }
        lemma_read_word(b, p + pre.len(), w);
        lemma_prepend_assoc(
            sentence_reading(ws.take(k - 1)),
            word_reading(w),
            decode_from(b, p + next.len(), 0),
        );
    }
}

/// A line break where a zero byte that is not the last one stands.
pub open spec fn break_unless_last(b: Seq<u8>, i: nat) -> Seq<char> {
    if i + 1 != b.len() {
        seq!['\n']
    } else {
        Seq::empty()
    }
}

proof fn lemma_read_sentence_at(b: Seq<u8>, p: nat, ws: Seq<Seq<u8>>)
    requires
        forall|m: int| 0 <= m < ws.len() ==> readable_word(#[trigger] ws[m]),
        p + encode_words(ws).len() < b.len(),
        b.subrange(p as int, (p + encode_words(ws).len()) as int) == encode_words(ws),
        b[(p + encode_words(ws).len()) as int] == 0,
    ensures
        decode_from(b, p, 0) == prepend(
            sentence_reading(ws) + break_unless_last(b, p + encode_words(ws).len()),
            decode_from(b, p + encode_words(ws).len() + 1, 0),
        ),
{
    let n = encode_words(ws).len();
    lemma_read_words_at(b, p, ws, ws.len() as int);
    assert(ws.take(ws.len() as int) =~= ws);
    let z: nat = p + n;
    assert(decode_from(b, z, 0) == prepend(break_unless_last(b, z), decode_from(b, z + 1, 0)));
    lemma_prepend_assoc(sentence_reading(ws), break_unless_last(b, z), decode_from(b, z + 1, 0));
}

/// The bytes of several sentences, one after the other, each closed by its
/// zero byte.
pub open spec fn sentences_bytes(sents: Seq<Seq<Seq<u8>>>) -> Seq<u8>
    decreases sents.len(),
{
    if sents.len() == 0 {
        Seq::empty()
    } else {
        sentences_bytes(sents.drop_last()) + encode_words(sents.last()) + seq![0u8]
    }
}

proof fn lemma_sentences_prefix(sents: Seq<Seq<Seq<u8>>>, k: int)
    requires
        0 <= k <= sents.len(),
    ensures
        sentences_bytes(sents.take(k)).len() <= sentences_bytes(sents).len(),
        sentences_bytes(sents).subrange(0, sentences_bytes(sents.take(k)).len() as int)
            == sentences_bytes(sents.take(k)),
        k < sents.len() ==> sentences_bytes(sents.take(k)).len() < sentences_bytes(sents).len(),
    decreases sents.len(),
{
    if k == sents.len() {
        assert(sents.take(k) =~= sents);
        assert(sentences_bytes(sents).subrange(0, sentences_bytes(sents).len() as int)
            =~= sentences_bytes(sents));
    } else {
        let d = sents.drop_last();
        lemma_sentences_prefix(d, k);
        assert(d.take(k) =~= sents.take(k));
        let pk = sentences_bytes(sents.take(k));
        assert(sentences_bytes(sents) == sentences_bytes(d) + encode_words(sents.last()) + seq![0u8]);
        assert(sentences_bytes(sents).subrange(0, pk.len() as int) =~= sentences_bytes(d).subrange(
            0,
            pk.len() as int,
        ));
    }
}

/// The readings of several sentences.
pub open spec fn sentence_readings(sents: Seq<Seq<Seq<u8>>>) -> Seq<Seq<char>> {
    sents.map_values(|ws: Seq<Seq<u8>>| sentence_reading(ws))
}

proof fn lemma_read_sentences(sents: Seq<Seq<Seq<u8>>>, k: int)
    requires
        1 <= k <= sents.len(),
        forall|j: int, m: int|
            0 <= j < sents.len() && 0 <= m < sents[j].len() ==> readable_word(
                #[trigger] sents[j][m],
            ),
    ensures
        reply_text(sentences_bytes(sents)) == prepend(
            join(sentence_readings(sents).take(k), seq!['\n']) + break_unless_last(
                sentences_bytes(sents),
                (sentences_bytes(sents.take(k)).len() - 1) as nat,
            ),
            decode_from(sentences_bytes(sents), sentences_bytes(sents.take(k)).len(), 0),
        ),
    decreases k,
{
    let b = sentences_bytes(sents);
    let rs = sentence_readings(sents);
    let ws = sents[k - 1];
    let e = encode_words(ws);
    let pre = sentences_bytes(sents.take(k - 1));
    let cur = sentences_bytes(sents.take(k));
    assert(sents.take(k).drop_last() =~= sents.take(k - 1));
    assert(sents.take(k).last() == ws);
    assert(cur == pre + e + seq![0u8]);
    lemma_sentences_prefix(sents, k);
    assert forall|m: int| 0 <= m < cur.len() implies b[m] == #[trigger] cur[m] by {
        assert(b.subrange(0, cur.len() as int)[m] == b[m]);
    }
    assert(b.subrange(pre.len() as int, (pre.len() + e.len()) as int) =~= e) by {
        assert forall|m: int| 0 <= m < e.len() implies b.subrange(
            pre.len() as int,
            (pre.len() + e.len()) as int,
        )[m] == e[m] by {
            assert(cur[pre.len() + m] == e[m]);
        }
    }
    assert(b[(pre.len() + e.len()) as int] == cur[(pre.len() + e.len()) as int]);
    assert forall|m: int| 0 <= m < ws.len() implies readable_word(#[trigger] ws[m]) by {
        assert(sents[k - 1][m] == ws[m]);
    }
    lemma_read_sentence_at(b, pre.len(), ws);
    assert(rs[k - 1] == sentence_reading(ws));
    assert(rs.take(k).drop_last() =~= rs.take(k - 1));
    assert(rs.take(k).last() == rs[k - 1]);
    if k == 1 {
        assert(sents.take(0) =~= Seq::<Seq<Seq<u8>>>::empty());
        assert(pre.len() == 0);
        assert(join(rs.take(1), seq!['\n']) == rs.take(1)[0]);
    } else {
        lemma_read_sentences(sents, k - 1);
        lemma_sentences_prefix(sents, k - 1);
        assert(pre.len() > 0);
        assert(pre.len() < b.len());
        let t = join(rs.take(k - 1), seq!['\n']);
        assert(break_unless_last(b, (pre.len() - 1) as nat) == seq!['\n']);
        lemma_prepend_assoc(
            t + seq!['\n'],
            sentence_reading(ws) + break_unless_last(b, pre.len() + e.len()),
            decode_from(b, cur.len(), 0),
        );
        assert(t + seq!['\n'] + (sentence_reading(ws) + break_unless_last(b, pre.len() + e.len()))
            =~= join(rs.take(k), seq!['\n']) + break_unless_last(b, pre.len() + e.len()));
    }
}

/// A reply made of several sentences reads back as the readings of its
/// sentences with one line break between neighbours: each zero byte that
/// closes a sentence other than the last gives exactly one line break,
/// whatever word follows it.
pub proof fn read_back_reply(sents: Seq<Seq<Seq<u8>>>)
    requires
        forall|j: int, m: int|
            0 <= j < sents.len() && 0 <= m < sents[j].len() ==> readable_word(
                #[trigger] sents[j][m],
            ),
    ensures
        reply_text(sentences_bytes(sents)) == Some(join(sentence_readings(sents), seq!['\n'])),
{
    let b = sentences_bytes(sents);
    if sents.len() == 0 {
        assert(b == Seq::<u8>::empty());
        assert(sentence_readings(sents) =~= Seq::<Seq<char>>::empty());
    } else {
        let n = sents.len() as int;
        lemma_read_sentences(sents, n);
        assert(sents.take(n) =~= sents);
        assert(sentence_readings(sents).take(n) =~= sentence_readings(sents));
        assert(break_unless_last(b, (b.len() - 1) as nat) == Seq::<char>::empty());
        assert(decode_from(b, b.len(), 0) == Some(Seq::<char>::empty()));
        let j = join(sentence_readings(sents), seq!['\n']);
        assert(j + Seq::<char>::empty() + Seq::<char>::empty() =~= j);
    }
}

} // verus!
