//! Encoding of API words and sentences.
//!
//! A word is sent as its length followed by its bytes; a sentence is a run of
//! words closed by a zero-length word (a single zero byte).

use vstd::prelude::*;
use vstd::utf8::encode_utf8;
use crate::config::Queries;

verus! {

/// The bytes of `v` in base 256, least significant first, without trailing zeros
/// (empty for zero).
pub open spec fn le_bytes(v: nat) -> Seq<u8>
    decreases v,
{
    if v == 0 {
        Seq::empty()
    } else {
        seq![(v % 256) as u8] + le_bytes(v / 256)
    }
}

/// The multi-byte length prefix for a word of `v` bytes: two, three or four
/// bytes tagged `10`, `110`, `1110` in their top bits, and beyond that the tag
/// byte `0xF0` followed by `v` in big-endian order.
pub open spec fn length_prefix(v: nat) -> Seq<u8> {
    if v < 0x4000 {
        seq![(0x80 + v / 0x100) as u8, (v % 0x100) as u8]
    } else if v < 0x20_0000 {
        seq![(0xC0 + v / 0x1_0000) as u8, (v / 0x100 % 0x100) as u8, (v % 0x100) as u8]
    } else if v < 0x1000_0000 {
        seq![
            (0xE0 + v / 0x100_0000) as u8,
            (v / 0x1_0000 % 0x100) as u8,
            (v / 0x100 % 0x100) as u8,
            (v % 0x100) as u8,
        ]
    } else {
        seq![0xF0u8] + le_bytes(v).reverse()
    }
}

/// The length field of a word of `n` bytes: one byte below 128, else the
/// multi-byte prefix.
pub open spec fn encode_length(n: nat) -> Seq<u8> {
    if n < 128 {
        seq![n as u8]
    } else {
        length_prefix(n)
    }
}

/// A word on the wire: its length field, its bytes, and a closing zero byte
/// when `add_last` is set.
pub open spec fn encode_word(w: Seq<u8>, add_last: bool) -> Seq<u8> {
    encode_length(w.len()) + w + if add_last {
        seq![0u8]
    } else {
        Seq::<u8>::empty()
    }
}

/// The base-256 digits of a number below 2^32.
pub proof fn lemma_le_bytes_small(v: nat)
    requires
        0 < v < 0x1_0000_0000,
    ensures
        v < 0x100 ==> le_bytes(v) == seq![v as u8],
        0x100 <= v < 0x1_0000 ==> le_bytes(v) == seq![(v % 0x100) as u8, (v / 0x100) as u8],
        0x1_0000 <= v < 0x100_0000 ==> le_bytes(v) == seq![
            (v % 0x100) as u8,
            (v / 0x100 % 0x100) as u8,
            (v / 0x1_0000) as u8,
        ],
        0x100_0000 <= v ==> le_bytes(v) == seq![
            (v % 0x100) as u8,
            (v / 0x100 % 0x100) as u8,
            (v / 0x1_0000 % 0x100) as u8,
            (v / 0x100_0000) as u8,
        ],
{
    reveal_with_fuel(le_bytes, 5);
    assert(v / 0x100 / 0x100 == v / 0x1_0000);
    assert(v / 0x100 / 0x100 / 0x100 == v / 0x100_0000);
    assert(v / 0x100 / 0x100 / 0x100 / 0x100 == v / 0x1_0000_0000);
}

/// Converts a word length into the multi-byte length prefix of the API
/// protocol (the form used for lengths of 128 and more).
pub fn dec_to_hex(value: usize) -> (res: Vec<u8>)
    requires
        value > 0,
    ensures
        res@ == length_prefix(value as nat),
{
    let val = value;
    let mut value = value;
    let mut res: Vec<u8> = Vec::new();
    while value >= 16
        invariant
            le_bytes(val as nat) == res@ + le_bytes(value as nat),
        decreases value,
    {
        let ghost v = value as nat;
        let ghost prev = res@;
        res.push((value % 16) as u8);
        value = value / 16;
        let last = res.len() - 1;
        if value >= 16 {
            res[last] = res[last] + (16 * (value % 16)) as u8;
            value = value / 16;
            assert(v % 16 + 16 * ((v / 16) % 16) == v % 256);
            assert(v / 16 / 16 == v / 256);
        } else {
            res[last] = res[last] + (16 * value) as u8;
            value = 0;
            assert(v % 16 + 16 * (v / 16) == v);
            assert(v / 256 == 0);
        }
        proof {
            assert(res@ == prev.push((v % 256) as u8));
            assert(le_bytes(v) == seq![(v % 256) as u8] + le_bytes(value as nat));
            assert(prev + le_bytes(v) == res@ + le_bytes(value as nat));
        }
    }
    if value != 0 {
        res.push(value as u8);
        proof {
            reveal_with_fuel(le_bytes, 2);
        }
    }
    assert(res@ == le_bytes(val as nat));
    proof {
        if val < 0x1000_0000 {
            lemma_le_bytes_small(val as nat);
        }
    }
    if val < 16384 {
        if res.len() == 1 {
            res.push(0);
        }
        res[1] = res[1] + 128;
    } else if val < 2097152 {
        if res.len() == 2 {
            res.push(0);
        }
        res[2] = res[2] + 192;
    } else if val < 268435456 {
        if res.len() == 3 {
            res.push(0);
        }
        res[3] = res[3] + 224;
    } else {
        res.push(240);
    }
    let ghost tagged = res@;
    let mut out: Vec<u8> = Vec::new();
    let mut k = res.len();
    while k > 0
        invariant
            k <= res.len(),
            res@ == tagged,
            out.len() == res.len() - k,
            forall|j: int| 0 <= j < out.len() ==> out@[j] == res@[res.len() - 1 - j],
        decreases k,
    {
        k = k - 1;
        out.push(res[k]);
    }
    assert(out@ =~= tagged.reverse());
    proof {
        if val >= 0x1000_0000 {
            assert(tagged.reverse() =~= seq![0xF0u8] + le_bytes(val as nat).reverse());
        }
    }
    out
}

/// Encodes one word: its length field, its bytes and, when `add_last` is
/// set, a closing zero byte.
pub fn hexer(value: &[u8], add_last: bool) -> (res: Vec<u8>)
    ensures
        res@ == encode_word(value@, add_last),
{
    let len = value.len();
    let mut res: Vec<u8>;
    if len < 128 {
        res = Vec::new();
        res.push(len as u8);
    } else {
        res = dec_to_hex(len);
    }
    let ghost head = res@;
    assert(head == encode_length(len as nat));
    for k in 0..len
        invariant
            len == value@.len(),
            res@ == head + value@.take(k as int),
    {
        res.push(value[k]);
        assert(value@.take(k + 1) == value@.take(k as int).push(value@[k as int]));
    }
    assert(value@.take(len as int) == value@);
    if add_last {
        res.push(0);
    }
    assert(res@ =~= encode_word(value@, add_last));
    res
}

/// The words of a sentence, one after the other, each with its length field.
pub open spec fn encode_words(words: Seq<Seq<u8>>) -> Seq<u8>
    decreases words.len(),
{
    if words.len() == 0 {
        Seq::empty()
    } else {
        encode_words(words.drop_last()) + encode_word(words.last(), false)
    }
}

/// The UTF-8 bytes of each line.
pub open spec fn line_bytes(lines: Seq<String>) -> Seq<Seq<u8>> {
    lines.map_values(|s: String| encode_utf8(s@))
}

/// Appends the words `lines` to `out`.
fn push_words(out: &mut Vec<u8>, lines: &Vec<String>)
    ensures
        final(out)@ == old(out)@ + encode_words(line_bytes(lines@)),
{
    let ghost start = out@;
    let ghost words = line_bytes(lines@);
    for k in 0..lines.len()
        invariant
            words == line_bytes(lines@),
            out@ == start + encode_words(words.take(k as int)),
    {
        let w = hexer(lines[k].as_str().as_bytes(), false);
        let ghost before = out@;
        for m in 0..w.len()
            invariant
                out@ == before + w@.take(m as int),
        {
            out.push(w[m]);
            assert(w@.take(m + 1) == w@.take(m as int).push(w@[m as int]));
        }
        assert(w@.take(w.len() as int) == w@);
        assert(words.take(k + 1).drop_last() == words.take(k as int));
        assert(start + encode_words(words.take(k + 1)) == before + w@);
    }
    assert(words.take(lines.len() as int) == words);
}

/// A sentence on the wire: the words `lines` and a closing zero byte.
pub open spec fn sentence(lines: Seq<String>) -> Seq<u8> {
    encode_words(line_bytes(lines)) + seq![0u8]
}

/// Encodes the sentence `lines` as it is sent to the router.
pub fn sentence_bytes(lines: &Vec<String>) -> (res: Vec<u8>)
    ensures
        res@ == sentence(lines@),
{
    let mut out: Vec<u8> = Vec::new();
    push_words(&mut out, lines);
    out.push(0);
    assert(out@ =~= sentence(lines@));
    out
}

/// The extra words that a command sends after its own lines.
pub open spec fn query_lines(query: Queries) -> Seq<String> {
    match query.query {
        Some(q) => q@,
        None => Seq::empty(),
    }
}

/// Encodes a command: the words `lines`, then the extra words of `query`,
/// then the closing zero byte.
pub fn command_bytes(lines: &Vec<String>, query: &Queries) -> (res: Vec<u8>)
    ensures
        res@ == encode_words(line_bytes(lines@)) + encode_words(line_bytes(query_lines(*query)))
            + seq![0u8],
{
    let mut out: Vec<u8> = Vec::new();
    push_words(&mut out, lines);
    match &query.query {
        Some(q) => {
            push_words(&mut out, q);
        },
        None => {
            assert(encode_words(line_bytes(Seq::<String>::empty())) =~= Seq::<u8>::empty());
        },
    }
    out.push(0);
    out
}

} // verus!
