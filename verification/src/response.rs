//! Parsing of a decoded reply into metric records.
//!
//! The reply text is cut into lines. The first line is the reply word of the
//! first sentence. Each further `!re` line closes a record; each line that
//! holds `=` is an attribute `key=value` that adds samples to the current
//! record, as the command's configuration selects them. Every record ends
//! with the router's name as the label `routerboard_name`.

use vstd::prelude::*;
use vstd::utf8::encode_utf8;
use vstd::utf8::is_char_boundary;
use crate::config::Queries;
use crate::metrics::Metrics;
use crate::metrics::Record;
use crate::metrics::Sample;
use crate::metrics::SampleView;
use crate::metrics::record_view;
use crate::metrics::records_view;
use crate::text::chars_of;
use crate::text::contains;
use crate::text::decimal;
use crate::text::extend;
use crate::text::has_infix;
use crate::text::replace_all;
use crate::text::replace_chars;
use crate::text::same_chars;
use crate::text::split_chars;
use crate::text::split_text;
use crate::text::string_of;
use crate::text::usize_decimal;
use crate::text::views;

verus! {

/// `list` is present and holds a string equal to `key`.
pub open spec fn opt_has(list: Option<Vec<String>>, key: Seq<char>) -> bool {
    match list {
        Some(v) => exists|i: int| 0 <= i < v@.len() && #[trigger] v@[i]@ == key,
        None => false,
    }
}

/// One sample for each non-empty piece, named after the key and the piece's
/// position (`key_0`, `key_1`, ...), from position `from` on.
pub open spec fn indexed_samples(pieces: Seq<Seq<char>>, key: Seq<char>, graph: bool, from: int) -> Seq<
    SampleView,
>
    decreases pieces.len() - from,
{
    if from < 0 || from >= pieces.len() {
        Seq::empty()
    } else if pieces[from].len() == 0 {
        indexed_samples(pieces, key, graph, from + 1)
    } else {
        seq![(key + seq!['_'] + decimal(from as nat), graph, pieces[from])] + indexed_samples(
            pieces,
            key,
            graph,
            from + 1,
        )
    }
}

/// The value of an attribute as it is reported: `true` as `1`, `false` as
/// `0`, anything else as it is.
pub open spec fn reported_value(raw: Seq<char>) -> Seq<char> {
    if raw == seq!['t', 'r', 'u', 'e'] {
        seq!['1']
    } else if raw == seq!['f', 'a', 'l', 's', 'e'] {
        seq!['0']
    } else {
        raw
    }
}

/// The samples that the attribute line `piece` (`key=value...`) adds to a
/// record. The key is reported with `-` written as `_`. The attribute gives a
/// value sample when `graph_targets` names it, and a label sample when
/// `attributes` names it or is absent. When the key is one of `split_targets`
/// and the value holds `split_character`, the value is split there and each
/// non-empty piece gives its own samples, named after its position.
pub open spec fn attribute_samples(piece: Seq<char>, q: Queries) -> Seq<SampleView> {
    let parts = split_text(piece, seq!['=']);
    let key = parts[0];
    let kf = replace_all(key, seq!['-'], seq!['_']);
    let value = reported_value(parts[1]);
    let graph = opt_has(q.graph_targets, key);
    let label = match q.attributes {
        Some(_) => opt_has(q.attributes, key),
        None => true,
    };
    let split = match q.split_character {
        Some(sc) => opt_has(q.split_targets, key) && has_infix(value, sc@),
        None => false,
    };
    if split {
        let ps = split_text(value, q.split_character.unwrap()@);
        (if graph {
            indexed_samples(ps, kf, true, 0)
        } else {
            Seq::empty()
        }) + (if label {
            indexed_samples(ps, kf, false, 0)
        } else {
            Seq::empty()
        })
    } else {
        (if graph {
            seq![(kf, true, value)]
        } else {
            Seq::empty()
        }) + (if label {
            seq![(kf, false, value)]
        } else {
            Seq::empty()
        })
    }
}

/// The label that closes every record: the router's name.
pub open spec fn name_sample(instance: Seq<char>) -> SampleView {
    (
        seq![
            'r',
            'o',
            'u',
            't',
            'e',
            'r',
            'b',
            'o',
            'a',
            'r',
            'd',
            '_',
            'n',
            'a',
            'm',
            'e',
        ],
        false,
        instance,
    )
}

/// The line that closes a record.
pub open spec fn is_record_end(line: Seq<char>) -> bool {
    line == seq!['!', 'r', 'e']
}

/// The records closed and the record being read after the lines `lines`.
pub open spec fn scan_lines(lines: Seq<Seq<char>>, q: Queries, instance: Seq<char>) -> (
    Seq<Seq<SampleView>>,
    Seq<SampleView>,
)
    decreases lines.len(),
{
    if lines.len() == 0 {
        (Seq::empty(), Seq::empty())
    } else {
        let (done, cur) = scan_lines(lines.drop_last(), q, instance);
        let line = lines.last();
        if is_record_end(line) {
            (done.push(cur.push(name_sample(instance))), Seq::empty())
        } else if has_infix(line, seq!['=']) {
            (done, cur + attribute_samples(line, q))
        } else {
            (done, cur)
        }
    }
}

/// The lines of a reply text.
pub open spec fn reply_lines(text: Seq<char>) -> Seq<Seq<char>> {
    split_text(text, seq!['\n'])
}

/// The records of a reply text: those that the lines after the first close,
/// and the last one, closed at the end.
pub open spec fn reply_records(text: Seq<char>, q: Queries, instance: Seq<char>) -> Seq<
    Seq<SampleView>,
> {
    let (done, cur) = scan_lines(reply_lines(text).drop_first(), q, instance);
    done.push(cur.push(name_sample(instance)))
}

/// The UTF-8 bytes of the first line of a reply text.
pub open spec fn head_bytes(text: Seq<char>) -> Seq<u8> {
    encode_utf8(reply_lines(text)[0])
}

/// The first line begins with the ASCII bytes `tag`.
pub open spec fn head_is(fb: Seq<u8>, tag: Seq<u8>) -> bool {
    fb.len() >= tag.len() && fb.take(tag.len() as int) == tag
}

/// `!done`
pub open spec fn done_tag() -> Seq<u8> {
    seq![33u8, 100u8, 111u8, 110u8, 101u8]
}

/// `!trap`
pub open spec fn trap_tag() -> Seq<u8> {
    seq![33u8, 116u8, 114u8, 97u8, 112u8]
}

/// `!fatal`
pub open spec fn fatal_tag() -> Seq<u8> {
    seq![33u8, 102u8, 97u8, 116u8, 97u8, 108u8]
}

/// The first line is looked at in its first five bytes, then (unless a
/// verbose `!done` or `!trap` ended the look) in its first six: a cut inside
/// a character there stops the parser.
pub open spec fn head_cut_inside_char(text: Seq<char>, verbose: bool) -> bool {
    let fb = head_bytes(text);
    ||| (fb.len() >= 5 && !is_char_boundary(fb, 5))
    ||| (!(verbose && head_is(fb, done_tag())) && !(verbose && head_is(fb, trap_tag())) && fb.len()
        >= 6 && !is_char_boundary(fb, 6))
}

/// A verbose parse of a reply whose first line begins with `!done` fails.
pub open spec fn empty_reply(text: Seq<char>, verbose: bool) -> bool {
    verbose && head_is(head_bytes(text), done_tag())
}

/// A verbose parse of a reply whose first line begins with `!trap` or
/// `!fatal` fails.
pub open spec fn error_reply(text: Seq<char>, verbose: bool) -> bool {
    verbose && (head_is(head_bytes(text), trap_tag()) || head_is(head_bytes(text), fatal_tag()))
}

/// The message of a verbose parse of a `!done` reply.
pub open spec fn empty_reply_message(address: Seq<char>, command: Seq<char>) -> Seq<char> {
    fg_light_yellow() + "Empty message recieved"@ + fg_reset() + ": '!done' from "@ + fg_light_cyan()
        + address + fg_reset() + " in command "@ + command
}

/// The message of a verbose parse of a `!trap` or `!fatal` reply.
pub open spec fn error_reply_message(head: Seq<char>, address: Seq<char>, command: Seq<char>) -> Seq<
    char,
> {
    fg_light_red() + head + fg_reset() + " responce from "@ + fg_light_cyan() + address + fg_reset()
        + " in command "@ + command
}

/// The terminal sequence that turns the text light yellow.
pub open spec fn fg_light_yellow() -> Seq<char> {
    "\x1B[38;5;11m"@
}

/// The terminal sequence that turns the text light red.
pub open spec fn fg_light_red() -> Seq<char> {
    "\x1B[38;5;9m"@
}

/// The terminal sequence that turns the text light cyan.
pub open spec fn fg_light_cyan() -> Seq<char> {
    "\x1B[38;5;14m"@
}

/// The terminal sequence that gives the text its default colour again.
pub open spec fn fg_reset() -> Seq<char> {
    "\x1B[39m"@
}

/// `termion::color::LightYellow::fg_str`. Claimed: it gives the sequence
/// `ESC [38;5;11m` (colour 11 of the 256-colour palette).
#[verifier::external_body]
fn light_yellow_fg() -> (res: &'static str)
    ensures
        res@ == fg_light_yellow(),
{
    termion::color::LightYellow.fg_str()
}

/// `termion::color::LightRed::fg_str`. Claimed: it gives the sequence
/// `ESC [38;5;9m` (colour 9 of the 256-colour palette).
#[verifier::external_body]
fn light_red_fg() -> (res: &'static str)
    ensures
        res@ == fg_light_red(),
{
    termion::color::LightRed.fg_str()
}

/// `termion::color::LightCyan::fg_str`. Claimed: it gives the sequence
/// `ESC [38;5;14m` (colour 14 of the 256-colour palette).
#[verifier::external_body]
fn light_cyan_fg() -> (res: &'static str)
    ensures
        res@ == fg_light_cyan(),
{
    termion::color::LightCyan.fg_str()
}

/// `termion::color::Reset::fg_str`. Claimed: it gives the sequence
/// `ESC [39m`, the default foreground.
#[verifier::external_body]
fn reset_fg() -> (res: &'static str)
    ensures
        res@ == fg_reset(),
{
    termion::color::Reset.fg_str()
}

proof fn lemma_split_two(s: Seq<char>, sep: Seq<char>)
    requires
        sep.len() > 0,
        has_infix(s, sep),
    ensures
        crate::text::split_nonempty(s, sep).len() >= 2,
    decreases s.len(),
{
    let i = choose|i: int| crate::text::occurs_at(s, sep, i);
    if crate::text::has_prefix(s, sep) {
        crate::text::lemma_split_nonempty_len(s.skip(sep.len() as int), sep);
    } else {
        assert(i > 0) by {
            if i == 0 {
                assert(crate::text::occurs_at(s, sep, 0));
            }
        }
        assert(s.len() > 0);
        assert(crate::text::occurs_at(s.drop_first(), sep, i - 1)) by {
            assert(s.drop_first().subrange(i - 1, i - 1 + sep.len()) =~= s.subrange(
                i,
                i + sep.len(),
            ));
        }
        lemma_split_two(s.drop_first(), sep);
    }
}

/// The characters of a literal.
fn lit(s: &str) -> (res: Vec<char>)
    ensures
        res@ == s@,
{
    chars_of(s)
}

/// Whether `list` holds a string equal to `key`.
fn list_has(list: &Vec<String>, key: &[char]) -> (res: bool)
    ensures
        res == exists|i: int| 0 <= i < list@.len() && #[trigger] list@[i]@ == key@,
{
    for i in 0..list.len()
        invariant
            forall|j: int| 0 <= j < i ==> list@[j]@ != key@,
    {
        let cs = chars_of(list[i].as_str());
        if same_chars(cs.as_slice(), key) {
            return true;
        }
    }
    false
}

/// Whether `list` is present and holds a string equal to `key`.
fn opt_list_has(list: &Option<Vec<String>>, key: &[char]) -> (res: bool)
    ensures
        res == opt_has(*list, key@),
{
    match list {
        Some(v) => list_has(v, key),
        None => false,
    }
}

/// A copy of a run of characters.
fn copy_chars(v: &[char]) -> (res: Vec<char>)
    ensures
        res@ == v@,
{
    let mut out: Vec<char> = Vec::new();
    extend(&mut out, v);
    out
}

/// Appends one sample for each non-empty piece, named after `key` and the
/// piece's position.
fn push_indexed(out: &mut Vec<Sample>, pieces: &Vec<Vec<char>>, key: &[char], graph: bool)
    ensures
        record_view(final(out)@) == record_view(old(out)@) + indexed_samples(
            views(pieces@),
            key@,
            graph,
            0,
        ),
{
    let ghost start = out@;
    let ghost ps = views(pieces@);
    for i in 0..pieces.len()
        invariant
            ps == views(pieces@),
            record_view(start) + indexed_samples(ps, key@, graph, 0) == record_view(out@)
                + indexed_samples(ps, key@, graph, i as int),
    {
        let ghost before = out@;
        if pieces[i].len() != 0 {
            let mut name: Vec<char> = Vec::new();
            extend(&mut name, key);
            name.push('_');
            let d = usize_decimal(i);
            extend(&mut name, d.as_slice());
            assert(name@ =~= key@ + seq!['_'] + decimal(i as nat));
            assert(ps[i as int] == pieces@[i as int]@);
            let sample: Sample = (string_of(name.as_slice()), graph, string_of(pieces[i].as_slice()));
            out.push(sample);
            assert(record_view(out@) =~= record_view(before).push(
                (key@ + seq!['_'] + decimal(i as nat), graph, ps[i as int]),
            ));
            assert(record_view(before) + indexed_samples(ps, key@, graph, i as int) =~= record_view(
                out@,
            ) + indexed_samples(ps, key@, graph, i + 1));
        } else {
            assert(ps[i as int].len() == 0);
        }
    }
    assert(indexed_samples(ps, key@, graph, pieces.len() as int) =~= Seq::<SampleView>::empty());
    assert(record_view(out@) + Seq::<SampleView>::empty() =~= record_view(out@));
}

/// Appends the samples that the attribute line `piece` adds to a record.
fn push_attribute_samples(out: &mut Vec<Sample>, piece: &[char], q: &Queries)
    requires
        has_infix(piece@, seq!['=']),
    ensures
        record_view(final(out)@) == record_view(old(out)@) + attribute_samples(piece@, *q),
{
    let ghost start = out@;
    let eq = lit("=");
    let dash = lit("-");
    let under = lit("_");
    let t = lit("true");
    let f = lit("false");
    let one = lit("1");
    let zero = lit("0");
    proof {
        reveal_strlit("=");
        reveal_strlit("-");
        reveal_strlit("_");
        reveal_strlit("true");
        reveal_strlit("false");
        reveal_strlit("1");
        reveal_strlit("0");
        assert(eq@ =~= seq!['=']);
        assert(dash@ =~= seq!['-']);
        assert(under@ =~= seq!['_']);
        assert(t@ =~= seq!['t', 'r', 'u', 'e']);
        assert(f@ =~= seq!['f', 'a', 'l', 's', 'e']);
        assert(one@ =~= seq!['1']);
        assert(zero@ =~= seq!['0']);
        lemma_split_two(piece@, eq@);
    }
    let parts = split_chars(piece, eq.as_slice());
    let key = parts[0].as_slice();
    let kf = replace_chars(key, dash.as_slice(), under.as_slice());
    let raw = parts[1].as_slice();
    assert(views(parts@)[0] == parts@[0]@);
    assert(views(parts@)[1] == parts@[1]@);
    assert(kf@ == replace_all(key@, seq!['-'], seq!['_']));
    let value = if same_chars(raw, t.as_slice()) {
        one
    } else if same_chars(raw, f.as_slice()) {
        zero
    } else {
        copy_chars(raw)
    };
    assert(value@ == reported_value(parts@[1]@));
    let graph = opt_list_has(&q.graph_targets, key);
    let label = match &q.attributes {
        Some(_) => opt_list_has(&q.attributes, key),
        None => true,
    };
    let split = match &q.split_character {
        Some(sc) => {
            let scs = chars_of(sc.as_str());
            opt_list_has(&q.split_targets, key) && contains(value.as_slice(), scs.as_slice())
        },
        None => false,
    };
    if split {
        let sc = chars_of(q.split_character.as_ref().unwrap().as_str());
        let ps = split_chars(value.as_slice(), sc.as_slice());
        if graph {
            push_indexed(out, &ps, kf.as_slice(), true);
        }
        let ghost mid = out@;
        if label {
            push_indexed(out, &ps, kf.as_slice(), false);
        }
        assert(record_view(out@) =~= record_view(start) + attribute_samples(piece@, *q));
    } else {
        if graph {
            let sample: Sample = (string_of(kf.as_slice()), true, string_of(value.as_slice()));
            out.push(sample);
        }
        let ghost mid = out@;
        if label {
            let sample: Sample = (string_of(kf.as_slice()), false, string_of(value.as_slice()));
            out.push(sample);
        }
        assert(record_view(out@) =~= record_view(start) + attribute_samples(piece@, *q));
    }
}

/// Whether `fb` begins with the bytes `tag`.
fn starts_with_bytes(fb: &[u8], tag: &[u8]) -> (res: bool)
    ensures
        res == head_is(fb@, tag@),
{
    if fb.len() < tag.len() {
        return false;
    }
    let mut k: usize = 0;
    while k < tag.len()
        invariant
            tag.len() <= fb.len(),
            k <= tag.len(),
            forall|j: int| 0 <= j < k ==> fb@[j] == tag@[j],
        decreases tag.len() - k,
    {
        if fb[k] != tag[k] {
            assert(fb@.take(tag.len() as int)[k as int] != tag@[k as int]);
            return false;
        }
        k = k + 1;
    }
    assert(fb@.take(tag.len() as int) =~= tag@);
    true
}

/// The bytes `b0 b1 b2 b3 b4`, and `b5` when given.
fn tag(b0: u8, b1: u8, b2: u8, b3: u8, b4: u8, b5: Option<u8>) -> (res: Vec<u8>)
    ensures
        res@ == match b5 {
            Some(x) => seq![b0, b1, b2, b3, b4, x],
            None => seq![b0, b1, b2, b3, b4],
        },
{
    let mut v: Vec<u8> = Vec::new();
    v.push(b0);
    v.push(b1);
    v.push(b2);
    v.push(b3);
    v.push(b4);
    match b5 {
        Some(x) => v.push(x),
        None => {},
    }
    assert(v@ =~= match b5 {
        Some(x) => seq![b0, b1, b2, b3, b4, x],
        None => seq![b0, b1, b2, b3, b4],
    });
    v
}

/// The lines of a reply text and its first line as a string.
fn lines_and_head(responce: &str) -> (res: (Vec<Vec<char>>, String))
    ensures
        views(res.0@) == reply_lines(responce@),
        res.0@.len() >= 1,
        res.1@ == reply_lines(responce@)[0],
{
    let text = chars_of(responce);
    let nl = lit("\n");
    proof {
        reveal_strlit("\n");
        assert(nl@ =~= seq!['\n']);
        crate::text::lemma_split_nonempty_len(responce@, nl@);
    }
    let lines = split_chars(text.as_slice(), nl.as_slice());
    assert(views(lines@)[0] == lines@[0]@);
    let head = string_of(lines[0].as_slice());
    (lines, head)
}

/// Whether looking at the first line of the reply would cut inside a
/// character (see [`head_cut_inside_char`]), which stops the parser.
pub fn head_cut_in_char(responce: &str, verbose: bool) -> (res: bool)
    ensures
        res == head_cut_inside_char(responce@, verbose),
{
    let (_lines, head) = lines_and_head(responce);
    let h = head.as_str();
    let fb = h.as_bytes();
    let done = tag(33, 100, 111, 110, 101, None);
    let trap = tag(33, 116, 114, 97, 112, None);
    let first = fb.len() >= 5 && !h.is_char_boundary(5);
    let second = !(verbose && starts_with_bytes(fb, done.as_slice())) && !(verbose
        && starts_with_bytes(fb, trap.as_slice())) && fb.len() >= 6 && !h.is_char_boundary(6);
    first || second
}

/// Parses a decoded reply into the records of the command `query`, each
/// closed by the label `routerboard_name` with `instance_name`. A verbose
/// parse refuses a reply whose first line is `!done` (an empty reply) or
/// `!trap` or `!fatal` (an error), naming `address` and the command in a
/// message coloured for the terminal.
pub fn response_decoder(
    responce: &str,
    query: &Queries,
    address: &str,
    instance_name: &str,
    verbose: bool,
) -> (res: Result<Metrics, String>)
    requires
        !head_cut_inside_char(responce@, verbose),
    ensures
        match res {
            Ok(m) => !empty_reply(responce@, verbose) && !error_reply(responce@, verbose) && m@ == seq![
                (query.name@, reply_records(responce@, *query, instance_name@)),
            ],
            Err(e) => if empty_reply(responce@, verbose) {
                e@ == empty_reply_message(address@, query.command@)
            } else {
                error_reply(responce@, verbose) && e@ == error_reply_message(
                    reply_lines(responce@)[0],
                    address@,
                    query.command@,
                )
            },
        },
{
    let (lines, head) = lines_and_head(responce);
    let fb = head.as_str().as_bytes();
    let done_t = tag(33, 100, 111, 110, 101, None);
    let trap_t = tag(33, 116, 114, 97, 112, None);
    let fatal_t = tag(33, 102, 97, 116, 97, Some(108));
    if verbose && starts_with_bytes(fb, done_t.as_slice()) {
        let mut msg = lit(light_yellow_fg());
        crate::text::extend_str(&mut msg, "Empty message recieved");
        crate::text::extend_str(&mut msg, reset_fg());
        crate::text::extend_str(&mut msg, ": '!done' from ");
        crate::text::extend_str(&mut msg, light_cyan_fg());
        crate::text::extend_str(&mut msg, address);
        crate::text::extend_str(&mut msg, reset_fg());
        crate::text::extend_str(&mut msg, " in command ");
        crate::text::extend_str(&mut msg, query.command.as_str());
        return Err(string_of(msg.as_slice()));
    }
    if verbose && (starts_with_bytes(fb, trap_t.as_slice()) || starts_with_bytes(
        fb,
        fatal_t.as_slice(),
    )) {
        let mut msg = lit(light_red_fg());
        crate::text::extend_str(&mut msg, head.as_str());
        crate::text::extend_str(&mut msg, reset_fg());
        crate::text::extend_str(&mut msg, " responce from ");
        crate::text::extend_str(&mut msg, light_cyan_fg());
        crate::text::extend_str(&mut msg, address);
        crate::text::extend_str(&mut msg, reset_fg());
        crate::text::extend_str(&mut msg, " in command ");
        crate::text::extend_str(&mut msg, query.command.as_str());
        return Err(string_of(msg.as_slice()));
    }
    let ghost all = views(lines@).drop_first();
    let eq = lit("=");
    let re = lit("!re");
    let label = lit("routerboard_name");
    proof {
        reveal_strlit("=");
        reveal_strlit("!re");
        reveal_strlit("routerboard_name");
        assert(eq@ =~= seq!['=']);
        assert(re@ =~= seq!['!', 'r', 'e']);
        assert(label@ =~= name_sample(instance_name@).0);
    }
    let mut done: Vec<Record> = Vec::new();
    let mut cur: Record = Vec::new();
    assert(all.take(0) =~= Seq::<Seq<char>>::empty());
    for k in 1..lines.len()
        invariant
            lines@.len() >= 1,
            all == views(lines@).drop_first(),
            eq@ == seq!['='],
            re@ == seq!['!', 'r', 'e'],
            label@ == name_sample(instance_name@).0,
            scan_lines(all.take(k - 1), *query, instance_name@) == (
                records_view(done@),
                record_view(cur@),
            ),
    {
        let line = lines[k].as_slice();
        assert(all[k - 1] == line@);
        assert(all.take(k as int).drop_last() =~= all.take(k - 1));
        assert(all.take(k as int).last() == line@);
        if same_chars(line, re.as_slice()) {
            let ghost before = cur@;
            let sample: Sample = (string_of(label.as_slice()), false, instance_name.to_owned());
            cur.push(sample);
            assert(record_view(cur@) =~= record_view(before).push(name_sample(instance_name@)));
            let ghost closed = done@;
            let finished = cur;
            done.push(finished);
            cur = Vec::new();
            assert(records_view(done@) =~= records_view(closed).push(record_view(finished@)));
            assert(record_view(cur@) =~= Seq::<SampleView>::empty());
        } else if contains(line, eq.as_slice()) {
            push_attribute_samples(&mut cur, line, query);
        }
    }
    assert(all.take(lines.len() - 1) =~= all);
    let ghost before = cur@;
    let sample: Sample = (string_of(label.as_slice()), false, instance_name.to_owned());
    cur.push(sample);
    assert(record_view(cur@) =~= record_view(before).push(name_sample(instance_name@)));
    let ghost closed = done@;
    let last = cur;
    done.push(last);
    assert(records_view(done@) =~= records_view(closed).push(record_view(last@)));
    let mut m = Metrics::new();
    let name = query.name.clone();
    m.append_records(name, done);
    Ok(m)
}

proof fn lemma_scan_closed(lines: Seq<Seq<char>>, q: Queries, instance: Seq<char>)
    ensures
        forall|i: int|
            0 <= i < scan_lines(lines, q, instance).0.len() ==> {
                let r = #[trigger] scan_lines(lines, q, instance).0[i];
                r.len() > 0 && r.last() == name_sample(instance)
            },
    decreases lines.len(),
{
    if lines.len() > 0 {
        lemma_scan_closed(lines.drop_last(), q, instance);
        let (done, cur) = scan_lines(lines.drop_last(), q, instance);
        let now = scan_lines(lines, q, instance).0;
        assert forall|i: int| 0 <= i < now.len() implies {
            let r = #[trigger] now[i];
            r.len() > 0 && r.last() == name_sample(instance)
        } by {
            if i < done.len() {
                assert(now[i] == done[i]);
            } else {
                assert(is_record_end(lines.last()));
                assert(now[i] == cur.push(name_sample(instance)));
            }
        }
    }
}

/// Every record of a reply ends with the router's name, the label
/// `routerboard_name`, and a reply always gives at least one record.
pub proof fn records_end_with_router_name(text: Seq<char>, q: Queries, instance: Seq<char>)
    ensures
        reply_records(text, q, instance).len() >= 1,
        forall|i: int|
            0 <= i < reply_records(text, q, instance).len() ==> {
                let r = #[trigger] reply_records(text, q, instance)[i];
                r.len() > 0 && r.last() == name_sample(instance)
            },
{
    let lines = reply_lines(text).drop_first();
    lemma_scan_closed(lines, q, instance);
    let (done, cur) = scan_lines(lines, q, instance);
    assert forall|i: int| 0 <= i < reply_records(text, q, instance).len() implies {
        let r = #[trigger] reply_records(text, q, instance)[i];
        r.len() > 0 && r.last() == name_sample(instance)
    } by {
        if i < done.len() {
            assert(reply_records(text, q, instance)[i] == done[i]);
        }
    }
}

/// The text that an attribute value is reported as: `1` for `true`, `0` for
/// `false`, the value itself otherwise.
pub open spec fn shown_value(v: Seq<char>) -> Seq<char> {
    if v == seq!['t', 'r', 'u', 'e'] {
        seq!['1']
    } else if v == seq!['f', 'a', 'l', 's', 'e'] {
        seq!['0']
    } else {
        v
    }
}

/// Every sample that the attribute line `key=v` adds, when its value is not
/// split, is named after the key (with `-` written as `_`) and carries the
/// reported value (`1` for `true`, `0` for `false`, `v` otherwise), the value
/// sample and the label sample alike. There is a value sample exactly when
/// `graph_targets` names the key, and a label sample exactly when
/// `attributes` names it or is absent; no more than one of each.
pub proof fn attribute_samples_carry_value(key: Seq<char>, v: Seq<char>, q: Queries)
    requires
        forall|j: int| 0 <= j < key.len() ==> key[j] != '=',
        forall|j: int| 0 <= j < v.len() ==> v[j] != '=',
        match q.split_character {
            Some(sc) => !(opt_has(q.split_targets, key) && has_infix(shown_value(v), sc@)),
            None => true,
        },
    ensures
        ({
            let samples = attribute_samples(key + seq!['='] + v, q);
            &&& samples.len() <= 2
            &&& forall|i: int|
                0 <= i < samples.len() ==> (#[trigger] samples[i]).0 == replace_all(
                    key,
                    seq!['-'],
                    seq!['_'],
                ) && samples[i].2 == shown_value(v)
            &&& (exists|i: int| 0 <= i < samples.len() && (#[trigger] samples[i]).1) <==> opt_has(
                q.graph_targets,
                key,
            )
            &&& (exists|i: int| 0 <= i < samples.len() && !(#[trigger] samples[i]).1) <==> match q.attributes {
                Some(_) => opt_has(q.attributes, key),
                None => true,
            }
        }),
{
    let piece = key + seq!['='] + v;
    crate::teller::lemma_split_at_first(key, v, '=');
    crate::teller::lemma_split_plain(v, '=');
    assert(split_text(piece, seq!['=']) =~= seq![key, v]);
    assert(reported_value(v) == shown_value(v));
    let samples = attribute_samples(piece, q);
    let graph = opt_has(q.graph_targets, key);
    let label = match q.attributes {
        Some(_) => opt_has(q.attributes, key),
        None => true,
    };
    let kf = replace_all(key, seq!['-'], seq!['_']);
    let g: Seq<SampleView> = if graph {
        seq![(kf, true, shown_value(v))]
    } else {
        Seq::empty()
    };
    let l: Seq<SampleView> = if label {
        seq![(kf, false, shown_value(v))]
    } else {
        Seq::empty()
    };
    assert(samples == g + l);
    if graph {
        assert(samples[0].1);
    }
    if label {
        assert(!samples[g.len() as int].1);
    }
    assert forall|i: int| 0 <= i < samples.len() implies (#[trigger] samples[i]).1 == (i < g.len()) by {
        if i < g.len() {
            assert(samples[i] == g[i]);
        } else {
            assert(samples[i] == l[i - g.len()]);
        }
    }
}

} // verus!
