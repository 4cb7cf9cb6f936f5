//! The wire format: `KEY=VALUE` lines separated by newline bytes.
//!
//! `split_lines` splits a byte buffer on every newline; `parse_segment`
//! reads one segment, taking the bytes before the first `=` as the key
//! and the bytes after it as the value, and yields nothing when the
//! segment has no `=` or either side is not valid UTF-8. `env_map` is
//! the mapping a whole buffer denotes, later lines overriding earlier
//! ones; `render` is the inverse direction, one `KEY=VALUE\n` line per
//! entry in sequence order.

use vstd::prelude::*;
use crate::store::{Pair, abs_entries, sorted_keys, map_of, store_insert};
use vstd::utf8::{valid_utf8, decode_utf8, encode_utf8};

verus! {

/// The line separator.
pub const NL: u8 = 10;

/// The key-value separator.
pub const EQ: u8 = 61;

/// The segments a buffer splits into at every newline byte. A buffer
/// with `n` newlines yields `n + 1` segments; in particular the result
/// is never empty, and a trailing newline yields a final empty segment.
pub open spec fn split_lines(bytes: Seq<u8>) -> Seq<Seq<u8>>
    decreases bytes.len(),
{
    if bytes.len() == 0 {
        seq![Seq::<u8>::empty()]
    } else {
        let rest = split_lines(bytes.drop_last());
        if bytes.last() == NL {
            rest.push(Seq::<u8>::empty())
        } else {
            rest.update(rest.len() - 1, rest.last().push(bytes.last()))
        }
    }
}

/// Splitting yields at least one segment.
pub proof fn lemma_split_lines_len(bytes: Seq<u8>)
    ensures
        split_lines(bytes).len() >= 1,
    decreases bytes.len(),
{
    if bytes.len() > 0 {
        lemma_split_lines_len(bytes.drop_last());
    }
}

/// The position of the first `=` in a segment, if any.
pub open spec fn find_eq(seg: Seq<u8>) -> Option<int>
    decreases seg.len(),
{
    if seg.len() == 0 {
        None
    } else if seg[0] == EQ {
        Some(0int)
    } else {
        match find_eq(seg.drop_first()) {
            None => None,
            Some(i) => Some(i + 1),
        }
    }
}

/// A segment without `=` has no split position.
pub proof fn lemma_find_eq_none(seg: Seq<u8>)
    requires
        forall|j: int| 0 <= j < seg.len() ==> seg[j] != EQ,
    ensures
        find_eq(seg) is None,
    decreases seg.len(),
{
    if seg.len() > 0 {
        assert(forall|j: int| 0 <= j < seg.drop_first().len() ==> #[trigger] seg.drop_first()[j]
            == seg[j + 1]);
        lemma_find_eq_none(seg.drop_first());
    }
}

/// The first `=` of a segment is found exactly where it stands.
pub proof fn lemma_find_eq_at(seg: Seq<u8>, i: int)
    requires
        0 <= i < seg.len(),
        seg[i] == EQ,
        forall|j: int| 0 <= j < i ==> seg[j] != EQ,
    ensures
        find_eq(seg) == Some(i),
    decreases i,
{
    if i > 0 {
        assert(forall|j: int| 0 <= j < seg.drop_first().len() ==> #[trigger] seg.drop_first()[j]
            == seg[j + 1]);
        assert(seg.drop_first()[i - 1] == EQ);
        lemma_find_eq_at(seg.drop_first(), i - 1);
    }
}

/// A segment without `=` contributes no entry and changes nothing.
pub proof fn lemma_no_eq_skipped(m: Map<Seq<char>, Seq<char>>, seg: Seq<u8>)
    requires
        forall|j: int| 0 <= j < seg.len() ==> seg[j] != EQ,
    ensures
        parse_segment(seg) is None,
        seg_apply(m, seg) == m,
{
    lemma_find_eq_none(seg);
}

/// The entry one segment contributes: the text before the first `=` as
/// key, the text after it as value; nothing when there is no `=` or a
/// side is not valid UTF-8.
pub open spec fn parse_segment(seg: Seq<u8>) -> Option<Pair> {
    match find_eq(seg) {
        None => None,
        Some(i) => {
            let kb = seg.take(i);
            let vb = seg.skip(i + 1);
            if valid_utf8(kb) && valid_utf8(vb) {
                Some((decode_utf8(kb), decode_utf8(vb)))
            } else {
                None
            }
        },
    }
}

/// One segment applied to a mapping: skipped, or inserted over it.
pub open spec fn seg_apply(m: Map<Seq<char>, Seq<char>>, seg: Seq<u8>) -> Map<
    Seq<char>,
    Seq<char>,
> {
    match parse_segment(seg) {
        None => m,
        Some(p) => m.insert(p.0, p.1),
    }
}

/// The mapping a sequence of segments denotes, in order.
pub open spec fn map_of_segments(segs: Seq<Seq<u8>>) -> Map<Seq<char>, Seq<char>>
    decreases segs.len(),
{
    if segs.len() == 0 {
        Map::empty()
    } else {
        seg_apply(map_of_segments(segs.drop_last()), segs.last())
    }
}

/// The mapping a whole buffer denotes.
pub open spec fn env_map(bytes: Seq<u8>) -> Map<Seq<char>, Seq<char>> {
    map_of_segments(split_lines(bytes))
}

/// The serialised form of one entry: `KEY=VALUE` and a newline.
pub open spec fn line_bytes(p: Pair) -> Seq<u8> {
    encode_utf8(p.0) + seq![EQ] + encode_utf8(p.1) + seq![NL]
}

/// The serialised form of a sequence of entries, in sequence order.
pub open spec fn render(es: Seq<Pair>) -> Seq<u8>
    decreases es.len(),
{
    if es.len() == 0 {
        Seq::<u8>::empty()
    } else {
        render(es.drop_last()) + line_bytes(es.last())
    }
}

/// The segment an entry turns into: `KEY=VALUE` without the newline.
pub open spec fn seg_of(p: Pair) -> Seq<u8> {
    encode_utf8(p.0) + seq![EQ] + encode_utf8(p.1)
}

/// The segments of a sequence of entries, one per entry.
pub open spec fn segments_of(es: Seq<Pair>) -> Seq<Seq<u8>> {
    Seq::new(es.len(), |i: int| seg_of(es[i]))
}

/// An entry whose serialised line parses back to itself: no `=` in the
/// key's bytes, no newline in the key's or the value's bytes.
pub open spec fn line_ok(p: Pair) -> bool {
    !encode_utf8(p.0).contains(EQ) && !encode_utf8(p.0).contains(NL) && !encode_utf8(
        p.1,
    ).contains(NL)
}

/// Appending newline-free bytes extends the final segment.
proof fn lemma_split_append_no_nl(x: Seq<u8>, y: Seq<u8>)
    requires
        forall|j: int| 0 <= j < y.len() ==> y[j] != NL,
    ensures
        split_lines(x + y) == split_lines(x).update(
            split_lines(x).len() - 1,
            split_lines(x).last() + y,
        ),
    decreases y.len(),
{
    lemma_split_lines_len(x);
    let sx = split_lines(x);
    if y.len() == 0 {
        assert(x + y =~= x);
        assert(sx.last() + y =~= sx.last());
        assert(sx.update(sx.len() - 1, sx.last()) =~= sx);
    } else {
        let yd = y.drop_last();
        let b = y.last();
        assert(forall|j: int| 0 <= j < yd.len() ==> #[trigger] yd[j] == y[j]);
        lemma_split_append_no_nl(x, yd);
        let s1 = split_lines(x + yd);
        lemma_split_lines_len(x + yd);
        assert(x + y =~= (x + yd).push(b));
        assert((x + yd).push(b).drop_last() =~= x + yd);
        assert(split_lines(x + y) == s1.update(s1.len() - 1, s1.last().push(b)));
        assert(s1.last() == sx.last() + yd);
        assert((sx.last() + yd).push(b) =~= sx.last() + y);
        assert(s1.update(s1.len() - 1, s1.last().push(b)) =~= sx.update(
            sx.len() - 1,
            sx.last() + y,
        ));
    }
}

/// Rendering and splitting are inverse on the segment level: the
/// rendered buffer splits into one segment per entry and a final empty
/// segment from the trailing newline.
proof fn lemma_render_split(es: Seq<Pair>)
    requires
        forall|i: int| 0 <= i < es.len() ==> line_ok(#[trigger] es[i]),
    ensures
        split_lines(render(es)) == segments_of(es).push(Seq::<u8>::empty()),
    decreases es.len(),
{
    if es.len() == 0 {
        assert(render(es) =~= Seq::<u8>::empty());
        assert(split_lines(render(es)) =~= segments_of(es).push(Seq::<u8>::empty()));
    } else {
        let dl = es.drop_last();
        let p = es.last();
        assert(forall|i: int| 0 <= i < dl.len() ==> #[trigger] dl[i] == es[i]);
        lemma_render_split(dl);
        let sd = segments_of(dl).push(Seq::<u8>::empty());
        let seg = seg_of(p);
        assert(es[es.len() - 1] == p);
        assert(line_ok(p));
        assert(forall|j: int| 0 <= j < seg.len() ==> seg[j] != NL) by {
            assert(forall|j: int|
                0 <= j < encode_utf8(p.0).len() ==> seg[j] == #[trigger] encode_utf8(p.0)[j]);
            assert(seg[encode_utf8(p.0).len() as int] == EQ);
            assert(forall|j: int|
                0 <= j < encode_utf8(p.1).len() ==> seg[encode_utf8(p.0).len() + 1 + j]
                    == #[trigger] encode_utf8(p.1)[j]);
        }
        lemma_split_append_no_nl(render(dl), seg);
        let s1 = split_lines(render(dl) + seg);
        lemma_split_lines_len(render(dl) + seg);
        assert(s1 =~= segments_of(dl).push(seg));
        assert(render(es) =~= (render(dl) + seg).push(NL));
        assert((render(dl) + seg).push(NL).drop_last() =~= render(dl) + seg);
        assert(split_lines(render(es)) == s1.push(Seq::<u8>::empty()));
        assert(segments_of(es) =~= segments_of(dl).push(seg));
    }
}

/// A well-formed entry's segment parses back to exactly that entry.
proof fn lemma_parse_seg_of(p: Pair)
    requires
        line_ok(p),
    ensures
        parse_segment(seg_of(p)) == Some(p),
{
    let kb = encode_utf8(p.0);
    let vb = encode_utf8(p.1);
    let seg = seg_of(p);
    assert(forall|j: int| 0 <= j < kb.len() ==> seg[j] == #[trigger] kb[j]);
    assert(seg[kb.len() as int] == EQ);
    assert(forall|j: int| 0 <= j < vb.len() ==> seg[kb.len() + 1 + j] == #[trigger] vb[j]);
    assert(forall|j: int| 0 <= j < kb.len() ==> seg[j] != EQ) by {
        assert(forall|j: int| 0 <= j < kb.len() && #[trigger] kb[j] == EQ ==> kb.contains(EQ));
    }
    lemma_find_eq_at(seg, kb.len() as int);
    assert(seg.take(kb.len() as int) =~= kb);
    assert(seg.skip(kb.len() as int + 1) =~= vb);
    vstd::utf8::encode_utf8_valid_utf8(p.0);
    vstd::utf8::encode_utf8_valid_utf8(p.1);
    vstd::utf8::encode_utf8_decode_utf8(p.0);
    vstd::utf8::encode_utf8_decode_utf8(p.1);
    assert((decode_utf8(kb), decode_utf8(vb)) == p);
}

/// The mapping of the segments of entries is the mapping of the entries.
proof fn lemma_map_segments(es: Seq<Pair>)
    requires
        forall|i: int| 0 <= i < es.len() ==> line_ok(#[trigger] es[i]),
    ensures
        map_of_segments(segments_of(es)) == map_of(es),
    decreases es.len(),
{
    if es.len() > 0 {
        let dl = es.drop_last();
        assert(forall|i: int| 0 <= i < dl.len() ==> #[trigger] dl[i] == es[i]);
        lemma_map_segments(dl);
        let segs = segments_of(es);
        assert(segs.drop_last() =~= segments_of(dl));
        assert(segs.last() == seg_of(es.last()));
        assert(es[es.len() - 1] == es.last());
        lemma_parse_seg_of(es.last());
        assert(map_of_segments(segs) == seg_apply(map_of_segments(segs.drop_last()), segs.last()));
    }
}

/// Parsing a rendered buffer denotes the mapping of the rendered
/// entries: every well-formed line survives the trip through bytes.
pub proof fn lemma_parse_render(es: Seq<Pair>)
    requires
        forall|i: int| 0 <= i < es.len() ==> line_ok(#[trigger] es[i]),
    ensures
        env_map(render(es)) == map_of(es),
{
    lemma_render_split(es);
    lemma_map_segments(es);
    let segs = segments_of(es).push(Seq::<u8>::empty());
    assert(segs.drop_last() =~= segments_of(es));
    assert(segs.last() == Seq::<u8>::empty());
    assert(find_eq(Seq::<u8>::empty()) is None);
    assert(map_of_segments(segs) == seg_apply(
        map_of_segments(segs.drop_last()),
        segs.last(),
    ));
}

/// Relies on `String::from_utf8`: it succeeds exactly on valid UTF-8
/// input, and the characters of the resulting string are the decoding
/// of those bytes.
#[verifier::external_body]
fn string_from_bytes(bytes: Vec<u8>) -> (r: Option<String>)
    ensures
        r is Some <==> valid_utf8(bytes@),
        match r {
            Some(s) => s@ == decode_utf8(bytes@),
            None => !valid_utf8(bytes@),
        },
{
    String::from_utf8(bytes).ok()
}

/// Append a byte slice to a buffer.
pub fn push_bytes(dst: &mut Vec<u8>, src: &[u8])
    ensures
        final(dst)@ == old(dst)@ + src@,
{
    let mut i: usize = 0;
    while i < src.len()
        invariant
            0 <= i <= src@.len(),
            dst@ == old(dst)@ + src@.take(i as int),
        decreases src@.len() - i,
    {
        dst.push(src[i]);
        proof {
            assert(old(dst)@ + src@.take(i + 1) =~= (old(dst)@ + src@.take(i as int)).push(
                src@[i as int],
            ));
        }
        i += 1;
    }
    proof {
        assert(src@.take(src@.len() as int) =~= src@);
    }
}

/// Feed one segment into a sorted entry list: the entry it denotes is
/// inserted, and a segment that denotes none leaves the list unchanged.
pub fn apply_segment(entries: &mut Vec<(String, String)>, seg: &Vec<u8>)
    requires
        sorted_keys(abs_entries(old(entries)@)),
    ensures
        sorted_keys(abs_entries(final(entries)@)),
        map_of(abs_entries(final(entries)@)) == seg_apply(
            map_of(abs_entries(old(entries)@)),
            seg@,
        ),
{
    let n: usize = seg.len();
    let mut pos: usize = 0;
    loop
        invariant
            0 <= pos <= n,
            n == seg@.len(),
            forall|j: int| 0 <= j < pos ==> seg@[j] != EQ,
        ensures
            0 <= pos <= n,
            forall|j: int| 0 <= j < pos ==> seg@[j] != EQ,
            pos < n ==> seg@[pos as int] == EQ,
        decreases n - pos,
    {
        if pos >= n {
            break;
        }
        if seg[pos] == EQ {
            break;
        }
        pos += 1;
    }
    if pos >= n {
        proof {
            lemma_find_eq_none(seg@);
        }
        return ;
    }
    proof {
        lemma_find_eq_at(seg@, pos as int);
    }
    let mut kb: Vec<u8> = Vec::new();
    let mut x: usize = 0;
    while x < pos
        invariant
            0 <= x <= pos < n,
            n == seg@.len(),
            kb@ == seg@.take(x as int),
        decreases pos - x,
    {
        kb.push(seg[x]);
        proof {
            assert(seg@.take(x + 1) =~= seg@.take(x as int).push(seg@[x as int]));
        }
        x += 1;
    }
    let mut vb: Vec<u8> = Vec::new();
    let mut y: usize = pos + 1;
    while y < n
        invariant
            pos + 1 <= y <= n,
            n == seg@.len(),
            vb@ == seg@.subrange(pos + 1, y as int),
        decreases n - y,
    {
        vb.push(seg[y]);
        proof {
            assert(seg@.subrange(pos + 1, y + 1) =~= seg@.subrange(pos + 1, y as int).push(
                seg@[y as int],
            ));
        }
        y += 1;
    }
    let ghost kbs = kb@;
    let ghost vbs = vb@;
    proof {
        assert(kbs == seg@.take(pos as int));
        assert(vbs == seg@.skip(pos + 1));
    }
    let ks = string_from_bytes(kb);
    let vs = string_from_bytes(vb);
    match (ks, vs) {
        (Some(k), Some(v)) => {
            proof {
                assert(parse_segment(seg@) == Some((k@, v@)));
            }
            store_insert(entries, k, v);
        },
        _ => {
            proof {
                assert(parse_segment(seg@) is None);
            }
        },
    }
}

} // verus!
