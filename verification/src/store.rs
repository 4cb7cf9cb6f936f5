//! The ordered entry list and the mapping it denotes.
//!
//! Entries are key-value pairs of strings, kept sorted strictly ascending
//! by the byte encoding of the key. `map_of` gives the mapping a sequence
//! of pairs denotes, later pairs overriding earlier ones; on a sorted
//! sequence every key occurs once, and the sequence is the one canonical
//! representation of its mapping (`lemma_sorted_entries_unique`).

use vstd::prelude::*;
use crate::order::{lex_lt, lex_cmp, Cmp, lemma_lex_irrefl, lemma_lex_trans};
use vstd::utf8::{encode_utf8, encode_utf8_decode_utf8};

verus! {

/// The abstract content of one entry: key and value as character sequences.
pub type Pair = (Seq<char>, Seq<char>);

/// The abstract entries of an executable entry list.
pub open spec fn abs_entries(es: Seq<(String, String)>) -> Seq<Pair> {
    Seq::new(es.len(), |i: int| (es[i].0@, es[i].1@))
}

/// Keys strictly ascending in byte order; in particular, all keys distinct.
pub open spec fn sorted_keys(es: Seq<Pair>) -> bool {
    forall|i: int, j: int|
        0 <= i < j < es.len() ==> lex_lt(
            encode_utf8((#[trigger] es[i]).0),
            encode_utf8((#[trigger] es[j]).0),
        )
}

/// The mapping denoted by a sequence of pairs, the last occurrence of a
/// key winning.
pub open spec fn map_of(es: Seq<Pair>) -> Map<Seq<char>, Seq<char>>
    decreases es.len(),
{
    if es.len() == 0 {
        Map::empty()
    } else {
        map_of(es.drop_last()).insert(es.last().0, es.last().1)
    }
}

/// Whether some pair of the sequence carries the given key.
pub open spec fn has_key(es: Seq<Pair>, k: Seq<char>) -> bool {
    exists|i: int| 0 <= i < es.len() && (#[trigger] es[i]).0 == k
}

/// The domain of `map_of` is exactly the set of keys of the sequence.
pub proof fn lemma_map_of_dom(es: Seq<Pair>)
    ensures
        forall|k: Seq<char>| #[trigger] map_of(es).dom().contains(k) <==> has_key(es, k),
    decreases es.len(),
{
    if es.len() > 0 {
        let dl = es.drop_last();
        lemma_map_of_dom(dl);
        assert forall|k: Seq<char>|
            #[trigger] map_of(es).dom().contains(k) <==> has_key(es, k) by {
            if map_of(es).dom().contains(k) {
                if k == es.last().0 {
                    assert(es[es.len() - 1].0 == k);
                } else {
                    assert(map_of(dl).dom().contains(k));
                    assert(has_key(dl, k));
                    let i = choose|i: int| 0 <= i < dl.len() && (#[trigger] dl[i]).0 == k;
                    assert(es[i].0 == dl[i].0);
                }
            }
            if has_key(es, k) {
                let i = choose|i: int| 0 <= i < es.len() && (#[trigger] es[i]).0 == k;
                if i < es.len() - 1 {
                    assert(dl[i].0 == es[i].0);
                    assert(has_key(dl, k));
                    assert(map_of(dl).dom().contains(k));
                }
            }
        }
    }
}

/// In a sequence where no later pair repeats the key of pair `i`, the
/// mapping sends that key to the value of pair `i`.
pub proof fn lemma_map_of_index(es: Seq<Pair>, i: int)
    requires
        0 <= i < es.len(),
        forall|j: int| i < j < es.len() ==> (#[trigger] es[j]).0 != es[i].0,
    ensures
        map_of(es).dom().contains(es[i].0),
        map_of(es)[es[i].0] == es[i].1,
    decreases es.len(),
{
    if i == es.len() - 1 {
    } else {
        let dl = es.drop_last();
        lemma_map_of_index(dl, i);
        assert(es[es.len() - 1].0 != es[i].0);
    }
}

/// Dropping the last pair removes exactly its key, when no earlier pair
/// shares that key.
proof fn lemma_map_of_drop_last(es: Seq<Pair>)
    requires
        es.len() > 0,
        forall|i: int| 0 <= i < es.len() - 1 ==> (#[trigger] es[i]).0 != es.last().0,
    ensures
        map_of(es.drop_last()) == map_of(es).remove(es.last().0),
{
    let k = es.last().0;
    let dl = es.drop_last();
    lemma_map_of_dom(dl);
    assert(!has_key(dl, k));
    assert(map_of(dl) =~= map_of(es).remove(k));
}

/// On a sorted sequence every key before the last differs from the last.
proof fn lemma_sorted_last_key_fresh(es: Seq<Pair>)
    requires
        sorted_keys(es),
        es.len() > 0,
    ensures
        forall|i: int| 0 <= i < es.len() - 1 ==> (#[trigger] es[i]).0 != es.last().0,
{
    assert forall|i: int| 0 <= i < es.len() - 1 implies (#[trigger] es[i]).0 != es.last().0 by {
        if es[i].0 == es.last().0 {
            assert(lex_lt(encode_utf8(es[i].0), encode_utf8(es[es.len() - 1].0)));
            lemma_lex_irrefl(encode_utf8(es[i].0));
        }
    }
}

/// Two sorted sequences that denote the same mapping are the same
/// sequence: the sorted form is canonical.
pub proof fn lemma_sorted_entries_unique(a: Seq<Pair>, b: Seq<Pair>)
    requires
        sorted_keys(a),
        sorted_keys(b),
        map_of(a) == map_of(b),
    ensures
        a == b,
    decreases a.len(),
{
    lemma_map_of_dom(a);
    lemma_map_of_dom(b);
    if a.len() == 0 {
        if b.len() > 0 {
            assert(b[b.len() - 1].0 == b.last().0);
            assert(has_key(b, b.last().0));
            assert(map_of(a).dom().contains(b.last().0));
        }
        assert(a =~= b);
    } else if b.len() == 0 {
        assert(a[a.len() - 1].0 == a.last().0);
        assert(has_key(a, a.last().0));
        assert(map_of(b).dom().contains(a.last().0));
        assert(a =~= b);
    } else {
        let ka = a.last().0;
        let kb = b.last().0;
        // The largest keys of the two sequences must coincide.
        assert(a[a.len() - 1].0 == ka);
        assert(has_key(a, ka));
        assert(map_of(a).dom().contains(ka));
        assert(map_of(b).dom().contains(ka));
        assert(has_key(b, ka));
        let j = choose|j: int| 0 <= j < b.len() && (#[trigger] b[j]).0 == ka;
        assert(b[b.len() - 1].0 == kb);
        assert(has_key(b, kb));
        assert(map_of(b).dom().contains(kb));
        assert(map_of(a).dom().contains(kb));
        assert(has_key(a, kb));
        let i = choose|i: int| 0 <= i < a.len() && (#[trigger] a[i]).0 == kb;
        if ka != kb {
            assert(j < b.len() - 1);
            assert(i < a.len() - 1);
            assert(lex_lt(encode_utf8(b[j].0), encode_utf8(b[b.len() - 1].0)));
            assert(lex_lt(encode_utf8(a[i].0), encode_utf8(a[a.len() - 1].0)));
            lemma_lex_trans(encode_utf8(ka), encode_utf8(kb), encode_utf8(ka));
            lemma_lex_irrefl(encode_utf8(ka));
        }
        // And so must the values attached to them.
        assert(map_of(a)[ka] == a.last().1);
        assert(map_of(b)[kb] == b.last().1);
        // Peel the last pair off both sides.
        lemma_sorted_last_key_fresh(a);
        lemma_sorted_last_key_fresh(b);
        lemma_map_of_drop_last(a);
        lemma_map_of_drop_last(b);
        assert(sorted_keys(a.drop_last()));
        assert(sorted_keys(b.drop_last()));
        lemma_sorted_entries_unique(a.drop_last(), b.drop_last());
        assert(a.last() == b.last());
        assert(a.len() == b.len());
        assert forall|x: int| 0 <= x < a.len() implies a[x] == b[x] by {
            if x < a.len() - 1 {
                assert(a.drop_last()[x] == b.drop_last()[x]);
            }
        }
        assert(a =~= b);
    }
}

/// On a sorted sequence the mapping has exactly one key per entry.
pub proof fn lemma_sorted_dom_len(es: Seq<Pair>)
    requires
        sorted_keys(es),
    ensures
        map_of(es).dom().finite(),
        map_of(es).dom().len() == es.len(),
    decreases es.len(),
{
    if es.len() == 0 {
        assert(map_of(es).dom() =~= Set::<Seq<char>>::empty());
    } else {
        let dl = es.drop_last();
        let k = es.last().0;
        assert(sorted_keys(dl));
        lemma_sorted_dom_len(dl);
        lemma_sorted_last_key_fresh(es);
        lemma_map_of_dom(dl);
        assert(!has_key(dl, k));
        assert(map_of(es).dom() =~= map_of(dl).dom().insert(k));
    }
}

/// Equal byte encodings come from equal character sequences.
pub proof fn lemma_encode_injective(x: Seq<char>, y: Seq<char>)
    requires
        encode_utf8(x) == encode_utf8(y),
    ensures
        x == y,
{
    encode_utf8_decode_utf8(x);
    encode_utf8_decode_utf8(y);
}

/// Updating pair `i` in place with the same key updates the mapping at
/// that key, provided no later pair repeats it.
proof fn lemma_map_of_update(es: Seq<Pair>, i: int, v: Seq<char>)
    requires
        0 <= i < es.len(),
        forall|j: int| i < j < es.len() ==> (#[trigger] es[j]).0 != es[i].0,
    ensures
        map_of(es.update(i, (es[i].0, v))) == map_of(es).insert(es[i].0, v),
    decreases es.len(),
{
    let k = es[i].0;
    let up = es.update(i, (k, v));
    if i == es.len() - 1 {
        assert(up.drop_last() =~= es.drop_last());
        assert(up.last() == (k, v));
        assert(map_of(up) =~= map_of(es).insert(k, v));
    } else {
        let dl = es.drop_last();
        lemma_map_of_update(dl, i, v);
        assert(dl[i] == es[i]);
        assert(up.drop_last() =~= dl.update(i, (k, v)));
        assert(up.last() == es.last());
        assert(es.last().0 != k);
        assert(map_of(up) =~= map_of(es).insert(k, v));
    }
}

/// Inserting a pair with a fresh key at any position inserts it into the
/// mapping.
proof fn lemma_map_of_insert(es: Seq<Pair>, i: int, k: Seq<char>, v: Seq<char>)
    requires
        0 <= i <= es.len(),
        !has_key(es, k),
    ensures
        map_of(es.insert(i, (k, v))) == map_of(es).insert(k, v),
    decreases es.len(),
{
    let up = es.insert(i, (k, v));
    lemma_map_of_dom(es);
    if i == es.len() {
        assert(up.drop_last() =~= es);
        assert(up.last() == (k, v));
        assert(map_of(up) =~= map_of(es).insert(k, v));
    } else {
        let dl = es.drop_last();
        assert(!has_key(dl, k)) by {
            if has_key(dl, k) {
                let x = choose|x: int| 0 <= x < dl.len() && (#[trigger] dl[x]).0 == k;
                assert(es[x].0 == k);
            }
        }
        lemma_map_of_insert(dl, i, k, v);
        assert(up.drop_last() =~= dl.insert(i, (k, v)));
        assert(up.last() == es.last());
        assert(es[es.len() - 1].0 == es.last().0);
        assert(es.last().0 != k);
        assert(map_of(up) =~= map_of(es).insert(k, v));
    }
}

/// Insert or overwrite a key in a sorted entry list, keeping it sorted.
pub fn store_insert(entries: &mut Vec<(String, String)>, key: String, value: String)
    requires
        sorted_keys(abs_entries(old(entries)@)),
    ensures
        sorted_keys(abs_entries(final(entries)@)),
        map_of(abs_entries(final(entries)@)) == map_of(abs_entries(old(entries)@)).insert(
            key@,
            value@,
        ),
        has_key(abs_entries(old(entries)@), key@) ==> final(entries)@.len() == old(entries)@.len(),
        !has_key(abs_entries(old(entries)@), key@) ==> final(entries)@.len() == old(entries)@.len()
            + 1,
{
    let ghost abs0 = abs_entries(entries@);
    let mut i: usize = 0;
    loop
        invariant
            entries@ == old(entries)@,
            abs0 == abs_entries(entries@),
            sorted_keys(abs0),
            0 <= i <= entries@.len(),
            forall|j: int|
                0 <= j < i ==> lex_lt(encode_utf8((#[trigger] abs0[j]).0), encode_utf8(key@)),
        ensures
            entries@ == old(entries)@,
            0 <= i <= entries@.len(),
            forall|j: int|
                0 <= j < i ==> lex_lt(encode_utf8((#[trigger] abs0[j]).0), encode_utf8(key@)),
            i < entries@.len() ==> lex_lt(encode_utf8(key@), encode_utf8(abs0[i as int].0)),
        decreases entries@.len() - i,
    {
        if i >= entries.len() {
            break;
        }
        let c = lex_cmp(entries[i].0.as_str().as_bytes(), key.as_str().as_bytes());
        proof {
            assert(abs0[i as int].0 == entries@[i as int].0@);
        }
        match c {
            Cmp::Lt => {
                i += 1;
            },
            Cmp::Eq => {
                proof {
                    lemma_encode_injective(abs0[i as int].0, key@);
                    assert forall|j: int| i < j < abs0.len()
                        implies (#[trigger] abs0[j]).0 != abs0[i as int].0 by {
                        if abs0[j].0 == abs0[i as int].0 {
                            lemma_lex_irrefl(encode_utf8(abs0[i as int].0));
                        }
                    }
                    lemma_map_of_update(abs0, i as int, value@);
                    lemma_map_of_index(abs0, i as int);
                    lemma_map_of_dom(abs0);
                    assert(abs0[i as int].0 == key@);
                    assert(has_key(abs0, key@));
                }
                let ghost gi = i as int;
                let _prev = entries.remove(i);
                entries.insert(i, (key, value));
                proof {
                    let up = abs0.update(gi, (key@, value@));
                    assert(abs_entries(entries@) =~= up);
                    assert((key@, value@) == (abs0[gi].0, value@));
                    assert(sorted_keys(up)) by {
                        assert(forall|x: int|
                            0 <= x < up.len() ==> ((#[trigger] up[x]).0 == abs0[x].0));
                    }
                }
                return ;
            },
            Cmp::Gt => {
                break;
            },
        }
    }
    // Every earlier key is below `key`; if `i` is in range, its key is above.
    proof {
        assert(!has_key(abs0, key@)) by {
            if has_key(abs0, key@) {
                let x = choose|x: int| 0 <= x < abs0.len() && (#[trigger] abs0[x]).0 == key@;
                lemma_lex_irrefl(encode_utf8(key@));
                if x >= i {
                    if x > i {
                        assert(lex_lt(encode_utf8(abs0[i as int].0), encode_utf8(abs0[x].0)));
                        lemma_lex_trans(
                            encode_utf8(key@),
                            encode_utf8(abs0[i as int].0),
                            encode_utf8(key@),
                        );
                    }
                }
            }
        }
        lemma_map_of_insert(abs0, i as int, key@, value@);
    }
    let ghost gi = i as int;
    entries.insert(i, (key, value));
    proof {
        let up = abs0.insert(gi, (key@, value@));
        assert(abs_entries(entries@) =~= up);
        assert(sorted_keys(up)) by {
            assert(forall|x: int| 0 <= x < gi ==> #[trigger] up[x] == abs0[x]);
            assert(up[gi] == (key@, value@));
            assert(forall|x: int| gi < x < up.len() ==> #[trigger] up[x] == abs0[x - 1]);
            assert forall|z: int| gi <= z < abs0.len()
                implies lex_lt(encode_utf8(key@), encode_utf8((#[trigger] abs0[z]).0)) by {
                if z > gi {
                    lemma_lex_trans(
                        encode_utf8(key@),
                        encode_utf8(abs0[gi].0),
                        encode_utf8(abs0[z].0),
                    );
                }
            }
            assert forall|x: int, y: int| 0 <= x < y < up.len()
                implies lex_lt(
                    encode_utf8((#[trigger] up[x]).0),
                    encode_utf8((#[trigger] up[y]).0),
                ) by {
                if x < gi && y > gi {
                    lemma_lex_trans(
                        encode_utf8(abs0[x].0),
                        encode_utf8(key@),
                        encode_utf8(abs0[y - 1].0),
                    );
                }
            }
        }
    }
}

} // verus!
