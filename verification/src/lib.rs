//! An in-memory view of a simple `KEY=VALUE` environment file.
//!
//! [`EnvFile`] parses raw file bytes into an ordered key-value mapping,
//! answers lookups, accepts updates, and serialises the mapping back to
//! bytes with the keys in ascending byte order. Lines without `=` and
//! lines whose key or value is not valid UTF-8 contribute nothing; when
//! a key occurs on several lines the last occurrence wins. Reading the
//! bytes from disk and writing them back is the caller's business: the
//! store only remembers the path it belongs to.

use vstd::prelude::*;

mod format;
mod order;
mod store;

pub use format::{env_map, render, line_bytes, parse_segment, split_lines, find_eq, seg_apply,
    map_of_segments, line_ok, lemma_parse_render, lemma_no_eq_skipped, NL, EQ};
pub use order::{lex_lt, lex_cmp, Cmp};
pub use store::{Pair, abs_entries, sorted_keys, map_of, has_key, lemma_sorted_entries_unique,
    lemma_map_of_dom, lemma_map_of_index, lemma_sorted_dom_len, lemma_encode_injective};

use format::{apply_segment, push_bytes, lemma_split_lines_len};
use store::store_insert;
use vstd::utf8::encode_utf8;

verus! {

/// An environment file buffered into memory: the path it came from and
/// the parsed entries, kept strictly ascending by the byte encoding of
/// their keys.
pub struct EnvFile {
    /// Where the environment file exists on disk.
    pub path: String,
    entries: Vec<(String, String)>,
}

impl View for EnvFile {
    type V = Map<Seq<char>, Seq<char>>;

    /// The mapping the store holds.
    open spec fn view(&self) -> Map<Seq<char>, Seq<char>> {
        map_of(self.entries_abs())
    }
}

impl EnvFile {
    /// The entries in store order, as character sequences.
    pub closed spec fn entries_abs(&self) -> Seq<Pair> {
        abs_entries(self.entries@)
    }

    /// The characters of the stored path.
    pub closed spec fn spec_path(&self) -> Seq<char> {
        self.path@
    }

    /// Entries are sorted strictly ascending by key bytes; established
    /// by `new` and preserved by every method.
    pub open spec fn wf(&self) -> bool {
        sorted_keys(self.entries_abs())
    }

    /// Parse an environment file from its raw bytes.
    ///
    /// Every `KEY=VALUE` line contributes an entry, later lines winning
    /// over earlier ones; malformed lines are silently skipped.
    pub fn new(path: String, data: &[u8]) -> (r: EnvFile)
        ensures
            r.wf(),
            r@ == env_map(data@),
            r.spec_path() == path@,
    {
        let mut entries: Vec<(String, String)> = Vec::new();
        let mut cur: Vec<u8> = Vec::new();
        let mut i: usize = 0;
        proof {
            assert(data@.take(0) =~= Seq::<u8>::empty());
        }
        while i < data.len()
            invariant
                0 <= i <= data@.len(),
                sorted_keys(abs_entries(entries@)),
                split_lines(data@.take(i as int)).len() >= 1,
                cur@ == split_lines(data@.take(i as int)).last(),
                map_of(abs_entries(entries@)) == map_of_segments(
                    split_lines(data@.take(i as int)).drop_last(),
                ),
            decreases data@.len() - i,
        {
            let ghost prefix = data@.take(i as int);
            let ghost segs = split_lines(prefix);
            let b: u8 = data[i];
            proof {
                assert(data@.take(i + 1) =~= prefix.push(b));
                assert(prefix.push(b).drop_last() =~= prefix);
                assert(prefix.push(b).last() == b);
                lemma_split_lines_len(data@.take(i + 1));
            }
            if b == NL {
                apply_segment(&mut entries, &cur);
                cur = Vec::new();
                proof {
                    let segs2 = split_lines(data@.take(i + 1));
                    assert(segs2 == segs.push(Seq::<u8>::empty()));
                    assert(segs2.drop_last() =~= segs);
                    assert(map_of_segments(segs) == seg_apply(
                        map_of_segments(segs.drop_last()),
                        segs.last(),
                    ));
                }
            } else {
                cur.push(b);
                proof {
                    let segs2 = split_lines(data@.take(i + 1));
                    assert(segs2 == segs.update(segs.len() - 1, segs.last().push(b)));
                    assert(segs2.drop_last() =~= segs.drop_last());
                    assert(segs2.last() == segs.last().push(b));
                }
            }
            i += 1;
        }
        proof {
            assert(data@.take(data@.len() as int) =~= data@);
        }
        apply_segment(&mut entries, &cur);
        proof {
            let segs = split_lines(data@);
            assert(map_of(abs_entries(entries@)) == seg_apply(
                map_of_segments(segs.drop_last()),
                segs.last(),
            ));
            assert(env_map(data@) == seg_apply(
                map_of_segments(segs.drop_last()),
                segs.last(),
            ));
        }
        EnvFile { path, entries }
    }

    /// Fetch the value stored for a key.
    pub fn get<'a>(&'a self, key: &str) -> (r: Option<&'a str>)
        requires
            self.wf(),
        ensures
            match r {
                Some(v) => self@.dom().contains(key@) && v@ == self@[key@],
                None => !self@.dom().contains(key@),
            },
    {
        let ghost es = self.entries_abs();
        let mut j: usize = 0;
        while j < self.entries.len()
            invariant
                self.wf(),
                es == self.entries_abs(),
                0 <= j <= self.entries@.len(),
                forall|x: int| 0 <= x < j ==> (#[trigger] es[x]).0 != key@,
            decreases self.entries@.len() - j,
        {
            let c = lex_cmp(self.entries[j].0.as_str().as_bytes(), key.as_bytes());
            match c {
                Cmp::Eq => {
                    proof {
                        lemma_encode_injective(es[j as int].0, key@);
                        assert forall|x: int| j < x < es.len()
                            implies (#[trigger] es[x]).0 != es[j as int].0 by {
                            if es[x].0 == es[j as int].0 {
                                order::lemma_lex_irrefl(encode_utf8(es[j as int].0));
                            }
                        }
                        lemma_map_of_index(es, j as int);
                    }
                    return Some(self.entries[j].1.as_str());
                },
                _ => {
                    proof {
                        assert(es[j as int].0 != key@);
                    }
                    j += 1;
                },
            }
        }
        proof {
            lemma_map_of_dom(es);
            assert(!has_key(es, key@));
        }
        None
    }

    /// Insert or overwrite the entry for a key. The mapping afterwards
    /// is the old mapping with this key bound to this value; a new key
    /// grows the store by one entry, an existing one keeps its size.
    pub fn update(&mut self, key: &str, value: &str)
        requires
            old(self).wf(),
        ensures
            final(self).wf(),
            final(self)@ == old(self)@.insert(key@, value@),
            final(self).spec_path() == old(self).spec_path(),
            old(self)@.dom().contains(key@) ==> final(self).entries_abs().len() == old(
                self,
            ).entries_abs().len(),
            !old(self)@.dom().contains(key@) ==> final(self).entries_abs().len() == old(
                self,
            ).entries_abs().len() + 1,
            old(self)@.dom().contains(key@) ==> final(self)@.dom().len() == old(
                self,
            )@.dom().len(),
            !old(self)@.dom().contains(key@) ==> final(self)@.dom().len() == old(
                self,
            )@.dom().len() + 1,
    {
        proof {
            lemma_map_of_dom(old(self).entries_abs());
            lemma_sorted_dom_len(old(self).entries_abs());
        }
        store_insert(&mut self.entries, key.to_owned(), value.to_owned());
        proof {
            lemma_sorted_dom_len(self.entries_abs());
        }
    }

    /// The number of entries held: on a well-formed store, the number
    /// of keys in the mapping.
    pub fn len(&self) -> (n: usize)
        ensures
            n == self.entries_abs().len(),
            self.wf() ==> n == self@.dom().len(),
    {
        proof {
            if self.wf() {
                lemma_sorted_dom_len(self.entries_abs());
            }
        }
        self.entries.len()
    }

    /// Serialise the mapping: one `KEY=VALUE` line per entry, in the
    /// store's order, which is ascending byte order of the keys.
    pub fn write(&self) -> (r: Vec<u8>)
        requires
            self.wf(),
        ensures
            r@ == render(self.entries_abs()),
            sorted_keys(self.entries_abs()),
    {
        let ghost es = self.entries_abs();
        let mut buf: Vec<u8> = Vec::new();
        let mut i: usize = 0;
        proof {
            assert(es.take(0) =~= Seq::<Pair>::empty());
        }
        while i < self.entries.len()
            invariant
                self.wf(),
                es == self.entries_abs(),
                0 <= i <= self.entries@.len(),
                buf@ == render(es.take(i as int)),
            decreases self.entries@.len() - i,
        {
            push_bytes(&mut buf, self.entries[i].0.as_str().as_bytes());
            buf.push(EQ);
            push_bytes(&mut buf, self.entries[i].1.as_str().as_bytes());
            buf.push(NL);
            proof {
                assert(es.take(i + 1).drop_last() =~= es.take(i as int));
                assert(es.take(i + 1).last() == es[i as int]);
                assert(buf@ =~= render(es.take(i as int)) + line_bytes(es[i as int]));
            }
            i += 1;
        }
        proof {
            assert(es.take(es.len() as int) =~= es);
        }
        buf
    }
}

/// Round trip: a buffer whose lines are already in ascending key order,
/// well formed (each with a `=`, no `=` in a key, no newline inside a
/// key or value) and free of duplicate keys is reproduced byte for byte
/// by serialising the store parsed from it. `source` is the entry
/// sequence of such a buffer, so that the buffer is `render(source)`;
/// any well-formed store holding the mapping parsed from that buffer
/// holds exactly `source`, and so serialises to the same bytes.
pub proof fn lemma_round_trip(source: Seq<Pair>, store: EnvFile)
    requires
        sorted_keys(source),
        forall|i: int| 0 <= i < source.len() ==> line_ok(#[trigger] source[i]),
        store.wf(),
        store@ == env_map(render(source)),
    ensures
        store.entries_abs() == source,
        render(store.entries_abs()) == render(source),
{
    lemma_parse_render(source);
    lemma_sorted_entries_unique(store.entries_abs(), source);
}

/// Serialisation is canonical: two stores that hold the same mapping
/// serialise to the same bytes, whatever order their entries were
/// parsed or inserted in.
pub proof fn lemma_write_canonical(a: EnvFile, b: EnvFile)
    requires
        a.wf(),
        b.wf(),
        a@ == b@,
    ensures
        a.entries_abs() == b.entries_abs(),
        render(a.entries_abs()) == render(b.entries_abs()),
{
    lemma_sorted_entries_unique(a.entries_abs(), b.entries_abs());
}

} // verus!
