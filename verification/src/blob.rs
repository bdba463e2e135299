//! The blob store: append-only byte storage addressed by content digest.
//!
//! Atoms never embed payload bytes; they carry a reference into this store.
//! References are derived from the content, so identical payloads share one
//! entry.

use vstd::prelude::*;
use vstd::string::*;
use crate::digest::{blake3_hex, content_digest};

verus! {

/// Byte storage addressed by the digest of the content.
#[derive(Debug)]
pub struct BlobStore {
    entries: Vec<(String, Vec<u8>)>,
}

/// The reference under which a payload with digest `h` is stored.
pub open spec fn blob_uri(h: Seq<char>) -> Seq<char> {
    "local://"@ + h
}

/// The map a list of entries denotes; a later entry would win, though a
/// well-formed store never repeats a reference.
pub open spec fn blob_map(entries: Seq<(String, Vec<u8>)>) -> Map<Seq<char>, Seq<u8>>
    decreases entries,
{
    if entries.len() == 0 {
        Map::empty()
    } else {
        blob_map(entries.drop_last()).insert(entries.last().0@, entries.last().1@)
    }
}

/// References are unique across entries.
pub open spec fn blob_entries_wf(entries: Seq<(String, Vec<u8>)>) -> bool {
    forall|i: int, j: int|
        0 <= i < entries.len() && 0 <= j < entries.len() && i != j ==> (#[trigger] entries[i]).0@
            != (#[trigger] entries[j]).0@
}

pub proof fn lemma_blob_map(entries: Seq<(String, Vec<u8>)>)
    requires
        blob_entries_wf(entries),
    ensures
        forall|i: int|
            0 <= i < entries.len() ==> {
                &&& blob_map(entries).contains_key((#[trigger] entries[i]).0@)
                &&& blob_map(entries)[entries[i].0@] == entries[i].1@
            },
        forall|k: Seq<char>|
            blob_map(entries).contains_key(k) ==> exists|i: int|
                0 <= i < entries.len() && (#[trigger] entries[i]).0@ == k,
    decreases entries,
{
    if entries.len() > 0 {
        let prefix = entries.drop_last();
        assert(blob_entries_wf(prefix)) by {
            assert(forall|i: int| 0 <= i < prefix.len() ==> prefix[i] == entries[i]);
        }
        lemma_blob_map(prefix);
        assert forall|k: Seq<char>| blob_map(entries).contains_key(k) implies exists|i: int|
            0 <= i < entries.len() && (#[trigger] entries[i]).0@ == k by {
            if k == entries.last().0@ {
                assert(entries[entries.len() - 1].0@ == k);
            } else {
                assert(blob_map(prefix).contains_key(k));
                let w = choose|w: int| 0 <= w < prefix.len() && (#[trigger] prefix[w]).0@ == k;
                assert(prefix[w] == entries[w]);
                assert(entries[w].0@ == k);
            }
        }
        assert forall|i: int| 0 <= i < entries.len() implies {
            &&& blob_map(entries).contains_key((#[trigger] entries[i]).0@)
            &&& blob_map(entries)[entries[i].0@] == entries[i].1@
        } by {
            if i < entries.len() - 1 {
                assert(prefix[i] == entries[i]);
                assert(entries[i].0@ != entries.last().0@);
            }
        }
    }
}

impl BlobStore {
    /// What the store holds: each reference mapped to its bytes.
    pub closed spec fn view_map(&self) -> Map<Seq<char>, Seq<u8>> {
        blob_map(self.entries@)
    }

    /// References are unique.
    pub closed spec fn wf(&self) -> bool {
        blob_entries_wf(self.entries@)
    }

    /// An empty store.
    pub fn new() -> (r: BlobStore)
        ensures
            r.wf(),
            r.view_map() == Map::<Seq<char>, Seq<u8>>::empty(),
    {
        BlobStore { entries: Vec::new() }
    }

    /// Stores `data` under its content-derived reference and returns the
    /// reference. A payload already present is left as it is: identical
    /// content has identical address.
    #[verifier::loop_isolation(false)]
    pub fn write_blob(&mut self, data: &[u8]) -> (r: String)
        requires
            old(self).wf(),
        ensures
            final(self).wf(),
            r@ == blob_uri(blake3_hex(data@)),
            final(self).view_map() == if old(self).view_map().contains_key(r@) {
                old(self).view_map()
            } else {
                old(self).view_map().insert(r@, data@)
            },
            final(self).view_map().contains_key(r@),
    {
        let digest = content_digest(data);
        let mut uri = String::from_str("local://");
        uri.append(digest.as_str());
        let n = self.entries.len();
        let mut i: usize = 0;
        proof {
            lemma_blob_map(self.entries@);
        }
        while i < n
            invariant
                0 <= i <= n,
                n == self.entries@.len(),
                forall|j: int| 0 <= j < i ==> (#[trigger] self.entries@[j]).0@ != uri@,
            decreases n - i,
        {
            if self.entries[i].0 == uri {
                proof {
                    lemma_blob_map(self.entries@);
                }
                return uri;
            }
            i = i + 1;
        }
        proof {
            lemma_blob_map(self.entries@);
            if self.view_map().contains_key(uri@) {
                let witness = choose|w: int|
                    0 <= w < self.entries@.len() && (#[trigger] self.entries@[w]).0@ == uri@;
                assert(false);
            }
        }
        let data_copy = vstd::slice::slice_to_vec(data);
        let ghost prev = self.entries@;
        self.entries.push((uri.clone(), data_copy));
        proof {
            assert(self.entries@.drop_last() =~= prev);
        }
        uri
    }

    /// Every entry of the store: each reference once, with its bytes.
    pub fn entries(&self) -> (r: Vec<(String, Vec<u8>)>)
        requires
            self.wf(),
        ensures
            forall|i: int|
                0 <= i < r@.len() ==> {
                    &&& self.view_map().contains_key((#[trigger] r@[i]).0@)
                    &&& r@[i].1@ == self.view_map()[r@[i].0@]
                },
            forall|k: Seq<char>|
                self.view_map().contains_key(k) ==> exists|i: int|
                    0 <= i < r@.len() && (#[trigger] r@[i]).0@ == k,
    {
        proof {
            lemma_blob_map(self.entries@);
        }
        let mut out: Vec<(String, Vec<u8>)> = Vec::new();
        let mut i: usize = 0;
        while i < self.entries.len()
            invariant
                0 <= i <= self.entries@.len(),
                self.wf(),
                out@.len() == i,
                forall|j: int|
                    0 <= j < i ==> (#[trigger] out@[j]).0@ == self.entries@[j].0@ && out@[j].1@
                        == self.entries@[j].1@,
            decreases self.entries@.len() - i,
        {
            out.push((self.entries[i].0.clone(), self.entries[i].1.clone()));
            i = i + 1;
        }
        proof {
            lemma_blob_map(self.entries@);
            assert forall|k: Seq<char>| self.view_map().contains_key(k) implies exists|i: int|
                0 <= i < out@.len() && (#[trigger] out@[i]).0@ == k by {
                let w = choose|w: int|
                    0 <= w < self.entries@.len() && (#[trigger] self.entries@[w]).0@ == k;
                assert(out@[w].0@ == k);
            }
        }
        out
    }

    /// Returns the bytes stored under `uri`, if any.
    #[verifier::loop_isolation(false)]
    pub fn read_blob(&self, uri: &str) -> (r: Option<Vec<u8>>)
        requires
            self.wf(),
        ensures
            match r {
                Some(v) => self.view_map().contains_key(uri@) && v@ == self.view_map()[uri@],
                None => !self.view_map().contains_key(uri@),
            },
    {
        let key = uri.to_owned();
        let n = self.entries.len();
        let mut i: usize = 0;
        proof {
            lemma_blob_map(self.entries@);
        }
        while i < n
            invariant
                0 <= i <= n,
                n == self.entries@.len(),
                forall|j: int| 0 <= j < i ==> (#[trigger] self.entries@[j]).0@ != key@,
            decreases n - i,
        {
            if self.entries[i].0 == key {
                return Some(self.entries[i].1.clone());
            }
            i = i + 1;
        }
        proof {
            if self.view_map().contains_key(uri@) {
                let witness = choose|w: int|
                    0 <= w < self.entries@.len() && (#[trigger] self.entries@[w]).0@ == uri@;
                assert(false);
            }
        }
        None
    }
}

} // verus!
