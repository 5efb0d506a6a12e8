//! The cache store: content addressing and reference semantics.
//!
//! An artifact is addressed by `<static_root>/<font_identity>/<cache_key>`.
//! `CacheStore` gives the store's semantics over an in-memory map — what a
//! `put` must make a later `get` return; the boundary layer persists the same
//! associations on the filesystem, falling back to regeneration whenever a
//! read fails.

use vstd::prelude::*;
use vstd::string::*;

verus! {

/// The path of a cached artifact: `<static_dir>/<font_id>/<filename>`.
pub open spec fn cache_path_spec(
    static_dir: Seq<char>,
    font_id: Seq<char>,
    filename: Seq<char>,
) -> Seq<char> {
    static_dir + "/"@ + font_id + "/"@ + filename
}

/// Composes the storage path of an artifact.
pub fn cache_path(static_dir: &str, font_id: &str, filename: &str) -> (r: String)
    ensures
        r@ == cache_path_spec(static_dir@, font_id@, filename@),
{
    let mut s = String::from_str(static_dir);
    s.append("/");
    s.append(font_id);
    s.append("/");
    s.append(filename);
    proof {
        assert(s@ =~= cache_path_spec(static_dir@, font_id@, filename@));
    }
    s
}

/// An in-memory artifact store keyed by path. Later writes to the same key
/// override earlier ones, exactly as the filesystem store's last-writer-wins
/// overwrite does.
pub struct CacheStore {
    entries: Vec<(String, Vec<u8>)>,
}

/// The association a sequence of writes leaves behind: each key maps to the
/// bytes most recently written under it.
pub closed spec fn store_map(entries: Seq<(String, Vec<u8>)>) -> Map<Seq<char>, Seq<u8>>
    decreases entries.len(),
{
    if entries.len() == 0 {
        Map::empty()
    } else {
        store_map(entries.drop_last()).insert(entries.last().0@, entries.last().1@)
    }
}

impl View for CacheStore {
    type V = Map<Seq<char>, Seq<u8>>;

    closed spec fn view(&self) -> Map<Seq<char>, Seq<u8>> {
        store_map(self.entries@)
    }
}

impl CacheStore {
    /// An empty store: no key yields an artifact.
    pub fn new() -> (r: CacheStore)
        ensures
            r@ == Map::<Seq<char>, Seq<u8>>::empty(),
    {
        CacheStore { entries: Vec::new() }
    }

    /// Persists an artifact under a key, overriding any earlier write.
    pub fn put(&mut self, key: String, bytes: Vec<u8>)
        ensures
            final(self)@ == old(self)@.insert(key@, bytes@),
    {
        let ghost pre = self.entries@;
        self.entries.push((key, bytes));
        proof {
            assert(self.entries@.drop_last() =~= pre);
        }
    }

    /// Retrieves the artifact most recently written under a key, if any.
    pub fn get(&self, key: &String) -> (r: Option<&Vec<u8>>)
        ensures
            r is Some <==> self@.contains_key(key@),
            r matches Some(v) ==> self@[key@] == v@,
    {
        let mut j: usize = self.entries.len();
        proof {
            assert(self.entries@.subrange(0, self.entries@.len() as int) =~= self.entries@);
        }
        while j > 0
            invariant
                j <= self.entries@.len(),
                self@.contains_key(key@) == store_map(self.entries@.subrange(0, j as int))
                    .contains_key(key@),
                self@.contains_key(key@) ==> self@[key@] == store_map(
                    self.entries@.subrange(0, j as int),
                )[key@],
            decreases j,
        {
            j = j - 1;
            let e = &self.entries[j];
            let ghost pfx = self.entries@.subrange(0, j + 1);
            proof {
                assert(pfx.drop_last() =~= self.entries@.subrange(0, j as int));
                assert(pfx.last() == self.entries@[j as int]);
            }
            if e.0.eq(key) {
                return Some(&e.1);
            }
        }
        proof {
            assert(self.entries@.subrange(0, 0) =~= Seq::<(String, Vec<u8>)>::empty());
        }
        None
    }
}

/// Round trip: writing an artifact under a key and reading the same key back
/// yields exactly the bytes written, whatever the store held before.
pub proof fn lemma_put_get_round_trip(
    store: Map<Seq<char>, Seq<u8>>,
    key: Seq<char>,
    bytes: Seq<u8>,
)
    ensures
        store.insert(key, bytes).contains_key(key),
        store.insert(key, bytes)[key] == bytes,
{
}

} // verus!
