//! Reclamation of stale cache artifacts.
//!
//! The janitor sweeps each per-font cache directory on a fixed schedule and
//! removes artifacts older than the configured retention window. The sweep
//! decision is computed here over plain values; reading modification times
//! and unlinking files is the caller's side of the boundary.

use vstd::prelude::*;

use crate::utils::lemma_filter_none;

verus! {

/// What the sweep knows of one artifact file: its name, and the seconds since
/// it was last modified — `None` when the modification time could not be read.
#[derive(Debug, Clone)]
pub struct CacheEntry {
    pub name: String,
    pub age_secs: Option<u64>,
}

/// Whether a file is expired under a retention window of `days`: its age
/// exceeds the window, or its modification time could not be read (an
/// unreadable entry is reclaimed rather than leaked).
pub open spec fn expired(age_secs: Option<u64>, days: u64) -> bool {
    match age_secs {
        Some(a) => a > days * 86400,
        None => true,
    }
}

pub open spec fn entry_expired(days: u64) -> spec_fn(CacheEntry) -> bool {
    |e: CacheEntry| expired(e.age_secs, days)
}

pub open spec fn entry_live(days: u64) -> spec_fn(CacheEntry) -> bool {
    |e: CacheEntry| !expired(e.age_secs, days)
}

/// The entries a sweep removes: exactly the expired ones, in order.
pub open spec fn sweep_removed(entries: Seq<CacheEntry>, days: u64) -> Seq<CacheEntry> {
    entries.filter(entry_expired(days))
}

/// The entries a sweep leaves in place: exactly the live ones, in order.
pub open spec fn sweep_kept(entries: Seq<CacheEntry>, days: u64) -> Seq<CacheEntry> {
    entries.filter(entry_live(days))
}

/// Decides expiry for one cache entry.
pub fn is_file_expired(age_secs: Option<u64>, days: u64) -> (r: bool)
    requires
        days * 86400 <= u64::MAX,
    ensures
        r == expired(age_secs, days),
{
    match age_secs {
        Some(a) => a > days * 86400,
        None => true,
    }
}

/// Plans one sweep of a cache directory: returns the names of the files to
/// remove, exactly the expired entries in directory order. The second
/// component of the result is the number of files removed, as the sweep
/// reports it.
pub fn cleanup_expired_cache(entries: &Vec<CacheEntry>, days: u64) -> (r: (Vec<String>, usize))
    requires
        days * 86400 <= u64::MAX,
    ensures
        r.0@.len() == sweep_removed(entries@, days).len(),
        forall|i: int|
            0 <= i < r.0@.len() ==> r.0@[i]@ == sweep_removed(entries@, days)[i].name@,
        r.1 == r.0@.len(),
{
    let mut names: Vec<String> = Vec::new();
    let mut i: usize = 0;
    proof {
        reveal(Seq::filter);
        assert(entries@.subrange(0, 0) =~= Seq::<CacheEntry>::empty());
    }
    while i < entries.len()
        invariant
            i <= entries@.len(),
            days * 86400 <= u64::MAX,
            names@.len() == sweep_removed(entries@.subrange(0, i as int), days).len(),
            forall|j: int|
                0 <= j < names@.len() ==> names@[j]@ == sweep_removed(
                    entries@.subrange(0, i as int),
                    days,
                )[j].name@,
        decreases entries@.len() - i,
    {
        let e = &entries[i];
        let ghost pfx = entries@.subrange(0, i as int);
        proof {
            reveal(Seq::filter);
            assert(entries@.subrange(0, i + 1).drop_last() =~= pfx);
            assert(entries@.subrange(0, i + 1).last() == entries@[i as int]);
        }
        if is_file_expired(e.age_secs, days) {
            names.push(e.name.clone());
            proof {
                assert(entry_expired(days)(entries@[i as int]));
                assert(sweep_removed(entries@.subrange(0, i + 1), days) =~= sweep_removed(
                    pfx,
                    days,
                ).push(entries@[i as int]));
            }
        } else {
            proof {
                assert(!entry_expired(days)(entries@[i as int]));
                assert(sweep_removed(entries@.subrange(0, i + 1), days) =~= sweep_removed(
                    pfx,
                    days,
                ));
            }
        }
        i = i + 1;
    }
    proof {
        assert(entries@.subrange(0, entries@.len() as int) =~= entries@);
    }
    let count: usize = names.len();
    (names, count)
}

/// Sweeping is idempotent: a second sweep over what the first one kept, with
/// no files added or aged in between, removes nothing.
pub proof fn lemma_sweep_idempotent(entries: Seq<CacheEntry>, days: u64)
    ensures
        sweep_removed(sweep_kept(entries, days), days) =~= Seq::<CacheEntry>::empty(),
{
    let kept = sweep_kept(entries, days);
    entries.filter_lemma(entry_live(days));
    assert forall|i: int| 0 <= i < kept.len() implies !entry_expired(days)(kept[i]) by {
        assert(entry_live(days)(kept[i]));
        assert(!expired(kept[i].age_secs, days));
        assert(entry_expired(days)(kept[i]) == expired(kept[i].age_secs, days));
    }
    lemma_filter_none(kept, entry_expired(days));
}

} // verus!
