//! The font registry, the subset provider pool, and the resolution walker.
//!
//! The registry maps font identities to descriptors in load order; the pool
//! holds one parse-checked processor per (identity, family) pair. Resolution
//! walks a font's constituent files in declared order and, when none covers
//! anything, its declared fallback chain, with a visited set bounding the
//! recursion under cyclic fallback graphs. The walk produces an exact,
//! ordered plan of pool handles; the boundary drives the subsetting engine
//! down that plan, so an engine failure on one handle — observable there
//! only as a caught panic — skips to the next candidate, and only an empty
//! plan is a request-level failure.

use vstd::prelude::*;
use vstd::seq_lib::*;

use crate::config::{AppConfig, FontConfig};
use crate::error::AppError;
use crate::font::{available, covers, face_parseable, hb_glyph_count_of, FontProcessor};
use crate::utils::lemma_filter_none;

verus! {

/// The registry entry shape served to `list_fonts` callers.
#[derive(Debug, Clone)]
pub struct FontInfo {
    pub id: String,
    pub version: String,
    pub font_family: String,
    pub license: String,
    pub fallback: Vec<String>,
}

/// One ready-to-use handle of the subset provider pool, keyed by the owning
/// font's identity and the file's family name.
pub struct ProcEntry {
    pub font_id: String,
    pub family: String,
    pub processor: FontProcessor,
}

// ---------------------------------------------------------------------------
// Registry and pool lookup, in spec and in code
// ---------------------------------------------------------------------------

/// The first registry index at or after `i` holding the identity, or -1.
pub open spec fn idx_from(fonts: Seq<FontConfig>, id: Seq<char>, i: int) -> int
    decreases fonts.len() - i,
{
    if i < 0 || i >= fonts.len() {
        -1
    } else if fonts[i].id@ == id {
        i
    } else {
        idx_from(fonts, id, i + 1)
    }
}

/// The registry index of a font identity, or -1 when it is not registered.
pub open spec fn idx_of(fonts: Seq<FontConfig>, id: Seq<char>) -> int {
    idx_from(fonts, id, 0)
}

pub proof fn lemma_idx_from_props(fonts: Seq<FontConfig>, id: Seq<char>, i: int)
    requires
        0 <= i <= fonts.len(),
    ensures
        idx_from(fonts, id, i) >= 0 ==> i <= idx_from(fonts, id, i) < fonts.len() && fonts[idx_from(
            fonts,
            id,
            i,
        )].id@ == id,
        idx_from(fonts, id, i) < 0 ==> forall|j: int| i <= j < fonts.len() ==> fonts[j].id@ != id,
    decreases fonts.len() - i,
{
    if i < fonts.len() && fonts[i].id@ != id {
        lemma_idx_from_props(fonts, id, i + 1);
    }
}

/// The first pool index at or after `i` holding the (identity, family) key,
/// or -1.
pub open spec fn proc_idx_from(
    procs: Seq<ProcEntry>,
    id: Seq<char>,
    family: Seq<char>,
    i: int,
) -> int
    decreases procs.len() - i,
{
    if i < 0 || i >= procs.len() {
        -1
    } else if procs[i].font_id@ == id && procs[i].family@ == family {
        i
    } else {
        proc_idx_from(procs, id, family, i + 1)
    }
}

/// The pool index of an (identity, family) key, or -1.
pub open spec fn proc_idx_of(procs: Seq<ProcEntry>, id: Seq<char>, family: Seq<char>) -> int {
    proc_idx_from(procs, id, family, 0)
}

pub proof fn lemma_proc_idx_from_props(
    procs: Seq<ProcEntry>,
    id: Seq<char>,
    family: Seq<char>,
    i: int,
)
    requires
        0 <= i <= procs.len(),
    ensures
        proc_idx_from(procs, id, family, i) >= 0 ==> i <= proc_idx_from(procs, id, family, i)
            < procs.len() && procs[proc_idx_from(procs, id, family, i)].font_id@ == id && procs[
            proc_idx_from(procs, id, family, i)
        ].family@ == family,
        proc_idx_from(procs, id, family, i) < 0 ==> forall|j: int|
            i <= j < procs.len() ==> !(procs[j].font_id@ == id && procs[j].family@ == family),
    decreases procs.len() - i,
{
    if i < procs.len() && !(procs[i].font_id@ == id && procs[i].family@ == family) {
        lemma_proc_idx_from_props(procs, id, family, i + 1);
    }
}

// ---------------------------------------------------------------------------
// Coverage over the pool, and the resolution relation
// ---------------------------------------------------------------------------

/// The covered part of a request against the pool entry keyed by the
/// identity and family, or nothing when the pool holds no such handle.
pub open spec fn file_avail(
    procs: Seq<ProcEntry>,
    id: Seq<char>,
    family: Seq<char>,
    cps: Seq<u32>,
) -> Seq<u32> {
    let k: int = proc_idx_of(procs, id, family);
    if k >= 0 {
        available(procs[k].processor@, cps)
    } else {
        Seq::empty()
    }
}

/// Whether some constituent file of the font covers part of the request.
pub open spec fn font_covers(procs: Seq<ProcEntry>, font: FontConfig, cps: Seq<u32>) -> bool {
    exists|j: int|
        0 <= j < font.files@.len() && file_avail(
            procs,
            font.id@,
            font.files@[j].font_family@,
            cps,
        ).len() > 0
}

/// The number of unvisited entries of a visited set.
pub open spec fn count_false(v: Seq<bool>) -> int
    decreases v.len(),
{
    if v.len() == 0 {
        0
    } else {
        count_false(v.drop_last()) + if v.last() {
            0int
        } else {
            1int
        }
    }
}

pub proof fn lemma_count_false_nonneg(v: Seq<bool>)
    ensures
        count_false(v) >= 0,
    decreases v.len(),
{
    if v.len() > 0 {
        lemma_count_false_nonneg(v.drop_last());
    }
}

pub proof fn lemma_count_false_update(v: Seq<bool>, i: int)
    requires
        0 <= i < v.len(),
        !v[i],
    ensures
        count_false(v.update(i, true)) == count_false(v) - 1,
    decreases v.len(),
{
    let u = v.update(i, true);
    if i == v.len() - 1 {
        assert(u.drop_last() =~= v.drop_last());
    } else {
        assert(u.drop_last() =~= v.drop_last().update(i, true));
        lemma_count_false_update(v.drop_last(), i);
    }
}

/// A fully unvisited set over a registry of `n` fonts.
pub open spec fn all_false(n: int) -> Seq<bool> {
    Seq::new(n as nat, |i: int| false)
}

/// Whether resolution starting at the identity can produce an artifact:
/// the identity is registered and not yet visited, and either one of its
/// files covers part of the request, or some declared fallback can serve it
/// once this font is marked visited.
pub open spec fn can_serve(
    fonts: Seq<FontConfig>,
    procs: Seq<ProcEntry>,
    visited: Seq<bool>,
    id: Seq<char>,
    cps: Seq<u32>,
) -> bool
    decreases count_false(visited),
    via can_serve_dec
{
    let idx: int = idx_of(fonts, id);
    if 0 <= idx < visited.len() && !visited[idx] {
        font_covers(procs, fonts[idx], cps) || exists|k: int|
            0 <= k < fonts[idx].fallback@.len() && can_serve(
                fonts,
                procs,
                visited.update(idx, true),
                fonts[idx].fallback@[k]@,
                cps,
            )
    } else {
        false
    }
}

#[via_fn]
proof fn can_serve_dec(
    fonts: Seq<FontConfig>,
    procs: Seq<ProcEntry>,
    visited: Seq<bool>,
    id: Seq<char>,
    cps: Seq<u32>,
) {
    let idx: int = idx_of(fonts, id);
    if 0 <= idx < visited.len() && !visited[idx] {
        lemma_count_false_nonneg(visited.update(idx, true));
        lemma_count_false_update(visited, idx);
    }
}

/// The pool handles resolution tries for one font's own constituent files,
/// from declared file `j` on: each file's handle under the font's identity,
/// kept when its coverage of the request is non-empty.
pub open spec fn file_candidates(
    procs: Seq<ProcEntry>,
    font: FontConfig,
    cps: Seq<u32>,
    j: int,
) -> Seq<int>
    decreases font.files@.len() - j,
{
    if j < 0 || j >= font.files@.len() {
        Seq::empty()
    } else {
        let p: int = proc_idx_of(procs, font.id@, font.files@[j].font_family@);
        let rest = file_candidates(procs, font, cps, j + 1);
        if p >= 0 && available(procs[p].processor@, cps).len() > 0 {
            seq![p] + rest
        } else {
            rest
        }
    }
}

/// The ordered resolution plan for an identity: the covering files of the
/// font itself in declared order, then, with the font marked visited, each
/// declared fallback's plan in order. Empty for an unknown or already
/// visited identity.
pub open spec fn candidates(
    fonts: Seq<FontConfig>,
    procs: Seq<ProcEntry>,
    visited: Seq<bool>,
    id: Seq<char>,
    cps: Seq<u32>,
) -> Seq<int>
    decreases count_false(visited), 0int,
    via candidates_dec
{
    let idx: int = idx_of(fonts, id);
    if 0 <= idx < visited.len() && !visited[idx] {
        file_candidates(procs, fonts[idx], cps, 0) + fallback_candidates(
            fonts,
            procs,
            visited.update(idx, true),
            fonts[idx].fallback@,
            cps,
        )
    } else {
        Seq::empty()
    }
}

#[via_fn]
proof fn candidates_dec(
    fonts: Seq<FontConfig>,
    procs: Seq<ProcEntry>,
    visited: Seq<bool>,
    id: Seq<char>,
    cps: Seq<u32>,
) {
    let idx: int = idx_of(fonts, id);
    if 0 <= idx < visited.len() && !visited[idx] {
        lemma_count_false_nonneg(visited.update(idx, true));
        lemma_count_false_update(visited, idx);
    }
}

/// The concatenated plans of a fallback list, in declared order, under one
/// visited set.
pub open spec fn fallback_candidates(
    fonts: Seq<FontConfig>,
    procs: Seq<ProcEntry>,
    visited: Seq<bool>,
    fbs: Seq<String>,
    cps: Seq<u32>,
) -> Seq<int>
    decreases count_false(visited), fbs.len() + 1,
{
    if fbs.len() == 0 {
        Seq::empty()
    } else {
        candidates(fonts, procs, visited, fbs[0]@, cps) + fallback_candidates(
            fonts,
            procs,
            visited,
            fbs.drop_first(),
            cps,
        )
    }
}

/// Every planned handle is a pool index whose coverage of the request is
/// non-empty, and a plan exists exactly when resolution can serve the
/// request.
pub proof fn lemma_file_candidates_props(
    procs: Seq<ProcEntry>,
    font: FontConfig,
    cps: Seq<u32>,
    j: int,
)
    requires
        0 <= j,
    ensures
        forall|m: int|
            0 <= m < file_candidates(procs, font, cps, j).len() ==> 0 <= #[trigger] file_candidates(
                procs,
                font,
                cps,
                j,
            )[m] < procs.len() && available(
                procs[file_candidates(procs, font, cps, j)[m]].processor@,
                cps,
            ).len() > 0,
        (file_candidates(procs, font, cps, j).len() > 0) == exists|jj: int|
            j <= jj < font.files@.len() && file_avail(
                procs,
                font.id@,
                font.files@[jj].font_family@,
                cps,
            ).len() > 0,
    decreases font.files@.len() - j,
{
    if j < font.files@.len() {
        lemma_file_candidates_props(procs, font, cps, j + 1);
        let p: int = proc_idx_of(procs, font.id@, font.files@[j].font_family@);
        lemma_proc_idx_from_props(procs, font.id@, font.files@[j].font_family@, 0);
        if p >= 0 && available(procs[p].processor@, cps).len() > 0 {
            assert(file_avail(procs, font.id@, font.files@[j].font_family@, cps).len() > 0);
        } else {
            assert(file_avail(procs, font.id@, font.files@[j].font_family@, cps).len() == 0);
            assert forall|jj: int|
                j <= jj < font.files@.len() && file_avail(
                    procs,
                    font.id@,
                    font.files@[jj].font_family@,
                    cps,
                ).len() > 0 implies file_candidates(procs, font, cps, j).len() > 0 by {
                assert(jj != j);
            }
        }
    }
}

pub proof fn lemma_candidates_props(
    fonts: Seq<FontConfig>,
    procs: Seq<ProcEntry>,
    visited: Seq<bool>,
    id: Seq<char>,
    cps: Seq<u32>,
)
    ensures
        forall|m: int|
            0 <= m < candidates(fonts, procs, visited, id, cps).len() ==> 0 <= #[trigger] candidates(
                fonts,
                procs,
                visited,
                id,
                cps,
            )[m] < procs.len() && available(
                procs[candidates(fonts, procs, visited, id, cps)[m]].processor@,
                cps,
            ).len() > 0,
        (candidates(fonts, procs, visited, id, cps).len() > 0) == can_serve(
            fonts,
            procs,
            visited,
            id,
            cps,
        ),
    decreases count_false(visited), 0int,
{
    let idx: int = idx_of(fonts, id);
    if 0 <= idx < visited.len() && !visited[idx] {
        lemma_count_false_nonneg(visited.update(idx, true));
        lemma_count_false_update(visited, idx);
        lemma_file_candidates_props(procs, fonts[idx], cps, 0);
        lemma_fallback_candidates_props(
            fonts,
            procs,
            visited.update(idx, true),
            fonts[idx].fallback@,
            cps,
        );
    }
}

pub proof fn lemma_fallback_candidates_props(
    fonts: Seq<FontConfig>,
    procs: Seq<ProcEntry>,
    visited: Seq<bool>,
    fbs: Seq<String>,
    cps: Seq<u32>,
)
    ensures
        forall|m: int|
            0 <= m < fallback_candidates(fonts, procs, visited, fbs, cps).len() ==> 0
                <= #[trigger] fallback_candidates(fonts, procs, visited, fbs, cps)[m] < procs.len()
                && available(
                procs[fallback_candidates(fonts, procs, visited, fbs, cps)[m]].processor@,
                cps,
            ).len() > 0,
        (fallback_candidates(fonts, procs, visited, fbs, cps).len() > 0) == exists|k: int|
            0 <= k < fbs.len() && can_serve(fonts, procs, visited, fbs[k]@, cps),
    decreases count_false(visited), fbs.len() + 1,
{
    if fbs.len() > 0 {
        lemma_candidates_props(fonts, procs, visited, fbs[0]@, cps);
        lemma_fallback_candidates_props(fonts, procs, visited, fbs.drop_first(), cps);
        if fallback_candidates(fonts, procs, visited, fbs, cps).len() > 0 {
            if candidates(fonts, procs, visited, fbs[0]@, cps).len() > 0 {
                assert(can_serve(fonts, procs, visited, fbs[0]@, cps));
            } else {
                let k: int = choose|k: int|
                    0 <= k < fbs.drop_first().len() && can_serve(
                        fonts,
                        procs,
                        visited,
                        fbs.drop_first()[k]@,
                        cps,
                    );
                assert(fbs.drop_first()[k] == fbs[k + 1]);
                assert(can_serve(fonts, procs, visited, fbs[k + 1]@, cps));
            }
        }
        if exists|k: int| 0 <= k < fbs.len() && can_serve(fonts, procs, visited, fbs[k]@, cps) {
            let k: int = choose|k: int|
                0 <= k < fbs.len() && can_serve(fonts, procs, visited, fbs[k]@, cps);
            if k == 0 {
                assert(candidates(fonts, procs, visited, fbs[0]@, cps).len() > 0);
            } else {
                assert(fbs.drop_first()[k - 1] == fbs[k]);
                assert(can_serve(fonts, procs, visited, fbs.drop_first()[k - 1]@, cps));
                assert(fallback_candidates(fonts, procs, visited, fbs.drop_first(), cps).len() > 0);
            }
        }
    }
}

/// The concatenated plans of every registered font, in registry order, each
/// from a fresh visited set: what an identity-less request tries.
pub open spec fn all_candidates(
    fonts: Seq<FontConfig>,
    procs: Seq<ProcEntry>,
    cps: Seq<u32>,
    i: int,
) -> Seq<int>
    decreases fonts.len() - i,
{
    if i < 0 || i >= fonts.len() {
        Seq::empty()
    } else {
        candidates(fonts, procs, all_false(fonts.len() as int), fonts[i].id@, cps)
            + all_candidates(fonts, procs, cps, i + 1)
    }
}

pub proof fn lemma_all_candidates_props(
    fonts: Seq<FontConfig>,
    procs: Seq<ProcEntry>,
    cps: Seq<u32>,
    i: int,
)
    requires
        0 <= i,
    ensures
        forall|m: int|
            0 <= m < all_candidates(fonts, procs, cps, i).len() ==> 0 <= #[trigger] all_candidates(
                fonts,
                procs,
                cps,
                i,
            )[m] < procs.len() && available(
                procs[all_candidates(fonts, procs, cps, i)[m]].processor@,
                cps,
            ).len() > 0,
        (all_candidates(fonts, procs, cps, i).len() > 0) == exists|q: int|
            i <= q < fonts.len() && can_serve(
                fonts,
                procs,
                all_false(fonts.len() as int),
                fonts[q].id@,
                cps,
            ),
    decreases fonts.len() - i,
{
    if i < fonts.len() {
        lemma_candidates_props(fonts, procs, all_false(fonts.len() as int), fonts[i].id@, cps);
        lemma_all_candidates_props(fonts, procs, cps, i + 1);
        if all_candidates(fonts, procs, cps, i).len() > 0 {
            if candidates(fonts, procs, all_false(fonts.len() as int), fonts[i].id@, cps).len()
                > 0 {
                assert(can_serve(fonts, procs, all_false(fonts.len() as int), fonts[i].id@, cps));
            }
        }
        if exists|q: int|
            i <= q < fonts.len() && can_serve(
                fonts,
                procs,
                all_false(fonts.len() as int),
                fonts[q].id@,
                cps,
            ) {
            let q: int = choose|q: int|
                i <= q < fonts.len() && can_serve(
                    fonts,
                    procs,
                    all_false(fonts.len() as int),
                    fonts[q].id@,
                    cps,
                );
            if q == i {
                assert(candidates(
                    fonts,
                    procs,
                    all_false(fonts.len() as int),
                    fonts[i].id@,
                    cps,
                ).len() > 0);
            } else {
                assert(all_candidates(fonts, procs, cps, i + 1).len() > 0);
            }
        }
    }
}

/// An executable plan renders a spec plan: same handles, in the same order.
pub open spec fn matches_candidates(v: Seq<usize>, c: Seq<int>) -> bool {
    v.len() == c.len() && forall|m: int| 0 <= m < v.len() ==> #[trigger] v[m] as int == c[m]
}

/// What resolution against one named identity returns: an unknown identity
/// is reported as such; otherwise the exact plan of pool handles to try, in
/// traversal order, or `CharacterNotFound` carrying the first requested code
/// point when no handle covers anything along the walk.
pub open spec fn resolution_post(
    fonts: Seq<FontConfig>,
    procs: Seq<ProcEntry>,
    id: Seq<char>,
    cps: Seq<u32>,
    r: Result<Vec<usize>, AppError>,
) -> bool {
    &&& (r is Ok <==> can_serve(fonts, procs, all_false(fonts.len() as int), id, cps))
    &&& (r matches Ok(v) ==> matches_candidates(
        v@,
        candidates(fonts, procs, all_false(fonts.len() as int), id, cps),
    ))
    &&& (r matches Err(e) ==> (if idx_of(fonts, id) < 0 {
        e matches AppError::FontNotFound(s) && s@ == id
    } else {
        e matches AppError::CharacterNotFound(c) && c == cps[0]
    }))
}

/// The outcome of the cache-first path: a stored artifact served as it is,
/// or the resolution plan for generating one.
pub enum CacheOutcome {
    Hit(Vec<u8>),
    Generate(Vec<usize>),
}

/// One registration step of a directory scan: a successfully parsed
/// descriptor replaces its identity's earlier descriptor in place or is
/// appended in input order; a corrupt one changes nothing.
pub open spec fn register_step(fonts: Seq<FontConfig>, item: Option<FontConfig>) -> Seq<FontConfig> {
    match item {
        None => fonts,
        Some(f) => if idx_of(fonts, f.id@) >= 0 {
            fonts.update(idx_of(fonts, f.id@), f)
        } else {
            fonts.push(f)
        },
    }
}

/// The registry a scan leaves behind: the registration steps folded over the
/// parse outcomes in directory order.
pub open spec fn registry_after(
    fonts: Seq<FontConfig>,
    parsed: Seq<Option<FontConfig>>,
) -> Seq<FontConfig>
    decreases parsed.len(),
{
    if parsed.len() == 0 {
        fonts
    } else {
        registry_after(register_step(fonts, parsed[0]), parsed.drop_first())
    }
}

/// The engine's shared state: settings, the font registry in load order, and
/// the subset provider pool. Built once at startup; read-only afterwards.
pub struct FontService {
    config: AppConfig,
    fonts: Vec<FontConfig>,
    procs: Vec<ProcEntry>,
}

fn clone_bools(v: &Vec<bool>) -> (r: Vec<bool>)
    ensures
        r@ == v@,
{
    let mut out: Vec<bool> = Vec::new();
    let mut i: usize = 0;
    while i < v.len()
        invariant
            i <= v@.len(),
            out@ =~= v@.subrange(0, i as int),
        decreases v@.len() - i,
    {
        out.push(v[i]);
        i = i + 1;
    }
    proof {
        assert(out@ =~= v@);
    }
    out
}

fn clone_strings(v: &Vec<String>) -> (r: Vec<String>)
    ensures
        r@ == v@,
{
    let mut out: Vec<String> = Vec::new();
    let mut i: usize = 0;
    while i < v.len()
        invariant
            i <= v@.len(),
            out@ =~= v@.subrange(0, i as int),
        decreases v@.len() - i,
    {
        out.push(v[i].clone());
        i = i + 1;
    }
    proof {
        assert(out@ =~= v@);
    }
    out
}

impl FontService {
    /// The registry: descriptors in load order, identities unique.
    pub closed spec fn registry(&self) -> Seq<FontConfig> {
        self.fonts@
    }

    /// The provider pool: one handle per (identity, family) key.
    pub closed spec fn pool(&self) -> Seq<ProcEntry> {
        self.procs@
    }

    pub closed spec fn spec_config(&self) -> AppConfig {
        self.config
    }

    /// Registered identities are unique, so identity lookup is unambiguous,
    /// and every pool handle is well formed: its bytes parse and hold at
    /// least one glyph, which is what the subsetting engine needs.
    pub open spec fn wf(&self) -> bool {
        &&& forall|i: int, j: int|
            0 <= i < j < self.registry().len() ==> self.registry()[i].id@ != self.registry()[j].id@
        &&& forall|k: int|
            0 <= k < self.pool().len() ==> (#[trigger] self.pool()[k]).processor.wf()
    }

    pub fn config(&self) -> (r: &AppConfig)
        ensures
            r == self.spec_config(),
    {
        &self.config
    }

    /// An empty service over the given settings; fonts and handles are
    /// registered one by one as the data directory is read.
    pub fn new(config: AppConfig) -> (r: FontService)
        ensures
            r.wf(),
            r.registry().len() == 0,
            r.pool().len() == 0,
            r.spec_config() == config,
    {
        FontService { config, fonts: Vec::new(), procs: Vec::new() }
    }

    /// Finds the registry index of an identity.
    fn find_font(&self, id: &String) -> (r: Option<usize>)
        ensures
            r is Some <==> idx_of(self.registry(), id@) >= 0,
            r matches Some(u) ==> u == idx_of(self.registry(), id@),
    {
        let mut i: usize = 0;
        while i < self.fonts.len()
            invariant
                i <= self.fonts@.len(),
                idx_of(self.fonts@, id@) == idx_from(self.fonts@, id@, i as int),
            decreases self.fonts@.len() - i,
        {
            if self.fonts[i].id.eq(id) {
                return Some(i);
            }
            i = i + 1;
        }
        None
    }

    /// Finds the pool index of an (identity, family) key.
    fn find_proc(&self, id: &String, family: &String) -> (r: Option<usize>)
        ensures
            r is Some <==> proc_idx_of(self.pool(), id@, family@) >= 0,
            r matches Some(u) ==> u == proc_idx_of(self.pool(), id@, family@),
    {
        let mut i: usize = 0;
        while i < self.procs.len()
            invariant
                i <= self.procs@.len(),
                proc_idx_of(self.procs@, id@, family@) == proc_idx_from(
                    self.procs@,
                    id@,
                    family@,
                    i as int,
                ),
            decreases self.procs@.len() - i,
        {
            if self.procs[i].font_id.eq(id) && self.procs[i].family.eq(family) {
                return Some(i);
            }
            i = i + 1;
        }
        None
    }

    /// Collects, in traversal order, the resolution plan for the identity:
    /// the pool handles of its covering files in declared order, then each
    /// declared fallback's plan with this font marked visited.
    fn collect_candidates(
        &self,
        visited: &Vec<bool>,
        font_id: &String,
        codepoints: &Vec<u32>,
        out: &mut Vec<usize>,
    )
        requires
            self.wf(),
            visited@.len() == self.registry().len(),
        ensures
            final(out)@.len() == old(out)@.len() + candidates(
                self.registry(),
                self.pool(),
                visited@,
                font_id@,
                codepoints@,
            ).len(),
            forall|m: int| 0 <= m < old(out)@.len() ==> final(out)@[m] == old(out)@[m],
            forall|m: int|
                0 <= m < candidates(
                    self.registry(),
                    self.pool(),
                    visited@,
                    font_id@,
                    codepoints@,
                ).len() ==> #[trigger] final(out)@[old(out)@.len() + m] as int == candidates(
                    self.registry(),
                    self.pool(),
                    visited@,
                    font_id@,
                    codepoints@,
                )[m],
        decreases count_false(visited@),
    {
        let ghost base = out@;
        let ghost cand = candidates(self.registry(), self.pool(), visited@, font_id@, codepoints@);
        proof {
            lemma_idx_from_props(self.fonts@, font_id@, 0);
        }
        let i: usize = match self.find_font(font_id) {
            None => {
                proof {
                    assert(cand =~= Seq::<int>::empty());
                }
                return ;
            },
            Some(i) => i,
        };
        if visited[i] {
            proof {
                assert(cand =~= Seq::<int>::empty());
            }
            return ;
        }
        let ghost vis1 = visited@.update(i as int, true);
        let f = &self.fonts[i];
        let ghost fc = file_candidates(self.pool(), self.fonts@[i as int], codepoints@, 0);
        let ghost mut taken: Seq<int> = Seq::empty();
        let mut j: usize = 0;
        proof {
            assert(Seq::<int>::empty() + fc =~= fc);
        }
        while j < f.files.len()
            invariant
                self.wf(),
                j <= f.files@.len(),
                f == self.fonts@[i as int],
                0 <= i < self.fonts@.len(),
                f.id@ == font_id@,
                visited@.len() == self.registry().len(),
                !visited@[i as int],
                fc == file_candidates(self.pool(), self.fonts@[i as int], codepoints@, 0),
                fc =~= taken + file_candidates(
                    self.pool(),
                    self.fonts@[i as int],
                    codepoints@,
                    j as int,
                ),
                out@.len() == base.len() + taken.len(),
                forall|m: int| 0 <= m < base.len() ==> out@[m] == base[m],
                forall|m: int|
                    0 <= m < taken.len() ==> #[trigger] out@[base.len() + m] as int == taken[m],
            decreases f.files@.len() - j,
        {
            let ghost rem = file_candidates(
                self.pool(),
                self.fonts@[i as int],
                codepoints@,
                j as int,
            );
            proof {
                lemma_proc_idx_from_props(
                    self.procs@,
                    self.fonts@[i as int].id@,
                    self.fonts@[i as int].files@[j as int].font_family@,
                    0,
                );
            }
            match self.find_proc(font_id, &f.files[j].font_family) {
                None => {
                    proof {
                        assert(rem == file_candidates(
                            self.pool(),
                            self.fonts@[i as int],
                            codepoints@,
                            j + 1,
                        ));
                    }
                },
                Some(p) => {
                    proof {
                        assert((#[trigger] self.pool()[p as int]).processor.wf());
                    }
                    let avail = self.procs[p].processor.get_available_chars(
                        codepoints.as_slice(),
                    );
                    if avail.len() > 0 {
                        out.push(p);
                        proof {
                            assert(rem =~= seq![p as int] + file_candidates(
                                self.pool(),
                                self.fonts@[i as int],
                                codepoints@,
                                j + 1,
                            ));
                            taken = taken.push(p as int);
                            assert(fc =~= taken + file_candidates(
                                self.pool(),
                                self.fonts@[i as int],
                                codepoints@,
                                j + 1,
                            ));
                        }
                    } else {
                        proof {
                            assert(rem == file_candidates(
                                self.pool(),
                                self.fonts@[i as int],
                                codepoints@,
                                j + 1,
                            ));
                        }
                    }
                },
            }
            j = j + 1;
        }
        proof {
            assert(file_candidates(
                self.pool(),
                self.fonts@[i as int],
                codepoints@,
                f.files@.len() as int,
            ) =~= Seq::<int>::empty());
            assert(taken =~= fc);
        }
        // the declared fallback chain, with this font marked visited
        let mut v2 = clone_bools(visited);
        v2[i] = true;
        let ghost fbs = self.fonts@[i as int].fallback@;
        let ghost mut fbtaken: Seq<int> = Seq::empty();
        let mut k: usize = 0;
        proof {
            assert(fbs.subrange(0, fbs.len() as int) =~= fbs);
            assert(Seq::<int>::empty() + fallback_candidates(
                self.registry(),
                self.pool(),
                vis1,
                fbs,
                codepoints@,
            ) =~= fallback_candidates(self.registry(), self.pool(), vis1, fbs, codepoints@));
        }
        while k < f.fallback.len()
            invariant
                self.wf(),
                k <= f.fallback@.len(),
                f == self.fonts@[i as int],
                0 <= i < self.fonts@.len(),
                f.id@ == font_id@,
                visited@.len() == self.registry().len(),
                !visited@[i as int],
                i == idx_of(self.registry(), font_id@),
                v2@ == vis1,
                vis1 == visited@.update(i as int, true),
                fbs == self.fonts@[i as int].fallback@,
                cand == candidates(self.registry(), self.pool(), visited@, font_id@, codepoints@),
                cand =~= fc + fallback_candidates(
                    self.registry(),
                    self.pool(),
                    vis1,
                    fbs,
                    codepoints@,
                ),
                fallback_candidates(self.registry(), self.pool(), vis1, fbs, codepoints@)
                    =~= fbtaken + fallback_candidates(
                    self.registry(),
                    self.pool(),
                    vis1,
                    fbs.subrange(k as int, fbs.len() as int),
                    codepoints@,
                ),
                out@.len() == base.len() + taken.len() + fbtaken.len(),
                taken == fc,
                fc == file_candidates(self.pool(), self.fonts@[i as int], codepoints@, 0),
                forall|m: int| 0 <= m < base.len() ==> out@[m] == base[m],
                forall|m: int|
                    0 <= m < taken.len() ==> #[trigger] out@[base.len() + m] as int == taken[m],
                forall|m: int|
                    0 <= m < fbtaken.len() ==> #[trigger] out@[base.len() + taken.len() + m] as int
                        == fbtaken[m],
            decreases f.fallback@.len() - k,
        {
            let ghost sub = fbs.subrange(k as int, fbs.len() as int);
            let ghost fbcand = candidates(
                self.registry(),
                self.pool(),
                vis1,
                fbs[k as int]@,
                codepoints@,
            );
            proof {
                lemma_count_false_nonneg(vis1);
                lemma_count_false_update(visited@, i as int);
                assert(sub[0] == fbs[k as int]);
                assert(sub.drop_first() =~= fbs.subrange(k + 1, fbs.len() as int));
                assert(fallback_candidates(self.registry(), self.pool(), vis1, sub, codepoints@)
                    =~= fbcand + fallback_candidates(
                    self.registry(),
                    self.pool(),
                    vis1,
                    fbs.subrange(k + 1, fbs.len() as int),
                    codepoints@,
                ));
            }
            let vk = clone_bools(&v2);
            let ghost pre_out = out@;
            let ghost prefb = fbtaken;
            self.collect_candidates(&vk, &f.fallback[k], codepoints, out);
            proof {
                fbtaken = fbtaken + fbcand;
                assert(fallback_candidates(self.registry(), self.pool(), vis1, fbs, codepoints@)
                    =~= fbtaken + fallback_candidates(
                    self.registry(),
                    self.pool(),
                    vis1,
                    fbs.subrange(k + 1, fbs.len() as int),
                    codepoints@,
                ));
                assert(vk@ == vis1);
                assert(out@.len() == pre_out.len() + fbcand.len());
                assert forall|m: int|
                    0 <= m < fbtaken.len() implies #[trigger] out@[base.len() + taken.len()
                    + m] as int == fbtaken[m] by {
                    if m < prefb.len() {
                        assert(out@[base.len() + taken.len() + m] == pre_out[base.len()
                            + taken.len() + m]);
                    } else {
                        let mm = m - prefb.len();
                        assert(out@[pre_out.len() + mm] as int == candidates(
                            self.registry(),
                            self.pool(),
                            vis1,
                            fbs[k as int]@,
                            codepoints@,
                        )[mm]);
                    }
                }
            }
            k = k + 1;
        }
        proof {
            assert(fbs.subrange(fbs.len() as int, fbs.len() as int)
                =~= Seq::<String>::empty());
            assert(fallback_candidates(
                self.registry(),
                self.pool(),
                vis1,
                fbs.subrange(fbs.len() as int, fbs.len() as int),
                codepoints@,
            ) =~= Seq::<int>::empty());
            assert(fbtaken =~= fallback_candidates(
                self.registry(),
                self.pool(),
                vis1,
                fbs,
                codepoints@,
            ));
            assert(cand =~= taken + fbtaken);
            assert(out@.len() == base.len() + cand.len());
            assert forall|m: int| 0 <= m < cand.len() implies #[trigger] out@[base.len()
                + m] as int == cand[m] by {
                if m < taken.len() {
                    assert(out@[base.len() + m] as int == taken[m]);
                } else {
                    assert(out@[base.len() + taken.len() + (m - taken.len())] as int == fbtaken[m
                        - taken.len()]);
                }
            }
        }
    }

    /// Resolution against one named identity, as `resolution_post` states:
    /// the exact plan of pool handles to try, walking the font's files in
    /// declared order and its fallback chain with a fresh visited set.
    pub fn generate_font_by_id(&self, font_id: &String, codepoints: &Vec<u32>) -> (r: Result<
        Vec<usize>,
        AppError,
    >)
        requires
            self.wf(),
            codepoints@.len() > 0,
        ensures
            resolution_post(self.registry(), self.pool(), font_id@, codepoints@, r),
    {
        proof {
            lemma_idx_from_props(self.fonts@, font_id@, 0);
        }
        if self.find_font(font_id).is_none() {
            proof {
                assert(!can_serve(
                    self.registry(),
                    self.pool(),
                    all_false(self.registry().len() as int),
                    font_id@,
                    codepoints@,
                ));
            }
            return Err(AppError::FontNotFound(font_id.clone()));
        }
        let mut visited: Vec<bool> = Vec::new();
        let mut i: usize = 0;
        while i < self.fonts.len()
            invariant
                i <= self.fonts@.len(),
                visited@ =~= all_false(i as int),
            decreases self.fonts@.len() - i,
        {
            visited.push(false);
            proof {
                assert(visited@ =~= all_false(i + 1));
            }
            i = i + 1;
        }
        proof {
            assert(visited@ =~= all_false(self.registry().len() as int));
        }
        let mut out: Vec<usize> = Vec::new();
        self.collect_candidates(&visited, font_id, codepoints, &mut out);
        proof {
            lemma_candidates_props(
                self.registry(),
                self.pool(),
                visited@,
                font_id@,
                codepoints@,
            );
            let cand = candidates(
                self.registry(),
                self.pool(),
                visited@,
                font_id@,
                codepoints@,
            );
            assert(out@.len() == cand.len());
            assert forall|m: int| 0 <= m < out@.len() implies #[trigger] out@[m] as int
                == cand[m] by {
                assert(out@[0 + m] as int == cand[m]);
            }
            assert(matches_candidates(out@, cand));
        }
        if out.len() == 0 {
            Err(AppError::CharacterNotFound(codepoints[0]))
        } else {
            Ok(out)
        }
    }

    /// The resolution entry point. An empty request is rejected as invalid.
    /// With a named identity, resolution is against that identity only; with
    /// none, the plans of every registered font are concatenated in registry
    /// order, and only an entirely empty plan is a failure, reported as
    /// `CharacterNotFound` carrying the first requested code point.
    pub fn generate_font(&self, font_id: Option<&String>, codepoints: &Vec<u32>) -> (r: Result<
        Vec<usize>,
        AppError,
    >)
        requires
            self.wf(),
        ensures
            codepoints@.len() == 0 ==> (r matches Err(e) && e is InvalidInput),
            codepoints@.len() > 0 ==> match font_id {
                Some(id) => resolution_post(self.registry(), self.pool(), id@, codepoints@, r),
                None => {
                    &&& (r is Ok <==> exists|q: int|
                        0 <= q < self.registry().len() && can_serve(
                            self.registry(),
                            self.pool(),
                            all_false(self.registry().len() as int),
                            self.registry()[q].id@,
                            codepoints@,
                        ))
                    &&& (r matches Ok(v) ==> matches_candidates(
                        v@,
                        all_candidates(self.registry(), self.pool(), codepoints@, 0),
                    ))
                    &&& (r matches Err(e) ==> e matches AppError::CharacterNotFound(c) && c
                        == codepoints@[0])
                },
            },
    {
        if codepoints.len() == 0 {
            return Err(AppError::InvalidInput);
        }
        match font_id {
            Some(id) => self.generate_font_by_id(id, codepoints),
            None => {
                let mut visited: Vec<bool> = Vec::new();
                let mut i: usize = 0;
                while i < self.fonts.len()
                    invariant
                        i <= self.fonts@.len(),
                        visited@ =~= all_false(i as int),
                    decreases self.fonts@.len() - i,
                {
                    visited.push(false);
                    proof {
                        assert(visited@ =~= all_false(i + 1));
                    }
                    i = i + 1;
                }
                proof {
                    assert(visited@ =~= all_false(self.registry().len() as int));
                }
                let mut out: Vec<usize> = Vec::new();
                let ghost ac = all_candidates(self.registry(), self.pool(), codepoints@, 0);
                let ghost mut taken: Seq<int> = Seq::empty();
                let mut q: usize = 0;
                proof {
                    assert(Seq::<int>::empty() + ac =~= ac);
                }
                while q < self.fonts.len()
                    invariant
                        self.wf(),
                        font_id is None,
                        codepoints@.len() > 0,
                        q <= self.fonts@.len(),
                        visited@ =~= all_false(self.registry().len() as int),
                        ac == all_candidates(self.registry(), self.pool(), codepoints@, 0),
                        ac =~= taken + all_candidates(
                            self.registry(),
                            self.pool(),
                            codepoints@,
                            q as int,
                        ),
                        out@.len() == taken.len(),
                        forall|m: int|
                            0 <= m < taken.len() ==> #[trigger] out@[m] as int == taken[m],
                    decreases self.fonts@.len() - q,
                {
                    let ghost qc = candidates(
                        self.registry(),
                        self.pool(),
                        all_false(self.registry().len() as int),
                        self.registry()[q as int].id@,
                        codepoints@,
                    );
                    proof {
                        assert(all_candidates(self.registry(), self.pool(), codepoints@, q as int)
                            =~= qc + all_candidates(
                            self.registry(),
                            self.pool(),
                            codepoints@,
                            q + 1,
                        ));
                    }
                    let ghost pre_out = out@;
                    let ghost pretaken = taken;
                    self.collect_candidates(&visited, &self.fonts[q].id, codepoints, &mut out);
                    proof {
                        taken = taken + qc;
                        assert(ac =~= taken + all_candidates(
                            self.registry(),
                            self.pool(),
                            codepoints@,
                            q + 1,
                        ));
                        assert forall|m: int|
                            0 <= m < taken.len() implies #[trigger] out@[m] as int == taken[m] by {
                            if m < pretaken.len() {
                                assert(out@[m] == pre_out[m]);
                            } else {
                                let mm = m - pretaken.len();
                                assert(out@[pre_out.len() + mm] as int == qc[mm]);
                            }
                        }
                    }
                    q = q + 1;
                }
                proof {
                    assert(all_candidates(
                        self.registry(),
                        self.pool(),
                        codepoints@,
                        self.fonts@.len() as int,
                    ) =~= Seq::<int>::empty());
                    assert(taken =~= ac);
                    lemma_all_candidates_props(self.registry(), self.pool(), codepoints@, 0);
                }
                if out.len() == 0 {
                    Err(AppError::CharacterNotFound(codepoints[0]))
                } else {
                    Ok(out)
                }
            },
        }
    }

    /// The cache-first retrieval decision, over the outcome of the cache
    /// read the boundary performed: a hit is served as it is (a cached
    /// artifact is never regenerated), a miss yields the resolution plan for
    /// generating the artifact against the named identity.
    pub fn get_cached_font(&self, font_id: &String, codepoints: &Vec<u32>, cached: Option<Vec<u8>>)
        -> (r: Result<CacheOutcome, AppError>)
        requires
            self.wf(),
        ensures
            cached matches Some(b) ==> (r matches Ok(o) && (o matches CacheOutcome::Hit(rb) && rb@
                == b@)),
            cached is None && codepoints@.len() == 0 ==> (r matches Err(e) && e is InvalidInput),
            cached is None && codepoints@.len() > 0 ==> {
                &&& (r is Ok <==> can_serve(
                    self.registry(),
                    self.pool(),
                    all_false(self.registry().len() as int),
                    font_id@,
                    codepoints@,
                ))
                &&& (r matches Ok(o) ==> (o matches CacheOutcome::Generate(v)
                    && matches_candidates(
                    v@,
                    candidates(
                        self.registry(),
                        self.pool(),
                        all_false(self.registry().len() as int),
                        font_id@,
                        codepoints@,
                    ),
                )))
                &&& (r matches Err(e) ==> (if idx_of(self.registry(), font_id@) < 0 {
                    e matches AppError::FontNotFound(s) && s@ == font_id@
                } else {
                    e matches AppError::CharacterNotFound(c) && c == codepoints@[0]
                }))
            },
    {
        match cached {
            Some(b) => Ok(CacheOutcome::Hit(b)),
            None => match self.generate_font(Some(font_id), codepoints) {
                Ok(v) => Ok(CacheOutcome::Generate(v)),
                Err(e) => Err(e),
            },
        }
    }

    /// The number of handles in the provider pool; plan entries index it.
    pub fn pool_len(&self) -> (r: usize)
        ensures
            r == self.pool().len(),
    {
        self.procs.len()
    }

    /// The covered part of a request against one pool handle, in request
    /// order: what the boundary hands the subsetting engine for that handle.
    pub fn candidate_available(&self, k: usize, codepoints: &Vec<u32>) -> (r: Vec<u32>)
        requires
            k < self.pool().len(),
        ensures
            r@ == available(self.pool()[k as int].processor@, codepoints@),
    {
        self.procs[k].processor.get_available_chars(codepoints.as_slice())
    }

    /// The font binary behind one pool handle, for the boundary's engine.
    pub fn candidate_data(&self, k: usize) -> (r: &Vec<u8>)
        requires
            k < self.pool().len(),
        ensures
            r@ == self.pool()[k as int].processor@,
    {
        self.procs[k].processor.data()
    }

    /// A read of the registry: identity, version, family, license and
    /// fallback chain of every registered font, in registry order.
    pub fn list_fonts(&self) -> (r: Vec<FontInfo>)
        ensures
            r@.len() == self.registry().len(),
            forall|i: int|
                0 <= i < r@.len() ==> {
                    &&& (#[trigger] r@[i]).id == self.registry()[i].id
                    &&& r@[i].version == self.registry()[i].version
                    &&& r@[i].font_family == self.registry()[i].font_family
                    &&& r@[i].license == self.registry()[i].license
                    &&& r@[i].fallback@ == self.registry()[i].fallback@
                },
    {
        let mut out: Vec<FontInfo> = Vec::new();
        let mut i: usize = 0;
        while i < self.fonts.len()
            invariant
                i <= self.fonts@.len(),
                out@.len() == i,
                forall|j: int|
                    0 <= j < i ==> {
                        &&& (#[trigger] out@[j]).id == self.fonts@[j].id
                        &&& out@[j].version == self.fonts@[j].version
                        &&& out@[j].font_family == self.fonts@[j].font_family
                        &&& out@[j].license == self.fonts@[j].license
                        &&& out@[j].fallback@ == self.fonts@[j].fallback@
                    },
            decreases self.fonts@.len() - i,
        {
            let f = &self.fonts[i];
            let info = FontInfo {
                id: f.id.clone(),
                version: f.version.clone(),
                font_family: f.font_family.clone(),
                license: f.license.clone(),
                fallback: clone_strings(&f.fallback),
            };
            out.push(info);
            i = i + 1;
        }
        out
    }

    /// Registers a descriptor: a new identity is appended in load order, a
    /// known one replaces its earlier descriptor (the last successfully
    /// parsed one wins).
    pub fn register_font(&mut self, font: FontConfig)
        requires
            old(self).wf(),
        ensures
            final(self).wf(),
            final(self).pool() == old(self).pool(),
            final(self).spec_config() == old(self).spec_config(),
            idx_of(old(self).registry(), font.id@) >= 0 ==> final(self).registry() == old(self).registry().update(idx_of(old(self).registry(), font.id@), font),
            idx_of(old(self).registry(), font.id@) < 0 ==> final(self).registry() == old(self).registry().push(font),
    {
        proof {
            lemma_idx_from_props(self.fonts@, font.id@, 0);
        }
        match self.find_font(&font.id) {
            Some(i) => {
                let ghost pre = self.fonts@;
                self.fonts[i] = font;
                proof {
                    assert forall|p: int, q: int|
                        0 <= p < q < self.fonts@.len() implies self.fonts@[p].id@
                        != self.fonts@[q].id@ by {
                        assert(pre[p].id@ != pre[q].id@);
                        assert(pre[i as int].id@ == self.fonts@[i as int].id@);
                    }
                }
            },
            None => {
                self.fonts.push(font);
            },
        }
        proof {
            assert forall|k: int| 0 <= k < self.pool().len() implies (#[trigger] self.pool()[k]).processor.wf() by {
                assert(old(self).pool()[k].processor.wf());
            }
        }
    }

    /// Builds the pool handle for one declared font file from its bytes and
    /// registers it under the (identity, family) key: an existing handle with
    /// the same key is replaced in place (the last loaded one wins), a new
    /// key is appended, and every other entry is left untouched. Bytes that
    /// do not parse as a font face, or that hold no glyph, are rejected and
    /// the pool is left unchanged: a missing or unparsable file costs only
    /// that file, never the font.
    pub fn add_processor(&mut self, font_id: String, family: String, data: Vec<u8>) -> (r: bool)
        ensures
            r == (face_parseable(data@) && hb_glyph_count_of(data@) > 0),
            final(self).registry() == old(self).registry(),
            final(self).spec_config() == old(self).spec_config(),
            old(self).wf() ==> final(self).wf(),
            !r ==> final(self).pool() == old(self).pool(),
            r && proc_idx_of(old(self).pool(), font_id@, family@) >= 0 ==> {
                let k = proc_idx_of(old(self).pool(), font_id@, family@);
                &&& final(self).pool().len() == old(self).pool().len()
                &&& final(self).pool()[k].font_id@ == font_id@
                &&& final(self).pool()[k].family@ == family@
                &&& final(self).pool()[k].processor@ == data@
                &&& forall|j: int|
                    0 <= j < old(self).pool().len() && j != k ==> final(self).pool()[j] == old(
                        self,
                    ).pool()[j]
            },
            r && proc_idx_of(old(self).pool(), font_id@, family@) < 0 ==> {
                &&& final(self).pool().len() == old(self).pool().len() + 1
                &&& final(self).pool()[old(self).pool().len() as int].font_id@ == font_id@
                &&& final(self).pool()[old(self).pool().len() as int].family@ == family@
                &&& final(self).pool()[old(self).pool().len() as int].processor@ == data@
                &&& forall|j: int|
                    0 <= j < old(self).pool().len() ==> final(self).pool()[j] == old(self).pool()[j]
            },
    {
        let ghost d = data@;
        let ghost gid = font_id@;
        let ghost gfam = family@;
        match FontProcessor::new(data) {
            Err(_) => false,
            Ok(processor) => {
                proof {
                    lemma_proc_idx_from_props(self.procs@, gid, gfam, 0);
                }
                match self.find_proc(&font_id, &family) {
                    Some(k) => {
                        self.procs[k] = ProcEntry { font_id, family, processor };
                    },
                    None => {
                        self.procs.push(ProcEntry { font_id, family, processor });
                    },
                }
                proof {
                    if old(self).wf() {
                        assert forall|q: int|
                            0 <= q < self.pool().len() implies (#[trigger] self.pool()[q]).processor.wf() by {
                            if q < old(self).pool().len() {
                                assert(old(self).pool()[q].processor.wf());
                            }
                        }
                    }
                }
                true
            },
        }
    }

    /// Registers every successfully parsed descriptor of a scan of the font
    /// directory, skipping the corrupt ones: one malformed descriptor never
    /// prevents the remaining fonts from loading. The registry afterwards is
    /// exactly the registration steps folded over the parse outcomes in
    /// directory order: each parsed descriptor is stored whole, the last one
    /// with a given identity winning, new identities appended in input order.
    pub fn load_fonts(&mut self, parsed: Vec<Option<FontConfig>>)
        requires
            old(self).wf(),
        ensures
            final(self).wf(),
            final(self).pool() == old(self).pool(),
            final(self).spec_config() == old(self).spec_config(),
            final(self).registry() == registry_after(old(self).registry(), parsed@),
            forall|id: Seq<char>|
                idx_of(final(self).registry(), id) >= 0 <==> (idx_of(old(self).registry(), id) >= 0
                    || exists|k: int|
                    0 <= k < parsed@.len() && ((#[trigger] parsed@[k]) matches Some(f) && f.id@
                        == id)),
    {
        let ghost orig = parsed@;
        let mut rest = parsed;
        let ghost mut done: int = 0;
        proof {
            assert(orig.subrange(0, orig.len() as int) =~= orig);
        }
        while rest.len() > 0
            invariant
                self.wf(),
                0 <= done <= orig.len(),
                rest@ =~= orig.subrange(done, orig.len() as int),
                self.pool() == old(self).pool(),
                self.spec_config() == old(self).spec_config(),
                registry_after(old(self).registry(), orig) == registry_after(
                    self.registry(),
                    orig.subrange(done, orig.len() as int),
                ),
                forall|id: Seq<char>|
                    idx_of(self.registry(), id) >= 0 <==> (idx_of(old(self).registry(), id) >= 0
                        || exists|k: int|
                        0 <= k < done && ((#[trigger] orig[k]) matches Some(f) && f.id@ == id)),
            decreases rest@.len(),
        {
            let item = rest.remove(0);
            proof {
                assert(item == orig[done]);
                assert(rest@ =~= orig.subrange(done + 1, orig.len() as int));
                let sub = orig.subrange(done, orig.len() as int);
                assert(sub[0] == orig[done]);
                assert(sub.drop_first() =~= orig.subrange(done + 1, orig.len() as int));
                assert(registry_after(self.registry(), sub) == registry_after(
                    register_step(self.registry(), orig[done]),
                    orig.subrange(done + 1, orig.len() as int),
                ));
            }
            let ghost pre = self.fonts@;
            match item {
                Some(font) => {
                    let ghost fid = font.id@;
                    self.register_font(font);
                    proof {
                        assert(self.registry() == register_step(pre, orig[done]));
                        lemma_registered_after(pre, self.fonts@, orig[done]->Some_0);
                        assert forall|id: Seq<char>|
                            idx_of(self.registry(), id) >= 0 <==> (idx_of(
                                old(self).registry(),
                                id,
                            ) >= 0 || exists|k: int|
                                0 <= k < done + 1 && ((#[trigger] orig[k]) matches Some(f)
                                    && f.id@ == id)) by {
                            if idx_of(self.registry(), id) >= 0 {
                                if id == fid {
                                    assert((orig[done]) matches Some(f) && f.id@ == id);
                                }
                            }
                            if exists|k: int|
                                0 <= k < done + 1 && ((#[trigger] orig[k]) matches Some(f)
                                    && f.id@ == id) {
                                let k: int = choose|k: int|
                                    0 <= k < done + 1 && ((#[trigger] orig[k]) matches Some(f)
                                        && f.id@ == id);
                                if k == done {
                                    assert(id == fid);
                                }
                            }
                        }
                    }
                },
                None => {
                    proof {
                        assert forall|id: Seq<char>|
                            idx_of(self.registry(), id) >= 0 <==> (idx_of(
                                old(self).registry(),
                                id,
                            ) >= 0 || exists|k: int|
                                0 <= k < done + 1 && ((#[trigger] orig[k]) matches Some(f)
                                    && f.id@ == id)) by {
                            if exists|k: int|
                                0 <= k < done + 1 && ((#[trigger] orig[k]) matches Some(f)
                                    && f.id@ == id) {
                                let k: int = choose|k: int|
                                    0 <= k < done + 1 && ((#[trigger] orig[k]) matches Some(f)
                                        && f.id@ == id);
                                assert(k < done);
                            }
                        }
                    }
                },
            }
            proof {
                done = done + 1;
            }
        }
        proof {
            assert(done == orig.len());
            assert(orig.subrange(done, orig.len() as int) =~= Seq::<Option<FontConfig>>::empty());
            assert(registry_after(
                self.registry(),
                orig.subrange(done, orig.len() as int),
            ) == self.registry());
        }
    }
}

/// One planned cache write of a regeneration: the storage path, the single
/// code point the artifact is for, and the resolution plan the boundary
/// drives the engine down to produce the bytes.
pub struct CacheWrite {
    pub path: String,
    pub codepoint: u32,
    pub candidates: Vec<usize>,
}

/// The planned writes of one font in a forced regeneration.
pub struct FontPlan {
    pub font_id: String,
    pub writes: Vec<CacheWrite>,
}

/// Whether a font can serve every requested code point on its own request:
/// the condition under which forced regeneration plans its writes.
pub open spec fn serves_all_cps(
    fonts: Seq<FontConfig>,
    procs: Seq<ProcEntry>,
    cps: Seq<u32>,
) -> spec_fn(FontConfig) -> bool {
    |f: FontConfig|
        forall|k: int| #![trigger cps[k]]
            0 <= k < cps.len() ==> can_serve(
                fonts,
                procs,
                all_false(fonts.len() as int),
                f.id@,
                seq![cps[k]],
            )
}

/// What planning a regeneration against one identity returns: success
/// exactly when every requested code point can be served on its own, and
/// then one write per code point in request order — entry `k` holds code
/// point `k`, its storage path, and its exact resolution plan. An unknown
/// identity is reported as such; otherwise the failure carries the first
/// requested code point, in request order, that cannot be served.
pub open spec fn regeneration_post(
    fonts: Seq<FontConfig>,
    procs: Seq<ProcEntry>,
    cfg: AppConfig,
    id: Seq<char>,
    cps: Seq<u32>,
    r: Result<Vec<CacheWrite>, AppError>,
) -> bool {
    &&& (r is Ok <==> forall|k: int| #![trigger cps[k]]
        0 <= k < cps.len() ==> can_serve(
            fonts,
            procs,
            all_false(fonts.len() as int),
            id,
            seq![cps[k]],
        ))
    &&& (r matches Ok(plan) ==> plan@.len() == cps.len() && forall|k: int| #![trigger plan@[k]]
        0 <= k < cps.len() ==> plan@[k].path@ == crate::cache::cache_path_spec(
            cfg.static_dir@,
            id,
            crate::utils::cache_filename_spec(crate::utils::sorted_codepoints(seq![cps[k]])),
        ) && plan@[k].codepoint == cps[k] && matches_candidates(
            plan@[k].candidates@,
            candidates(fonts, procs, all_false(fonts.len() as int), id, seq![cps[k]]),
        ))
    &&& (r matches Err(e) ==> (if idx_of(fonts, id) < 0 {
        e matches AppError::FontNotFound(s) && s@ == id
    } else {
        exists|k: int| #![trigger cps[k]]
            0 <= k < cps.len() && !can_serve(
                fonts,
                procs,
                all_false(fonts.len() as int),
                id,
                seq![cps[k]],
            ) && (e matches AppError::CharacterNotFound(c) && c == cps[k])
    }))
}

impl FontService {
    /// Plans the regeneration of every requested code point against one
    /// identity, as `regeneration_post` states: one single-code-point write
    /// per requested code point, in request order, failing on the first code
    /// point the identity (with its fallbacks) cannot serve.
    pub fn regenerate_font_by_id(&self, font_id: &String, codepoints: &Vec<u32>) -> (r: Result<
        Vec<CacheWrite>,
        AppError,
    >)
        requires
            self.wf(),
        ensures
            regeneration_post(
                self.registry(),
                self.pool(),
                self.spec_config(),
                font_id@,
                codepoints@,
                r,
            ),
    {
        let mut plan: Vec<CacheWrite> = Vec::new();
        let mut k: usize = 0;
        while k < codepoints.len()
            invariant
                self.wf(),
                k <= codepoints@.len(),
                plan@.len() == k,
                forall|q: int| #![trigger codepoints@[q]]
                    0 <= q < k ==> can_serve(
                        self.registry(),
                        self.pool(),
                        all_false(self.registry().len() as int),
                        font_id@,
                        seq![codepoints@[q]],
                    ),
                forall|q: int| #![trigger plan@[q]]
                    0 <= q < k ==> plan@[q].path@ == crate::cache::cache_path_spec(
                        self.spec_config().static_dir@,
                        font_id@,
                        crate::utils::cache_filename_spec(
                            crate::utils::sorted_codepoints(seq![codepoints@[q]]),
                        ),
                    ) && plan@[q].codepoint == codepoints@[q] && matches_candidates(
                        plan@[q].candidates@,
                        candidates(
                            self.registry(),
                            self.pool(),
                            all_false(self.registry().len() as int),
                            font_id@,
                            seq![codepoints@[q]],
                        ),
                    ),
            decreases codepoints@.len() - k,
        {
            let mut one: Vec<u32> = Vec::new();
            one.push(codepoints[k]);
            proof {
                assert(one@ =~= seq![codepoints@[k as int]]);
            }
            match self.generate_font(Some(font_id), &one) {
                Err(e) => {
                    proof {
                        assert(!can_serve(
                            self.registry(),
                            self.pool(),
                            all_false(self.registry().len() as int),
                            font_id@,
                            seq![codepoints@[k as int]],
                        ));
                    }
                    return Err(e);
                },
                Ok(cands) => {
                    let filename = crate::utils::generate_cache_filename(one.as_slice());
                    let path = crate::cache::cache_path(
                        self.config.static_dir.as_str(),
                        font_id.as_str(),
                        filename.as_str(),
                    );
                    let w = CacheWrite { path, codepoint: codepoints[k], candidates: cands };
                    plan.push(w);
                },
            }
            k = k + 1;
        }
        Ok(plan)
    }

    /// Plans a forced regeneration. With a named identity the whole request
    /// must succeed, as `regeneration_post` states, and the result is that
    /// one font's plan; with none, regeneration is attempted once per
    /// registered font independently, a failure on one font never aborts the
    /// others, the operation as a whole reports success, and the result is
    /// exactly one plan per font able to serve every requested code point,
    /// in registry order.
    pub fn regenerate_font(&self, font_id: Option<&String>, codepoints: &Vec<u32>) -> (r: Result<
        Vec<FontPlan>,
        AppError,
    >)
        requires
            self.wf(),
        ensures
            font_id matches Some(id) ==> {
                &&& (r matches Ok(plans) ==> plans@.len() == 1 && plans@[0].font_id@ == id@
                    && regeneration_post(
                    self.registry(),
                    self.pool(),
                    self.spec_config(),
                    id@,
                    codepoints@,
                    Ok(plans@[0].writes),
                ))
                &&& (r matches Err(e) ==> regeneration_post(
                    self.registry(),
                    self.pool(),
                    self.spec_config(),
                    id@,
                    codepoints@,
                    Err(e),
                ))
            },
            font_id is None ==> r is Ok,
            font_id is None ==> {
                let served = self.registry().filter(
                    serves_all_cps(self.registry(), self.pool(), codepoints@),
                );
                &&& (r->Ok_0)@.len() == served.len()
                &&& forall|j: int| #![trigger (r->Ok_0)@[j]]
                    0 <= j < served.len() ==> (r->Ok_0)@[j].font_id@ == served[j].id@
                        && regeneration_post(
                        self.registry(),
                        self.pool(),
                        self.spec_config(),
                        served[j].id@,
                        codepoints@,
                        Ok((r->Ok_0)@[j].writes),
                    )
            },
    {
        match font_id {
            Some(id) => match self.regenerate_font_by_id(id, codepoints) {
                Ok(writes) => {
                    let plan = FontPlan { font_id: id.clone(), writes };
                    Ok(vec![plan])
                },
                Err(e) => Err(e),
            },
            None => {
                return Ok(self.regenerate_all(codepoints));
            },
        }
    }

    /// Plans regeneration once per registered font independently, in
    /// registry order: exactly the fonts able to serve every requested code
    /// point contribute a plan; a failing font contributes nothing and never
    /// aborts the others.
    fn regenerate_all(&self, codepoints: &Vec<u32>) -> (plans: Vec<FontPlan>)
        requires
            self.wf(),
        ensures
            plans@.len() == self.registry().filter(
                serves_all_cps(self.registry(), self.pool(), codepoints@),
            ).len(),
            forall|j: int| #![trigger plans@[j]]
                0 <= j < plans@.len() ==> plans@[j].font_id@ == self.registry().filter(
                    serves_all_cps(self.registry(), self.pool(), codepoints@),
                )[j].id@ && regeneration_post(
                    self.registry(),
                    self.pool(),
                    self.spec_config(),
                    self.registry().filter(
                        serves_all_cps(self.registry(), self.pool(), codepoints@),
                    )[j].id@,
                    codepoints@,
                    Ok(plans@[j].writes),
                ),
    {
        let ghost pred = serves_all_cps(self.registry(), self.pool(), codepoints@);
        let mut plans: Vec<FontPlan> = Vec::new();
        let mut i: usize = 0;
        proof {
            reveal(Seq::filter);
            assert(self.registry().subrange(0, 0) =~= Seq::<FontConfig>::empty());
        }
        while i < self.fonts.len()
            invariant
                self.wf(),
                i <= self.fonts@.len(),
                pred == serves_all_cps(self.registry(), self.pool(), codepoints@),
                plans@.len() == self.registry().subrange(0, i as int).filter(pred).len(),
                forall|j: int| #![trigger plans@[j]]
                    0 <= j < plans@.len() ==> plans@[j].font_id@ == self.registry().subrange(
                        0,
                        i as int,
                    ).filter(pred)[j].id@ && regeneration_post(
                        self.registry(),
                        self.pool(),
                        self.spec_config(),
                        self.registry().subrange(0, i as int).filter(pred)[j].id@,
                        codepoints@,
                        Ok(plans@[j].writes),
                    ),
            decreases self.fonts@.len() - i,
        {
            let ghost pfx = self.registry().subrange(0, i as int);
            proof {
                reveal(Seq::filter);
                assert(self.registry().subrange(0, i + 1).drop_last() =~= pfx);
                assert(self.registry().subrange(0, i + 1).last() == self.registry()[i as int]);
            }
            let id = self.fonts[i].id.clone();
            match self.regenerate_font_by_id(&id, codepoints) {
                Ok(writes) => {
                    proof {
                        assert(pred(self.registry()[i as int])) by {
                            assert forall|k: int| #![trigger codepoints@[k]]
                                0 <= k < codepoints@.len() implies can_serve(
                                self.registry(),
                                self.pool(),
                                all_false(self.registry().len() as int),
                                self.registry()[i as int].id@,
                                seq![codepoints@[k]],
                            ) by {}
                        }
                        assert(self.registry().subrange(0, i + 1).filter(pred) =~= pfx.filter(
                            pred,
                        ).push(self.registry()[i as int]));
                    }
                    let plan = FontPlan { font_id: id, writes };
                    plans.push(plan);
                },
                Err(_) => {
                    proof {
                        assert(!pred(self.registry()[i as int])) by {
                            assert(exists|k: int| #![trigger codepoints@[k]]
                                0 <= k < codepoints@.len() && !can_serve(
                                    self.registry(),
                                    self.pool(),
                                    all_false(self.registry().len() as int),
                                    self.registry()[i as int].id@,
                                    seq![codepoints@[k]],
                                ));
                        }
                        assert(self.registry().subrange(0, i + 1).filter(pred) =~= pfx.filter(
                            pred,
                        ));
                    }
                },
            }
            i = i + 1;
        }
        proof {
            assert(self.registry().subrange(0, self.registry().len() as int)
                =~= self.registry());
        }
        plans
    }
}

/// Exhaustive failure: when no pool handle covers any requested code point,
/// resolution can serve the request from no identity at all, whatever the
/// visited set; `generate_font` then reports `CharacterNotFound` carrying the
/// first requested code point.
pub proof fn lemma_exhaustive_failure(
    fonts: Seq<FontConfig>,
    procs: Seq<ProcEntry>,
    visited: Seq<bool>,
    id: Seq<char>,
    cps: Seq<u32>,
)
    requires
        forall|j: int, k: int|
            0 <= j < procs.len() && 0 <= k < cps.len() ==> !covers(
                #[trigger] procs[j].processor@,
                #[trigger] cps[k],
            ),
    ensures
        !can_serve(fonts, procs, visited, id, cps),
    decreases count_false(visited),
{
    let idx: int = idx_of(fonts, id);
    if 0 <= idx < visited.len() && !visited[idx] {
        let font = fonts[idx];
        assert forall|j: int| 0 <= j < font.files@.len() implies file_avail(
            procs,
            font.id@,
            font.files@[j].font_family@,
            cps,
        ).len() == 0 by {
            let fam = font.files@[j].font_family@;
            let k: int = proc_idx_of(procs, font.id@, fam);
            if k >= 0 {
                lemma_proc_idx_from_props(procs, font.id@, fam, 0);
                assert forall|m: int| 0 <= m < cps.len() implies !(crate::font::covered_by(
                    procs[k].processor@,
                )(cps[m])) by {
                    assert(!covers(procs[k].processor@, cps[m]));
                }
                lemma_filter_none(cps, crate::font::covered_by(procs[k].processor@));
            }
        }
        assert(!font_covers(procs, font, cps));
        assert forall|k: int| 0 <= k < font.fallback@.len() implies !can_serve(
            fonts,
            procs,
            visited.update(idx, true),
            font.fallback@[k]@,
            cps,
        ) by {
            lemma_count_false_nonneg(visited.update(idx, true));
            lemma_count_false_update(visited, idx);
            lemma_exhaustive_failure(fonts, procs, visited.update(idx, true), font.fallback@[k]@, cps);
        }
    }
}

/// Fallback correctness: a registered font whose own files cover nothing of
/// the request is still served through its declared fallback chain whenever
/// one of its fallbacks is registered and covers part of the request;
/// `generate_font` against the first identity then succeeds.
pub proof fn lemma_fallback_serves(
    fonts: Seq<FontConfig>,
    procs: Seq<ProcEntry>,
    a: Seq<char>,
    b: Seq<char>,
    k: int,
    cps: Seq<u32>,
)
    requires
        a != b,
        idx_of(fonts, a) >= 0,
        idx_of(fonts, b) >= 0,
        0 <= k < fonts[idx_of(fonts, a)].fallback@.len(),
        fonts[idx_of(fonts, a)].fallback@[k]@ == b,
        !font_covers(procs, fonts[idx_of(fonts, a)], cps),
        font_covers(procs, fonts[idx_of(fonts, b)], cps),
    ensures
        can_serve(fonts, procs, all_false(fonts.len() as int), a, cps),
{
    let ia: int = idx_of(fonts, a);
    let ib: int = idx_of(fonts, b);
    lemma_idx_from_props(fonts, a, 0);
    lemma_idx_from_props(fonts, b, 0);
    assert(fonts[ia].id@ == a && fonts[ib].id@ == b);
    assert(ia != ib);
    let v0 = all_false(fonts.len() as int);
    let v1 = v0.update(ia, true);
    assert(0 <= ib < v1.len() && !v1[ib]);
    assert(can_serve(fonts, procs, v1, b, cps));
    assert(exists|q: int|
        0 <= q < fonts[ia].fallback@.len() && can_serve(
            fonts,
            procs,
            v1,
            fonts[ia].fallback@[q]@,
            cps,
        )) by {
        assert(0 <= k < fonts[ia].fallback@.len() && can_serve(
            fonts,
            procs,
            v1,
            fonts[ia].fallback@[k]@,
            cps,
        ));
    }
    assert(0 <= ia < v0.len() && !v0[ia]);
}

/// Registration reaches exactly the identities present before plus the one
/// registered: last-wins replacement or an append both preserve the rest.
proof fn lemma_registered_after(pre: Seq<FontConfig>, post: Seq<FontConfig>, font: FontConfig)
    requires
        idx_of(pre, font.id@) >= 0 ==> post == pre.update(idx_of(pre, font.id@), font),
        idx_of(pre, font.id@) < 0 ==> post == pre.push(font),
    ensures
        forall|id: Seq<char>|
            idx_of(post, id) >= 0 <==> (idx_of(pre, id) >= 0 || id == font.id@),
{
    assert forall|id: Seq<char>|
        idx_of(post, id) >= 0 <==> (idx_of(pre, id) >= 0 || id == font.id@) by {
        lemma_idx_from_props(pre, id, 0);
        lemma_idx_from_props(post, id, 0);
        lemma_idx_from_props(pre, font.id@, 0);
        let i: int = idx_of(pre, font.id@);
        if idx_of(post, id) >= 0 {
            let j: int = idx_of(post, id);
            assert(post[j].id@ == id);
            if i >= 0 {
                if j == i {
                    assert(id == font.id@);
                } else {
                    assert(post[j] == pre[j]);
                    lemma_idx_exists(pre, id, j);
                }
            } else {
                if j == pre.len() {
                    assert(id == font.id@);
                } else {
                    assert(post[j] == pre[j]);
                    lemma_idx_exists(pre, id, j);
                }
            }
        }
        if idx_of(pre, id) >= 0 || id == font.id@ {
            if id == font.id@ {
                if i >= 0 {
                    assert(post[i].id@ == id);
                    lemma_idx_exists(post, id, i);
                } else {
                    assert(post[pre.len() as int].id@ == id);
                    lemma_idx_exists(post, id, pre.len() as int);
                }
            } else {
                let j: int = idx_of(pre, id);
                assert(pre[j].id@ == id);
                assert(post[j].id@ == id);
                lemma_idx_exists(post, id, j);
            }
        }
    }
}

/// A witness index with the identity forces the lookup to find one.
proof fn lemma_idx_exists(fonts: Seq<FontConfig>, id: Seq<char>, w: int)
    requires
        0 <= w < fonts.len(),
        fonts[w].id@ == id,
    ensures
        idx_of(fonts, id) >= 0,
{
    lemma_idx_from_props(fonts, id, 0);
}

} // verus!
