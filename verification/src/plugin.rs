//! The engine's state object: it owns the unsaved-edit set and the diff
//! cache, runs the full pass from reference and current content to the
//! three annotation span lists, and reuses the last result when the
//! reported change counts are unchanged and no edit is pending.

use vstd::prelude::*;

use crate::differ::{current_lines_of, diff_lines, reference_lines_of, LineOp};
use crate::lines::{
    compute_line_starts, lemma_line_starts_wf, spec_line_starts, spec_lines, split_lines,
};
use crate::regions::{
    coalesce, lemma_coalesce_ordered, region_model, region_models, spec_coalesce, spec_tags,
    tags_of, wf_region, ChangeType,
};
use crate::spans::{
    map_spans, set_model, span_models, spans_of_kind, wf_starts, AnnotationSet, AnnotationSpan,
};
use crate::tracker::{lists_line, spec_merge, merge_unsaved, UnsavedEditSet};

verus! {

/// The change statistics and span lists of the last completed pass.
pub struct DiffCacheEntry {
    pub insertion_count: usize,
    pub deletion_count: usize,
    pub spans: AnnotationSet,
}

/// The plugin state: one instance per view, owning the unsaved-edit set
/// and the diff cache exclusively.
pub struct XiffPlugin {
    pub unsaved: UnsavedEditSet,
    pub cache: Option<DiffCacheEntry>,
    pub force_pass: bool,
}

/// The annotation result of one full pass over the given diff: the tags
/// are merged with the unsaved edits, coalesced into regions, and mapped
/// to spans of the current buffer.
pub open spec fn spec_annotations(ops: Seq<LineOp>, u: UnsavedEditSet, current: Seq<u8>) -> (
    Seq<(int, int)>,
    Seq<(int, int)>,
    Seq<(int, int)>,
) {
    let rs = spec_coalesce(spec_merge(spec_tags(ops), 0, u));
    let starts = spec_line_starts(current);
    let size = current.len() as int;
    (
        spans_of_kind(rs, ChangeType::Insertion, starts, size),
        spans_of_kind(rs, ChangeType::Deletion, starts, size),
        spans_of_kind(rs, ChangeType::Modification, starts, size),
    )
}

/// What a completed pass returns: the spans of some line diff of the two
/// documents that keeps and adds exactly the current lines and keeps and
/// removes exactly the reference lines.
pub open spec fn pass_post(
    u: UnsavedEditSet,
    reference: Seq<u8>,
    current: Seq<u8>,
    r: AnnotationSet,
) -> bool {
    exists|ops: Seq<LineOp>|
        {
            &&& #[trigger] current_lines_of(ops) == spec_lines(current)
            &&& reference_lines_of(ops) == spec_lines(reference)
            &&& set_model(r) == spec_annotations(ops, u, current)
        }
}

/// The cache is consulted only when no pass is forced, no edit is pending,
/// and the reported change counts equal the stored key.
pub open spec fn cache_hit(p: XiffPlugin, insertion_count: int, deletion_count: int) -> bool {
    &&& !p.force_pass
    &&& p.unsaved.is_clear()
    &&& p.cache matches Some(e) && e.insertion_count as int == insertion_count
        && e.deletion_count as int == deletion_count
}

pub open spec fn unsaved_view(u: UnsavedEditSet) -> (Seq<usize>, Seq<usize>) {
    (u.inserted_lines@, u.deleted_lines@)
}

pub open spec fn cache_model(c: Option<DiffCacheEntry>) -> Option<
    (int, int, (Seq<(int, int)>, Seq<(int, int)>, Seq<(int, int)>)),
> {
    match c {
        None => None,
        Some(e) => Some(
            (e.insertion_count as int, e.deletion_count as int, set_model(e.spans)),
        ),
    }
}

pub open spec fn state_model(p: XiffPlugin) -> (
    (Seq<usize>, Seq<usize>),
    Option<(int, int, (Seq<(int, int)>, Seq<(int, int)>, Seq<(int, int)>))>,
    bool,
) {
    (unsaved_view(p.unsaved), cache_model(p.cache), p.force_pass)
}

pub open spec fn option_view(o: Option<Vec<u8>>) -> Option<Seq<u8>> {
    match o {
        None => None,
        Some(v) => Some(v@),
    }
}

/// The full contract of one update: without a reference the result is
/// empty and nothing changes; on a cache hit the stored spans come back
/// unchanged; otherwise a fresh pass runs and its result is stored under
/// the reported counts.
pub open spec fn update_post(
    pre: XiffPlugin,
    post: XiffPlugin,
    reference: Option<Seq<u8>>,
    current: Seq<u8>,
    insertion_count: int,
    deletion_count: int,
    r: AnnotationSet,
) -> bool {
    match reference {
        None => {
            &&& state_model(post) == state_model(pre)
            &&& set_model(r) == (
                Seq::<(int, int)>::empty(),
                Seq::<(int, int)>::empty(),
                Seq::<(int, int)>::empty(),
            )
        },
        Some(refc) => {
            if cache_hit(pre, insertion_count, deletion_count) {
                &&& state_model(post) == state_model(pre)
                &&& pre.cache matches Some(e) && set_model(r) == set_model(e.spans)
            } else {
                &&& pass_post(pre.unsaved, refc, current, r)
                &&& unsaved_view(post.unsaved) == unsaved_view(pre.unsaved)
                &&& !post.force_pass
                &&& cache_model(post.cache) == Some(
                    (insertion_count, deletion_count, set_model(r)),
                )
            }
        },
    }
}

fn copy_spans(v: &Vec<AnnotationSpan>) -> (r: Vec<AnnotationSpan>)
    ensures
        r@ == v@,
{
    let mut r: Vec<AnnotationSpan> = Vec::new();
    let mut i: usize = 0;
    proof {
        assert(r@ =~= v@.take(0));
    }
    while i < v.len()
        invariant
            i <= v@.len(),
            r@ == v@.take(i as int),
        decreases v@.len() - i,
    {
        r.push(v[i]);
        proof {
            assert(r@ =~= v@.take(i as int + 1));
        }
        i = i + 1;
    }
    proof {
        assert(v@.take(v@.len() as int) =~= v@);
    }
    r
}

fn clone_set(s: &AnnotationSet) -> (r: AnnotationSet)
    ensures
        set_model(r) == set_model(*s),
{
    AnnotationSet {
        inserted: copy_spans(&s.inserted),
        deleted: copy_spans(&s.deleted),
        modified: copy_spans(&s.modified),
    }
}

/// One full pass: split both documents into lines, diff them, merge the
/// unsaved edit lines, coalesce into regions and map those to spans.
fn recompute(u: &UnsavedEditSet, reference: &Vec<u8>, current: &Vec<u8>) -> (r: AnnotationSet)
    ensures
        pass_post(*u, reference@, current@, r),
{
    let ref_lines = split_lines(reference);
    let cur_lines = split_lines(current);
    let ops = diff_lines(&ref_lines, &cur_lines);
    let tags = tags_of(&ops);
    let merged = merge_unsaved(&tags, u);
    let regions = coalesce(&merged);
    let starts = compute_line_starts(current);
    proof {
        lemma_line_starts_wf(current@);
        assert(wf_starts(spec_line_starts(current@), current@.len() as int));
        lemma_coalesce_ordered(merged@, 0, None);
        assert forall|k: int| 0 <= k < regions@.len() implies wf_region(
            region_model(#[trigger] regions@[k]),
        ) by {
            assert(region_models(regions@)[k] == region_model(regions@[k]));
            assert(wf_region(spec_coalesce(merged@)[k]));
        }
    }
    let r = map_spans(&regions, &starts, current.len());
    proof {
        assert(current_lines_of(ops@) == spec_lines(current@));
        assert(reference_lines_of(ops@) == spec_lines(reference@));
        assert(set_model(r) == spec_annotations(ops@, *u, current@));
    }
    r
}

impl XiffPlugin {
    pub fn new() -> (p: XiffPlugin)
        ensures
            p.unsaved.is_clear(),
            p.cache is None,
            !p.force_pass,
    {
        XiffPlugin { unsaved: UnsavedEditSet::new(), cache: None, force_pass: false }
    }

    /// Records the lines touched by one edit delta: the lines into which
    /// text was inserted and the lines at which text was deleted, in
    /// current-buffer coordinates.
    pub fn content_changed(&mut self, inserted_lines: &Vec<usize>, deleted_lines: &Vec<usize>)
        ensures
            forall|l: int|
                final (self).unsaved.tracks_insert(l) <==> (old(
                    self,
                ).unsaved.tracks_insert(l) || lists_line(inserted_lines@, l)),
            forall|l: int|
                final (self).unsaved.tracks_delete(l) <==> (old(
                    self,
                ).unsaved.tracks_delete(l) || lists_line(deleted_lines@, l)),
            cache_model(final (self).cache) == cache_model(old(self).cache),
            final (self).force_pass == old(self).force_pass,
    {
        self.unsaved.record_inserts(inserted_lines);
        self.unsaved.record_deletes(deleted_lines);
    }

    /// A save makes the on-disk reference match the buffer: the pending
    /// edits become redundant and the next pass is forced past the cache.
    pub fn did_save(&mut self)
        ensures
            final (self).unsaved.is_clear(),
            final (self).force_pass,
            cache_model(final (self).cache) == cache_model(old(self).cache),
    {
        self.unsaved.clear();
        self.force_pass = true;
    }

    /// One update: computes the three annotation span lists of the current
    /// buffer against the reference content, reusing the cached result
    /// when the reported change counts are unchanged, no edit is pending
    /// and no pass is forced. Without reference content it emits nothing.
    pub fn update_diff(
        &mut self,
        reference: &Option<Vec<u8>>,
        current: &Vec<u8>,
        insertion_count: usize,
        deletion_count: usize,
    ) -> (r: AnnotationSet)
        ensures
            update_post(
                *old(self),
                *final (self),
                option_view(*reference),
                current@,
                insertion_count as int,
                deletion_count as int,
                r,
            ),
    {
        match reference {
            None => {
                let r = AnnotationSet {
                    inserted: Vec::new(),
                    deleted: Vec::new(),
                    modified: Vec::new(),
                };
                proof {
                    assert(span_models(r.inserted@) =~= Seq::<(int, int)>::empty());
                    assert(span_models(r.deleted@) =~= Seq::<(int, int)>::empty());
                    assert(span_models(r.modified@) =~= Seq::<(int, int)>::empty());
                }
                r
            },
            Some(refc) => {
                let clear = self.unsaved.is_empty();
                let mut hit = false;
                match &self.cache {
                    Some(e) => {
                        if !self.force_pass && clear && e.insertion_count == insertion_count
                            && e.deletion_count == deletion_count {
                            hit = true;
                        }
                    },
                    None => {},
                }
                proof {
                    assert(hit == cache_hit(
                        *self,
                        insertion_count as int,
                        deletion_count as int,
                    ));
                }
                if hit {
                    match &self.cache {
                        Some(e) => clone_set(&e.spans),
                        None => {
                            proof {
                                assert(false);
                            }
                            AnnotationSet {
                                inserted: Vec::new(),
                                deleted: Vec::new(),
                                modified: Vec::new(),
                            }
                        },
                    }
                } else {
                    let result = recompute(&self.unsaved, refc, current);
                    let stored = clone_set(&result);
                    self.cache = Some(
                        DiffCacheEntry { insertion_count, deletion_count, spans: stored },
                    );
                    self.force_pass = false;
                    result
                }
            },
        }
    }
}

/// Running the pass twice on unchanged input, with no edit and no save
/// between, yields identical span sets: with the cache key unchanged the
/// second run is served by the cache that the first one filled.
pub proof fn lemma_pass_idempotent(
    s0: XiffPlugin,
    s1: XiffPlugin,
    s2: XiffPlugin,
    reference: Seq<u8>,
    current: Seq<u8>,
    insertion_count: int,
    deletion_count: int,
    r1: AnnotationSet,
    r2: AnnotationSet,
)
    requires
        s0.unsaved.is_clear(),
        update_post(s0, s1, Some(reference), current, insertion_count, deletion_count, r1),
        update_post(s1, s2, Some(reference), current, insertion_count, deletion_count, r2),
    ensures
        set_model(r2) == set_model(r1),
{
    if cache_hit(s0, insertion_count, deletion_count) {
        assert(state_model(s1) == state_model(s0));
        assert(cache_model(s1.cache) == cache_model(s0.cache));
        assert(unsaved_view(s1.unsaved) == unsaved_view(s0.unsaved));
        assert(s1.unsaved.inserted_lines@ == s0.unsaved.inserted_lines@);
        assert(s1.unsaved.deleted_lines@ == s0.unsaved.deleted_lines@);
        assert(s1.unsaved.is_clear());
        match s0.cache {
            None => {
                assert(false);
            },
            Some(e0) => {
                match s1.cache {
                    None => {
                        assert(false);
                    },
                    Some(e1) => {
                        assert(e1.insertion_count as int == insertion_count);
                        assert(e1.deletion_count as int == deletion_count);
                        assert(cache_hit(s1, insertion_count, deletion_count));
                        assert(set_model(r2) == set_model(e1.spans));
                        assert(set_model(e1.spans) == set_model(e0.spans));
                        assert(set_model(r1) == set_model(e0.spans));
                    },
                }
            },
        }
    } else {
        assert(cache_model(s1.cache) == Some(
            (insertion_count, deletion_count, set_model(r1)),
        ));
        assert(unsaved_view(s1.unsaved) == unsaved_view(s0.unsaved));
        assert(s1.unsaved.inserted_lines@ == s0.unsaved.inserted_lines@);
        assert(s1.unsaved.deleted_lines@ == s0.unsaved.deleted_lines@);
        assert(s1.unsaved.is_clear());
        assert(!s1.force_pass);
        match s1.cache {
            None => {
                assert(false);
            },
            Some(e1) => {
                assert(e1.insertion_count as int == insertion_count);
                assert(e1.deletion_count as int == deletion_count);
                assert(cache_hit(s1, insertion_count, deletion_count));
                assert(set_model(r2) == set_model(e1.spans));
                assert(set_model(e1.spans) == set_model(r1));
            },
        }
    }
}

/// A pending unsaved edit always forces a fresh pass, whatever the
/// reported change counts: the result is never served from the cache, so
/// stale spans are never reused once an edit is tracked.
pub proof fn lemma_unsaved_edit_forces_pass(
    s0: XiffPlugin,
    s1: XiffPlugin,
    reference: Seq<u8>,
    current: Seq<u8>,
    insertion_count: int,
    deletion_count: int,
    r: AnnotationSet,
)
    requires
        !s0.unsaved.is_clear(),
        update_post(s0, s1, Some(reference), current, insertion_count, deletion_count, r),
    ensures
        pass_post(s0.unsaved, reference, current, r),
        cache_model(s1.cache) == Some((insertion_count, deletion_count, set_model(r))),
{
    assert(!cache_hit(s0, insertion_count, deletion_count));
}

} // verus!
