//! The span mapper: converts change regions from current-buffer line
//! coordinates into byte-offset spans of the current buffer, ready to be
//! rendered as annotations.

use vstd::prelude::*;

use crate::regions::{region_model, region_models, ChangeRegion, ChangeType, Region, wf_region};

verus! {

/// A byte-offset range of the current buffer carrying one annotation.
#[derive(Clone, Copy, Debug, PartialEq, Eq, Structural)]
pub struct AnnotationSpan {
    pub start_offset: usize,
    pub end_offset: usize,
}

/// The three span lists of one pass, one per change kind.
pub struct AnnotationSet {
    pub inserted: Vec<AnnotationSpan>,
    pub deleted: Vec<AnnotationSpan>,
    pub modified: Vec<AnnotationSpan>,
}

pub open spec fn span_models(v: Seq<AnnotationSpan>) -> Seq<(int, int)> {
    v.map_values(|s: AnnotationSpan| (s.start_offset as int, s.end_offset as int))
}

/// The whole result of one pass in the mathematical model: inserted,
/// deleted and modified spans, in that order.
pub open spec fn set_model(s: AnnotationSet) -> (Seq<(int, int)>, Seq<(int, int)>, Seq<(int, int)>) {
    (span_models(s.inserted@), span_models(s.deleted@), span_models(s.modified@))
}

/// The byte offset at which line `l` starts; lines at or past the end of
/// the buffer are clamped to its size.
pub open spec fn spec_offset_of_line(starts: Seq<int>, size: int, l: int) -> int {
    if 0 <= l < starts.len() {
        starts[l]
    } else {
        size
    }
}

/// The span of one region: an insertion or modification spans from the
/// start of its first line to one byte before the following line's start,
/// or to the end of the buffer when no line follows; a deletion is a
/// zero-width marker at its anchor line's start.
pub open spec fn spec_span_of(r: Region, starts: Seq<int>, size: int) -> (int, int) {
    let lo = spec_offset_of_line(starts, size, r.lo);
    if r.kind is Deletion {
        (lo, lo)
    } else if r.hi < starts.len() {
        (lo, starts[r.hi] - 1)
    } else {
        (lo, size)
    }
}

/// The spans of the regions of one kind, in region order.
pub open spec fn spans_of_kind(rs: Seq<Region>, kind: ChangeType, starts: Seq<int>, size: int) -> Seq<
    (int, int),
>
    decreases rs.len(),
{
    if rs.len() == 0 {
        seq![]
    } else {
        let rest = spans_of_kind(rs.drop_first(), kind, starts, size);
        if rs[0].kind == kind {
            seq![spec_span_of(rs[0], starts, size)] + rest
        } else {
            rest
        }
    }
}

/// A well-formed line-start table: it begins at offset zero, grows
/// strictly, and stays within the buffer.
pub open spec fn wf_starts(starts: Seq<int>, size: int) -> bool {
    &&& forall|k: int| 0 <= k < starts.len() ==> 0 <= #[trigger] starts[k] <= size
    &&& forall|k: int, m: int|
        0 <= k < m < starts.len() ==> #[trigger] starts[k] < #[trigger] starts[m]
    &&& starts.len() > 0 ==> starts[0] == 0
}

/// Converts each region into one annotation span and gathers the spans by
/// kind, keeping their order.
pub fn map_spans(regions: &Vec<ChangeRegion>, starts: &Vec<usize>, size: usize) -> (r: AnnotationSet)
    requires
        wf_starts(crate::lines::to_ints(starts@), size as int),
        forall|i: int|
            0 <= i < regions@.len() ==> wf_region(region_model(#[trigger] regions@[i])),
    ensures
        forall|k: int|
            0 <= k < r.inserted@.len() ==> (#[trigger] r.inserted@[k]).start_offset
                <= r.inserted@[k].end_offset <= size,
        forall|k: int|
            0 <= k < r.deleted@.len() ==> (#[trigger] r.deleted@[k]).start_offset
                <= r.deleted@[k].end_offset <= size,
        forall|k: int|
            0 <= k < r.modified@.len() ==> (#[trigger] r.modified@[k]).start_offset
                <= r.modified@[k].end_offset <= size,
        set_model(r) == (
            spans_of_kind(
                region_models(regions@),
                ChangeType::Insertion,
                crate::lines::to_ints(starts@),
                size as int,
            ),
            spans_of_kind(
                region_models(regions@),
                ChangeType::Deletion,
                crate::lines::to_ints(starts@),
                size as int,
            ),
            spans_of_kind(
                region_models(regions@),
                ChangeType::Modification,
                crate::lines::to_ints(starts@),
                size as int,
            ),
        ),
{
    let ghost gstarts = crate::lines::to_ints(starts@);
    let ghost gsize = size as int;
    let ghost all = region_models(regions@);
    let mut inserted: Vec<AnnotationSpan> = Vec::new();
    let mut deleted: Vec<AnnotationSpan> = Vec::new();
    let mut modified: Vec<AnnotationSpan> = Vec::new();
    let mut i: usize = 0;
    proof {
        assert(all.skip(0) =~= all);
        assert(span_models(inserted@) + spans_of_kind(all, ChangeType::Insertion, gstarts, gsize)
            =~= spans_of_kind(all, ChangeType::Insertion, gstarts, gsize));
        assert(span_models(deleted@) + spans_of_kind(all, ChangeType::Deletion, gstarts, gsize)
            =~= spans_of_kind(all, ChangeType::Deletion, gstarts, gsize));
        assert(span_models(modified@) + spans_of_kind(all, ChangeType::Modification, gstarts, gsize)
            =~= spans_of_kind(all, ChangeType::Modification, gstarts, gsize));
    }
    while i < regions.len()
        invariant
            i <= regions@.len(),
            gstarts == crate::lines::to_ints(starts@),
            gsize == size as int,
            all == region_models(regions@),
            wf_starts(gstarts, gsize),
            forall|k: int|
                0 <= k < regions@.len() ==> wf_region(region_model(#[trigger] regions@[k])),
            span_models(inserted@) + spans_of_kind(
                all.skip(i as int),
                ChangeType::Insertion,
                gstarts,
                gsize,
            ) == spans_of_kind(all, ChangeType::Insertion, gstarts, gsize),
            span_models(deleted@) + spans_of_kind(
                all.skip(i as int),
                ChangeType::Deletion,
                gstarts,
                gsize,
            ) == spans_of_kind(all, ChangeType::Deletion, gstarts, gsize),
            span_models(modified@) + spans_of_kind(
                all.skip(i as int),
                ChangeType::Modification,
                gstarts,
                gsize,
            ) == spans_of_kind(all, ChangeType::Modification, gstarts, gsize),
            forall|k: int|
                0 <= k < inserted@.len() ==> (#[trigger] inserted@[k]).start_offset
                    <= inserted@[k].end_offset <= size,
            forall|k: int|
                0 <= k < deleted@.len() ==> (#[trigger] deleted@[k]).start_offset
                    <= deleted@[k].end_offset <= size,
            forall|k: int|
                0 <= k < modified@.len() ==> (#[trigger] modified@[k]).start_offset
                    <= modified@[k].end_offset <= size,
        decreases regions@.len() - i,
    {
        let region = regions[i];
        let ghost m = region_model(region);
        proof {
            assert(all.skip(i as int)[0] == all[i as int]);
            assert(all[i as int] == m);
            assert(all.skip(i as int).drop_first() =~= all.skip(i as int + 1));
            assert(wf_region(m));
        }
        let start_off = if region.start_line < starts.len() {
            starts[region.start_line]
        } else {
            size
        };
        proof {
            assert(start_off as int == spec_offset_of_line(gstarts, gsize, m.lo));
            if region.start_line < starts.len() {
                assert(gstarts[m.lo] <= gsize);
            }
            assert(start_off <= size);
        }
        let ghost prev_ins = span_models(inserted@);
        let ghost prev_del = span_models(deleted@);
        let ghost prev_mod = span_models(modified@);
        match region.kind {
            ChangeType::Deletion => {
                let span = AnnotationSpan { start_offset: start_off, end_offset: start_off };
                deleted.push(span);
                proof {
                    assert(span_models(deleted@) =~= prev_del + seq![
                        spec_span_of(m, gstarts, gsize),
                    ]);
                    assert(prev_del + seq![spec_span_of(m, gstarts, gsize)] + spans_of_kind(
                        all.skip(i as int + 1),
                        ChangeType::Deletion,
                        gstarts,
                        gsize,
                    ) =~= prev_del + (seq![spec_span_of(m, gstarts, gsize)] + spans_of_kind(
                        all.skip(i as int + 1),
                        ChangeType::Deletion,
                        gstarts,
                        gsize,
                    )));
                }
            },
            ChangeType::Insertion => {
                let end_off = if region.end_line_exclusive < starts.len() {
                    proof {
                        assert(gstarts[m.hi] > gstarts[0]);
                        assert(gstarts[m.lo] < gstarts[m.hi]);
                        assert(gstarts[m.hi] <= gsize);
                    }
                    starts[region.end_line_exclusive] - 1
                } else {
                    size
                };
                proof {
                    assert((start_off as int, end_off as int) == spec_span_of(m, gstarts, gsize));
                    assert(start_off <= end_off <= size);
                }
                let span = AnnotationSpan { start_offset: start_off, end_offset: end_off };
                inserted.push(span);
                proof {
                    assert(span_models(inserted@) =~= prev_ins + seq![
                        spec_span_of(m, gstarts, gsize),
                    ]);
                    assert(prev_ins + seq![spec_span_of(m, gstarts, gsize)] + spans_of_kind(
                        all.skip(i as int + 1),
                        ChangeType::Insertion,
                        gstarts,
                        gsize,
                    ) =~= prev_ins + (seq![spec_span_of(m, gstarts, gsize)] + spans_of_kind(
                        all.skip(i as int + 1),
                        ChangeType::Insertion,
                        gstarts,
                        gsize,
                    )));
                }
            },
            ChangeType::Modification => {
                let end_off = if region.end_line_exclusive < starts.len() {
                    proof {
                        assert(gstarts[m.hi] > gstarts[0]);
                        assert(gstarts[m.lo] < gstarts[m.hi]);
                        assert(gstarts[m.hi] <= gsize);
                    }
                    starts[region.end_line_exclusive] - 1
                } else {
                    size
                };
                proof {
                    assert((start_off as int, end_off as int) == spec_span_of(m, gstarts, gsize));
                    assert(start_off <= end_off <= size);
                }
                let span = AnnotationSpan { start_offset: start_off, end_offset: end_off };
                modified.push(span);
                proof {
                    assert(span_models(modified@) =~= prev_mod + seq![
                        spec_span_of(m, gstarts, gsize),
                    ]);
                    assert(prev_mod + seq![spec_span_of(m, gstarts, gsize)] + spans_of_kind(
                        all.skip(i as int + 1),
                        ChangeType::Modification,
                        gstarts,
                        gsize,
                    ) =~= prev_mod + (seq![spec_span_of(m, gstarts, gsize)] + spans_of_kind(
                        all.skip(i as int + 1),
                        ChangeType::Modification,
                        gstarts,
                        gsize,
                    )));
                }
            },
        }
        i = i + 1;
    }
    proof {
        assert(all.skip(i as int) =~= Seq::<Region>::empty());
        assert(span_models(inserted@) =~= span_models(inserted@) + spans_of_kind(
            Seq::<Region>::empty(),
            ChangeType::Insertion,
            gstarts,
            gsize,
        ));
        assert(span_models(deleted@) =~= span_models(deleted@) + spans_of_kind(
            Seq::<Region>::empty(),
            ChangeType::Deletion,
            gstarts,
            gsize,
        ));
        assert(span_models(modified@) =~= span_models(modified@) + spans_of_kind(
            Seq::<Region>::empty(),
            ChangeType::Modification,
            gstarts,
            gsize,
        ));
    }
    AnnotationSet { inserted, deleted, modified }
}

} // verus!
