//! The region coalescer: a state machine over the diff stream that groups
//! runs of consecutive changed lines into minimal change regions and
//! classifies each as an insertion, a deletion or a modification.

use vstd::prelude::*;

use crate::differ::LineOp;

verus! {

/// The bare shape of a diff element, once its line content no longer
/// matters: kept, added or removed.
#[derive(Clone, Copy, Debug, PartialEq, Eq, Structural)]
pub enum DiffTag {
    Kept,
    Added,
    Removed,
}

/// The classification of a change region.
#[derive(Clone, Copy, Debug, PartialEq, Eq, Structural)]
pub enum ChangeType {
    Insertion,
    Deletion,
    Modification,
}

/// A maximal run of consecutive changed lines, in current-buffer line
/// coordinates. A deletion has no width there and is anchored as an empty
/// range at the line where it would be visible; every other kind spans at
/// least one line.
#[derive(Clone, Copy, Debug, PartialEq, Eq, Structural)]
pub struct ChangeRegion {
    pub kind: ChangeType,
    pub start_line: usize,
    pub end_line_exclusive: usize,
}

/// A change region in the mathematical model.
pub ghost struct Region {
    pub kind: ChangeType,
    pub lo: int,
    pub hi: int,
}

/// A change run that is still open while the diff stream is walked.
pub ghost struct PendingRun {
    pub lo: int,
    pub kind: ChangeType,
}

/// The shape of each diff element, in order.
pub open spec fn spec_tags(ops: Seq<LineOp>) -> Seq<DiffTag> {
    ops.map_values(
        |op: LineOp|
            match op {
                LineOp::Kept(_) => DiffTag::Kept,
                LineOp::Added(_) => DiffTag::Added,
                LineOp::Removed(_) => DiffTag::Removed,
            },
    )
}

pub open spec fn region_model(r: ChangeRegion) -> Region {
    Region { kind: r.kind, lo: r.start_line as int, hi: r.end_line_exclusive as int }
}

pub open spec fn region_models(rs: Seq<ChangeRegion>) -> Seq<Region> {
    rs.map_values(|r: ChangeRegion| region_model(r))
}

/// Closing an open run at current line `line` yields its region; a pure
/// deletion closes as an empty range at its anchor, whatever it removed.
pub open spec fn close_region(p: PendingRun, line: int) -> Region {
    if p.kind is Deletion {
        Region { kind: p.kind, lo: p.lo, hi: p.lo }
    } else {
        Region { kind: p.kind, lo: p.lo, hi: line }
    }
}

/// An added line opens an insertion run, keeps an insertion run open, and
/// escalates a pending deletion to a modification.
pub open spec fn after_added(p: Option<PendingRun>, line: int) -> PendingRun {
    match p {
        None => PendingRun { lo: line, kind: ChangeType::Insertion },
        Some(q) => PendingRun {
            lo: q.lo,
            kind: if q.kind is Insertion {
                ChangeType::Insertion
            } else {
                ChangeType::Modification
            },
        },
    }
}

/// A removed line opens a deletion run, keeps a deletion run open, and
/// escalates a pending insertion to a modification.
pub open spec fn after_removed(p: Option<PendingRun>, line: int) -> PendingRun {
    match p {
        None => PendingRun { lo: line, kind: ChangeType::Deletion },
        Some(q) => PendingRun {
            lo: q.lo,
            kind: if q.kind is Deletion {
                ChangeType::Deletion
            } else {
                ChangeType::Modification
            },
        },
    }
}

/// The regions that the coalescer emits from the remaining diff stream,
/// starting at current line `line` with run `pending` still open. A kept
/// line closes the open run; only kept and added lines advance the current
/// line, since removed lines do not exist in current-buffer coordinates.
/// The end of the stream closes any run still open.
pub open spec fn coalesce_from(tags: Seq<DiffTag>, line: int, pending: Option<PendingRun>) -> Seq<
    Region,
>
    decreases tags.len(),
{
    if tags.len() == 0 {
        match pending {
            None => seq![],
            Some(p) => seq![close_region(p, line)],
        }
    } else {
        match tags[0] {
            DiffTag::Kept => match pending {
                None => coalesce_from(tags.drop_first(), line + 1, None),
                Some(p) => seq![close_region(p, line)] + coalesce_from(
                    tags.drop_first(),
                    line + 1,
                    None,
                ),
            },
            DiffTag::Added => coalesce_from(
                tags.drop_first(),
                line + 1,
                Some(after_added(pending, line)),
            ),
            DiffTag::Removed => coalesce_from(
                tags.drop_first(),
                line,
                Some(after_removed(pending, line)),
            ),
        }
    }
}

pub open spec fn spec_coalesce(tags: Seq<DiffTag>) -> Seq<Region> {
    coalesce_from(tags, 0, None)
}

/// A region is well formed when a deletion is an empty range and every
/// other kind spans at least one line.
pub open spec fn wf_region(r: Region) -> bool {
    &&& 0 <= r.lo
    &&& if r.kind is Deletion {
        r.lo == r.hi
    } else {
        r.lo < r.hi
    }
}

pub open spec fn wf_pending(p: Option<PendingRun>, line: int) -> bool {
    match p {
        None => true,
        Some(q) => 0 <= q.lo && (if q.kind is Deletion {
            q.lo == line
        } else {
            q.lo < line
        }),
    }
}

pub open spec fn low_bound(p: Option<PendingRun>, line: int) -> int {
    match p {
        None => line,
        Some(q) => q.lo,
    }
}

/// The current-buffer lines that the added elements of the stream occupy,
/// when the stream starts at current line `line`.
pub open spec fn added_lines_from(tags: Seq<DiffTag>, line: int) -> Set<int>
    decreases tags.len(),
{
    if tags.len() == 0 {
        Set::empty()
    } else {
        match tags[0] {
            DiffTag::Kept => added_lines_from(tags.drop_first(), line + 1),
            DiffTag::Added => added_lines_from(tags.drop_first(), line + 1).insert(line),
            DiffTag::Removed => added_lines_from(tags.drop_first(), line),
        }
    }
}

/// Whether region `r` covers line `l`.
pub open spec fn covers(r: Region, l: int) -> bool {
    r.lo <= l < r.hi
}

/// Whether some region of `rs` covers line `l`.
pub open spec fn covered(rs: Seq<Region>, l: int) -> bool {
    exists|i: int| 0 <= i < rs.len() && covers(#[trigger] rs[i], l)
}

/// The current-buffer line at which the element `tags[i]` stands, when the
/// stream starts at current line zero: removed elements occupy no line.
pub open spec fn line_of_element(tags: Seq<DiffTag>, i: int) -> int
    decreases i,
{
    if i <= 0 || tags.len() == 0 {
        0
    } else {
        (match tags[0] {
            DiffTag::Removed => 0int,
            _ => 1int,
        }) + line_of_element(tags.drop_first(), i - 1)
    }
}

/// Emitted regions are well formed, start no earlier than the open run or
/// the current line, and are strictly ordered: each begins past the end of
/// the one before it.
pub proof fn lemma_coalesce_ordered(tags: Seq<DiffTag>, line: int, pending: Option<PendingRun>)
    requires
        0 <= line,
        wf_pending(pending, line),
    ensures
        forall|i: int|
            0 <= i < coalesce_from(tags, line, pending).len() ==> wf_region(
                #[trigger] coalesce_from(tags, line, pending)[i],
            ),
        forall|i: int|
            0 <= i < coalesce_from(tags, line, pending).len() ==> low_bound(pending, line)
                <= (#[trigger] coalesce_from(tags, line, pending)[i]).lo,
        forall|i: int, j: int|
            0 <= i < j < coalesce_from(tags, line, pending).len() ==> (#[trigger] coalesce_from(
                tags,
                line,
                pending,
            )[i]).hi < (#[trigger] coalesce_from(tags, line, pending)[j]).lo,
    decreases tags.len(),
{
    let rs = coalesce_from(tags, line, pending);
    if tags.len() == 0 {
    } else {
        let rest = tags.drop_first();
        match tags[0] {
            DiffTag::Kept => {
                lemma_coalesce_ordered(rest, line + 1, None);
                match pending {
                    None => {
                    },
                    Some(p) => {
                        let rs1 = coalesce_from(rest, line + 1, None);
                        assert forall|i: int| 0 <= i < rs.len() implies wf_region(
                            #[trigger] rs[i],
                        ) && low_bound(pending, line) <= rs[i].lo by {
                            if i > 0 {
                                assert(rs[i] == rs1[i - 1]);
                            }
                        }
                        assert forall|i: int, j: int| 0 <= i < j < rs.len() implies (
                        #[trigger] rs[i]).hi < (#[trigger] rs[j]).lo by {
                            assert(rs[j] == rs1[j - 1]);
                            if i > 0 {
                                assert(rs[i] == rs1[i - 1]);
                            }
                        }
                    },
                }
            },
            DiffTag::Added => {
                lemma_coalesce_ordered(rest, line + 1, Some(after_added(pending, line)));
            },
            DiffTag::Removed => {
                lemma_coalesce_ordered(rest, line, Some(after_removed(pending, line)));
            },
        }
    }
}

proof fn lemma_covered_cons(r: Region, rs: Seq<Region>, l: int)
    ensures
        covered(seq![r] + rs, l) <==> ((r.lo <= l < r.hi) || covered(rs, l)),
{
    let all = seq![r] + rs;
    if covered(all, l) {
        let i = choose|i: int| 0 <= i < all.len() && covers(#[trigger] all[i], l);
        if i > 0 {
            assert(rs[i - 1] == all[i]);
            assert(covered(rs, l));
        }
    }
    if r.lo <= l < r.hi {
        assert(all[0] == r);
        assert(covers(all[0], l));
        assert(covered(all, l));
    }
    if covered(rs, l) {
        let i = choose|i: int| 0 <= i < rs.len() && covers(#[trigger] rs[i], l);
        assert(all[i + 1] == rs[i]);
        assert(covers(all[i + 1], l));
        assert(covered(all, l));
    }
}

/// Coverage of the emitted regions at one line: exactly the lines of added
/// elements, together with the lines that the open run has already passed.
pub proof fn lemma_coalesce_coverage(
    tags: Seq<DiffTag>,
    line: int,
    pending: Option<PendingRun>,
    l: int,
)
    requires
        0 <= line,
        wf_pending(pending, line),
    ensures
        covered(coalesce_from(tags, line, pending), l) <==> (added_lines_from(
            tags,
            line,
        ).contains(l) || (pending matches Some(q) && q.lo <= l < line)),
    decreases tags.len(),
{
    let rs = coalesce_from(tags, line, pending);
    if tags.len() == 0 {
        match pending {
            None => {
                assert(!covered(rs, l));
            },
            Some(p) => {
                lemma_covered_cons(close_region(p, line), seq![], l);
                assert(seq![close_region(p, line)] + seq![] =~= rs);
                assert(!covered(seq![], l));
            },
        }
    } else {
        let rest = tags.drop_first();
        match tags[0] {
            DiffTag::Kept => {
                lemma_coalesce_coverage(rest, line + 1, None, l);
                match pending {
                    None => {
                    },
                    Some(p) => {
                        lemma_covered_cons(
                            close_region(p, line),
                            coalesce_from(rest, line + 1, None),
                            l,
                        );
                    },
                }
            },
            DiffTag::Added => {
                lemma_coalesce_coverage(rest, line + 1, Some(after_added(pending, line)), l);
            },
            DiffTag::Removed => {
                lemma_coalesce_coverage(rest, line, Some(after_removed(pending, line)), l);
            },
        }
    }
}

/// An open modification run never loses that classification: the first
/// emitted region closes it, as a modification reaching at least the
/// current line.
proof fn lemma_pending_modification(tags: Seq<DiffTag>, line: int, q: PendingRun)
    requires
        0 <= line,
        wf_pending(Some(q), line),
        q.kind is Modification,
    ensures
        coalesce_from(tags, line, Some(q)).len() > 0,
        coalesce_from(tags, line, Some(q))[0].lo == q.lo,
        coalesce_from(tags, line, Some(q))[0].kind is Modification,
        coalesce_from(tags, line, Some(q))[0].hi >= line,
    decreases tags.len(),
{
    if tags.len() == 0 {
    } else {
        let rest = tags.drop_first();
        match tags[0] {
            DiffTag::Kept => {
                let rs1 = coalesce_from(rest, line + 1, None);
                assert((seq![close_region(q, line)] + rs1)[0] == close_region(q, line));
            },
            DiffTag::Added => {
                lemma_pending_modification(rest, line + 1, after_added(Some(q), line));
            },
            DiffTag::Removed => {
                lemma_pending_modification(rest, line, after_removed(Some(q), line));
            },
        }
    }
}

proof fn lemma_escalation_from(
    tags: Seq<DiffTag>,
    line: int,
    pending: Option<PendingRun>,
    i: int,
)
    requires
        0 <= line,
        wf_pending(pending, line),
        0 <= i,
        i + 1 < tags.len(),
        (tags[i] is Added && tags[i + 1] is Removed) || (tags[i] is Removed && tags[i + 1]
            is Added),
    ensures
        ({
            let rs = coalesce_from(tags, line, pending);
            let la = line + line_of_element(tags, i);
            exists|j: int|
                0 <= j < rs.len() && covers(#[trigger] rs[j], la) && rs[j].kind is Modification
        }),
    decreases i,
{
    let rs = coalesce_from(tags, line, pending);
    let la = line + line_of_element(tags, i);
    let rest = tags.drop_first();
    if i == 0 {
        let rest2 = rest.drop_first();
        assert(rest[0] == tags[1]);
        assert(la == line);
        if tags[0] is Added {
            let p1 = after_added(pending, line);
            let p2 = after_removed(Some(p1), line + 1);
            assert(p2.kind is Modification);
            assert(p2.lo <= line);
            assert(rs == coalesce_from(rest, line + 1, Some(p1)));
            assert(coalesce_from(rest, line + 1, Some(p1)) == coalesce_from(
                rest2,
                line + 1,
                Some(p2),
            ));
            lemma_pending_modification(rest2, line + 1, p2);
            assert(covers(rs[0], la) && rs[0].kind is Modification);
        } else {
            let p1 = after_removed(pending, line);
            let p2 = after_added(Some(p1), line);
            assert(p2.kind is Modification);
            assert(p2.lo <= line);
            assert(rs == coalesce_from(rest, line, Some(p1)));
            assert(coalesce_from(rest, line, Some(p1)) == coalesce_from(
                rest2,
                line + 1,
                Some(p2),
            ));
            lemma_pending_modification(rest2, line + 1, p2);
            assert(covers(rs[0], la) && rs[0].kind is Modification);
        }
    } else {
        assert(rest[i - 1] == tags[i]);
        assert(rest[i] == tags[i + 1]);
        match tags[0] {
            DiffTag::Kept => {
                lemma_escalation_from(rest, line + 1, None, i - 1);
                let rs1 = coalesce_from(rest, line + 1, None);
                let la1 = line + 1 + line_of_element(rest, i - 1);
                assert(la1 == la);
                let j = choose|j: int|
                    0 <= j < rs1.len() && covers(#[trigger] rs1[j], la1) && rs1[j].kind
                        is Modification;
                match pending {
                    None => {
                        assert(rs[j] == rs1[j]);
                    },
                    Some(p) => {
                        assert(rs[j + 1] == rs1[j]);
                    },
                }
            },
            DiffTag::Added => {
                lemma_escalation_from(rest, line + 1, Some(after_added(pending, line)), i - 1);
                assert(line + 1 + line_of_element(rest, i - 1) == la);
            },
            DiffTag::Removed => {
                lemma_escalation_from(rest, line, Some(after_removed(pending, line)), i - 1);
                assert(line + line_of_element(rest, i - 1) == la);
            },
        }
    }
}

/// No two emitted regions share a start line; in particular, no two
/// regions of different kinds do.
pub proof fn lemma_region_starts_distinct(tags: Seq<DiffTag>)
    ensures
        forall|i: int, j: int|
            0 <= i < j < spec_coalesce(tags).len() ==> (#[trigger] spec_coalesce(tags)[i]).lo < (
            #[trigger] spec_coalesce(tags)[j]).lo,
{
    lemma_coalesce_ordered(tags, 0, None);
}

/// Coverage is complete and unambiguous: a current-buffer line on which an
/// added element stands is covered by exactly one region, and a line with
/// no added element on it is covered by none.
pub proof fn lemma_line_coverage(tags: Seq<DiffTag>)
    ensures
        forall|l: int|
            added_lines_from(tags, 0).contains(l) <==> #[trigger] covered(spec_coalesce(tags), l),
        forall|l: int, i: int, j: int|
            (0 <= i < spec_coalesce(tags).len() && 0 <= j < spec_coalesce(tags).len()
                && #[trigger] covers(spec_coalesce(tags)[i], l) && #[trigger] covers(
                spec_coalesce(tags)[j],
                l,
            )) ==> i == j,
{
    lemma_coalesce_ordered(tags, 0, None);
    let rs = spec_coalesce(tags);
    assert forall|l: int|
        added_lines_from(tags, 0).contains(l) <==> #[trigger] covered(spec_coalesce(tags), l) by {
        lemma_coalesce_coverage(tags, 0, None, l);
    }
    assert forall|l: int, i: int, j: int|
        (0 <= i < rs.len() && 0 <= j < rs.len() && #[trigger] covers(rs[i], l) && #[trigger] covers(
            rs[j],
            l,
        )) implies i == j by {
        if i < j {
            assert(rs[i].hi < rs[j].lo);
        }
        if j < i {
            assert(rs[j].hi < rs[i].lo);
        }
    }
}

/// An added element immediately adjacent to a removed one always lands in a
/// modification region: every region covering its line is a modification,
/// never a separate insertion beside a separate deletion.
pub proof fn lemma_adjacent_escalation(tags: Seq<DiffTag>, i: int)
    requires
        0 <= i,
        i + 1 < tags.len(),
        (tags[i] is Added && tags[i + 1] is Removed) || (tags[i] is Removed && tags[i + 1]
            is Added),
    ensures
        covered(spec_coalesce(tags), line_of_element(tags, i)),
        forall|j: int|
            0 <= j < spec_coalesce(tags).len() && #[trigger] covers(
                spec_coalesce(tags)[j],
                line_of_element(tags, i),
            ) ==> spec_coalesce(tags)[j].kind is Modification,
{
    lemma_escalation_from(tags, 0, None, i);
    lemma_line_coverage(tags);
    let rs = spec_coalesce(tags);
    let la = line_of_element(tags, i);
    let j0 = choose|j: int|
        0 <= j < rs.len() && covers(#[trigger] rs[j], la) && rs[j].kind is Modification;
    assert(covered(rs, la));
    assert forall|j: int| 0 <= j < rs.len() && #[trigger] covers(rs[j], la) implies rs[j].kind
        is Modification by {
        assert(j == j0);
    }
}

/// The shape of each diff element, extracted for the coalescer.
pub fn tags_of(ops: &Vec<LineOp>) -> (r: Vec<DiffTag>)
    ensures
        r@ == spec_tags(ops@),
{
    let mut r: Vec<DiffTag> = Vec::new();
    let mut i: usize = 0;
    proof {
        assert(r@ =~= spec_tags(ops@).take(0));
    }
    while i < ops.len()
        invariant
            i <= ops@.len(),
            r@ == spec_tags(ops@).take(i as int),
        decreases ops@.len() - i,
    {
        let tag = match &ops[i] {
            LineOp::Kept(_) => DiffTag::Kept,
            LineOp::Added(_) => DiffTag::Added,
            LineOp::Removed(_) => DiffTag::Removed,
        };
        r.push(tag);
        proof {
            assert(r@ =~= spec_tags(ops@).take(i as int + 1));
        }
        i = i + 1;
    }
    proof {
        assert(spec_tags(ops@).take(ops@.len() as int) =~= spec_tags(ops@));
    }
    r
}

pub open spec fn pending_model(p: Option<(usize, ChangeType)>) -> Option<PendingRun> {
    match p {
        None => None,
        Some((s, k)) => Some(PendingRun { lo: s as int, kind: k }),
    }
}

/// Walks the diff stream and emits the coalesced, classified change
/// regions, in line order.
pub fn coalesce(tags: &Vec<DiffTag>) -> (r: Vec<ChangeRegion>)
    ensures
        region_models(r@) == spec_coalesce(tags@),
{
    let mut regions: Vec<ChangeRegion> = Vec::new();
    let mut line: usize = 0;
    let mut pending: Option<(usize, ChangeType)> = None;
    let mut i: usize = 0;
    proof {
        assert(tags@.skip(0) =~= tags@);
        assert(region_models(regions@) + spec_coalesce(tags@) =~= spec_coalesce(tags@));
    }
    while i < tags.len()
        invariant
            i <= tags@.len(),
            line <= i,
            pending matches Some((s, _)) ==> s <= line,
            region_models(regions@) + coalesce_from(
                tags@.skip(i as int),
                line as int,
                pending_model(pending),
            ) == spec_coalesce(tags@),
        decreases tags@.len() - i,
    {
        let ghost prev_regions = region_models(regions@);
        let ghost prev_pending = pending_model(pending);
        let ghost prev_line = line as int;
        proof {
            assert(tags@.skip(i as int)[0] == tags@[i as int]);
            assert(tags@.skip(i as int).drop_first() =~= tags@.skip(i as int + 1));
        }
        match tags[i] {
            DiffTag::Kept => {
                if let Some((start, kind)) = pending {
                    let region = if kind == ChangeType::Deletion {
                        ChangeRegion { kind, start_line: start, end_line_exclusive: start }
                    } else {
                        ChangeRegion { kind, start_line: start, end_line_exclusive: line }
                    };
                    regions.push(region);
                    pending = None;
                    proof {
                        assert(region_model(region) == close_region(
                            prev_pending->Some_0,
                            prev_line,
                        ));
                        assert(region_models(regions@) =~= prev_regions + seq![
                            region_model(region),
                        ]);
                        assert(prev_regions + (seq![close_region(prev_pending->Some_0, prev_line)]
                            + coalesce_from(tags@.skip(i as int + 1), prev_line + 1, None)) =~= (
                        prev_regions + seq![close_region(prev_pending->Some_0, prev_line)])
                            + coalesce_from(tags@.skip(i as int + 1), prev_line + 1, None));
                    }
                }
                line = line + 1;
            },
            DiffTag::Added => {
                pending = match pending {
                    None => Some((line, ChangeType::Insertion)),
                    Some((s, k)) => Some(
                        (
                            s,
                            if k == ChangeType::Insertion {
                                ChangeType::Insertion
                            } else {
                                ChangeType::Modification
                            },
                        ),
                    ),
                };
                proof {
                    assert(pending_model(pending) == Some(after_added(prev_pending, prev_line)));
                }
                line = line + 1;
            },
            DiffTag::Removed => {
                pending = match pending {
                    None => Some((line, ChangeType::Deletion)),
                    Some((s, k)) => Some(
                        (
                            s,
                            if k == ChangeType::Deletion {
                                ChangeType::Deletion
                            } else {
                                ChangeType::Modification
                            },
                        ),
                    ),
                };
                proof {
                    assert(pending_model(pending) == Some(after_removed(prev_pending, prev_line)));
                }
            },
        }
        i = i + 1;
    }
    proof {
        assert(tags@.skip(i as int) =~= Seq::<DiffTag>::empty());
    }
    if let Some((start, kind)) = pending {
        let ghost prev_regions = region_models(regions@);
        let ghost prev_pending = pending_model(pending);
        let region = if kind == ChangeType::Deletion {
            ChangeRegion { kind, start_line: start, end_line_exclusive: start }
        } else {
            ChangeRegion { kind, start_line: start, end_line_exclusive: line }
        };
        regions.push(region);
        proof {
            assert(region_model(region) == close_region(prev_pending->Some_0, line as int));
            assert(region_models(regions@) =~= prev_regions + seq![region_model(region)]);
        }
    } else {
        proof {
            assert(region_models(regions@) =~= region_models(regions@) + coalesce_from(
                Seq::<DiffTag>::empty(),
                line as int,
                None,
            ));
        }
    }
    regions
}

} // verus!

