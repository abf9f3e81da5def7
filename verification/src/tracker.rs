//! The unsaved-edit tracker: the set of lines touched by in-memory edits
//! since the last save, and how those lines are merged into the diff stream
//! before coalescing, so that a fresh edit is annotated before the next
//! comparison against the on-disk reference.

use vstd::prelude::*;

use crate::regions::DiffTag;

verus! {

/// Whether the line list holds line `l`.
pub open spec fn lists_line(v: Seq<usize>, l: int) -> bool {
    exists|k: int| 0 <= k < v.len() && (#[trigger] v[k]) as int == l
}

proof fn lemma_lists_line_push(v: Seq<usize>, x: usize, l: int)
    ensures
        lists_line(v.push(x), l) <==> (lists_line(v, l) || x as int == l),
{
    if lists_line(v.push(x), l) {
        let k = choose|k: int| 0 <= k < v.push(x).len() && (#[trigger] v.push(x)[k]) as int == l;
        if k < v.len() {
            assert(v[k] == v.push(x)[k]);
        } else {
            assert(v.push(x)[v.len() as int] == x);
        }
    }
    if lists_line(v, l) {
        let k = choose|k: int| 0 <= k < v.len() && (#[trigger] v[k]) as int == l;
        assert(v.push(x)[k] == v[k]);
    }
    if x as int == l {
        assert(v.push(x)[v.len() as int] == x);
    }
}

proof fn lemma_lists_line_concat(a: Seq<usize>, b: Seq<usize>, l: int)
    ensures
        lists_line(a + b, l) <==> (lists_line(a, l) || lists_line(b, l)),
{
    if lists_line(a + b, l) {
        let k = choose|k: int| 0 <= k < (a + b).len() && (#[trigger] (a + b)[k]) as int == l;
        if k < a.len() {
            assert(a[k] == (a + b)[k]);
        } else {
            assert(b[k - a.len()] == (a + b)[k]);
        }
    }
    if lists_line(a, l) {
        let k = choose|k: int| 0 <= k < a.len() && (#[trigger] a[k]) as int == l;
        assert((a + b)[k] == a[k]);
    }
    if lists_line(b, l) {
        let k = choose|k: int| 0 <= k < b.len() && (#[trigger] b[k]) as int == l;
        assert((a + b)[a.len() + k] == b[k]);
    }
}

/// Whether the list holds line `line` itself.
fn contains_line(v: &Vec<usize>, line: usize) -> (b: bool)
    ensures
        b == lists_line(v@, line as int),
{
    let mut found = false;
    let mut i: usize = 0;
    proof {
        assert(v@.take(0) =~= Seq::<usize>::empty());
        assert(!lists_line(v@.take(0), line as int));
    }
    while i < v.len()
        invariant
            i <= v@.len(),
            found == lists_line(v@.take(i as int), line as int),
        decreases v@.len() - i,
    {
        if v[i] == line {
            found = true;
        }
        proof {
            assert(v@.take(i as int + 1) =~= v@.take(i as int).push(v@[i as int]));
            lemma_lists_line_push(v@.take(i as int), v@[i as int], line as int);
        }
        i = i + 1;
    }
    proof {
        assert(v@.take(v@.len() as int) =~= v@);
    }
    found
}

/// The set of line numbers touched by in-memory edits since the last save,
/// split by the kind of pending change.
pub struct UnsavedEditSet {
    pub inserted_lines: Vec<usize>,
    pub deleted_lines: Vec<usize>,
}

impl UnsavedEditSet {
    /// Whether line `l` carries a pending insert edit.
    pub open spec fn tracks_insert(&self, l: int) -> bool {
        lists_line(self.inserted_lines@, l)
    }

    /// Whether line `l` carries a pending delete edit.
    pub open spec fn tracks_delete(&self, l: int) -> bool {
        lists_line(self.deleted_lines@, l)
    }

    /// Whether no edit is pending at all.
    pub open spec fn is_clear(&self) -> bool {
        self.inserted_lines@.len() == 0 && self.deleted_lines@.len() == 0
    }

    pub fn new() -> (r: UnsavedEditSet)
        ensures
            r.is_clear(),
    {
        UnsavedEditSet { inserted_lines: Vec::new(), deleted_lines: Vec::new() }
    }

    /// Forgets every pending edit, as a save makes them redundant.
    pub fn clear(&mut self)
        ensures
            final (self).is_clear(),
    {
        self.inserted_lines = Vec::new();
        self.deleted_lines = Vec::new();
    }

    pub fn is_empty(&self) -> (b: bool)
        ensures
            b == self.is_clear(),
    {
        self.inserted_lines.len() == 0 && self.deleted_lines.len() == 0
    }

    /// Records one line touched by an insert edit.
    pub fn record_insert(&mut self, line: usize)
        ensures
            forall|l: int|
                final (self).tracks_insert(l) <==> (old(self).tracks_insert(l) || l
                    == line as int),
            final (self).deleted_lines@ == old(self).deleted_lines@,
    {
        let ghost prev = self.inserted_lines@;
        self.inserted_lines.push(line);
        proof {
            assert forall|l: int|
                self.tracks_insert(l) <==> (lists_line(prev, l) || l == line as int) by {
                lemma_lists_line_push(prev, line, l);
            }
        }
    }

    /// Records every line of the list as touched by an insert edit.
    pub fn record_inserts(&mut self, lines: &Vec<usize>)
        ensures
            forall|l: int|
                final (self).tracks_insert(l) <==> (old(self).tracks_insert(l) || lists_line(
                    lines@,
                    l,
                )),
            final (self).deleted_lines@ == old(self).deleted_lines@,
    {
        let ghost orig = *self;
        let mut i: usize = 0;
        proof {
            assert(self.inserted_lines@ =~= orig.inserted_lines@ + lines@.take(0));
        }
        while i < lines.len()
            invariant
                i <= lines@.len(),
                self.inserted_lines@ == orig.inserted_lines@ + lines@.take(i as int),
                self.deleted_lines@ == orig.deleted_lines@,
            decreases lines@.len() - i,
        {
            self.inserted_lines.push(lines[i]);
            proof {
                assert(self.inserted_lines@ =~= orig.inserted_lines@ + lines@.take(i as int + 1));
            }
            i = i + 1;
        }
        proof {
            assert(lines@.take(lines@.len() as int) =~= lines@);
            assert forall|l: int|
                self.tracks_insert(l) <==> (old(self).tracks_insert(l) || lists_line(
                    lines@,
                    l,
                )) by {
                lemma_lists_line_concat(old(self).inserted_lines@, lines@, l);
            }
        }
    }

    /// Records every line of the list as touched by a delete edit.
    pub fn record_deletes(&mut self, lines: &Vec<usize>)
        ensures
            forall|l: int|
                final (self).tracks_delete(l) <==> (old(self).tracks_delete(l) || lists_line(
                    lines@,
                    l,
                )),
            final (self).inserted_lines@ == old(self).inserted_lines@,
    {
        let ghost orig = *self;
        let mut i: usize = 0;
        proof {
            assert(self.deleted_lines@ =~= orig.deleted_lines@ + lines@.take(0));
        }
        while i < lines.len()
            invariant
                i <= lines@.len(),
                self.deleted_lines@ == orig.deleted_lines@ + lines@.take(i as int),
                self.inserted_lines@ == orig.inserted_lines@,
            decreases lines@.len() - i,
        {
            self.deleted_lines.push(lines[i]);
            proof {
                assert(self.deleted_lines@ =~= orig.deleted_lines@ + lines@.take(i as int + 1));
            }
            i = i + 1;
        }
        proof {
            assert(lines@.take(lines@.len() as int) =~= lines@);
            assert forall|l: int|
                self.tracks_delete(l) <==> (old(self).tracks_delete(l) || lists_line(
                    lines@,
                    l,
                )) by {
                lemma_lists_line_concat(old(self).deleted_lines@, lines@, l);
            }
        }
    }

    /// Records one line touched by a delete edit.
    pub fn record_delete(&mut self, line: usize)
        ensures
            forall|l: int|
                final (self).tracks_delete(l) <==> (old(self).tracks_delete(l) || l
                    == line as int),
            final (self).inserted_lines@ == old(self).inserted_lines@,
    {
        let ghost prev = self.deleted_lines@;
        self.deleted_lines.push(line);
        proof {
            assert forall|l: int|
                self.tracks_delete(l) <==> (lists_line(prev, l) || l == line as int) by {
                lemma_lists_line_push(prev, line, l);
            }
        }
    }
}

/// Whether some pending delete edit lies at or past `line`.
pub open spec fn has_delete_at_or_past(u: UnsavedEditSet, line: int) -> bool {
    exists|l: int| #[trigger] u.tracks_delete(l) && l >= line
}

fn has_trailing_delete(u: &UnsavedEditSet, line: usize) -> (b: bool)
    ensures
        b == has_delete_at_or_past(*u, line as int),
{
    let v = &u.deleted_lines;
    let mut found = false;
    let mut i: usize = 0;
    while i < v.len()
        invariant
            i <= v@.len(),
            v@ == u.deleted_lines@,
            found == exists|k: int| 0 <= k < i && (#[trigger] v@[k]) >= line,
        decreases v@.len() - i,
    {
        let ghost prev_found = found;
        if v[i] >= line {
            found = true;
        }
        proof {
            if found && !prev_found {
                assert(v@[i as int] >= line);
            }
            assert forall|k: int| 0 <= k < i + 1 && (#[trigger] v@[k]) >= line implies found by {
                if k < i {
                    assert(exists|k2: int| 0 <= k2 < i && (#[trigger] v@[k2]) >= line);
                }
            }
        }
        i = i + 1;
    }
    proof {
        if found {
            let k = choose|k: int| 0 <= k < i && (#[trigger] v@[k]) >= line;
            let l = v@[k] as int;
            assert(u.tracks_delete(l));
        } else {
            if has_delete_at_or_past(*u, line as int) {
                let l = choose|l: int| #[trigger] u.tracks_delete(l) && l >= line as int;
                let k = choose|k: int|
                    0 <= k < u.deleted_lines@.len() && (#[trigger] u.deleted_lines@[k]) as int
                        == l;
                assert(v@[k] >= line);
            }
        }
    }
    found
}

/// The synthetic removed element that a tracked delete at `line` injects.
pub open spec fn pre_delete(u: UnsavedEditSet, line: int) -> Seq<DiffTag> {
    if u.tracks_delete(line) {
        seq![DiffTag::Removed]
    } else {
        seq![]
    }
}

/// The diff stream with the unsaved edit lines merged in: a tracked insert
/// marks its current-buffer line as added, a tracked delete injects a
/// removed element ahead of its line, and tracked deletes at or past the
/// end of the stream anchor one removed element at its end.
pub open spec fn spec_merge(tags: Seq<DiffTag>, line: int, u: UnsavedEditSet) -> Seq<DiffTag>
    decreases tags.len(),
{
    if tags.len() == 0 {
        if has_delete_at_or_past(u, line) {
            seq![DiffTag::Removed]
        } else {
            seq![]
        }
    } else {
        match tags[0] {
            DiffTag::Kept => pre_delete(u, line) + seq![
                if u.tracks_insert(line) {
                    DiffTag::Added
                } else {
                    DiffTag::Kept
                },
            ] + spec_merge(tags.drop_first(), line + 1, u),
            DiffTag::Added => pre_delete(u, line) + seq![DiffTag::Added] + spec_merge(
                tags.drop_first(),
                line + 1,
                u,
            ),
            DiffTag::Removed => seq![DiffTag::Removed] + spec_merge(tags.drop_first(), line, u),
        }
    }
}

/// Merges the tracked unsaved edit lines into the diff stream before it is
/// coalesced.
pub fn merge_unsaved(tags: &Vec<DiffTag>, u: &UnsavedEditSet) -> (r: Vec<DiffTag>)
    ensures
        r@ == spec_merge(tags@, 0, *u),
{
    let mut r: Vec<DiffTag> = Vec::new();
    let mut line: usize = 0;
    let mut i: usize = 0;
    proof {
        assert(tags@.skip(0) =~= tags@);
        assert(r@ + spec_merge(tags@, 0, *u) =~= spec_merge(tags@, 0, *u));
    }
    while i < tags.len()
        invariant
            i <= tags@.len(),
            line <= i,
            r@ + spec_merge(tags@.skip(i as int), line as int, *u) == spec_merge(tags@, 0, *u),
        decreases tags@.len() - i,
    {
        let ghost prev_r = r@;
        let ghost prev_line = line as int;
        proof {
            assert(tags@.skip(i as int)[0] == tags@[i as int]);
            assert(tags@.skip(i as int).drop_first() =~= tags@.skip(i as int + 1));
        }
        match tags[i] {
            DiffTag::Kept => {
                if contains_line(&u.deleted_lines, line) {
                    r.push(DiffTag::Removed);
                }
                if contains_line(&u.inserted_lines, line) {
                    r.push(DiffTag::Added);
                } else {
                    r.push(DiffTag::Kept);
                }
                proof {
                    let op = if u.tracks_insert(prev_line) {
                        DiffTag::Added
                    } else {
                        DiffTag::Kept
                    };
                    assert(r@ =~= prev_r + (pre_delete(*u, prev_line) + seq![op]));
                    assert(prev_r + (pre_delete(*u, prev_line) + seq![op]) + spec_merge(
                        tags@.skip(i as int + 1),
                        prev_line + 1,
                        *u,
                    ) =~= prev_r + (pre_delete(*u, prev_line) + seq![op] + spec_merge(
                        tags@.skip(i as int + 1),
                        prev_line + 1,
                        *u,
                    )));
                }
                line = line + 1;
            },
            DiffTag::Added => {
                if contains_line(&u.deleted_lines, line) {
                    r.push(DiffTag::Removed);
                }
                r.push(DiffTag::Added);
                proof {
                    assert(r@ =~= prev_r + (pre_delete(*u, prev_line) + seq![DiffTag::Added]));
                    assert(prev_r + (pre_delete(*u, prev_line) + seq![DiffTag::Added])
                        + spec_merge(tags@.skip(i as int + 1), prev_line + 1, *u) =~= prev_r + (
                    pre_delete(*u, prev_line) + seq![DiffTag::Added] + spec_merge(
                        tags@.skip(i as int + 1),
                        prev_line + 1,
                        *u,
                    )));
                }
                line = line + 1;
            },
            DiffTag::Removed => {
                r.push(DiffTag::Removed);
                proof {
                    assert(r@ =~= prev_r + seq![DiffTag::Removed]);
                    assert(prev_r + seq![DiffTag::Removed] + spec_merge(
                        tags@.skip(i as int + 1),
                        prev_line,
                        *u,
                    ) =~= prev_r + (seq![DiffTag::Removed] + spec_merge(
                        tags@.skip(i as int + 1),
                        prev_line,
                        *u,
                    )));
                }
            },
        }
        i = i + 1;
    }
    proof {
        assert(tags@.skip(i as int) =~= Seq::<DiffTag>::empty());
    }
    if has_trailing_delete(u, line) {
        let ghost prev_r = r@;
        r.push(DiffTag::Removed);
        proof {
            assert(r@ =~= prev_r + seq![DiffTag::Removed]);
        }
    } else {
        proof {
            assert(r@ =~= r@ + spec_merge(Seq::<DiffTag>::empty(), line as int, *u));
        }
    }
    r
}

} // verus!
