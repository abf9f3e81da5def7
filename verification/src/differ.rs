//! The line differ: an external primitive that compares the reference and
//! current line sequences and yields kept, added and removed lines in
//! document order.

use vstd::prelude::*;

verus! {

/// One element of a line diff, in document order: a line present in both
/// versions, a line only in the current version, or a line only in the
/// reference version.
#[derive(Debug)]
pub enum LineOp {
    Kept(Vec<u8>),
    Added(Vec<u8>),
    Removed(Vec<u8>),
}

/// The kept and added lines of a diff, in order: together they are the
/// current version of the document.
pub open spec fn current_lines_of(ops: Seq<LineOp>) -> Seq<Seq<u8>>
    decreases ops.len(),
{
    if ops.len() == 0 {
        seq![]
    } else {
        match ops[0] {
            LineOp::Kept(c) => seq![c@] + current_lines_of(ops.drop_first()),
            LineOp::Added(c) => seq![c@] + current_lines_of(ops.drop_first()),
            LineOp::Removed(_) => current_lines_of(ops.drop_first()),
        }
    }
}

/// The kept and removed lines of a diff, in order: together they are the
/// reference version of the document.
pub open spec fn reference_lines_of(ops: Seq<LineOp>) -> Seq<Seq<u8>>
    decreases ops.len(),
{
    if ops.len() == 0 {
        seq![]
    } else {
        match ops[0] {
            LineOp::Kept(c) => seq![c@] + reference_lines_of(ops.drop_first()),
            LineOp::Added(_) => reference_lines_of(ops.drop_first()),
            LineOp::Removed(c) => seq![c@] + reference_lines_of(ops.drop_first()),
        }
    }
}

/// Relies on diff::slice: a longest-common-subsequence diff of the two line
/// sequences whose kept and added elements, in order, are exactly the lines
/// of `current`, and whose kept and removed elements, in order, are exactly
/// the lines of `reference`.
#[verifier::external_body]
pub(crate) fn diff_lines(reference: &Vec<Vec<u8>>, current: &Vec<Vec<u8>>) -> (r: Vec<LineOp>)
    ensures
        current_lines_of(r@) == current.deep_view(),
        reference_lines_of(r@) == reference.deep_view(),
{
    diff::slice(reference, current)
        .into_iter()
        .map(|op| match op {
            diff::Result::Left(l) => LineOp::Removed(l.clone()),
            diff::Result::Both(_, r) => LineOp::Kept(r.clone()),
            diff::Result::Right(r) => LineOp::Added(r.clone()),
        })
        .collect()
}

} // verus!
