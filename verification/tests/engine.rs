use xiff::plugin::XiffPlugin;
use xiff::spans::AnnotationSpan;

fn span(start: usize, end: usize) -> AnnotationSpan {
    AnnotationSpan { start_offset: start, end_offset: end }
}

#[test]
fn scenario_modification() {
    let mut plugin = XiffPlugin::new();
    let reference = Some(b"a\nb\nc".to_vec());
    let current = b"a\nx\nc".to_vec();
    let set = plugin.update_diff(&reference, &current, 1, 1);
    assert_eq!(set.inserted, vec![]);
    assert_eq!(set.deleted, vec![]);
    assert_eq!(set.modified, vec![span(2, 3)]);
}

#[test]
fn scenario_insertion() {
    let mut plugin = XiffPlugin::new();
    let reference = Some(b"a\nb".to_vec());
    let current = b"a\nb\nc".to_vec();
    let set = plugin.update_diff(&reference, &current, 1, 0);
    assert_eq!(set.inserted, vec![span(4, 5)]);
    assert_eq!(set.deleted, vec![]);
    assert_eq!(set.modified, vec![]);
}

#[test]
fn scenario_deletion() {
    let mut plugin = XiffPlugin::new();
    let reference = Some(b"a\nb\nc".to_vec());
    let current = b"a\nc".to_vec();
    let set = plugin.update_diff(&reference, &current, 0, 1);
    assert_eq!(set.inserted, vec![]);
    assert_eq!(set.deleted, vec![span(2, 2)]);
    assert_eq!(set.modified, vec![]);
}

#[test]
fn scenario_unsaved_insert() {
    let mut plugin = XiffPlugin::new();
    plugin.content_changed(&vec![2], &vec![]);
    let reference = Some(b"a\nb\nc".to_vec());
    let current = b"a\nb\nc".to_vec();
    let set = plugin.update_diff(&reference, &current, 0, 0);
    assert_eq!(set.inserted, vec![span(4, 5)]);
    assert_eq!(set.deleted, vec![]);
    assert_eq!(set.modified, vec![]);
}

#[test]
fn scenario_unsaved_delete() {
    let mut plugin = XiffPlugin::new();
    plugin.content_changed(&vec![], &vec![1]);
    let reference = Some(b"a\nb\nc".to_vec());
    let current = b"a\nb\nc".to_vec();
    let set = plugin.update_diff(&reference, &current, 0, 0);
    assert_eq!(set.inserted, vec![]);
    assert_eq!(set.deleted, vec![span(2, 2)]);
    assert_eq!(set.modified, vec![]);
}

#[test]
fn scenario_stale_counts_never_reused() {
    let mut plugin = XiffPlugin::new();
    let reference = Some(b"a\nb".to_vec());
    let first_current = b"a\nc".to_vec();
    let first = plugin.update_diff(&reference, &first_current, 1, 1);
    assert_eq!(first.modified, vec![span(2, 3)]);
    plugin.content_changed(&vec![0], &vec![]);
    let second_current = b"x\nc".to_vec();
    let second = plugin.update_diff(&reference, &second_current, 1, 1);
    assert_eq!(second.inserted, vec![]);
    assert_eq!(second.deleted, vec![]);
    assert_eq!(second.modified, vec![span(0, 3)]);
}

#[test]
fn cache_idempotent_pass() {
    let mut plugin = XiffPlugin::new();
    let reference = Some(b"a\nb\nc".to_vec());
    let current = b"a\nx\nc".to_vec();
    let first = plugin.update_diff(&reference, &current, 1, 1);
    let second = plugin.update_diff(&reference, &current, 1, 1);
    assert_eq!(first.inserted, second.inserted);
    assert_eq!(first.deleted, second.deleted);
    assert_eq!(first.modified, second.modified);
}

#[test]
fn save_forces_fresh_pass() {
    let mut plugin = XiffPlugin::new();
    let reference = Some(b"a\nb".to_vec());
    let first = plugin.update_diff(&reference, &b"a\nc".to_vec(), 1, 1);
    assert_eq!(first.modified, vec![span(2, 3)]);
    plugin.did_save();
    let second = plugin.update_diff(&reference, &b"x\nb".to_vec(), 1, 1);
    assert_eq!(second.modified, vec![span(0, 1)]);
}

#[test]
fn save_clears_unsaved_edits() {
    let mut plugin = XiffPlugin::new();
    plugin.content_changed(&vec![0], &vec![2]);
    plugin.did_save();
    let reference = Some(b"a\nb\nc".to_vec());
    let current = b"a\nb\nc".to_vec();
    let set = plugin.update_diff(&reference, &current, 0, 0);
    assert_eq!(set.inserted, vec![]);
    assert_eq!(set.deleted, vec![]);
    assert_eq!(set.modified, vec![]);
}

#[test]
fn no_reference_emits_nothing() {
    let mut plugin = XiffPlugin::new();
    let set = plugin.update_diff(&None, &b"a\nb".to_vec(), 3, 4);
    assert_eq!(set.inserted, vec![]);
    assert_eq!(set.deleted, vec![]);
    assert_eq!(set.modified, vec![]);
}

#[test]
fn equal_documents_emit_nothing() {
    let mut plugin = XiffPlugin::new();
    let reference = Some(b"a\nb\n".to_vec());
    let current = b"a\nb".to_vec();
    let set = plugin.update_diff(&reference, &current, 0, 0);
    assert_eq!(set.inserted, vec![]);
    assert_eq!(set.deleted, vec![]);
    assert_eq!(set.modified, vec![]);
}

#[test]
fn two_separate_regions() {
    let mut plugin = XiffPlugin::new();
    let reference = Some(b"a\nb\nc".to_vec());
    let current = b"a\nB\nc\nd".to_vec();
    let set = plugin.update_diff(&reference, &current, 2, 1);
    assert_eq!(set.inserted, vec![span(6, 7)]);
    assert_eq!(set.deleted, vec![]);
    assert_eq!(set.modified, vec![span(2, 3)]);
}

#[test]
fn adjacent_insert_delete_escalates() {
    let mut plugin = XiffPlugin::new();
    let reference = Some(b"a\nb".to_vec());
    let current = b"a\nx\ny".to_vec();
    let set = plugin.update_diff(&reference, &current, 2, 1);
    assert_eq!(set.inserted, vec![]);
    assert_eq!(set.deleted, vec![]);
    assert_eq!(set.modified, vec![span(2, 5)]);
}

#[test]
fn deletion_at_end_of_file() {
    let mut plugin = XiffPlugin::new();
    let reference = Some(b"a\nb".to_vec());
    let current = b"a".to_vec();
    let set = plugin.update_diff(&reference, &current, 0, 1);
    assert_eq!(set.deleted, vec![span(1, 1)]);
    assert_eq!(set.inserted, vec![]);
    assert_eq!(set.modified, vec![]);
}

#[test]
fn empty_reference_marks_all_inserted() {
    let mut plugin = XiffPlugin::new();
    let reference = Some(b"".to_vec());
    let current = b"a".to_vec();
    let set = plugin.update_diff(&reference, &current, 1, 0);
    assert_eq!(set.inserted, vec![span(0, 1)]);
    assert_eq!(set.deleted, vec![]);
    assert_eq!(set.modified, vec![]);
}

#[test]
fn empty_current_marks_deletion() {
    let mut plugin = XiffPlugin::new();
    let reference = Some(b"a".to_vec());
    let current = b"".to_vec();
    let set = plugin.update_diff(&reference, &current, 0, 1);
    assert_eq!(set.inserted, vec![]);
    assert_eq!(set.deleted, vec![span(0, 0)]);
    assert_eq!(set.modified, vec![]);
}

#[test]
fn unsaved_delete_past_end_anchors_at_end() {
    let mut plugin = XiffPlugin::new();
    plugin.content_changed(&vec![], &vec![5]);
    let reference = Some(b"a".to_vec());
    let current = b"a".to_vec();
    let set = plugin.update_diff(&reference, &current, 0, 0);
    assert_eq!(set.deleted, vec![span(1, 1)]);
    assert_eq!(set.inserted, vec![]);
    assert_eq!(set.modified, vec![]);
}

#[test]
fn unsaved_insert_beside_delete_escalates() {
    let mut plugin = XiffPlugin::new();
    plugin.content_changed(&vec![1], &vec![1]);
    let reference = Some(b"a\nb\nc".to_vec());
    let current = b"a\nb\nc".to_vec();
    let set = plugin.update_diff(&reference, &current, 0, 0);
    assert_eq!(set.inserted, vec![]);
    assert_eq!(set.deleted, vec![]);
    assert_eq!(set.modified, vec![span(2, 3)]);
}
