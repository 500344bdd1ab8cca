use slayerfs_meta::background::BackgroundTasks;

#[test]
fn nothing_runs_at_first() {
    let background = BackgroundTasks::new();
    let delete = background.delete.lock();
    assert!(delete.sender.is_none());
    assert!(delete.tasks.is_empty());
    assert!(!delete.cancel.is_cancelled());
}
