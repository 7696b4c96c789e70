use bk_over_ssh::transfer::{
    choose_sync_type, delta_command, next_retry_pause, FileItemProcessResultStats, partial_path, sftp_outcome, FileItem, FileItemProcessResult, FileTransfer,
    RemoteFileItem, SyncType, TransferAction, TransferEvent, TransferPhase,
};

const HELLO_SHA1: &str = "AAF4C61DDCC5E8A2DABEDE0F3B482CD9AEA9434D";

fn hello_item(sync_type: SyncType) -> FileItem {
    let mut remote = RemoteFileItem::new("a.txt", 5);
    remote.sha1 = Some(HELLO_SHA1.to_string());
    FileItem::new("/hub/data", "/remote/dir", remote, sync_type)
}

#[test]
fn policy_picks_delta_only_for_large_files_with_baseline() {
    assert_eq!(choose_sync_type(false, 10 << 20, 1 << 20, true), SyncType::Sftp);
    assert_eq!(choose_sync_type(true, 100, 1 << 20, true), SyncType::Sftp);
    assert_eq!(choose_sync_type(true, 10 << 20, 1 << 20, true), SyncType::Rsync);
    assert_eq!(choose_sync_type(true, 1 << 20, 1 << 20, true), SyncType::Rsync);
    assert_eq!(choose_sync_type(true, 10 << 20, 1 << 20, false), SyncType::Sftp);
}

#[test]
fn item_paths_are_joined() {
    let fi = hello_item(SyncType::Sftp);
    assert_eq!(fi.get_local_path(), "/hub/data/a.txt");
    assert_eq!(fi.get_remote_path(), "/remote/dir/a.txt");
    assert!(!fi.is_sha1_not_equal("aaf4c61ddcc5e8a2dabede0f3b482cd9aea9434d"));
    assert!(fi.is_sha1_not_equal("0000"));
}

#[test]
fn delta_command_names_all_files() {
    assert_eq!(
        delta_command("/usr/bin/bk", "/r/a.txt"),
        "/usr/bin/bk rsync delta-a-file --new-file /r/a.txt --sig-file /r/a.txt.sig --out-file /r/a.txt.delta"
    );
    assert_eq!(partial_path("/l/a.txt"), "/l/a.txt.partial");
}

#[test]
fn whole_copy_outcomes() {
    let mut remote = RemoteFileItem::new("a.txt", 5);
    remote.sha1 = Some(HELLO_SHA1.to_string());
    assert!(matches!(sftp_outcome("l".to_string(), &remote, 4, HELLO_SHA1), FileItemProcessResult::LengthNotMatch(p) if p == "l"));
    assert!(matches!(sftp_outcome("l".to_string(), &remote, 5, "00"), FileItemProcessResult::Sha1NotMatch(_)));
    assert!(matches!(
        sftp_outcome("l".to_string(), &remote, 5, &HELLO_SHA1.to_lowercase()),
        FileItemProcessResult::Successed(_, SyncType::Sftp)
    ));
    let plain = RemoteFileItem::new("b", 3);
    assert!(matches!(sftp_outcome("l".to_string(), &plain, 3, "anything"), FileItemProcessResult::Successed(_, SyncType::Sftp)));
}

#[test]
fn fresh_pull_copies_whole_file_then_commits() {
    let fi = hello_item(SyncType::Sftp);
    let mut t = FileTransfer::new(&fi, "bk", false);
    match t.step(TransferEvent::Start) {
        TransferAction::Fetch { remote_path, partial_path, remove_local, remove_remote } => {
            assert_eq!(remote_path, "/remote/dir/a.txt");
            assert_eq!(partial_path, "/hub/data/a.txt.partial");
            assert!(remove_local.is_empty() && remove_remote.is_empty());
        }
        _ => panic!("expected a whole-file fetch"),
    }
    match t.step(TransferEvent::Fetched(5, HELLO_SHA1.to_string())) {
        TransferAction::Commit { partial_path, local_path } => {
            assert_eq!(partial_path, "/hub/data/a.txt.partial");
            assert_eq!(local_path, "/hub/data/a.txt");
        }
        _ => panic!("expected a commit"),
    }
    match t.step(TransferEvent::StepOk) {
        TransferAction::Finish { result: FileItemProcessResult::Successed(p, SyncType::Sftp), .. } => {
            assert_eq!(p, "/hub/data/a.txt")
        }
        _ => panic!("expected success"),
    }
    assert_eq!(t.phase, TransferPhase::Done);
}

#[test]
fn corrupted_copy_is_never_committed() {
    let fi = hello_item(SyncType::Sftp);
    let mut t = FileTransfer::new(&fi, "bk", true);
    let _ = t.step(TransferEvent::Start);
    match t.step(TransferEvent::Fetched(5, "AAF4C61DDCC5E8A2DABEDE0F3B482CD9AEA9434E".to_string())) {
        TransferAction::Finish { result: FileItemProcessResult::Sha1NotMatch(p), .. } => assert_eq!(p, "/hub/data/a.txt"),
        _ => panic!("expected a hash mismatch"),
    }
    let mut t = FileTransfer::new(&fi, "bk", true);
    let _ = t.step(TransferEvent::Start);
    match t.step(TransferEvent::Fetched(6, HELLO_SHA1.to_string())) {
        TransferAction::Finish { result: FileItemProcessResult::LengthNotMatch(_), .. } => {}
        _ => panic!("expected a length mismatch"),
    }
}

#[test]
fn delta_path_runs_to_success() {
    let fi = hello_item(SyncType::Rsync);
    let mut t = FileTransfer::new(&fi, "bk", true);
    match t.step(TransferEvent::Start) {
        TransferAction::SignAndUpload { local_path, sig_path } => {
            assert_eq!(local_path, "/hub/data/a.txt");
            assert_eq!(sig_path, "/remote/dir/a.txt.sig");
        }
        _ => panic!("expected signing"),
    }
    assert!(matches!(t.step(TransferEvent::StepOk), TransferAction::RunDelta { .. }));
    match t.step(TransferEvent::StepOk) {
        TransferAction::Restore { delta_path, baseline, restore_path } => {
            assert_eq!(delta_path, "/remote/dir/a.txt.delta");
            assert_eq!(baseline, "/hub/data/a.txt");
            assert_eq!(restore_path, "/hub/data/a.txt.restore");
        }
        _ => panic!("expected restore"),
    }
    match t.step(TransferEvent::Fetched(5, HELLO_SHA1.to_string())) {
        TransferAction::Swap { old_tmp_path, .. } => assert_eq!(old_tmp_path, "/hub/data/a.txt.old.tmp"),
        _ => panic!("expected swap"),
    }
    match t.step(TransferEvent::StepOk) {
        TransferAction::Finish { result: FileItemProcessResult::Successed(_, SyncType::Rsync), remove_remote, .. } => {
            assert_eq!(remove_remote, vec!["/remote/dir/a.txt.sig".to_string(), "/remote/dir/a.txt.delta".to_string()]);
        }
        _ => panic!("expected success by delta"),
    }
}

#[test]
fn failed_remote_delta_falls_back_to_whole_copy() {
    let fi = hello_item(SyncType::Rsync);
    let mut t = FileTransfer::new(&fi, "bk", true);
    let _ = t.step(TransferEvent::Start);
    let _ = t.step(TransferEvent::StepOk);
    match t.step(TransferEvent::StepFailed) {
        TransferAction::Fetch { remove_remote, remove_local, .. } => {
            assert_eq!(remove_remote, vec!["/remote/dir/a.txt.sig".to_string(), "/remote/dir/a.txt.delta".to_string()]);
            assert_eq!(remove_local, vec!["/hub/data/a.txt.restore".to_string()]);
        }
        _ => panic!("expected fallback"),
    }
    assert!(matches!(t.step(TransferEvent::Fetched(5, HELLO_SHA1.to_string())), TransferAction::Commit { .. }));
    assert!(matches!(
        t.step(TransferEvent::StepOk),
        TransferAction::Finish { result: FileItemProcessResult::Successed(_, SyncType::Sftp), .. }
    ));
}

#[test]
fn cancellation_skips_and_removes_temporaries() {
    let fi = hello_item(SyncType::Sftp);
    let mut t = FileTransfer::new(&fi, "bk", true);
    let _ = t.step(TransferEvent::Start);
    match t.step(TransferEvent::Cancelled) {
        TransferAction::Finish { result: FileItemProcessResult::Skipped, remove_local, remove_remote } => {
            assert_eq!(remove_local, vec!["/hub/data/a.txt.partial".to_string(), "/hub/data/a.txt.restore".to_string()]);
            assert!(remove_remote.is_empty());
        }
        _ => panic!("expected skip"),
    }
    assert_eq!(t.phase, TransferPhase::Done);
}

#[test]
fn open_failure_is_reported() {
    let fi = hello_item(SyncType::Sftp);
    let mut t = FileTransfer::new(&fi, "bk", false);
    let _ = t.step(TransferEvent::Start);
    assert!(matches!(
        t.step(TransferEvent::OpenFailed),
        TransferAction::Finish { result: FileItemProcessResult::SftpOpenFailed, .. }
    ));
}

#[test]
fn stats_count_each_result() {
    let mut st = FileItemProcessResultStats::new();
    st.add(&FileItemProcessResult::Successed("a".into(), SyncType::Sftp), 5);
    st.add(&FileItemProcessResult::Successed("b".into(), SyncType::Rsync), 100);
    st.add(&FileItemProcessResult::Sha1NotMatch("c".into()), 7);
    st.add(&FileItemProcessResult::LengthNotMatch("d".into()), 7);
    st.add(&FileItemProcessResult::SftpOpenFailed, 0);
    st.add(&FileItemProcessResult::Skipped, 0);
    assert_eq!((st.sftp_successed, st.rsync_successed), (1, 1));
    assert_eq!(st.bytes_transferred, 105);
    assert_eq!(st.failed(), 3);
    assert_eq!(st.skipped, 1);
}

#[test]
fn retries_back_off_exponentially() {
    assert_eq!(next_retry_pause(0, 2, 500), Some(500));
    assert_eq!(next_retry_pause(1, 2, 500), Some(1000));
    assert_eq!(next_retry_pause(2, 2, 500), None);
    assert_eq!(next_retry_pause(3, 5, 500), Some(4000));
    assert_eq!(next_retry_pause(63, 64, 3), Some(u64::MAX));
}

#[test]
fn unverified_restore_falls_back_to_whole_copy() {
    let fi = hello_item(SyncType::Rsync);
    let mut t = FileTransfer::new(&fi, "bk", true);
    let _ = t.step(TransferEvent::Start);
    let _ = t.step(TransferEvent::StepOk);
    let _ = t.step(TransferEvent::StepOk);
    match t.step(TransferEvent::Fetched(5, "0000000000000000000000000000000000000000".to_string())) {
        TransferAction::Fetch { remove_local, .. } => {
            assert_eq!(remove_local, vec!["/hub/data/a.txt.restore".to_string()]);
        }
        _ => panic!("expected fallback"),
    }
    assert_eq!(t.phase, TransferPhase::Fetching);
}
