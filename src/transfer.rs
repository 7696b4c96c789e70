use vstd::prelude::*;
use crate::hex::{eq_ignore_ascii_case, hex_eq_ignore_case};
use crate::string_path::{join_path, joined};
use crate::text::{clone_text, clone_opt_text, opt_text};

verus! {

/// The two ways a file is brought over: whole, or as a delta against the local copy.
#[derive(PartialEq, Eq, Structural, Clone, Copy, Debug)]
pub enum SyncType {
    Sftp,
    Rsync,
}

/// The typed outcome of one file transfer.
#[derive(Debug)]
pub enum FileItemProcessResult {
    Successed(String, SyncType),
    LengthNotMatch(String),
    Sha1NotMatch(String),
    CopyFailed(String),
    SftpOpenFailed,
    GetLocalPathFailed,
    Skipped,
}

/// One file of a remote manifest.
pub struct RemoteFileItem {
    pub path: String,
    pub len: u64,
    pub sha1: Option<String>,
    pub modified: Option<String>,
}

impl RemoteFileItem {
    pub fn new(path: &str, len: u64) -> (r: RemoteFileItem)
        ensures
            r.path@ == path@,
            r.len == len,
            r.sha1 is None,
            r.modified is None,
    {
        RemoteFileItem { path: path.to_owned(), len, sha1: None, modified: None }
    }

    pub fn get_len(&self) -> (r: u64)
        ensures
            r == self.len,
    {
        self.len
    }

    pub fn get_sha1(&self) -> (r: Option<String>)
        ensures
            opt_text(r) == opt_text(self.sha1),
    {
        clone_opt_text(&self.sha1)
    }
}

/// A file to transfer in one run: where it lies on both sides and how it goes.
pub struct FileItem {
    pub local_dir: String,
    pub remote_dir: String,
    pub remote: RemoteFileItem,
    pub sync_type: SyncType,
}

impl FileItem {
    pub fn new(local_dir: &str, remote_dir: &str, remote: RemoteFileItem, sync_type: SyncType) -> (r: FileItem)
        ensures
            r.local_dir@ == local_dir@,
            r.remote_dir@ == remote_dir@,
            r.remote == remote,
            r.sync_type == sync_type,
    {
        FileItem { local_dir: local_dir.to_owned(), remote_dir: remote_dir.to_owned(), remote, sync_type }
    }

    pub fn get_remote_path(&self) -> (r: String)
        ensures
            r@ == joined(self.remote_dir@, self.remote.path@),
    {
        join_path(self.remote_dir.as_str(), self.remote.path.as_str())
    }

    pub fn get_local_path(&self) -> (r: String)
        ensures
            r@ == joined(self.local_dir@, self.remote.path@),
    {
        join_path(self.local_dir.as_str(), self.remote.path.as_str())
    }

    pub fn get_remote_item(&self) -> (r: &RemoteFileItem)
        ensures
            r == &self.remote,
    {
        &self.remote
    }

    /// True when the manifest gives a hash and `sha1` is not it, regardless of case.
    pub fn is_sha1_not_equal(&self, sha1: &str) -> (r: bool)
        ensures
            r == match self.remote.sha1 {
                Some(h) => !eq_ignore_ascii_case(h@, sha1@),
                None => false,
            },
    {
        match &self.remote.sha1 {
            Some(h) => !hex_eq_ignore_case(h.as_str(), sha1),
            None => false,
        }
    }
}

/// The transfer mode tried first: a delta needs a local baseline, a file at
/// least `rsync_valve` bytes long, and a server that asks for deltas.
pub open spec fn policy(local_exists: bool, remote_len: u64, rsync_valve: u64, rsync_requested: bool) -> SyncType {
    if !local_exists {
        SyncType::Sftp
    } else if remote_len < rsync_valve {
        SyncType::Sftp
    } else if rsync_requested {
        SyncType::Rsync
    } else {
        SyncType::Sftp
    }
}

pub fn choose_sync_type(local_exists: bool, remote_len: u64, rsync_valve: u64, rsync_requested: bool) -> (r: SyncType)
    ensures
        r == policy(local_exists, remote_len, rsync_valve, rsync_requested),
{
    if !local_exists {
        SyncType::Sftp
    } else if remote_len < rsync_valve {
        SyncType::Sftp
    } else if rsync_requested {
        SyncType::Rsync
    } else {
        SyncType::Sftp
    }
}

fn with_suffix(p: &str, suffix: &str) -> (r: String)
    ensures
        r@ == p@ + suffix@,
{
    let mut s = p.to_owned();
    s.append(suffix);
    s
}

/// Where a whole-file copy is written before it is verified.
pub fn partial_path(local_path: &str) -> (r: String)
    ensures
        r@ == local_path@ + ".partial"@,
{
    with_suffix(local_path, ".partial")
}

/// Where a delta is restored before it replaces the local file.
pub fn restore_path(local_path: &str) -> (r: String)
    ensures
        r@ == local_path@ + ".restore"@,
{
    with_suffix(local_path, ".restore")
}

/// Where the local file is moved while the restored one takes its name.
pub fn old_tmp_path(local_path: &str) -> (r: String)
    ensures
        r@ == local_path@ + ".old.tmp"@,
{
    with_suffix(local_path, ".old.tmp")
}

/// The remote path the signature is uploaded to.
pub fn sig_path(remote_path: &str) -> (r: String)
    ensures
        r@ == remote_path@ + ".sig"@,
{
    with_suffix(remote_path, ".sig")
}

/// The remote path the delta is written to.
pub fn delta_path(remote_path: &str) -> (r: String)
    ensures
        r@ == remote_path@ + ".delta"@,
{
    with_suffix(remote_path, ".delta")
}

pub open spec fn delta_command_text(remote_exec: Seq<char>, remote_path: Seq<char>) -> Seq<char> {
    remote_exec + " rsync delta-a-file --new-file "@ + remote_path + " --sig-file "@ + remote_path
        + ".sig"@ + " --out-file "@ + remote_path + ".delta"@
}

/// The remote command that computes the delta of the remote file against the
/// uploaded signature.
pub fn delta_command(remote_exec: &str, remote_path: &str) -> (r: String)
    ensures
        r@ == delta_command_text(remote_exec@, remote_path@),
{
    let mut s = remote_exec.to_owned();
    s.append(" rsync delta-a-file --new-file ");
    s.append(remote_path);
    s.append(" --sig-file ");
    s.append(remote_path);
    s.append(".sig");
    s.append(" --out-file ");
    s.append(remote_path);
    s.append(".delta");
    s
}

/// True when a copy of `len` bytes hashing to `sha1` is what the manifest
/// promised: the length always, the hash where one is given.
pub open spec fn copy_verified(expected_len: u64, expected_sha1: Option<Seq<char>>, len: u64, sha1: Seq<char>) -> bool {
    len == expected_len && match expected_sha1 {
        Some(h) => eq_ignore_ascii_case(h, sha1),
        None => true,
    }
}

pub fn is_copy_verified(expected_len: u64, expected_sha1: &Option<String>, len: u64, sha1: &str) -> (r: bool)
    ensures
        r == copy_verified(expected_len, opt_text(*expected_sha1), len, sha1@),
{
    if len != expected_len {
        return false;
    }
    match expected_sha1 {
        Some(h) => hex_eq_ignore_case(h.as_str(), sha1),
        None => true,
    }
}

/// The result of a whole-file copy: a length mismatch first, then a hash
/// mismatch, else success.
pub fn sftp_outcome(local_path: String, remote: &RemoteFileItem, len: u64, sha1: &str) -> (r: FileItemProcessResult)
    ensures
        len != remote.len ==> r == FileItemProcessResult::LengthNotMatch(local_path),
        len == remote.len && !copy_verified(remote.len, opt_text(remote.sha1), len, sha1@)
            ==> r == FileItemProcessResult::Sha1NotMatch(local_path),
        copy_verified(remote.len, opt_text(remote.sha1), len, sha1@)
            ==> r == FileItemProcessResult::Successed(local_path, SyncType::Sftp),
{
    if len != remote.len {
        FileItemProcessResult::LengthNotMatch(local_path)
    } else if !is_copy_verified(remote.len, &remote.sha1, len, sha1) {
        FileItemProcessResult::Sha1NotMatch(local_path)
    } else {
        FileItemProcessResult::Successed(local_path, SyncType::Sftp)
    }
}

} // verus!

verus! {

pub ghost enum ResultView {
    Successed(Seq<char>, SyncType),
    LengthNotMatch(Seq<char>),
    Sha1NotMatch(Seq<char>),
    CopyFailed(Seq<char>),
    SftpOpenFailed,
    GetLocalPathFailed,
    Skipped,
}

impl View for FileItemProcessResult {
    type V = ResultView;

    open spec fn view(&self) -> ResultView {
        match self {
            FileItemProcessResult::Successed(p, t) => ResultView::Successed(p@, *t),
            FileItemProcessResult::LengthNotMatch(p) => ResultView::LengthNotMatch(p@),
            FileItemProcessResult::Sha1NotMatch(p) => ResultView::Sha1NotMatch(p@),
            FileItemProcessResult::CopyFailed(p) => ResultView::CopyFailed(p@),
            FileItemProcessResult::SftpOpenFailed => ResultView::SftpOpenFailed,
            FileItemProcessResult::GetLocalPathFailed => ResultView::GetLocalPathFailed,
            FileItemProcessResult::Skipped => ResultView::Skipped,
        }
    }
}

/// Where a file transfer stands.
#[derive(PartialEq, Eq, Structural, Clone, Copy, Debug)]
pub enum TransferPhase {
    Begin,
    Signing,
    Delta,
    Restoring,
    Swapping,
    Fetching,
    Committing,
    Done,
}

/// What the caller reports after performing the last action.
pub enum TransferEvent {
    Start,
    StepOk,
    StepFailed,
    Fetched(u64, String),
    OpenFailed,
    Cancelled,
}

pub ghost enum EventView {
    Start,
    StepOk,
    StepFailed,
    Fetched(u64, Seq<char>),
    OpenFailed,
    Cancelled,
}

impl View for TransferEvent {
    type V = EventView;

    open spec fn view(&self) -> EventView {
        match self {
            TransferEvent::Start => EventView::Start,
            TransferEvent::StepOk => EventView::StepOk,
            TransferEvent::StepFailed => EventView::StepFailed,
            TransferEvent::Fetched(l, h) => EventView::Fetched(*l, h@),
            TransferEvent::OpenFailed => EventView::OpenFailed,
            TransferEvent::Cancelled => EventView::Cancelled,
        }
    }
}

/// The next thing the caller must do for the file.
pub enum TransferAction {
    /// Compute the signature of the local file and upload it to `sig_path`.
    SignAndUpload { local_path: String, sig_path: String },
    /// Run the remote delta command.
    RunDelta { command: String },
    /// Fetch the delta and restore it over the baseline into `restore_path`,
    /// then report the restored file's length and SHA-1 with `Fetched`.
    Restore { delta_path: String, baseline: String, restore_path: String },
    /// Move the local file to `old_tmp_path`, the restored one to `local_path`, and drop the old one.
    Swap { local_path: String, restore_path: String, old_tmp_path: String },
    /// Copy the remote file whole into `partial_path`, hashing it, after removing what is listed.
    Fetch { remote_path: String, partial_path: String, remove_local: Vec<String>, remove_remote: Vec<String> },
    /// Rename the verified copy over the local file.
    Commit { partial_path: String, local_path: String },
    /// Remove what is listed and report `result`.
    Finish { result: FileItemProcessResult, remove_local: Vec<String>, remove_remote: Vec<String> },
}

pub ghost enum ActionView {
    SignAndUpload { local_path: Seq<char>, sig_path: Seq<char> },
    RunDelta { command: Seq<char> },
    Restore { delta_path: Seq<char>, baseline: Seq<char>, restore_path: Seq<char> },
    Swap { local_path: Seq<char>, restore_path: Seq<char>, old_tmp_path: Seq<char> },
    Fetch { remote_path: Seq<char>, partial_path: Seq<char>, remove_local: Seq<Seq<char>>, remove_remote: Seq<Seq<char>> },
    Commit { partial_path: Seq<char>, local_path: Seq<char> },
    Finish { result: ResultView, remove_local: Seq<Seq<char>>, remove_remote: Seq<Seq<char>> },
}

pub open spec fn texts_view(v: Seq<String>) -> Seq<Seq<char>> {
    v.map_values(|s: String| s@)
}

impl View for TransferAction {
    type V = ActionView;

    open spec fn view(&self) -> ActionView {
        match self {
            TransferAction::SignAndUpload { local_path, sig_path } => ActionView::SignAndUpload { local_path: local_path@, sig_path: sig_path@ },
            TransferAction::RunDelta { command } => ActionView::RunDelta { command: command@ },
            TransferAction::Restore { delta_path, baseline, restore_path } => ActionView::Restore { delta_path: delta_path@, baseline: baseline@, restore_path: restore_path@ },
            TransferAction::Swap { local_path, restore_path, old_tmp_path } => ActionView::Swap { local_path: local_path@, restore_path: restore_path@, old_tmp_path: old_tmp_path@ },
            TransferAction::Fetch { remote_path, partial_path, remove_local, remove_remote } => ActionView::Fetch { remote_path: remote_path@, partial_path: partial_path@, remove_local: texts_view(remove_local@), remove_remote: texts_view(remove_remote@) },
            TransferAction::Commit { partial_path, local_path } => ActionView::Commit { partial_path: partial_path@, local_path: local_path@ },
            TransferAction::Finish { result, remove_local, remove_remote } => ActionView::Finish { result: result@, remove_local: texts_view(remove_local@), remove_remote: texts_view(remove_remote@) },
        }
    }
}

/// The decisions of one file transfer: delta first where the policy allows,
/// whole-file copy as fallback, verification before the local file is
/// replaced, and cleanup of temporaries on every way out.
pub struct FileTransfer {
    pub local_path: String,
    pub remote_path: String,
    pub remote_exec: String,
    pub expected_len: u64,
    pub expected_sha1: Option<String>,
    pub try_rsync: bool,
    pub rsync_tried: bool,
    pub phase: TransferPhase,
}

pub ghost struct TransferView {
    pub local_path: Seq<char>,
    pub remote_path: Seq<char>,
    pub remote_exec: Seq<char>,
    pub expected_len: u64,
    pub expected_sha1: Option<Seq<char>>,
    pub try_rsync: bool,
    pub rsync_tried: bool,
    pub phase: TransferPhase,
}

impl View for FileTransfer {
    type V = TransferView;

    open spec fn view(&self) -> TransferView {
        TransferView {
            local_path: self.local_path@,
            remote_path: self.remote_path@,
            remote_exec: self.remote_exec@,
            expected_len: self.expected_len,
            expected_sha1: opt_text(self.expected_sha1),
            try_rsync: self.try_rsync,
            rsync_tried: self.rsync_tried,
            phase: self.phase,
        }
    }
}

pub open spec fn remote_temps(s: TransferView) -> Seq<Seq<char>> {
    if s.rsync_tried {
        seq![s.remote_path + ".sig"@, s.remote_path + ".delta"@]
    } else {
        Seq::empty()
    }
}

pub open spec fn finish(s: TransferView, result: ResultView, remove_local: Seq<Seq<char>>) -> (TransferPhase, ActionView) {
    (TransferPhase::Done, ActionView::Finish { result, remove_local, remove_remote: remote_temps(s) })
}

pub open spec fn fallback(s: TransferView) -> (TransferPhase, ActionView) {
    (TransferPhase::Fetching, ActionView::Fetch {
        remote_path: s.remote_path,
        partial_path: s.local_path + ".partial"@,
        remove_local: seq![s.local_path + ".restore"@],
        remove_remote: remote_temps(s),
    })
}

/// The next phase and action of a transfer in state `s` on event `e`.
pub open spec fn transition(s: TransferView, e: EventView) -> (TransferPhase, ActionView) {
    if e is Cancelled {
        finish(s, ResultView::Skipped, seq![s.local_path + ".partial"@, s.local_path + ".restore"@])
    } else {
        match s.phase {
            TransferPhase::Begin => if s.try_rsync {
                (TransferPhase::Signing, ActionView::SignAndUpload { local_path: s.local_path, sig_path: s.remote_path + ".sig"@ })
            } else {
                (TransferPhase::Fetching, ActionView::Fetch {
                    remote_path: s.remote_path,
                    partial_path: s.local_path + ".partial"@,
                    remove_local: Seq::empty(),
                    remove_remote: Seq::empty(),
                })
            },
            TransferPhase::Signing => if e is StepOk {
                (TransferPhase::Delta, ActionView::RunDelta { command: delta_command_text(s.remote_exec, s.remote_path) })
            } else {
                fallback(s)
            },
            TransferPhase::Delta => if e is StepOk {
                (TransferPhase::Restoring, ActionView::Restore {
                    delta_path: s.remote_path + ".delta"@,
                    baseline: s.local_path,
                    restore_path: s.local_path + ".restore"@,
                })
            } else {
                fallback(s)
            },
            TransferPhase::Restoring => if e matches EventView::Fetched(len, sha1) && copy_verified(s.expected_len, s.expected_sha1, len, sha1) {
                (TransferPhase::Swapping, ActionView::Swap {
                    local_path: s.local_path,
                    restore_path: s.local_path + ".restore"@,
                    old_tmp_path: s.local_path + ".old.tmp"@,
                })
            } else {
                fallback(s)
            },
            TransferPhase::Swapping => if e is StepOk {
                finish(s, ResultView::Successed(s.local_path, SyncType::Rsync), Seq::empty())
            } else {
                fallback(s)
            },
            TransferPhase::Fetching => match e {
                EventView::Fetched(len, sha1) => if copy_verified(s.expected_len, s.expected_sha1, len, sha1) {
                    (TransferPhase::Committing, ActionView::Commit { partial_path: s.local_path + ".partial"@, local_path: s.local_path })
                } else if len != s.expected_len {
                    finish(s, ResultView::LengthNotMatch(s.local_path), Seq::empty())
                } else {
                    finish(s, ResultView::Sha1NotMatch(s.local_path), Seq::empty())
                },
                EventView::OpenFailed => finish(s, ResultView::SftpOpenFailed, Seq::empty()),
                _ => finish(s, ResultView::CopyFailed(s.local_path), Seq::empty()),
            },
            TransferPhase::Committing => if e is StepOk {
                finish(s, ResultView::Successed(s.local_path, SyncType::Sftp), Seq::empty())
            } else {
                finish(s, ResultView::CopyFailed(s.local_path), Seq::empty())
            },
            TransferPhase::Done => finish(s, ResultView::Skipped, Seq::empty()),
        }
    }
}

} // verus!

verus! {

fn remote_temp_list(s: &FileTransfer) -> (r: Vec<String>)
    ensures
        texts_view(r@) == remote_temps(s@),
{
    let mut v: Vec<String> = Vec::new();
    if s.rsync_tried {
        v.push(sig_path(s.remote_path.as_str()));
        v.push(delta_path(s.remote_path.as_str()));
    }
    assert(texts_view(v@) =~= remote_temps(s@));
    v
}

fn finish_action(s: &FileTransfer, result: FileItemProcessResult, remove_local: Vec<String>) -> (r: TransferAction)
    ensures
        r@ == finish(s@, result@, texts_view(remove_local@)).1,
{
    TransferAction::Finish { result, remove_local, remove_remote: remote_temp_list(s) }
}

fn fallback_action(s: &FileTransfer) -> (r: TransferAction)
    ensures
        r@ == fallback(s@).1,
{
    let mut remove_local: Vec<String> = Vec::new();
    remove_local.push(restore_path(s.local_path.as_str()));
    assert(texts_view(remove_local@) =~= seq![s.local_path@ + ".restore"@]);
    TransferAction::Fetch {
        remote_path: clone_text(&s.remote_path),
        partial_path: partial_path(s.local_path.as_str()),
        remove_local,
        remove_remote: remote_temp_list(s),
    }
}

fn no_texts() -> (r: Vec<String>)
    ensures
        texts_view(r@) == Seq::<Seq<char>>::empty(),
{
    let v: Vec<String> = Vec::new();
    assert(texts_view(v@) =~= Seq::<Seq<char>>::empty());
    v
}

impl FileTransfer {
    /// A transfer of `file_item`; the delta path is tried first only where the
    /// item asks for it and a local baseline exists.
    pub fn new(file_item: &FileItem, remote_exec: &str, local_exists: bool) -> (r: FileTransfer)
        ensures
            r.local_path@ == joined(file_item.local_dir@, file_item.remote.path@),
            r.remote_path@ == joined(file_item.remote_dir@, file_item.remote.path@),
            r.remote_exec@ == remote_exec@,
            r.expected_len == file_item.remote.len,
            opt_text(r.expected_sha1) == opt_text(file_item.remote.sha1),
            r.try_rsync == (file_item.sync_type == SyncType::Rsync && local_exists),
            !r.rsync_tried,
            r.phase == TransferPhase::Begin,
    {
        FileTransfer {
            local_path: file_item.get_local_path(),
            remote_path: file_item.get_remote_path(),
            remote_exec: remote_exec.to_owned(),
            expected_len: file_item.remote.len,
            expected_sha1: clone_opt_text(&file_item.remote.sha1),
            try_rsync: file_item.sync_type == SyncType::Rsync && local_exists,
            rsync_tried: false,
            phase: TransferPhase::Begin,
        }
    }

    /// Advances the transfer on `event` and returns the next action.
    pub fn step(&mut self, event: TransferEvent) -> (r: TransferAction)
        requires
            old(self).phase != TransferPhase::Done,
        ensures
            (final(self).phase, r@) == transition(old(self)@, event@),
            final(self).rsync_tried == (old(self).rsync_tried || final(self).phase == TransferPhase::Signing),
            final(self).local_path == old(self).local_path,
            final(self).remote_path == old(self).remote_path,
            final(self).remote_exec == old(self).remote_exec,
            final(self).expected_len == old(self).expected_len,
            final(self).expected_sha1 == old(self).expected_sha1,
            final(self).try_rsync == old(self).try_rsync,
    {
        if let TransferEvent::Cancelled = event {
            let mut remove_local: Vec<String> = Vec::new();
            remove_local.push(partial_path(self.local_path.as_str()));
            remove_local.push(restore_path(self.local_path.as_str()));
            assert(texts_view(remove_local@) =~= seq![self.local_path@ + ".partial"@, self.local_path@ + ".restore"@]);
            let a = finish_action(self, FileItemProcessResult::Skipped, remove_local);
            self.phase = TransferPhase::Done;
            return a;
        }
        let ok = match event {
            TransferEvent::StepOk => true,
            _ => false,
        };
        match self.phase {
            TransferPhase::Begin => {
                if self.try_rsync {
                    self.phase = TransferPhase::Signing;
                    self.rsync_tried = true;
                    TransferAction::SignAndUpload {
                        local_path: clone_text(&self.local_path),
                        sig_path: sig_path(self.remote_path.as_str()),
                    }
                } else {
                    self.phase = TransferPhase::Fetching;
                    TransferAction::Fetch {
                        remote_path: clone_text(&self.remote_path),
                        partial_path: partial_path(self.local_path.as_str()),
                        remove_local: no_texts(),
                        remove_remote: no_texts(),
                    }
                }
            },
            TransferPhase::Signing => {
                if ok {
                    self.phase = TransferPhase::Delta;
                    TransferAction::RunDelta {
                        command: delta_command(self.remote_exec.as_str(), self.remote_path.as_str()),
                    }
                } else {
                    let a = fallback_action(self);
                    self.phase = TransferPhase::Fetching;
                    a
                }
            },
            TransferPhase::Delta => {
                if ok {
                    self.phase = TransferPhase::Restoring;
                    TransferAction::Restore {
                        delta_path: delta_path(self.remote_path.as_str()),
                        baseline: clone_text(&self.local_path),
                        restore_path: restore_path(self.local_path.as_str()),
                    }
                } else {
                    let a = fallback_action(self);
                    self.phase = TransferPhase::Fetching;
                    a
                }
            },
            TransferPhase::Restoring => {
                let restored_ok = match &event {
                    TransferEvent::Fetched(len, sha1) => is_copy_verified(self.expected_len, &self.expected_sha1, *len, sha1.as_str()),
                    _ => false,
                };
                if restored_ok {
                    self.phase = TransferPhase::Swapping;
                    TransferAction::Swap {
                        local_path: clone_text(&self.local_path),
                        restore_path: restore_path(self.local_path.as_str()),
                        old_tmp_path: old_tmp_path(self.local_path.as_str()),
                    }
                } else {
                    let a = fallback_action(self);
                    self.phase = TransferPhase::Fetching;
                    a
                }
            },
            TransferPhase::Swapping => {
                if ok {
                    let a = finish_action(
                        self,
                        FileItemProcessResult::Successed(clone_text(&self.local_path), SyncType::Rsync),
                        no_texts(),
                    );
                    self.phase = TransferPhase::Done;
                    a
                } else {
                    let a = fallback_action(self);
                    self.phase = TransferPhase::Fetching;
                    a
                }
            },
            TransferPhase::Fetching => {
                let result = match &event {
                    TransferEvent::Fetched(len, sha1) => {
                        if is_copy_verified(self.expected_len, &self.expected_sha1, *len, sha1.as_str()) {
                            self.phase = TransferPhase::Committing;
                            return TransferAction::Commit {
                                partial_path: partial_path(self.local_path.as_str()),
                                local_path: clone_text(&self.local_path),
                            };
                        } else if *len != self.expected_len {
                            FileItemProcessResult::LengthNotMatch(clone_text(&self.local_path))
                        } else {
                            FileItemProcessResult::Sha1NotMatch(clone_text(&self.local_path))
                        }
                    },
                    TransferEvent::OpenFailed => FileItemProcessResult::SftpOpenFailed,
                    _ => FileItemProcessResult::CopyFailed(clone_text(&self.local_path)),
                };
                let a = finish_action(self, result, no_texts());
                self.phase = TransferPhase::Done;
                a
            },
            TransferPhase::Committing => {
                let result = if ok {
                    FileItemProcessResult::Successed(clone_text(&self.local_path), SyncType::Sftp)
                } else {
                    FileItemProcessResult::CopyFailed(clone_text(&self.local_path))
                };
                let a = finish_action(self, result, no_texts());
                self.phase = TransferPhase::Done;
                a
            },
            TransferPhase::Done => {
                let a = finish_action(self, FileItemProcessResult::Skipped, no_texts());
                a
            },
        }
    }
}

} // verus!

verus! {

/// New content takes the local file's name only once it is verified: the
/// copy is renamed over the local file, or the restored file swapped in, only
/// after the caller reported, for that file, a length that matches the
/// manifest and a hash that matches it where one is given.
pub proof fn lemma_replace_only_after_verified_content(s: TransferView, e: EventView)
    requires
        replaces_local(transition(s, e).1),
    ensures
        s.phase == TransferPhase::Fetching || s.phase == TransferPhase::Restoring,
        e matches EventView::Fetched(len, sha1) && copy_verified(s.expected_len, s.expected_sha1, len, sha1),
        s.phase == TransferPhase::Fetching ==> transition(s, e).1 == (ActionView::Commit {
            partial_path: s.local_path + ".partial"@,
            local_path: s.local_path,
        }),
        s.phase == TransferPhase::Restoring ==> transition(s, e).1 == (ActionView::Swap {
            local_path: s.local_path,
            restore_path: s.local_path + ".restore"@,
            old_tmp_path: s.local_path + ".old.tmp"@,
        }),
{
}

/// A cancelled transfer leaves the local file as it was: cancellation yields no
/// rename over it, removes only the `.partial` and `.restore` temporaries, and
/// reports `Skipped`; and an action that does replace the local file, once
/// carried out, ends the transfer with a success, never with `Skipped`.
pub proof fn lemma_cancel_keeps_local_file(s: TransferView, e: EventView)
    ensures
        e is Cancelled ==> {
            let (phase, a) = transition(s, e);
            &&& phase == TransferPhase::Done
            &&& a matches ActionView::Finish { result, remove_local, .. }
                && result == ResultView::Skipped
                && forall|i: int| 0 <= i < remove_local.len() ==> remove_local[i] != s.local_path
        },
        (s.phase == TransferPhase::Committing || s.phase == TransferPhase::Swapping) && e is StepOk ==> {
            let (phase, a) = transition(s, e);
            &&& phase == TransferPhase::Done
            &&& a matches ActionView::Finish { result, .. } && result is Successed
        },
{
    if e is Cancelled {
        let a = transition(s, e).1;
        let p = s.local_path + ".partial"@;
        let q = s.local_path + ".restore"@;
        reveal_strlit(".partial");
        reveal_strlit(".restore");
        proof_not_self_suffixed(s.local_path, ".partial"@);
        proof_not_self_suffixed(s.local_path, ".restore"@);
        assert(seq![p, q][0] == p);
        assert(seq![p, q][1] == q);
    }
}

proof fn proof_not_self_suffixed(p: Seq<char>, suffix: Seq<char>)
    requires
        suffix.len() > 0,
    ensures
        p + suffix != p,
{
    assert((p + suffix).len() != p.len());
}

} // verus!

verus! {

/// The state after one step on event `e`, as `FileTransfer::step` leaves it.
pub open spec fn step_state(s: TransferView, e: EventView) -> TransferView {
    let phase = transition(s, e).0;
    TransferView { phase, rsync_tried: s.rsync_tried || phase == TransferPhase::Signing, ..s }
}

/// The state after the first `i` events of a run from `s0`.
pub open spec fn state_at(s0: TransferView, evs: Seq<EventView>, i: nat) -> TransferView
    decreases i,
{
    if i == 0 {
        s0
    } else {
        step_state(state_at(s0, evs, (i - 1) as nat), evs[i - 1])
    }
}

/// The action the run yields on its `i`-th event.
pub open spec fn action_at(s0: TransferView, evs: Seq<EventView>, i: nat) -> ActionView {
    transition(state_at(s0, evs, i), evs[i as int]).1
}

/// An action that puts new content under the local file's name.
pub open spec fn replaces_local(a: ActionView) -> bool {
    a is Commit || a is Swap
}

/// A run of a transfer that ends cancelled never carried out a replacement of
/// the local file: every rename over it that the run asked for was followed
/// by anything but a report of success.
pub proof fn lemma_cancelled_run_keeps_local_file(s0: TransferView, evs: Seq<EventView>)
    requires
        evs.len() >= 1,
        forall|i: nat| i < evs.len() ==> (#[trigger] state_at(s0, evs, i)).phase != TransferPhase::Done,
        action_at(s0, evs, (evs.len() - 1) as nat) matches ActionView::Finish { result, .. } && result == ResultView::Skipped,
    ensures
        forall|i: nat| i + 1 < evs.len() && replaces_local(#[trigger] action_at(s0, evs, i)) ==> !(evs[i + 1int] is StepOk),
{
    assert forall|i: nat| i + 1 < evs.len() && replaces_local(#[trigger] action_at(s0, evs, i)) implies !(evs[i + 1int] is StepOk) by {
        let si = state_at(s0, evs, i);
        let s1 = state_at(s0, evs, i + 1);
        assert(s1 == step_state(si, evs[i as int]));
        assert(s1.phase == TransferPhase::Committing || s1.phase == TransferPhase::Swapping);
        if evs[i + 1int] is StepOk {
            let s2 = state_at(s0, evs, i + 2);
            assert(s2 == step_state(s1, evs[i + 1int]));
            assert(s2.phase == TransferPhase::Done);
            if i + 2 < evs.len() {
                assert(state_at(s0, evs, (i + 2) as nat).phase != TransferPhase::Done);
            } else {
                assert(action_at(s0, evs, (evs.len() - 1) as nat) == transition(s1, evs[i + 1int]).1);
            }
        }
    }
}

} // verus!

verus! {

/// Counts of the results of one run, and the bytes brought over.
pub struct FileItemProcessResultStats {
    pub sftp_successed: u64,
    pub rsync_successed: u64,
    pub length_not_match: u64,
    pub sha1_not_match: u64,
    pub copy_failed: u64,
    pub sftp_open_failed: u64,
    pub get_local_path_failed: u64,
    pub skipped: u64,
    pub bytes_transferred: u64,
}

/// `c` after one more, saturating at the largest count.
pub open spec fn bump(c: u64, by: u64) -> u64 {
    if c + by > u64::MAX { u64::MAX } else { (c + by) as u64 }
}

impl FileItemProcessResultStats {
    pub fn new() -> (r: FileItemProcessResultStats)
        ensures
            r.sftp_successed == 0 && r.rsync_successed == 0 && r.length_not_match == 0 && r.sha1_not_match == 0
                && r.copy_failed == 0 && r.sftp_open_failed == 0 && r.get_local_path_failed == 0 && r.skipped == 0
                && r.bytes_transferred == 0,
    {
        FileItemProcessResultStats {
            sftp_successed: 0,
            rsync_successed: 0,
            length_not_match: 0,
            sha1_not_match: 0,
            copy_failed: 0,
            sftp_open_failed: 0,
            get_local_path_failed: 0,
            skipped: 0,
            bytes_transferred: 0,
        }
    }

    /// Counts `result`; a success also adds the `bytes` it brought over.
    pub fn add(&mut self, result: &FileItemProcessResult, bytes: u64)
        ensures
            final(self).sftp_successed == if result@ is Successed && result@->Successed_1 == SyncType::Sftp { bump(old(self).sftp_successed, 1) } else { old(self).sftp_successed },
            final(self).rsync_successed == if result@ is Successed && result@->Successed_1 == SyncType::Rsync { bump(old(self).rsync_successed, 1) } else { old(self).rsync_successed },
            final(self).length_not_match == if result@ is LengthNotMatch { bump(old(self).length_not_match, 1) } else { old(self).length_not_match },
            final(self).sha1_not_match == if result@ is Sha1NotMatch { bump(old(self).sha1_not_match, 1) } else { old(self).sha1_not_match },
            final(self).copy_failed == if result@ is CopyFailed { bump(old(self).copy_failed, 1) } else { old(self).copy_failed },
            final(self).sftp_open_failed == if result@ is SftpOpenFailed { bump(old(self).sftp_open_failed, 1) } else { old(self).sftp_open_failed },
            final(self).get_local_path_failed == if result@ is GetLocalPathFailed { bump(old(self).get_local_path_failed, 1) } else { old(self).get_local_path_failed },
            final(self).skipped == if result@ is Skipped { bump(old(self).skipped, 1) } else { old(self).skipped },
            final(self).bytes_transferred == if result@ is Successed { bump(old(self).bytes_transferred, bytes) } else { old(self).bytes_transferred },
    {
        match result {
            FileItemProcessResult::Successed(_, SyncType::Sftp) => {
                self.sftp_successed = self.sftp_successed.saturating_add(1);
                self.bytes_transferred = self.bytes_transferred.saturating_add(bytes);
            },
            FileItemProcessResult::Successed(_, SyncType::Rsync) => {
                self.rsync_successed = self.rsync_successed.saturating_add(1);
                self.bytes_transferred = self.bytes_transferred.saturating_add(bytes);
            },
            FileItemProcessResult::LengthNotMatch(_) => {
                self.length_not_match = self.length_not_match.saturating_add(1);
            },
            FileItemProcessResult::Sha1NotMatch(_) => {
                self.sha1_not_match = self.sha1_not_match.saturating_add(1);
            },
            FileItemProcessResult::CopyFailed(_) => {
                self.copy_failed = self.copy_failed.saturating_add(1);
            },
            FileItemProcessResult::SftpOpenFailed => {
                self.sftp_open_failed = self.sftp_open_failed.saturating_add(1);
            },
            FileItemProcessResult::GetLocalPathFailed => {
                self.get_local_path_failed = self.get_local_path_failed.saturating_add(1);
            },
            FileItemProcessResult::Skipped => {
                self.skipped = self.skipped.saturating_add(1);
            },
        }
    }

    /// The number of files that failed.
    pub fn failed(&self) -> (r: u64)
        ensures
            r == bump(bump(bump(bump(self.length_not_match, self.sha1_not_match), self.copy_failed), self.sftp_open_failed), self.get_local_path_failed),
    {
        self.length_not_match.saturating_add(self.sha1_not_match).saturating_add(self.copy_failed).saturating_add(
            self.sftp_open_failed,
        ).saturating_add(self.get_local_path_failed)
    }
}

/// The pause before retry number `attempt` (from zero) of a file whose
/// transport failed: `base_ms` doubled per earlier retry, or `None` once
/// `file_retries` retries are spent.
pub open spec fn retry_pause(attempt: u32, file_retries: u32, base_ms: u64) -> Option<u64> {
    if attempt >= file_retries {
        None
    } else if base_ms * pow2(attempt as nat) > u64::MAX {
        Some(u64::MAX)
    } else {
        Some((base_ms * pow2(attempt as nat)) as u64)
    }
}

pub open spec fn pow2(n: nat) -> nat
    decreases n,
{
    if n == 0 { 1 } else { 2 * pow2((n - 1) as nat) }
}

pub fn next_retry_pause(attempt: u32, file_retries: u32, base_ms: u64) -> (r: Option<u64>)
    ensures
        r == retry_pause(attempt, file_retries, base_ms),
{
    if attempt >= file_retries {
        return None;
    }
    let mut p: u64 = base_ms;
    let mut k: u32 = 0;
    assert(pow2(0) == 1);
    assert(base_ms * pow2(0) == base_ms);
    while k < attempt
        invariant
            k <= attempt,
            p == if base_ms * pow2(k as nat) > u64::MAX { u64::MAX as int } else { base_ms * pow2(k as nat) },
        decreases attempt - k,
    {
        proof {
            assert(pow2((k + 1) as nat) == 2 * pow2(k as nat));
            assert(base_ms * pow2((k + 1) as nat) == 2 * (base_ms * pow2(k as nat))) by (nonlinear_arith)
                requires pow2((k + 1) as nat) == 2 * pow2(k as nat);
        }
        p = p.saturating_add(p);
        k = k + 1;
    }
    Some(p)
}

} // verus!

verus! {

/// A run of a transfer that ends in success put only verified content under
/// the local file's name: its last event reported success of a copy rename or
/// a swap, and that action was asked for on a report of a length matching the
/// manifest and a hash matching it where one is given.
pub proof fn lemma_successful_run_is_verified(s0: TransferView, evs: Seq<EventView>)
    requires
        s0.phase == TransferPhase::Begin,
        evs.len() >= 1,
        action_at(s0, evs, (evs.len() - 1) as nat) matches ActionView::Finish { result, .. } && result is Successed,
    ensures
        evs.len() >= 2,
        replaces_local(action_at(s0, evs, (evs.len() - 2) as nat)),
        evs[evs.len() - 1] is StepOk,
        evs[evs.len() - 2] matches EventView::Fetched(len, sha1) && copy_verified(s0.expected_len, s0.expected_sha1, len, sha1),
{
    let last = (evs.len() - 1) as nat;
    let sl = state_at(s0, evs, last);
    assert(sl.phase == TransferPhase::Committing || sl.phase == TransferPhase::Swapping);
    assert(last >= 1);
    let prev = (last - 1) as nat;
    let sp = state_at(s0, evs, prev);
    assert(sl == step_state(sp, evs[prev as int]));
    assert(replaces_local(action_at(s0, evs, prev)));
    lemma_run_keeps_expectations(s0, evs, prev);
    lemma_replace_only_after_verified_content(sp, evs[prev as int]);
}

proof fn lemma_run_keeps_expectations(s0: TransferView, evs: Seq<EventView>, i: nat)
    requires
        i <= evs.len(),
    ensures
        state_at(s0, evs, i).expected_len == s0.expected_len,
        state_at(s0, evs, i).expected_sha1 == s0.expected_sha1,
        state_at(s0, evs, i).local_path == s0.local_path,
    decreases i,
{
    if i > 0 {
        lemma_run_keeps_expectations(s0, evs, (i - 1) as nat);
    }
}

} // verus!
