use vstd::prelude::*;
use crate::text::{opt_text, clone_text, clone_opt_text, opt_text_eq, text_eq};

verus! {

/// One persisted row of the file index.
pub struct RemoteFileItemInDb {
    pub id: i64,
    pub path: String,
    pub sha1: Option<String>,
    pub len: u64,
    pub modified: Option<String>,
    pub created: Option<String>,
    pub dir_id: i64,
    pub changed: bool,
}

pub ghost struct IndexRowView {
    pub id: i64,
    pub path: Seq<char>,
    pub sha1: Option<Seq<char>>,
    pub len: u64,
    pub modified: Option<Seq<char>>,
    pub created: Option<Seq<char>>,
    pub dir_id: i64,
    pub changed: bool,
}

impl View for RemoteFileItemInDb {
    type V = IndexRowView;

    open spec fn view(&self) -> IndexRowView {
        IndexRowView {
            id: self.id,
            path: self.path@,
            sha1: opt_text(self.sha1),
            len: self.len,
            modified: opt_text(self.modified),
            created: opt_text(self.created),
            dir_id: self.dir_id,
            changed: self.changed,
        }
    }
}

impl RemoteFileItemInDb {
    /// A field-by-field copy.
    pub fn duplicate_self(&self) -> (r: RemoteFileItemInDb)
        ensures
            r@ == self@,
    {
        RemoteFileItemInDb {
            id: self.id,
            path: clone_text(&self.path),
            sha1: clone_opt_text(&self.sha1),
            len: self.len,
            modified: clone_opt_text(&self.modified),
            created: clone_opt_text(&self.created),
            dir_id: self.dir_id,
            changed: self.changed,
        }
    }
}

/// What an upsert does to the store.
#[derive(PartialEq, Eq, Structural, Clone, Copy, Debug)]
pub enum DbAction {
    Insert,
    Update,
    UpdateChangedField,
    NoOp,
}

/// Length, hash and modification time: what decides whether a file changed.
pub open spec fn same_observation(a: IndexRowView, b: IndexRowView) -> bool {
    a.len == b.len && a.sha1 == b.sha1 && a.modified == b.modified
}

/// The row and action that an upsert of `rfi` yields, given the stored row for
/// the same directory and path, if there is one.
pub open spec fn upsert_outcome(existing: Option<IndexRowView>, rfi: IndexRowView) -> (
    IndexRowView,
    DbAction,
) {
    match existing {
        None => (rfi, DbAction::Insert),
        Some(e) => if !same_observation(e, rfi) {
            (IndexRowView { id: e.id, changed: true, ..rfi }, DbAction::Update)
        } else if e.changed {
            (IndexRowView { id: e.id, changed: false, ..rfi }, DbAction::UpdateChangedField)
        } else {
            (IndexRowView { id: e.id, changed: false, ..rfi }, DbAction::NoOp)
        },
    }
}

pub open spec fn opt_row_view(o: Option<&RemoteFileItemInDb>) -> Option<IndexRowView> {
    match o {
        Some(r) => Some(r@),
        None => None,
    }
}

pub open spec fn opt_row_owned(o: Option<RemoteFileItemInDb>) -> Option<IndexRowView> {
    match o {
        Some(r) => Some(r@),
        None => None,
    }
}

/// The change-detection rule: compares the new observation with the stored
/// row and returns the row to persist and the action to take.
pub fn decide_upsert(existing: Option<&RemoteFileItemInDb>, rfi: RemoteFileItemInDb) -> (r: (
    RemoteFileItemInDb,
    DbAction,
))
    ensures
        (r.0@, r.1) == upsert_outcome(opt_row_view(existing), rfi@),
{
    let mut rfi = rfi;
    match existing {
        None => (rfi, DbAction::Insert),
        Some(e) => {
            let same = e.len == rfi.len && opt_text_eq(&e.sha1, &rfi.sha1) && opt_text_eq(
                &e.modified,
                &rfi.modified,
            );
            rfi.id = e.id;
            if !same {
                rfi.changed = true;
                (rfi, DbAction::Update)
            } else if e.changed {
                rfi.changed = false;
                (rfi, DbAction::UpdateChangedField)
            } else {
                rfi.changed = false;
                (rfi, DbAction::NoOp)
            }
        },
    }
}

} // verus!

verus! {

/// Position of the row of `dir_id` and `path`, if the rows hold one.
pub open spec fn row_position(rows: Seq<IndexRowView>, dir_id: i64, path: Seq<char>) -> Option<int> {
    if exists|i: int| 0 <= i < rows.len() && rows[i].dir_id == dir_id && rows[i].path == path {
        Some(choose|i: int| 0 <= i < rows.len() && rows[i].dir_id == dir_id && rows[i].path == path)
    } else {
        None
    }
}

pub open spec fn find_row(rows: Seq<IndexRowView>, dir_id: i64, path: Seq<char>) -> Option<IndexRowView> {
    match row_position(rows, dir_id, path) {
        Some(i) => Some(rows[i]),
        None => None,
    }
}

/// The rows after one intent is written, or `None` where the store refuses it:
/// an insert of a key that is present or of an unknown directory, or an update
/// of an unknown id.
pub open spec fn apply_intent(rows: Seq<IndexRowView>, n_dirs: nat, row: IndexRowView, action: DbAction) -> Option<Seq<IndexRowView>> {
    match action {
        DbAction::Insert => if row_position(rows, row.dir_id, row.path) is None && 1 <= row.dir_id <= n_dirs {
            Some(rows.push(IndexRowView { id: (rows.len() + 1) as i64, ..row }))
        } else {
            None
        },
        DbAction::Update => if 1 <= row.id <= rows.len() {
            let old = rows[row.id - 1];
            Some(rows.update(row.id - 1, IndexRowView { len: row.len, sha1: row.sha1, modified: row.modified, changed: true, ..old }))
        } else {
            None
        },
        DbAction::UpdateChangedField => if 1 <= row.id <= rows.len() {
            let old = rows[row.id - 1];
            Some(rows.update(row.id - 1, IndexRowView { changed: false, ..old }))
        } else {
            None
        },
        DbAction::NoOp => Some(rows),
    }
}

/// The rows after a batch of intents is written in order; `None` where one of
/// them is refused, in which case nothing of the batch is kept.
pub open spec fn apply_batch(rows: Seq<IndexRowView>, n_dirs: nat, intents: Seq<(IndexRowView, DbAction)>) -> Option<Seq<IndexRowView>>
    decreases intents.len(),
{
    if intents.len() == 0 {
        Some(rows)
    } else {
        match apply_intent(rows, n_dirs, intents[0].0, intents[0].1) {
            Some(next) => apply_batch(next, n_dirs, intents.drop_first()),
            None => None,
        }
    }
}

/// Number of rows whose changed flag is `changed`, or of all rows.
pub open spec fn count_rows(rows: Seq<IndexRowView>, changed: Option<bool>) -> nat
    decreases rows.len(),
{
    if rows.len() == 0 {
        0
    } else {
        let last = rows.last();
        let here: nat = match changed {
            Some(c) => if last.changed == c { 1 } else { 0 },
            None => 1,
        };
        count_rows(rows.drop_last(), changed) + here
    }
}

pub open spec fn rows_wf(rows: Seq<IndexRowView>, n_dirs: nat) -> bool {
    &&& forall|i: int| 0 <= i < rows.len() ==> rows[i].id == i + 1
    &&& forall|i: int| 0 <= i < rows.len() ==> 1 <= #[trigger] rows[i].dir_id <= n_dirs
    &&& forall|i: int, j: int|
        #![trigger rows[i].path, rows[j].path]
        0 <= i < rows.len() && 0 <= j < rows.len() && i != j && rows[i].dir_id == rows[j].dir_id
            ==> rows[i].path != rows[j].path
}

pub open spec fn dirs_wf(dirs: Seq<Seq<char>>) -> bool {
    forall|i: int, j: int| 0 <= i < dirs.len() && 0 <= j < dirs.len() && i != j ==> dirs[i] != dirs[j]
}

/// An index store held in memory: directories and file rows, each identified
/// by its position plus one.
pub struct MemIndexStore {
    directories: Vec<String>,
    rows: Vec<RemoteFileItemInDb>,
    schedules: Vec<ScheduleRow>,
    next_schedule_id: i64,
}

pub open spec fn rows_view(rows: Seq<RemoteFileItemInDb>) -> Seq<IndexRowView> {
    rows.map_values(|r: RemoteFileItemInDb| r@)
}

pub open spec fn dirs_view(dirs: Seq<String>) -> Seq<Seq<char>> {
    dirs.map_values(|d: String| d@)
}

impl MemIndexStore {
    pub closed spec fn spec_rows(&self) -> Seq<IndexRowView> {
        rows_view(self.rows@)
    }

    pub closed spec fn spec_dirs(&self) -> Seq<Seq<char>> {
        dirs_view(self.directories@)
    }

    /// The id the next scheduling record gets.
    pub closed spec fn next_id(&self) -> i64 {
        self.next_schedule_id
    }

    pub closed spec fn spec_schedules(&self) -> Seq<ScheduleView> {
        self.schedules@.map_values(|r: ScheduleRow| r@)
    }

    pub open spec fn wf(&self) -> bool {
        rows_wf(self.spec_rows(), self.spec_dirs().len()) && dirs_wf(self.spec_dirs())
    }

    pub fn new() -> (r: MemIndexStore)
        ensures
            r.wf(),
            r.spec_rows().len() == 0,
            r.spec_dirs().len() == 0,
            r.spec_schedules().len() == 0,
            r.next_id() == 1,
    {
        let r = MemIndexStore { directories: Vec::new(), rows: Vec::new(), schedules: Vec::new(), next_schedule_id: 1 };
        assert(r.spec_rows() =~= Seq::<IndexRowView>::empty());
        assert(r.spec_dirs() =~= Seq::<Seq<char>>::empty());
        assert(r.spec_schedules() =~= Seq::<ScheduleView>::empty());
        r
    }

    /// The id of the directory `path`, if it is known.
    pub fn find_directory(&self, path: &str) -> (r: Option<i64>)
        requires
            self.spec_dirs().len() < i64::MAX,
        ensures
            match r {
                Some(id) => 1 <= id <= self.spec_dirs().len() && self.spec_dirs()[id - 1] == path@,
                None => forall|i: int| 0 <= i < self.spec_dirs().len() ==> self.spec_dirs()[i] != path@,
            },
    {
        let mut i: usize = 0;
        while i < self.directories.len()
            invariant
                i <= self.directories@.len(),
                self.spec_dirs().len() == self.directories@.len(),
                self.directories@.len() < i64::MAX,
                forall|j: int| 0 <= j < i ==> self.spec_dirs()[j] != path@,
            decreases self.directories@.len() - i,
        {
            if text_eq(self.directories[i].as_str(), path) {
                return Some((i + 1) as i64);
            }
            i = i + 1;
        }
        None
    }

    /// Adds the directory `path` and returns its id; a path that is known
    /// already keeps its id and the store is unchanged.
    pub fn insert_directory(&mut self, path: &str) -> (r: i64)
        requires
            old(self).wf(),
            old(self).spec_dirs().len() < i64::MAX - 1,
        ensures
            final(self).wf(),
            final(self).spec_rows() == old(self).spec_rows(),
            1 <= r <= final(self).spec_dirs().len(),
            final(self).spec_dirs()[r - 1] == path@,
            (exists|i: int| 0 <= i < old(self).spec_dirs().len() && old(self).spec_dirs()[i] == path@)
                ==> final(self).spec_dirs() == old(self).spec_dirs(),
            (forall|i: int| 0 <= i < old(self).spec_dirs().len() ==> old(self).spec_dirs()[i] != path@)
                ==> final(self).spec_dirs() == old(self).spec_dirs().push(path@),
    {
        match self.find_directory(path) {
            Some(id) => id,
            None => {
                self.directories.push(path.to_owned());
                assert(self.spec_dirs() =~= old(self).spec_dirs().push(path@));
                assert(self.spec_rows() =~= old(self).spec_rows());
                self.directories.len() as i64
            },
        }
    }

    /// The stored row of directory `dir_id` and `path`, if there is one.
    pub fn find_remote_file_item(&self, dir_id: i64, path: &str) -> (r: Option<RemoteFileItemInDb>)
        requires
            self.wf(),
        ensures
            opt_row_owned(r) == find_row(self.spec_rows(), dir_id, path@),
    {
        match self.position_of(dir_id, path) {
            Some(i) => Some(self.rows[i].duplicate_self()),
            None => None,
        }
    }

    fn position_of(&self, dir_id: i64, path: &str) -> (r: Option<usize>)
        requires
            self.wf(),
        ensures
            match r {
                Some(i) => row_position(self.spec_rows(), dir_id, path@) == Some(i as int)
                    && i < self.rows@.len(),
                None => row_position(self.spec_rows(), dir_id, path@) is None,
            },
    {
        let ghost rows = self.spec_rows();
        let mut i: usize = 0;
        while i < self.rows.len()
            invariant
                i <= self.rows@.len(),
                rows == self.spec_rows(),
                self.wf(),
                rows.len() == self.rows@.len(),
                forall|j: int| 0 <= j < i ==> !(rows[j].dir_id == dir_id && rows[j].path == path@),
            decreases self.rows@.len() - i,
        {
            if self.rows[i].dir_id == dir_id && text_eq(self.rows[i].path.as_str(), path) {
                proof {
                    assert(rows[i as int].dir_id == dir_id && rows[i as int].path == path@);
                    let k = choose|k: int| 0 <= k < rows.len() && rows[k].dir_id == dir_id && rows[k].path == path@;
                    if k != i as int {
                        assert(rows[k].path != rows[i as int].path);
                    }
                }
                return Some(i);
            }
            i = i + 1;
        }
        None
    }

    /// Writes one intent as the relational store would: `true` where it was
    /// accepted, and then the rows are those of `apply_intent`; else nothing
    /// changes.
    pub fn apply_intent(&mut self, row: &RemoteFileItemInDb, action: DbAction) -> (r: bool)
        requires
            old(self).wf(),
            old(self).spec_rows().len() < i64::MAX - 1,
            old(self).spec_dirs().len() < i64::MAX,
        ensures
            final(self).wf(),
            final(self).spec_dirs() == old(self).spec_dirs(),
            r == apply_intent(old(self).spec_rows(), old(self).spec_dirs().len(), row@, action) is Some,
            r ==> Some(final(self).spec_rows()) == apply_intent(old(self).spec_rows(), old(self).spec_dirs().len(), row@, action),
            !r ==> final(self).spec_rows() == old(self).spec_rows(),
    {
        let ghost rows = self.spec_rows();
        let ghost n = self.spec_dirs().len();
        assert(rows.len() == self.rows@.len());
        assert(n == self.directories@.len());
        match action {
            DbAction::Insert => {
                if self.position_of(row.dir_id, row.path.as_str()).is_some() {
                    return false;
                }
                if row.dir_id < 1 || row.dir_id > self.directories.len() as i64 {
                    return false;
                }
                let mut fresh = row.duplicate_self();
                fresh.id = self.rows.len() as i64 + 1;
                self.rows.push(fresh);
                proof {
                    let expect = rows.push(IndexRowView { id: (rows.len() + 1) as i64, ..row@ });
                    assert(self.spec_rows() =~= expect);
                    assert forall|i: int, j: int|
                        0 <= i < expect.len() && 0 <= j < expect.len() && i != j && expect[i].dir_id == expect[j].dir_id
                        implies expect[i].path != expect[j].path by {
                        if i == rows.len() as int {
                            assert(rows[j].dir_id == row.dir_id ==> rows[j].path != row@.path);
                        } else if j == rows.len() as int {
                            assert(rows[i].dir_id == row.dir_id ==> rows[i].path != row@.path);
                        }
                    }
                }
                true
            },
            DbAction::Update => {
                if row.id < 1 || row.id > self.rows.len() as i64 {
                    return false;
                }
                let k = (row.id - 1) as usize;
                self.rows[k].len = row.len;
                self.rows[k].sha1 = clone_opt_text(&row.sha1);
                self.rows[k].modified = clone_opt_text(&row.modified);
                self.rows[k].changed = true;
                proof {
                    let old_row = rows[row.id - 1];
                    let expect = rows.update(row.id - 1, IndexRowView { len: row@.len, sha1: row@.sha1, modified: row@.modified, changed: true, ..old_row });
                    assert(self.spec_rows() =~= expect);
                }
                true
            },
            DbAction::UpdateChangedField => {
                if row.id < 1 || row.id > self.rows.len() as i64 {
                    return false;
                }
                let k = (row.id - 1) as usize;
                self.rows[k].changed = false;
                proof {
                    let old_row = rows[row.id - 1];
                    let expect = rows.update(row.id - 1, IndexRowView { changed: false, ..old_row });
                    assert(self.spec_rows() =~= expect);
                }
                true
            },
            DbAction::NoOp => true,
        }
    }

    /// Upserts one observation of a file. The change-detection rule of
    /// `upsert_outcome` decides the row and action. With `batch` the store is
    /// left as it is and the intent is returned for `execute_batch`; without it
    /// the intent is written, and `None` says the store refused it.
    pub fn insert_or_update_remote_file_item(&mut self, rfi: RemoteFileItemInDb, batch: bool) -> (r: Option<(RemoteFileItemInDb, DbAction)>)
        requires
            old(self).wf(),
            old(self).spec_rows().len() < i64::MAX - 1,
            old(self).spec_dirs().len() < i64::MAX,
        ensures
            final(self).wf(),
            final(self).spec_dirs() == old(self).spec_dirs(),
            ({
                let out = upsert_outcome(find_row(old(self).spec_rows(), rfi.dir_id, rfi.path@), rfi@);
                let applied = apply_intent(old(self).spec_rows(), old(self).spec_dirs().len(), out.0, out.1);
                if batch {
                    &&& final(self).spec_rows() == old(self).spec_rows()
                    &&& r is Some
                    &&& r.unwrap().0@ == out.0
                    &&& r.unwrap().1 == out.1
                } else {
                    match applied {
                        Some(rows) => {
                            &&& final(self).spec_rows() == rows
                            &&& r is Some
                            &&& r.unwrap().1 == out.1
                            &&& r.unwrap().0@ == (if out.1 == DbAction::Insert {
                                IndexRowView { id: (old(self).spec_rows().len() + 1) as i64, ..out.0 }
                            } else {
                                out.0
                            })
                        },
                        None => final(self).spec_rows() == old(self).spec_rows() && r is None,
                    }
                }
            }),
    {
        let existing = self.find_remote_file_item(rfi.dir_id, rfi.path.as_str());
        let ghost n = self.spec_rows().len();
        let (mut row, action) = match existing {
            Some(e) => decide_upsert(Some(&e), rfi),
            None => decide_upsert(None, rfi),
        };
        if batch {
            return Some((row, action));
        }
        if self.apply_intent(&row, action) {
            if action == DbAction::Insert {
                assert(self.spec_rows().len() == self.rows@.len());
                assert(self.rows@.len() == n + 1);
                row.id = self.rows.len() as i64;
            }
            Some((row, action))
        } else {
            None
        }
    }

    /// Counts the rows whose changed flag is `changed`, or all rows.
    pub fn count_remote_file_item(&self, changed: Option<bool>) -> (r: u64)
        requires
            self.wf(),
        ensures
            r == count_rows(self.spec_rows(), changed),
    {
        let ghost rows = self.spec_rows();
        let mut c: u64 = 0;
        let mut i: usize = 0;
        while i < self.rows.len()
            invariant
                rows == self.spec_rows(),
                rows.len() == self.rows@.len(),
                i <= rows.len(),
                c == count_rows(rows.subrange(0, i as int), changed),
                c <= i,
            decreases rows.len() - i,
        {
            proof {
                assert(rows.subrange(0, i as int + 1).drop_last() =~= rows.subrange(0, i as int));
            }
            let hit = match changed {
                Some(b) => self.rows[i].changed == b,
                None => true,
            };
            if hit {
                c = c + 1;
            }
            i = i + 1;
        }
        assert(rows.subrange(0, rows.len() as int) =~= rows);
        c
    }

    fn snapshot_rows(&self) -> (r: Vec<RemoteFileItemInDb>)
        ensures
            rows_view(r@) == self.spec_rows(),
    {
        let mut out: Vec<RemoteFileItemInDb> = Vec::new();
        let mut i: usize = 0;
        while i < self.rows.len()
            invariant
                i <= self.rows@.len(),
                out@.len() == i,
                forall|j: int| 0 <= j < i ==> out@[j]@ == self.rows@[j]@,
            decreases self.rows@.len() - i,
        {
            out.push(self.rows[i].duplicate_self());
            i = i + 1;
        }
        assert(rows_view(out@) =~= self.spec_rows());
        out
    }

    /// Writes a batch of intents in one transaction: either all of them, in
    /// order, or, where one is refused, none.
    pub fn execute_batch(&mut self, intents: &Vec<(RemoteFileItemInDb, DbAction)>) -> (r: bool)
        requires
            old(self).wf(),
            old(self).spec_rows().len() + intents@.len() < i64::MAX - 1,
            old(self).spec_dirs().len() < i64::MAX,
        ensures
            final(self).wf(),
            final(self).spec_dirs() == old(self).spec_dirs(),
            ({
                let ivs = intents@.map_values(|p: (RemoteFileItemInDb, DbAction)| (p.0@, p.1));
                match apply_batch(old(self).spec_rows(), old(self).spec_dirs().len(), ivs) {
                    Some(rows) => r && final(self).spec_rows() == rows,
                    None => !r && final(self).spec_rows() == old(self).spec_rows(),
                }
            }),
    {
        let ghost ivs = intents@.map_values(|p: (RemoteFileItemInDb, DbAction)| (p.0@, p.1));
        let ghost n = self.spec_dirs().len();
        let ghost start = self.spec_rows();
        let saved = self.snapshot_rows();
        assert(ivs.skip(0) =~= ivs);
        let mut i: usize = 0;
        while i < intents.len()
            invariant
                self.wf(),
                self.spec_dirs() == old(self).spec_dirs(),
                n == self.spec_dirs().len(),
                n < i64::MAX,
                i <= intents@.len(),
                ivs == intents@.map_values(|p: (RemoteFileItemInDb, DbAction)| (p.0@, p.1)),
                self.spec_rows().len() <= start.len() + i,
                start.len() + intents@.len() < i64::MAX - 1,
                rows_view(saved@) == start,
                start == old(self).spec_rows(),
                rows_wf(start, n),
                apply_batch(start, n, ivs) == apply_batch(self.spec_rows(), n, ivs.skip(i as int)),
            decreases intents@.len() - i,
        {
            let ghost cur = self.spec_rows();
            proof {
                assert(ivs.skip(i as int)[0] == (intents@[i as int].0@, intents@[i as int].1));
                assert(ivs.skip(i as int).drop_first() =~= ivs.skip(i as int + 1));
            }
            let ok = self.apply_intent(&intents[i].0, intents[i].1);
            if !ok {
                self.rows = saved;
                return false;
            }
            i = i + 1;
        }
        true
    }

    /// The number of known directories.
    pub fn count_directory(&self) -> (r: u64)
        ensures
            r == self.spec_dirs().len(),
    {
        self.directories.len() as u64
    }
}

} // verus!

verus! {

/// After an upsert of a file that the store holds, its row is flagged changed
/// exactly when the upsert saw a length, hash or modification time that
/// differs from the stored one.
pub proof fn lemma_changed_iff_observation_differs(rows: Seq<IndexRowView>, n_dirs: nat, rfi: IndexRowView)
    requires
        rows_wf(rows, n_dirs),
        find_row(rows, rfi.dir_id, rfi.path) is Some,
    ensures
        ({
            let stored = find_row(rows, rfi.dir_id, rfi.path).unwrap();
            let out = upsert_outcome(Some(stored), rfi);
            let after = apply_intent(rows, n_dirs, out.0, out.1);
            let k = row_position(rows, rfi.dir_id, rfi.path).unwrap();
            &&& after is Some
            &&& after.unwrap()[k].changed == !same_observation(stored, rfi)
            &&& after.unwrap()[k].path == rfi.path
            &&& after.unwrap()[k].dir_id == rfi.dir_id
        }),
{
    let k = row_position(rows, rfi.dir_id, rfi.path).unwrap();
    assert(rows[k].id == k + 1);
}

/// Once a file's row is reconciled (not flagged changed), upserting the same
/// observation again is a no-op: the store is unchanged and nothing is flagged
/// for transfer.
pub proof fn lemma_repeat_upsert_is_noop(rows: Seq<IndexRowView>, n_dirs: nat, rfi: IndexRowView)
    requires
        rows_wf(rows, n_dirs),
        find_row(rows, rfi.dir_id, rfi.path) is Some,
        same_observation(find_row(rows, rfi.dir_id, rfi.path).unwrap(), rfi),
        !find_row(rows, rfi.dir_id, rfi.path).unwrap().changed,
    ensures
        ({
            let out = upsert_outcome(find_row(rows, rfi.dir_id, rfi.path), rfi);
            &&& out.1 == DbAction::NoOp
            &&& !out.0.changed
            &&& apply_intent(rows, n_dirs, out.0, out.1) == Some(rows)
            &&& count_rows(apply_intent(rows, n_dirs, out.0, out.1).unwrap(), Some(true)) == count_rows(rows, Some(true))
        }),
{
}

} // verus!

verus! {

/// One scheduling record: a task of a server that ran, or is to run, at
/// `time_execution` (seconds since the epoch).
pub struct ScheduleRow {
    pub id: i64,
    pub server_yml_path: String,
    pub task_name: String,
    pub time_execution: i64,
    pub done: bool,
}

pub ghost struct ScheduleView {
    pub id: i64,
    pub server_yml_path: Seq<char>,
    pub task_name: Seq<char>,
    pub time_execution: i64,
    pub done: bool,
}

impl View for ScheduleRow {
    type V = ScheduleView;

    open spec fn view(&self) -> ScheduleView {
        ScheduleView {
            id: self.id,
            server_yml_path: self.server_yml_path@,
            task_name: self.task_name@,
            time_execution: self.time_execution,
            done: self.done,
        }
    }
}

pub open spec fn same_task(r: ScheduleView, server: Seq<char>, task: Seq<char>) -> bool {
    r.server_yml_path == server && r.task_name == task
}

impl MemIndexStore {
    /// Records that `task` of `server` is to run at `time_execution` and
    /// returns the new record's id; refused where the task has a record that
    /// is not done yet, or where ids are exhausted.
    pub fn insert_next_execute(&mut self, server_yml_path: &str, task_name: &str, time_execution: i64) -> (r: Option<i64>)
        ensures
            final(self).spec_rows() == old(self).spec_rows(),
            final(self).spec_dirs() == old(self).spec_dirs(),
            (exists|i: int| 0 <= i < old(self).spec_schedules().len()
                && same_task(old(self).spec_schedules()[i], server_yml_path@, task_name@)
                && !old(self).spec_schedules()[i].done) ==> r is None,
            r is None ==> final(self).spec_schedules() == old(self).spec_schedules(),
            (forall|i: int| 0 <= i < old(self).spec_schedules().len()
                ==> !(same_task(old(self).spec_schedules()[i], server_yml_path@, task_name@)
                && !old(self).spec_schedules()[i].done)) && old(self).next_id() < i64::MAX
                ==> r == Some(old(self).next_id()) && final(self).next_id() == old(self).next_id() + 1,
            r matches Some(id) ==> final(self).spec_schedules() == old(self).spec_schedules().push(ScheduleView {
                id,
                server_yml_path: server_yml_path@,
                task_name: task_name@,
                time_execution,
                done: false,
            }),
    {
        let mut i: usize = 0;
        while i < self.schedules.len()
            invariant
                i <= self.schedules@.len(),
                self.spec_schedules().len() == self.schedules@.len(),
                forall|j: int| 0 <= j < i ==> !(same_task(self.spec_schedules()[j], server_yml_path@, task_name@) && !self.spec_schedules()[j].done),
            decreases self.schedules@.len() - i,
        {
            if !self.schedules[i].done && text_eq(self.schedules[i].server_yml_path.as_str(), server_yml_path)
                && text_eq(self.schedules[i].task_name.as_str(), task_name) {
                assert(self.spec_schedules()[i as int] == self.schedules@[i as int]@);
                assert(same_task(old(self).spec_schedules()[i as int], server_yml_path@, task_name@));
                return None;
            }
            i = i + 1;
        }
        if self.next_schedule_id == i64::MAX {
            return None;
        }
        let id = self.next_schedule_id;
        self.next_schedule_id = id + 1;
        self.schedules.push(ScheduleRow {
            id,
            server_yml_path: server_yml_path.to_owned(),
            task_name: task_name.to_owned(),
            time_execution,
            done: false,
        });
        assert(self.spec_schedules() =~= old(self).spec_schedules().push(ScheduleView {
            id,
            server_yml_path: server_yml_path@,
            task_name: task_name@,
            time_execution,
            done: false,
        }));
        assert(self.spec_rows() =~= old(self).spec_rows());
        assert(self.spec_dirs() =~= old(self).spec_dirs());
        Some(id)
    }

    /// The latest record of `task` of `server`: its id, time and whether it
    /// is done.
    pub fn find_next_execute(&self, server_yml_path: &str, task_name: &str) -> (r: Option<(i64, i64, bool)>)
        ensures
            r is None ==> forall|i: int| 0 <= i < self.spec_schedules().len()
                ==> !same_task(self.spec_schedules()[i], server_yml_path@, task_name@),
            r matches Some(f) ==> exists|i: int| 0 <= i < self.spec_schedules().len() && {
                let s = #[trigger] self.spec_schedules()[i];
                &&& same_task(s, server_yml_path@, task_name@)
                &&& f == (s.id, s.time_execution, s.done)
                &&& forall|j: int| 0 <= j < self.spec_schedules().len()
                    && same_task(self.spec_schedules()[j], server_yml_path@, task_name@)
                    ==> self.spec_schedules()[j].time_execution <= s.time_execution
            },
    {
        let ghost sv = self.spec_schedules();
        let mut best: Option<usize> = None;
        let mut i: usize = 0;
        while i < self.schedules.len()
            invariant
                sv == self.spec_schedules(),
                i <= self.schedules@.len(),
                sv.len() == self.schedules@.len(),
                best is None ==> forall|j: int| 0 <= j < i ==> !same_task(sv[j], server_yml_path@, task_name@),
                best matches Some(k) ==> k < i && same_task(sv[k as int], server_yml_path@, task_name@)
                    && forall|j: int| 0 <= j < i && same_task(sv[j], server_yml_path@, task_name@)
                        ==> sv[j].time_execution <= sv[k as int].time_execution,
            decreases self.schedules@.len() - i,
        {
            if text_eq(self.schedules[i].server_yml_path.as_str(), server_yml_path)
                && text_eq(self.schedules[i].task_name.as_str(), task_name) {
                match best {
                    Some(k) => {
                        if self.schedules[i].time_execution > self.schedules[k].time_execution {
                            best = Some(i);
                        }
                    },
                    None => {
                        best = Some(i);
                    },
                }
            }
            i = i + 1;
        }
        match best {
            Some(k) => {
                let s = &self.schedules[k];
                assert(sv[k as int] == s@);
                Some((s.id, s.time_execution, s.done))
            },
            None => None,
        }
    }

    fn schedule_position(&self, id: i64) -> (r: Option<usize>)
        ensures
            match r {
                Some(k) => k < self.spec_schedules().len() && self.spec_schedules()[k as int].id == id,
                None => forall|j: int| 0 <= j < self.spec_schedules().len() ==> self.spec_schedules()[j].id != id,
            },
    {
        let mut i: usize = 0;
        while i < self.schedules.len()
            invariant
                i <= self.schedules@.len(),
                self.spec_schedules().len() == self.schedules@.len(),
                forall|j: int| 0 <= j < i ==> self.spec_schedules()[j].id != id,
            decreases self.schedules@.len() - i,
        {
            if self.schedules[i].id == id {
                return Some(i);
            }
            i = i + 1;
        }
        None
    }

    /// Marks the record `id` done; `false` where there is none.
    pub fn update_next_execute_done(&mut self, id: i64) -> (r: bool)
        ensures
            final(self).spec_rows() == old(self).spec_rows(),
            final(self).spec_dirs() == old(self).spec_dirs(),
            r == exists|j: int| 0 <= j < old(self).spec_schedules().len() && old(self).spec_schedules()[j].id == id,
            r ==> exists|k: int| 0 <= k < old(self).spec_schedules().len() && old(self).spec_schedules()[k].id == id
                && final(self).spec_schedules() == old(self).spec_schedules().update(k, ScheduleView { done: true, ..old(self).spec_schedules()[k] }),
            !r ==> final(self).spec_schedules() == old(self).spec_schedules(),
    {
        match self.schedule_position(id) {
            Some(k) => {
                self.schedules[k].done = true;
                assert(self.spec_schedules() =~= old(self).spec_schedules().update(k as int, ScheduleView { done: true, ..old(self).spec_schedules()[k as int] }));
                assert(self.spec_rows() =~= old(self).spec_rows());
                assert(self.spec_dirs() =~= old(self).spec_dirs());
                true
            },
            None => false,
        }
    }

    /// Removes the record `id`; `false` where there is none.
    pub fn delete_next_execute(&mut self, id: i64) -> (r: bool)
        ensures
            final(self).spec_rows() == old(self).spec_rows(),
            final(self).spec_dirs() == old(self).spec_dirs(),
            r == exists|j: int| 0 <= j < old(self).spec_schedules().len() && old(self).spec_schedules()[j].id == id,
            r ==> exists|k: int| 0 <= k < old(self).spec_schedules().len() && old(self).spec_schedules()[k].id == id
                && final(self).spec_schedules() == old(self).spec_schedules().remove(k),
            !r ==> final(self).spec_schedules() == old(self).spec_schedules(),
    {
        match self.schedule_position(id) {
            Some(k) => {
                self.schedules.remove(k);
                assert(self.spec_schedules() =~= old(self).spec_schedules().remove(k as int));
                assert(self.spec_rows() =~= old(self).spec_rows());
                assert(self.spec_dirs() =~= old(self).spec_dirs());
                true
            },
            None => false,
        }
    }

    /// The number of scheduling records.
    pub fn count_next_execute(&self) -> (r: u64)
        ensures
            r == self.spec_schedules().len(),
    {
        self.schedules.len() as u64
    }
}

} // verus!

verus! {

/// The rows after one non-batched upsert of `rfi`.
pub open spec fn upsert_rows(rows: Seq<IndexRowView>, n_dirs: nat, rfi: IndexRowView) -> Seq<IndexRowView> {
    let out = upsert_outcome(find_row(rows, rfi.dir_id, rfi.path), rfi);
    match apply_intent(rows, n_dirs, out.0, out.1) {
        Some(r) => r,
        None => rows,
    }
}

/// The rows after a directory scan upserts each observation in turn.
pub open spec fn scan(rows: Seq<IndexRowView>, n_dirs: nat, items: Seq<IndexRowView>) -> Seq<IndexRowView>
    decreases items.len(),
{
    if items.len() == 0 {
        rows
    } else {
        upsert_rows(scan(rows, n_dirs, items.drop_last()), n_dirs, items.last())
    }
}

/// The rows after every transferred file's row is reconciled.
pub open spec fn reconcile(rows: Seq<IndexRowView>) -> Seq<IndexRowView> {
    rows.map_values(|r: IndexRowView| IndexRowView { changed: false, ..r })
}

/// The observations of one scan: each in a known directory, no two of the same file.
pub open spec fn scan_items_ok(items: Seq<IndexRowView>, n_dirs: nat) -> bool {
    &&& forall|k: int| 0 <= k < items.len() ==> 1 <= #[trigger] items[k].dir_id <= n_dirs
    &&& forall|i: int, j: int|
        #![trigger items[i].path, items[j].path]
        0 <= i < items.len() && 0 <= j < items.len() && i != j && items[i].dir_id == items[j].dir_id
            ==> items[i].path != items[j].path
}

proof fn lemma_position_is_key(rows: Seq<IndexRowView>, n_dirs: nat, dir_id: i64, path: Seq<char>, i: int)
    requires
        rows_wf(rows, n_dirs),
        0 <= i < rows.len(),
        rows[i].dir_id == dir_id,
        rows[i].path == path,
    ensures
        row_position(rows, dir_id, path) == Some(i),
{
    let k = choose|k: int| 0 <= k < rows.len() && rows[k].dir_id == dir_id && rows[k].path == path;
    if k != i {
        assert(rows[k].path != rows[i].path);
    }
}

/// One upsert keeps the rows well formed, leaves the rows of other files as
/// they were, and leaves the upserted file with the observed values.
proof fn lemma_upsert_step(rows: Seq<IndexRowView>, n_dirs: nat, rfi: IndexRowView)
    requires
        rows_wf(rows, n_dirs),
        1 <= rfi.dir_id <= n_dirs,
        rows.len() < i64::MAX - 1,
    ensures
        ({
            let after = upsert_rows(rows, n_dirs, rfi);
            &&& rows_wf(after, n_dirs)
            &&& after.len() >= rows.len()
            &&& after.len() <= rows.len() + 1
            &&& find_row(after, rfi.dir_id, rfi.path) matches Some(r) && same_observation(r, rfi)
            &&& forall|d: i64, p: Seq<char>| !(d == rfi.dir_id && p == rfi.path)
                ==> #[trigger] find_row(after, d, p) == find_row(rows, d, p)
        }),
{
    let after = upsert_rows(rows, n_dirs, rfi);
    let out = upsert_outcome(find_row(rows, rfi.dir_id, rfi.path), rfi);
    match row_position(rows, rfi.dir_id, rfi.path) {
        None => {
            assert(after == rows.push(IndexRowView { id: (rows.len() + 1) as i64, ..rfi }));
            assert forall|i: int, j: int|
                0 <= i < after.len() && 0 <= j < after.len() && i != j && after[i].dir_id == after[j].dir_id
                implies after[i].path != after[j].path by {
                if i == rows.len() as int {
                    assert(!(rows[j].dir_id == rfi.dir_id && rows[j].path == rfi.path));
                } else if j == rows.len() as int {
                    assert(!(rows[i].dir_id == rfi.dir_id && rows[i].path == rfi.path));
                }
            }
            lemma_position_is_key(after, n_dirs, rfi.dir_id, rfi.path, rows.len() as int);
            assert forall|d: i64, p: Seq<char>| !(d == rfi.dir_id && p == rfi.path)
                implies #[trigger] find_row(after, d, p) == find_row(rows, d, p) by {
                match row_position(rows, d, p) {
                    Some(i) => {
                        lemma_position_is_key(after, n_dirs, d, p, i);
                    },
                    None => {
                        if exists|i: int| 0 <= i < after.len() && after[i].dir_id == d && after[i].path == p {
                            let i = choose|i: int| 0 <= i < after.len() && after[i].dir_id == d && after[i].path == p;
                            assert(i < rows.len());
                            assert(rows[i] == after[i]);
                        }
                    },
                }
            }
        },
        Some(k) => {
            assert(rows[k].id == k + 1);
            let e = rows[k];
            assert(out.0.id == e.id);
            assert(after.len() == rows.len());
            assert(after[k].dir_id == e.dir_id && after[k].path == e.path);
            assert(forall|i: int| 0 <= i < rows.len() && i != k ==> after[i] == rows[i]);
            assert forall|i: int, j: int|
                0 <= i < after.len() && 0 <= j < after.len() && i != j && after[i].dir_id == after[j].dir_id
                implies after[i].path != after[j].path by {
                assert(after[i].path == rows[i].path && after[j].path == rows[j].path);
                assert(after[i].dir_id == rows[i].dir_id && after[j].dir_id == rows[j].dir_id);
            }
            assert(forall|i: int| 0 <= i < after.len() ==> after[i].id == i + 1 && after[i].dir_id == rows[i].dir_id
                && after[i].path == rows[i].path);
            lemma_position_is_key(after, n_dirs, rfi.dir_id, rfi.path, k);
            assert forall|d: i64, p: Seq<char>| !(d == rfi.dir_id && p == rfi.path)
                implies #[trigger] find_row(after, d, p) == find_row(rows, d, p) by {
                match row_position(rows, d, p) {
                    Some(i) => {
                        lemma_position_is_key(after, n_dirs, d, p, i);
                    },
                    None => {
                        if exists|i: int| 0 <= i < after.len() && after[i].dir_id == d && after[i].path == p {
                            let i = choose|i: int| 0 <= i < after.len() && after[i].dir_id == d && after[i].path == p;
                            assert(rows[i].dir_id == d && rows[i].path == p);
                        }
                    },
                }
            }
        },
    }
}

} // verus!

verus! {

/// The store holds a row for `it`'s file with `it`'s length, hash and time.
pub open spec fn observed(rows: Seq<IndexRowView>, it: IndexRowView) -> bool {
    match find_row(rows, it.dir_id, it.path) {
        Some(x) => same_observation(x, it),
        None => false,
    }
}

/// As `observed`, and the row is not flagged changed.
pub open spec fn settled(rows: Seq<IndexRowView>, it: IndexRowView) -> bool {
    match find_row(rows, it.dir_id, it.path) {
        Some(x) => same_observation(x, it) && !x.changed,
        None => false,
    }
}

proof fn lemma_scan(rows: Seq<IndexRowView>, n_dirs: nat, items: Seq<IndexRowView>)
    requires
        rows_wf(rows, n_dirs),
        scan_items_ok(items, n_dirs),
        rows.len() + items.len() < i64::MAX - 1,
    ensures
        rows_wf(scan(rows, n_dirs, items), n_dirs),
        scan(rows, n_dirs, items).len() <= rows.len() + items.len(),
        forall|k: int| 0 <= k < items.len() ==> #[trigger] observed(scan(rows, n_dirs, items), items[k]),
    decreases items.len(),
{
    if items.len() > 0 {
        let pre = items.drop_last();
        assert(scan_items_ok(pre, n_dirs)) by {
            assert forall|i: int, j: int|
                #![trigger pre[i].path, pre[j].path]
                0 <= i < pre.len() && 0 <= j < pre.len() && i != j && pre[i].dir_id == pre[j].dir_id
                implies pre[i].path != pre[j].path by {
                assert(pre[i] == items[i] && pre[j] == items[j]);
                assert(items[i].path != items[j].path);
            }
        }
        lemma_scan(rows, n_dirs, pre);
        let mid = scan(rows, n_dirs, pre);
        let last = items.last();
        assert(1 <= items[items.len() - 1].dir_id <= n_dirs);
        lemma_upsert_step(mid, n_dirs, last);
        let after = scan(rows, n_dirs, items);
        assert(after == upsert_rows(mid, n_dirs, last));
        assert forall|k: int| 0 <= k < items.len() implies #[trigger] observed(after, items[k]) by {
            if k < items.len() - 1 {
                assert(items[k] == pre[k]);
                let l = items.len() - 1;
                if items[k].dir_id == last.dir_id {
                    assert(items[k].path != items[l].path);
                }
                assert(find_row(after, items[k].dir_id, items[k].path) == find_row(mid, items[k].dir_id, items[k].path));
                assert(observed(mid, pre[k]));
            }
        }
    }
}

proof fn lemma_reconcile(rows: Seq<IndexRowView>, n_dirs: nat)
    requires
        rows_wf(rows, n_dirs),
    ensures
        rows_wf(reconcile(rows), n_dirs),
        count_rows(reconcile(rows), Some(true)) == 0,
        forall|d: i64, p: Seq<char>| #[trigger] find_row(reconcile(rows), d, p) == match find_row(rows, d, p) {
            Some(r) => Some(IndexRowView { changed: false, ..r }),
            None => None,
        },
{
    let rc = reconcile(rows);
    assert forall|i: int, j: int|
        0 <= i < rc.len() && 0 <= j < rc.len() && i != j && rc[i].dir_id == rc[j].dir_id
        implies rc[i].path != rc[j].path by {
        assert(rows[i].path != rows[j].path);
    }
    lemma_count_unflagged(rc);
    assert forall|d: i64, p: Seq<char>| #[trigger] find_row(rc, d, p) == match find_row(rows, d, p) {
        Some(r) => Some(IndexRowView { changed: false, ..r }),
        None => None,
    } by {
        match row_position(rows, d, p) {
            Some(i) => {
                lemma_position_is_key(rc, n_dirs, d, p, i);
            },
            None => {
                if exists|i: int| 0 <= i < rc.len() && rc[i].dir_id == d && rc[i].path == p {
                    let i = choose|i: int| 0 <= i < rc.len() && rc[i].dir_id == d && rc[i].path == p;
                    assert(rows[i].dir_id == d && rows[i].path == p);
                }
            },
        }
    }
}

proof fn lemma_count_unflagged(rows: Seq<IndexRowView>)
    requires
        forall|i: int| 0 <= i < rows.len() ==> !(#[trigger] rows[i]).changed,
    ensures
        count_rows(rows, Some(true)) == 0,
    decreases rows.len(),
{
    if rows.len() > 0 {
        let d = rows.drop_last();
        assert forall|i: int| 0 <= i < d.len() implies !(#[trigger] d[i]).changed by {
            assert(d[i] == rows[i]);
        }
        lemma_count_unflagged(d);
        assert(!rows[rows.len() - 1].changed);
    }
}

proof fn lemma_idle_scan(rows: Seq<IndexRowView>, n_dirs: nat, items: Seq<IndexRowView>)
    requires
        rows_wf(rows, n_dirs),
        forall|k: int| 0 <= k < items.len() ==> #[trigger] settled(rows, items[k]),
    ensures
        scan(rows, n_dirs, items) == rows,
    decreases items.len(),
{
    if items.len() > 0 {
        let pre = items.drop_last();
        assert forall|k: int| 0 <= k < pre.len() implies #[trigger] settled(rows, pre[k]) by {
            assert(pre[k] == items[k]);
        }
        lemma_idle_scan(rows, n_dirs, pre);
        let l = items.len() - 1;
        assert(settled(rows, items[l]));
        lemma_repeat_upsert_is_noop(rows, n_dirs, items.last());
    }
}

/// Running a full sync twice with no remote change does nothing the second
/// time: after a scan of a directory's observations and the reconciliation
/// of every transferred row, a second scan of the same observations makes
/// every upsert a no-op, leaves the rows as they are, and flags no row as
/// changed, so no file is transferred.
pub proof fn lemma_second_run_is_idle(rows: Seq<IndexRowView>, n_dirs: nat, items: Seq<IndexRowView>)
    requires
        rows_wf(rows, n_dirs),
        scan_items_ok(items, n_dirs),
        rows.len() + items.len() < i64::MAX - 1,
    ensures
        ({
            let first = reconcile(scan(rows, n_dirs, items));
            &&& scan(first, n_dirs, items) == first
            &&& count_rows(first, Some(true)) == 0
            &&& forall|k: int| 0 <= k < items.len()
                ==> (#[trigger] upsert_outcome(find_row(first, items[k].dir_id, items[k].path), items[k])).1 == DbAction::NoOp
        }),
{
    lemma_scan(rows, n_dirs, items);
    let s = scan(rows, n_dirs, items);
    lemma_reconcile(s, n_dirs);
    let first = reconcile(s);
    assert forall|k: int| 0 <= k < items.len() implies #[trigger] settled(first, items[k]) by {
        assert(observed(s, items[k]));
    }
    lemma_idle_scan(first, n_dirs, items);
    assert forall|k: int| 0 <= k < items.len()
        implies (#[trigger] upsert_outcome(find_row(first, items[k].dir_id, items[k].path), items[k])).1 == DbAction::NoOp by {
        assert(settled(first, items[k]));
    }
}

} // verus!

verus! {

/// One entry of a listing by directory: a directory marker or a file row.
pub ghost enum ListingView {
    Dir(Seq<char>),
    File(IndexRowView),
}

pub open spec fn listing_entry_view(e: (Option<RemoteFileItemInDb>, Option<String>)) -> ListingView {
    match e.0 {
        Some(r) => ListingView::File(r@),
        None => ListingView::Dir(match e.1 {
            Some(p) => p@,
            None => Seq::empty(),
        }),
    }
}

/// The rows of directory `dir_id`, in row order.
pub open spec fn rows_of_dir(rows: Seq<IndexRowView>, dir_id: i64) -> Seq<IndexRowView>
    decreases rows.len(),
{
    if rows.len() == 0 {
        Seq::empty()
    } else {
        let pre = rows_of_dir(rows.drop_last(), dir_id);
        if rows.last().dir_id == dir_id {
            pre.push(rows.last())
        } else {
            pre
        }
    }
}

pub open spec fn entries_view(v: Seq<(Option<RemoteFileItemInDb>, Option<String>)>) -> Seq<ListingView> {
    v.map_values(|e: (Option<RemoteFileItemInDb>, Option<String>)| listing_entry_view(e))
}

pub open spec fn files_view(rows: Seq<IndexRowView>) -> Seq<ListingView> {
    rows.map_values(|r: IndexRowView| ListingView::File(r))
}

/// Each directory, in id order, followed by its rows.
pub open spec fn listing(dirs: Seq<Seq<char>>, rows: Seq<IndexRowView>) -> Seq<ListingView>
    decreases dirs.len(),
{
    if dirs.len() == 0 {
        Seq::empty()
    } else {
        listing(dirs.drop_last(), rows) + seq![ListingView::Dir(dirs.last())]
            + files_view(rows_of_dir(rows, dirs.len() as i64))
    }
}

impl MemIndexStore {
    /// The first `num` rows, or all where there are fewer.
    pub fn get_file_item(&self, num: usize) -> (r: Vec<RemoteFileItemInDb>)
        ensures
            r@.len() == if num < self.spec_rows().len() { num as int } else { self.spec_rows().len() as int },
            forall|i: int| 0 <= i < r@.len() ==> (#[trigger] r@[i])@ == self.spec_rows()[i],
    {
        let mut out: Vec<RemoteFileItemInDb> = Vec::new();
        let mut i: usize = 0;
        while i < self.rows.len() && i < num
            invariant
                i <= self.rows@.len(),
                i <= num,
                self.spec_rows().len() == self.rows@.len(),
                out@.len() == i,
                forall|j: int| 0 <= j < i ==> (#[trigger] out@[j])@ == self.spec_rows()[j],
            decreases self.rows@.len() - i,
        {
            out.push(self.rows[i].duplicate_self());
            i = i + 1;
        }
        out
    }

    /// Every directory in id order, each followed by its rows: a directory
    /// marker is `(None, Some(path))`, a row is `(Some(row), None)`.
    pub fn iterate_files_by_directory(&self) -> (r: Vec<(Option<RemoteFileItemInDb>, Option<String>)>)
        requires
            self.spec_dirs().len() < i64::MAX,
        ensures
            entries_view(r@) == listing(self.spec_dirs(), self.spec_rows()),
    {
        let ghost dirs = self.spec_dirs();
        let ghost rows = self.spec_rows();
        let mut out: Vec<(Option<RemoteFileItemInDb>, Option<String>)> = Vec::new();
        let mut d: usize = 0;
        assert(entries_view(out@) =~= listing(dirs.take(0), rows));
        while d < self.directories.len()
            invariant
                dirs == self.spec_dirs(),
                rows == self.spec_rows(),
                dirs.len() == self.directories@.len(),
                rows.len() == self.rows@.len(),
                dirs.len() < i64::MAX,
                d <= dirs.len(),
                entries_view(out@) == listing(dirs.take(d as int), rows),
            decreases dirs.len() - d,
        {
            let ghost before = entries_view(out@);
            let ghost dpath = dirs[d as int];
            out.push((None, Some(clone_text(&self.directories[d]))));
            let dir_id = (d + 1) as i64;
            assert(entries_view(out@) =~= before + seq![ListingView::Dir(dpath)]);
            let mut i: usize = 0;
            assert(files_view(rows_of_dir(rows.take(0), dir_id)) =~= Seq::<ListingView>::empty());
            assert(entries_view(out@) =~= before + seq![ListingView::Dir(dpath)] + files_view(rows_of_dir(rows.take(0), dir_id)));
            while i < self.rows.len()
                invariant
                    rows == self.spec_rows(),
                    rows.len() == self.rows@.len(),
                    i <= rows.len(),
                    dir_id == d + 1,
                    entries_view(out@) == before + seq![ListingView::Dir(dpath)] + files_view(rows_of_dir(rows.take(i as int), dir_id)),
                decreases rows.len() - i,
            {
                let ghost prev = out@;
                proof {
                    let t1 = rows.take(i as int + 1);
                    assert(t1.drop_last() =~= rows.take(i as int));
                    assert(t1.last() == rows[i as int]);
                }
                if self.rows[i].dir_id == dir_id {
                    let e = self.rows[i].duplicate_self();
                    out.push((Some(e), None));
                    proof {
                        assert(entries_view(out@) =~= entries_view(prev).push(ListingView::File(rows[i as int])));
                        assert(files_view(rows_of_dir(rows.take(i as int + 1), dir_id)) =~= files_view(rows_of_dir(rows.take(i as int), dir_id)).push(ListingView::File(rows[i as int])));
                    }
                }
                i = i + 1;
            }
            proof {
                assert(dirs.take(d as int + 1).drop_last() =~= dirs.take(d as int));
                assert(dirs.take(d as int + 1).last() == dpath);
                assert(rows.take(rows.len() as int) =~= rows);
                assert(dirs.take(d as int + 1).len() as i64 == dir_id);
            }
            d = d + 1;
        }
        assert(dirs.take(dirs.len() as int) =~= dirs);
        out
    }
}

} // verus!
