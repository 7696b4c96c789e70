use vstd::prelude::*;
use crate::string_path::{join_path, joined};
use crate::text::{clone_text};

verus! {

/// Name of the application's configuration file.
pub const CONF_FILE_NAME: &'static str = "bk_over_ssh.yml";

/// Directory, under the data directory, of the server files of a pulling hub.
pub const PULL_SERVERS_CONF: &'static str = "pull-servers-conf";

/// Directory, under the data directory, of the server files of a pushing leaf.
pub const PUSH_SERVERS_CONF: &'static str = "push-servers-conf";

/// Directory, under the data directory, of the mirrors of a pulling hub.
pub const PULL_SERVERS_DATA: &'static str = "pull-servers-data";

/// Directory, under the data directory, of the mirrors of a pushing leaf.
pub const PUSH_SERVERS_DATA: &'static str = "push-servers-data";

/// Where log lines go and which modules log in detail.
pub struct LogConf {
    pub log_file: String,
    pub verbose_modules: Vec<String>,
}

impl LogConf {
    pub fn new(log_file: String, verbose_modules: Vec<String>) -> (r: LogConf)
        ensures
            r.log_file == log_file,
            r.verbose_modules == verbose_modules,
    {
        LogConf { log_file, verbose_modules }
    }

    pub fn get_verbose_modules(&self) -> (r: &Vec<String>)
        ensures
            *r == self.verbose_modules,
    {
        &self.verbose_modules
    }
}

impl Default for LogConf {
    fn default() -> (r: LogConf)
        ensures
            r.log_file@ == Seq::<char>::empty(),
            r.verbose_modules@.len() == 0,
    {
        LogConf { log_file: String::new(), verbose_modules: Vec::new() }
    }
}

/// The part the application plays.
#[derive(PartialEq, Eq, Structural, Clone, Copy, Debug)]
pub enum AppRole {
    Controller,
    Leaf,
    PullHub,
    ReceiveHub,
    PassiveLeaf,
    ActiveLeaf,
}

/// How reports are mailed.
pub struct MailConf {
    pub from: String,
    pub username: String,
    pub password: String,
    pub hostname: String,
    pub port: u16,
}

impl Default for MailConf {
    fn default() -> (r: MailConf)
        ensures
            r.from@.len() == 0,
            r.username@.len() == 0,
            r.password@.len() == 0,
            r.hostname@.len() == 0,
            r.port == 0,
    {
        MailConf {
            from: String::new(),
            username: String::new(),
            password: String::new(),
            hostname: String::new(),
            port: 0,
        }
    }
}

/// The application's configuration file as written.
pub struct AppConfYml {
    pub data_dir: String,
    pub log_conf: LogConf,
    pub mail_conf: MailConf,
    pub role: AppRole,
    pub archive_cmd: Vec<String>,
}

impl Default for AppConfYml {
    fn default() -> (r: AppConfYml)
        ensures
            r.data_dir@ == "data"@,
            r.role == AppRole::Controller,
            r.archive_cmd@.len() == 0,
            r.log_conf.log_file@.len() == 0,
            r.mail_conf.port == 0,
    {
        AppConfYml {
            data_dir: "data".to_owned(),
            role: AppRole::Controller,
            mail_conf: MailConf::default(),
            log_conf: LogConf::default(),
            archive_cmd: Vec::new(),
        }
    }
}

/// The settings that each server run needs from the application.
pub struct MiniAppConf {
    pub buf_len: Option<usize>,
    pub skip_cron: bool,
    pub skip_sha1: bool,
    pub archive_cmd: Vec<String>,
    pub app_role: AppRole,
}

/// One scheduled task of a server: its name and cron expression.
pub struct ScheduleItem {
    pub name: String,
    pub cron: String,
}

/// How many archives to keep per period.
pub struct PruneStrategy {
    pub yearly: u8,
    pub monthly: u8,
    pub weekly: u8,
    pub daily: u8,
    pub hourly: u8,
    pub minutely: u8,
}

impl Default for PruneStrategy {
    fn default() -> (r: PruneStrategy)
        ensures
            r.yearly == 1 && r.monthly == 1 && r.weekly == 0 && r.daily == 1 && r.hourly == 1 && r.minutely == 1,
    {
        PruneStrategy { yearly: 1, monthly: 1, weekly: 0, daily: 1, hourly: 1, minutely: 1 }
    }
}

/// How the SSH session authenticates.
#[derive(PartialEq, Eq, Structural, Clone, Copy, Debug)]
pub enum AuthMethod {
    Password,
    Agent,
    IdentityFile,
}

/// Why a configuration cannot be used.
#[derive(PartialEq, Eq, Structural, Clone, Copy, Debug)]
pub enum ConfError {
    /// Only a pulling hub and an active leaf keep server files.
    UnexpectedRole,
}

/// The directory of server files for a role that keeps them.
pub open spec fn servers_conf_name(role: AppRole) -> Option<Seq<char>> {
    match role {
        AppRole::PullHub => Some(PULL_SERVERS_CONF@),
        AppRole::ActiveLeaf => Some(PUSH_SERVERS_CONF@),
        _ => None,
    }
}

/// The directory of mirrored data for a role that keeps it.
pub open spec fn servers_data_name(role: AppRole) -> Option<Seq<char>> {
    match role {
        AppRole::PullHub => Some(PULL_SERVERS_DATA@),
        AppRole::ActiveLeaf => Some(PUSH_SERVERS_DATA@),
        _ => None,
    }
}

/// The application's resolved configuration. `D` is the index store.
pub struct AppConf<D> {
    pub inner: AppConfYml,
    pub config_file_path: String,
    pub data_dir_full_path: String,
    pub log_full_path: String,
    pub servers_conf_dir: String,
    pub db_access: Option<D>,
    pub mini_app_conf: MiniAppConf,
}

/// The directory of server files under `data_dir` for `role`.
pub fn servers_conf_dir_for(data_dir: &str, role: AppRole) -> (r: Result<String, ConfError>)
    ensures
        match servers_conf_name(role) {
            Some(name) => r matches Ok(p) && p@ == joined(data_dir@, name),
            None => r == Err::<String, ConfError>(ConfError::UnexpectedRole),
        },
{
    match role {
        AppRole::PullHub => Ok(join_path(data_dir, PULL_SERVERS_CONF)),
        AppRole::ActiveLeaf => Ok(join_path(data_dir, PUSH_SERVERS_CONF)),
        _ => Err(ConfError::UnexpectedRole),
    }
}

/// The directory of mirrored data under `data_dir` for `role`.
pub fn servers_data_dir_for(data_dir: &str, role: AppRole) -> (r: Result<String, ConfError>)
    ensures
        match servers_data_name(role) {
            Some(name) => r matches Ok(p) && p@ == joined(data_dir@, name),
            None => r == Err::<String, ConfError>(ConfError::UnexpectedRole),
        },
{
    match role {
        AppRole::PullHub => Ok(join_path(data_dir, PULL_SERVERS_DATA)),
        AppRole::ActiveLeaf => Ok(join_path(data_dir, PUSH_SERVERS_DATA)),
        _ => Err(ConfError::UnexpectedRole),
    }
}

/// The configured data directory, `data` where none is given.
pub fn data_dir_or_default(data_dir: &str) -> (r: String)
    ensures
        data_dir@.len() == 0 ==> r@ == "data"@,
        data_dir@.len() > 0 ==> r@ == data_dir@,
{
    if data_dir.unicode_len() == 0 {
        "data".to_owned()
    } else {
        data_dir.to_owned()
    }
}

/// The log file: kept as written when absolute, else under the data directory.
pub fn resolve_log_path(data_dir: &str, log_file: &str, log_file_is_absolute: bool) -> (r: String)
    ensures
        log_file_is_absolute ==> r@ == log_file@,
        !log_file_is_absolute ==> r@ == joined(data_dir@, log_file@),
{
    if log_file_is_absolute {
        log_file.to_owned()
    } else {
        join_path(data_dir, log_file)
    }
}

/// Where the server file `name` is looked for: a name that holds a path
/// separator is a path as given; a bare name lies in the servers directory.
pub open spec fn server_yml_location(servers_conf_dir: Seq<char>, name: Seq<char>) -> Seq<char> {
    if name.contains('/') || name.contains('\\') {
        name
    } else {
        joined(servers_conf_dir, name)
    }
}

fn has_separator(s: &str) -> (r: bool)
    ensures
        r == (s@.contains('/') || s@.contains('\\')),
{
    let n = s.unicode_len();
    let mut i: usize = 0;
    while i < n
        invariant
            n == s@.len(),
            i <= n,
            forall|j: int| 0 <= j < i ==> s@[j] != '/' && s@[j] != '\\',
        decreases n - i,
    {
        let c = s.get_char(i);
        if c == '/' || c == '\\' {
            assert(s@[i as int] == c);
            return true;
        }
        i = i + 1;
    }
    false
}

impl<D> AppConf<D> {
    /// The resolved configuration of `inner`, read from `config_file_path`,
    /// for `app_role`; the data directory and the log file are already
    /// resolved by the caller.
    pub fn from_yml(
        inner: AppConfYml,
        config_file_path: String,
        data_dir_full_path: String,
        log_full_path: String,
        app_role: AppRole,
    ) -> (r: Result<AppConf<D>, ConfError>)
        ensures
            match servers_conf_name(app_role) {
                Some(name) => r matches Ok(c) && c.servers_conf_dir@ == joined(data_dir_full_path@, name)
                    && c.data_dir_full_path == data_dir_full_path && c.log_full_path == log_full_path
                    && c.config_file_path == config_file_path && c.db_access is None
                    && c.mini_app_conf.skip_sha1 && !c.mini_app_conf.skip_cron
                    && c.mini_app_conf.buf_len is None && c.mini_app_conf.app_role == app_role
                    && c.inner == inner
                    && c.mini_app_conf.archive_cmd@.len() == inner.archive_cmd@.len()
                    && forall|i: int| 0 <= i < inner.archive_cmd@.len() ==> (#[trigger] c.mini_app_conf.archive_cmd@[i])@ == inner.archive_cmd@[i]@,
                None => r is Err,
            },
    {
        let servers_conf_dir = match servers_conf_dir_for(data_dir_full_path.as_str(), app_role) {
            Ok(d) => d,
            Err(e) => return Err(e),
        };
        let archive_cmd = clone_texts(&inner.archive_cmd);
        Ok(AppConf {
            inner,
            config_file_path,
            data_dir_full_path,
            log_full_path,
            servers_conf_dir,
            db_access: None,
            mini_app_conf: MiniAppConf { skip_sha1: true, skip_cron: false, buf_len: None, archive_cmd, app_role },
        })
    }

    pub fn set_db_access(&mut self, db_access: D)
        ensures
            final(self).db_access == Some(db_access),
            final(self).data_dir_full_path == old(self).data_dir_full_path,
    {
        self.db_access = Some(db_access);
    }

    pub fn get_db_access(&self) -> (r: Option<&D>)
        ensures
            match self.db_access {
                Some(d) => r == Some(&d),
                None => r is None,
            },
    {
        match &self.db_access {
            Some(d) => Some(d),
            None => None,
        }
    }

    /// The index database file under the data directory.
    pub fn get_sqlite_db_file(&self) -> (r: String)
        ensures
            r@ == joined(self.data_dir_full_path@, "db.db"@),
    {
        join_path(self.data_dir_full_path.as_str(), "db.db")
    }

    /// The working lock file under the data directory.
    pub fn get_lock_file(&self) -> (r: String)
        ensures
            r@ == joined(self.data_dir_full_path@, "working.lock"@),
    {
        join_path(self.data_dir_full_path.as_str(), "working.lock")
    }

    pub fn get_inner(&self) -> (r: &AppConfYml)
        ensures
            r == &self.inner,
    {
        &self.inner
    }

    pub fn skip_cron(&mut self)
        ensures
            final(self).mini_app_conf.skip_cron,
            final(self).mini_app_conf.skip_sha1 == old(self).mini_app_conf.skip_sha1,
    {
        self.mini_app_conf.skip_cron = true;
    }

    pub fn not_skip_sha1(&mut self)
        ensures
            !final(self).mini_app_conf.skip_sha1,
            final(self).mini_app_conf.skip_cron == old(self).mini_app_conf.skip_cron,
    {
        self.mini_app_conf.skip_sha1 = false;
    }

    pub fn get_mail_conf(&self) -> (r: &MailConf)
        ensures
            r == &self.inner.mail_conf,
    {
        &self.inner.mail_conf
    }

    pub fn get_log_conf(&self) -> (r: &LogConf)
        ensures
            r == &self.inner.log_conf,
    {
        &self.inner.log_conf
    }

    /// Where the server file `name` is looked for.
    pub fn server_yml_path(&self, name: &str) -> (r: String)
        ensures
            r@ == server_yml_location(self.servers_conf_dir@, name@),
    {
        if has_separator(name) {
            name.to_owned()
        } else {
            join_path(self.servers_conf_dir.as_str(), name)
        }
    }

    /// The buffer length a server runs with: the application's, where one is
    /// set, overrides the one in the server's file.
    pub fn server_buf_len(&self, server_buf_len: usize) -> (r: usize)
        ensures
            r == match self.mini_app_conf.buf_len {
                Some(b) => b,
                None => server_buf_len,
            },
    {
        match self.mini_app_conf.buf_len {
            Some(b) => b,
            None => server_buf_len,
        }
    }

    /// The mirror directory of server `host` for this application's role.
    pub fn server_data_dir(&self, host: &str) -> (r: Result<String, ConfError>)
        ensures
            match servers_data_name(self.mini_app_conf.app_role) {
                Some(name) => r matches Ok(p) && p@ == joined(joined(self.data_dir_full_path@, name), host@),
                None => r is Err,
            },
    {
        match servers_data_dir_for(self.data_dir_full_path.as_str(), self.mini_app_conf.app_role) {
            Ok(d) => Ok(join_path(d.as_str(), host)),
            Err(e) => Err(e),
        }
    }
}

/// A resolved configuration for trials: a pulling hub or an active leaf
/// rooted at `data_dir`, with defaults elsewhere.
pub fn demo_app_conf<D>(data_dir: &str, app_role: AppRole) -> (r: AppConf<D>)
    requires
        app_role == AppRole::PullHub || app_role == AppRole::ActiveLeaf,
    ensures
        r.data_dir_full_path@ == data_dir@,
        r.log_full_path@ == joined(data_dir@, "out.log"@),
        r.servers_conf_dir@ == joined("data"@, servers_conf_name(app_role).unwrap()),
        r.config_file_path@ == "abc"@,
        r.db_access is None,
        r.mini_app_conf.skip_sha1,
        !r.mini_app_conf.skip_cron,
        r.mini_app_conf.app_role == app_role,
{
    let name = if app_role == AppRole::PullHub { PULL_SERVERS_CONF } else { PUSH_SERVERS_CONF };
    AppConf {
        inner: AppConfYml::default(),
        config_file_path: "abc".to_owned(),
        data_dir_full_path: data_dir.to_owned(),
        log_full_path: join_path(data_dir, "out.log"),
        servers_conf_dir: join_path("data", name),
        db_access: None,
        mini_app_conf: MiniAppConf {
            skip_sha1: true,
            skip_cron: false,
            buf_len: None,
            archive_cmd: Vec::new(),
            app_role,
        },
    }
}

fn clone_texts(v: &Vec<String>) -> (r: Vec<String>)
    ensures
        r@.len() == v@.len(),
        forall|i: int| 0 <= i < v@.len() ==> r@[i]@ == v@[i]@,
{
    let mut out: Vec<String> = Vec::new();
    let mut i: usize = 0;
    while i < v.len()
        invariant
            i <= v@.len(),
            out@.len() == i,
            forall|j: int| 0 <= j < i ==> out@[j]@ == v@[j]@,
        decreases v@.len() - i,
    {
        out.push(clone_text(&v[i]));
        i = i + 1;
    }
    out
}

} // verus!
