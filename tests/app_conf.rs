use bk_over_ssh::app_conf::{
    demo_app_conf, resolve_log_path, servers_conf_dir_for, AppConf, AppConfYml, AppRole, ConfError, LogConf,
    PruneStrategy,
};

#[test]
fn demo_conf_for_pull_hub() {
    let c: AppConf<u8> = demo_app_conf("/tmp/d", AppRole::PullHub);
    assert_eq!(c.log_full_path, "/tmp/d/out.log");
    assert_eq!(c.servers_conf_dir, "data/pull-servers-conf");
    assert_eq!(c.get_sqlite_db_file(), "/tmp/d/db.db");
    assert!(c.mini_app_conf.skip_sha1);
    assert!(c.get_db_access().is_none());
}

#[test]
fn conf_setters() {
    let mut c: AppConf<u8> = demo_app_conf("/tmp/d", AppRole::ActiveLeaf);
    assert_eq!(c.servers_conf_dir, "data/push-servers-conf");
    c.skip_cron();
    c.not_skip_sha1();
    c.set_db_access(7);
    assert!(c.mini_app_conf.skip_cron);
    assert!(!c.mini_app_conf.skip_sha1);
    assert_eq!(c.get_db_access(), Some(&7));
    assert_eq!(c.server_yml_path("a.yml"), "data/push-servers-conf/a.yml");
    assert_eq!(c.server_yml_path("x/a.yml"), "x/a.yml");
    assert_eq!(c.server_data_dir("h1"), Ok("/tmp/d/push-servers-data/h1".to_string()));
}

#[test]
fn from_yml_needs_a_serving_role() {
    let r: Result<AppConf<u8>, ConfError> =
        AppConf::from_yml(AppConfYml::default(), "c.yml".into(), "/d".into(), "/d/o.log".into(), AppRole::Controller);
    assert!(matches!(r, Err(ConfError::UnexpectedRole)));
    let r: Result<AppConf<u8>, ConfError> =
        AppConf::from_yml(AppConfYml::default(), "c.yml".into(), "/d".into(), "/d/o.log".into(), AppRole::PullHub);
    let c = r.ok().unwrap();
    assert_eq!(c.servers_conf_dir, "/d/pull-servers-conf");
    assert_eq!(c.get_inner().data_dir, "data");
    assert_eq!(servers_conf_dir_for("/d", AppRole::Leaf), Err(ConfError::UnexpectedRole));
}

#[test]
fn log_path_resolution() {
    assert_eq!(resolve_log_path("/d", "out.log", false), "/d/out.log");
    assert_eq!(resolve_log_path("/d", "/var/log/x.log", true), "/var/log/x.log");
}

#[test]
fn defaults_of_records() {
    let l = LogConf::new("o.log".into(), vec!["a".into()]);
    assert_eq!(l.get_verbose_modules(), &vec!["a".to_string()]);
    let p = PruneStrategy::default();
    assert_eq!((p.yearly, p.monthly, p.weekly, p.daily, p.hourly, p.minutely), (1, 1, 0, 1, 1, 1));
}

#[test]
fn app_buffer_length_overrides_server() {
    let mut c: AppConf<u8> = demo_app_conf("/tmp/d", AppRole::PullHub);
    assert_eq!(c.server_buf_len(4096), 4096);
    c.mini_app_conf.buf_len = Some(1024);
    assert_eq!(c.server_buf_len(4096), 1024);
}

#[test]
fn from_yml_keeps_archive_command() {
    let mut y = AppConfYml::default();
    y.archive_cmd = vec!["7z".to_string(), "a".to_string()];
    let r: Result<AppConf<u8>, ConfError> = AppConf::from_yml(y, "c.yml".into(), "/d".into(), "/d/o.log".into(), AppRole::ActiveLeaf);
    let c = r.ok().unwrap();
    assert_eq!(c.mini_app_conf.archive_cmd, vec!["7z".to_string(), "a".to_string()]);
    assert_eq!(c.get_inner().archive_cmd.len(), 2);
}
