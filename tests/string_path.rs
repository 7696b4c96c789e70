use bk_over_ssh::{is_windows_path_start, join_path};

#[test]
fn t_idx() {
    let s = "a:\\b";
    let c0 = s.chars().nth(0).expect("at least have one char.");
    let c1 = s.chars().nth(1).expect("at least have one char.");
    assert!(c0.is_ascii_alphabetic());
    assert_eq!(c1, ':');
}

#[test]
fn t_join() {
    let pp = r#"\\?\D:\Documents\GitHub\ssh-client-demo\fixtures\adir"#;
    let ch = "a.txt";
    let j = join_path(pp, ch);
    assert_eq!(j, r#"D:\Documents\GitHub\ssh-client-demo\fixtures\adir\a.txt"#);

    let pp = r#"D:\Documents\GitHub\ssh-client-demo\fixtures\adir"#;
    let ch = "a.txt";
    let j = join_path(pp, ch);
    assert_eq!(j, r#"D:\Documents\GitHub\ssh-client-demo\fixtures\adir\a.txt"#);

    let pp = r#":\Documents\GitHub\ssh-client-demo\fixtures\adir"#;
    let ch = "a.txt";
    let j = join_path(pp, ch);
    assert_eq!(j, r#":\Documents\GitHub\ssh-client-demo\fixtures\adir/a.txt"#);
}

#[test]
fn join_unix_paths_with_slash() {
    assert_eq!(join_path("/srv/data", "sub/b.bin"), "/srv/data/sub/b.bin");
    assert_eq!(join_path("", "a.txt"), "/a.txt");
}

#[test]
fn windows_start_detection() {
    assert!(is_windows_path_start("c:"));
    assert!(is_windows_path_start("Z:\\x"));
    assert!(!is_windows_path_start("1:"));
    assert!(!is_windows_path_start("c"));
    assert!(!is_windows_path_start(""));
    assert!(!is_windows_path_start("/c:"));
}
