use rumenu::filecheck::{check, done_after, get_config, Config, FileFacts, FileKind};

fn args(items: &[&str]) -> Vec<String> {
    items.iter().map(|s| s.to_string()).collect()
}

fn config(items: &[&str]) -> Config {
    get_config(args(items)).unwrap()
}

fn facts(kind: FileKind, mode: u32) -> Option<FileFacts> {
    Some(FileFacts { kind, mode, mtime: 1000, size: 10 })
}

#[test]
fn test_check_no_filter() {
    // /dev/null is a character device that anyone may read and write.
    assert!(check("null", facts(FileKind::CharDevice, 0o666), &get_config(vec!["rutest".to_string()]).unwrap()));
}

#[test]
fn test_check_dot_files() {
    assert!(!check(".bashrc", facts(FileKind::Regular, 0o644), &get_config(vec!["rutest".to_string()]).unwrap()));
    assert!(check(".bashrc", facts(FileKind::Regular, 0o644), &get_config(vec!["rutest".to_string(), "-a".to_string()]).unwrap()));
    assert!(!check(".bashrc", None, &get_config(vec!["rutest".to_string()]).unwrap()));
    assert!(check(".bashrc", None, &get_config(vec!["rutest".to_string(), "-a".to_string()]).unwrap()));
}

#[test]
fn test_check_existing_files() {
    assert!(check("not-existing-file", None, &get_config(vec!["rutest".to_string()]).unwrap()));
    assert!(!check("not-existing-file", None, &get_config(vec!["rutest".to_string(), "-e".to_string()]).unwrap()));
}

#[test]
fn test_check_symbolic_link() {
    // Links are followed, so what is known of /dev/stdin is what is known
    // of the file it leads to, and that is no link.
    assert!(check("stdin", facts(FileKind::CharDevice, 0o620), &get_config(vec!["rutest".to_string()]).unwrap()));
    assert!(!check("stdin", facts(FileKind::CharDevice, 0o620), &get_config(vec!["rutest".to_string(), "-h".to_string()]).unwrap()));
}

#[test]
fn test_check_socket() {
    assert!(check("notify", facts(FileKind::Socket, 0o777), &get_config(vec!["rutest".to_string()]).unwrap()));
    assert!(!check("notify", facts(FileKind::Socket, 0o777), &get_config(vec!["rutest".to_string(), "-h".to_string()]).unwrap()));
}

#[test]
fn test_check_suid() {
    let c = config(&["rutest", "-u"]);
    assert!(check("su", facts(FileKind::Regular, 0o4755), &c));
    assert!(!check("ls", facts(FileKind::Regular, 0o2755), &c));
    assert!(check("ls", facts(FileKind::Regular, 0o755), &config(&["rutest"])));
}

#[test]
fn test_check_sgid() {
    let c = config(&["rutest", "-g"]);
    assert!(check("wall", facts(FileKind::Regular, 0o2755), &c));
    assert!(!check("su", facts(FileKind::Regular, 0o4755), &c));
    assert!(check("ls", facts(FileKind::Regular, 0o755), &config(&["rutest"])));
}

#[test]
fn test_check_newer() {
    let c = config(&["rutest", "-n", "stamp"]);
    assert!(c.n);
    assert_eq!(c.newer_path, Some("stamp".to_string()));
    assert_eq!(c.newer, 0);
    let c = c.with_times(Some(500), None);
    assert_eq!(c.newer, 500);
    assert_eq!(c.older, 0);
    let at = |mtime: i64| Some(FileFacts { kind: FileKind::Regular, mode: 0o644, mtime, size: 1 });
    assert!(check("f", at(501), &c));
    assert!(!check("f", at(500), &c));
    assert!(!check("f", at(499), &c));
    assert!(check("f", at(499), &config(&["rutest"])));
}

#[test]
fn test_check_older() {
    let c = config(&["rutest", "-o", "stamp"]).with_times(None, Some(500));
    assert!(c.o);
    assert_eq!(c.older_path, Some("stamp".to_string()));
    let at = |mtime: i64| Some(FileFacts { kind: FileKind::Regular, mode: 0o644, mtime, size: 1 });
    assert!(check("f", at(499), &c));
    assert!(!check("f", at(500), &c));
    assert!(!check("f", at(501), &c));
    // A stamp that was not found counts as time zero.
    let c = config(&["rutest", "-o", "stamp"]).with_times(None, None);
    assert!(!check("f", at(1), &c));
    assert!(check("f", at(-1), &c));
}

#[test]
fn test_check_readable() {
    let c = config(&["rutest", "-r"]);
    assert!(check("f", facts(FileKind::Regular, 0o004), &c));
    assert!(!check("f", facts(FileKind::Regular, 0o773), &c));
}

#[test]
fn test_check_writeable() {
    let c = config(&["rutest", "-w"]);
    assert!(check("f", facts(FileKind::Regular, 0o002), &c));
    assert!(!check("f", facts(FileKind::Regular, 0o775), &c));
}

#[test]
fn test_check_executable() {
    let c = config(&["rutest", "-x"]);
    assert!(check("f", facts(FileKind::Regular, 0o001), &c));
    assert!(!check("f", facts(FileKind::Regular, 0o776), &c));
}

#[test]
fn test_check_not_empty() {
    let c = config(&["rutest", "-s"]);
    let sized = |size: u64| Some(FileFacts { kind: FileKind::Regular, mode: 0o644, mtime: 0, size });
    assert!(check("f", sized(1), &c));
    assert!(!check("f", sized(0), &c));
    assert!(check("f", sized(0), &config(&["rutest"])));
}

#[test]
fn check_kinds_one_flag_each() {
    let kinds = [
        ("-b", FileKind::BlockDevice),
        ("-c", FileKind::CharDevice),
        ("-f", FileKind::Regular),
        ("-h", FileKind::Symlink),
        ("-p", FileKind::Fifo),
        ("-d", FileKind::Directory),
    ];
    for (flag, wanted) in kinds {
        let c = config(&["rutest", flag]);
        for (_, kind) in kinds {
            assert_eq!(check("f", facts(kind, 0o644), &c), kind == wanted);
        }
        assert!(!check("f", facts(FileKind::Socket, 0o644), &c));
        // Of a file that does not exist only the name is tested.
        assert!(check("f", None, &c));
    }
}

#[test]
fn check_all_flags_must_hold() {
    let c = config(&["rutest", "-f", "-r", "-x", "-s"]);
    assert!(check("f", facts(FileKind::Regular, 0o005), &c));
    assert!(!check("f", facts(FileKind::Regular, 0o004), &c));
    assert!(!check("f", facts(FileKind::Directory, 0o005), &c));
    assert!(!check(".f", facts(FileKind::Regular, 0o005), &c));
    let c = config(&["rutest", "-frxs"]);
    assert!(check("f", facts(FileKind::Regular, 0o005), &c));
}

#[test]
fn get_config_reads_flags_and_paths() {
    let c = config(&["rutest", "-a", "-l", "/usr/bin:/bin", "-q", "more"]);
    assert!(c.a && c.l && c.q);
    assert!(!c.b && !c.c && !c.d && !c.e && !c.f && !c.g && !c.h);
    assert!(!c.n && !c.o && !c.p && !c.r && !c.s && !c.u && !c.w && !c.x);
    assert_eq!(c.paths, args(&["/usr/bin:/bin", "more"]));
    assert_eq!(c.newer_path, None);
    assert_eq!(c.older_path, None);
    let c = config(&["rutest", "--newer", "a", "--older=b"]);
    assert!(c.n && c.o);
    assert_eq!(c.newer_path, Some("a".to_string()));
    assert_eq!(c.older_path, Some("b".to_string()));
    assert!(c.paths.is_empty());
}

#[test]
fn get_config_rejects_what_does_not_fit() {
    assert!(get_config(args(&["rutest", "-z"])).is_err());
    assert!(get_config(args(&["rutest", "-n"])).is_err());
    assert!(get_config(args(&["rutest", "-a", "-a"])).is_err());
}

#[test]
fn done_after_needs_a_pass_and_the_flag() {
    let quick = config(&["rutest", "-q"]);
    let slow = config(&["rutest"]);
    let known = facts(FileKind::Regular, 0o644);
    assert!(done_after(true, known, &quick));
    assert!(!done_after(false, known, &quick));
    assert!(!done_after(true, known, &slow));
    assert!(!done_after(true, None, &quick));
}
