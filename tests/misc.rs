use drophost::cli::{LogLevel, Opts};
use drophost::report::{unwrap_or_err, unwrap_result_or_err};
use drophost::scope::Scope;

fn opts(dry_run: bool) -> Opts {
    Opts {
        dry_run,
        check: false,
        watch: false,
        daemon: true,
        pid_file: "/run/drophost.pid".to_string(),
        backup: false,
        log_level: LogLevel::Info,
        log_file: "/var/log/drophost.log".to_string(),
    }
}

#[test]
fn paths_follow_dry_run() {
    assert_eq!(opts(true).fragment_dir(), "./output/hosts.d");
    assert_eq!(opts(false).hosts_file(), "/etc/hosts");
    assert_eq!(opts(false).backup_file(), "/etc/hosts.d/10-old-config.conf");
    assert!(opts(false).needs_root(true));
    assert!(!opts(true).needs_root(true));
    assert!(!opts(false).needs_root(false));
    assert!(opts(false).daemon_without_watch());
}

#[test]
fn failures_carry_message_and_kind() {
    assert_eq!(unwrap_or_err(Some(3), "m", true).unwrap(), 3);
    let e = unwrap_or_err::<u8>(None, "missing", false).unwrap_err();
    assert_eq!(e.message, "missing");
    assert!(!e.fatal);
    let r: Result<u8, String> = Err("io".to_string());
    let e = unwrap_result_or_err(r, "could not read", true).unwrap_err();
    assert_eq!(e.message, "could not read");
    assert!(e.fatal);
    assert_eq!(e.to_string(), "Fatal error: could not read");
    let e = unwrap_or_err::<u8>(None, "soft", false).unwrap_err();
    assert_eq!(e.to_string(), "Error: soft");
}

#[test]
fn scope_insert_overwrites_and_remove_drops() {
    let mut s = Scope::new();
    s.insert("a".to_string(), "1".to_string());
    s.insert("a".to_string(), "2".to_string());
    assert_eq!(s.get(&"a".to_string()), Some("2".to_string()));
    s.remove(&"a".to_string());
    assert_eq!(s.get(&"a".to_string()), None);
    let mut base = Scope::new();
    base.insert("k".to_string(), "old".to_string());
    base.insert("z".to_string(), "stay".to_string());
    let mut top = Scope::new();
    top.insert("k".to_string(), "new".to_string());
    base.overlay(&top);
    assert_eq!(base.get(&"k".to_string()), Some("new".to_string()));
    assert_eq!(base.get(&"z".to_string()), Some("stay".to_string()));
}
