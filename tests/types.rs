use drophost::types::{Host, Hosts};

fn host(ip: &str, hostname: &str) -> Host {
    Host { ip: ip.to_string(), hostname: hostname.to_string() }
}

#[test]
fn test_parse_entry() {
    let entry = "127.0.0.1\tlocalhost";
    let host = Host::parse_entry(entry).unwrap();
    assert_eq!(host.hostname, "localhost");
    assert_eq!(host.ip, "127.0.0.1");
}

#[test]
fn test_parse_entry_invalid() {
    let entry = "888.888.888.888";
    let host = Host::parse_entry(entry);
    assert!(host.is_none());
}

#[test]
fn parse_entry_rejects_three_words() {
    assert!(Host::parse_entry("1.2.3.4 a b").is_none());
    assert!(Host::parse_entry("").is_none());
}

#[test]
fn parse_entry_skips_surrounding_whitespace() {
    let h = Host::parse_entry("  10.0.0.1 \t  box  ").unwrap();
    assert_eq!(h, host("10.0.0.1", "box"));
}

#[test]
fn host_renders_with_tab() {
    assert_eq!(host("127.0.0.1", "localhost").to_string(), "127.0.0.1\tlocalhost");
}

#[test]
fn hosts_render_one_per_line() {
    let hs = Hosts::from(vec![host("1.1.1.1", "a"), host("2.2.2.2", "b")]);
    assert_eq!(hs.to_string(), "1.1.1.1\ta\n2.2.2.2\tb");
    assert_eq!(Hosts::new().to_string(), "");
}

#[test]
fn hosts_extend_keeps_order_and_duplicates() {
    let mut a = Hosts::from(vec![host("1.1.1.1", "a")]);
    let b = Hosts::from(vec![host("1.1.1.1", "a"), host("2.2.2.2", "b")]);
    a.extend(&b);
    assert_eq!(a.hosts, vec![host("1.1.1.1", "a"), host("1.1.1.1", "a"), host("2.2.2.2", "b")]);
}

#[test]
fn hosts_remove_drops_every_equal_entry() {
    let mut a = Hosts::new();
    a.add(host("1.1.1.1", "a"));
    a.add(host("2.2.2.2", "b"));
    a.add(host("1.1.1.1", "a"));
    a.add(host("1.1.1.1", "c"));
    a.remove(&host("1.1.1.1", "a"));
    assert_eq!(a.hosts, vec![host("2.2.2.2", "b"), host("1.1.1.1", "c")]);
}

#[test]
fn hosts_file_has_header_and_line_endings() {
    let hs = Hosts::from(vec![host("1.1.1.1", "a"), host("2.2.2.2", "b")]);
    assert_eq!(
        drophost::types::render_hosts_file(&hs),
        "# Generated automatically by drophost\n1.1.1.1\ta\n2.2.2.2\tb\n"
    );
    assert_eq!(drophost::types::render_hosts_file(&Hosts::new()), "# Generated automatically by drophost\n");
}
