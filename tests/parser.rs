use drophost::parser::{DirReader, FileReader, Problem};
use drophost::scope::Scope;
use drophost::types::Host;

fn host(ip: &str, hostname: &str) -> Host {
    Host { ip: ip.to_string(), hostname: hostname.to_string() }
}

fn read(text: &str, vars: Scope) -> FileReader {
    let mut file = FileReader::new("fragment.conf".to_string(), Some(text.to_string()), vars);
    file.parse_all();
    file
}

const STD_FILE: &str = "# A fragment using each directive
#=> read by the tests
127.0.0.1 localhost
set dns = 8.8.8.8
$dns goog
if $dns == 8.8.8.8
1234.1234.1234.1234 stacked
else
9.9.9.9 should_not_appear
end
if a != a
2.2.2.2 hidden
end
try var dns
1.1.1.1 should_appear
end
";

#[test]
fn test_parse_file() {
    let file = read(STD_FILE, Scope::new());
    let expected_output = vec![
        Host { ip: "127.0.0.1".to_string(), hostname: "localhost".to_string() },
        Host { ip: "8.8.8.8".to_string(), hostname: "goog".to_string() },
        Host { ip: "1234.1234.1234.1234".to_string(), hostname: "stacked".to_string() },
        Host { ip: "1.1.1.1".to_string(), hostname: "should_appear".to_string() },
    ];
    assert_eq!(file.hosts.hosts, expected_output);
    assert_eq!(file.warnings, vec![" read by the tests".to_string()]);
}

#[test]
fn test_fail_and_abort() {
    let file = read("127.0.0.1 first\n10.0.0.1 second\nbroken\n", Scope::new());
    assert_eq!(file.hosts.hosts.len(), 2);
}

#[test]
fn malformed_host_line_is_skipped() {
    let file = read("1.1.1.1 a\nbroken\n2.2.2.2 b\n", Scope::new());
    assert_eq!(file.hosts.hosts, vec![host("1.1.1.1", "a"), host("2.2.2.2", "b")]);
}

#[test]
fn example_city() {
    let text = "set city = nyc\nif $city == nyc\n127.0.0.1 local1\nelse\n127.0.0.1 local2\nend\n10.0.0.1 $city\n";
    let file = read(text, Scope::new());
    assert_eq!(file.hosts.hosts, vec![host("127.0.0.1", "local1"), host("10.0.0.1", "nyc")]);
}

#[test]
fn same_variable_twice_in_one_line() {
    let text = "set x = one\n$x $x\n";
    let file = read(text, Scope::new());
    assert_eq!(file.hosts.hosts, vec![host("one", "one")]);
}

#[test]
fn unresolved_variable_is_empty() {
    let file = read("10.0.0.1 $missing\n", Scope::new());
    assert_eq!(file.hosts.hosts, vec![host("10.0.0.1", "")]);
}

#[test]
fn equal_operands_compare() {
    let text = "if $nope == $nope\n1.1.1.1 eq\nend\nif $nope != $nope\n2.2.2.2 ne\nend\nif abc == abc\n3.3.3.3 lit\nend\n";
    let file = read(text, Scope::new());
    assert_eq!(file.hosts.hosts, vec![host("1.1.1.1", "eq"), host("3.3.3.3", "lit")]);
}

#[test]
fn unknown_operator_and_short_condition_are_false() {
    let text = "if a <> a\n1.1.1.1 x\nend\nif a ==\n2.2.2.2 y\nend\n";
    let file = read(text, Scope::new());
    assert!(file.hosts.hosts.is_empty());
}

#[test]
fn false_branch_changes_nothing() {
    let text = "if a == b\nset k = v\n1.1.1.1 hidden\nend\nset k = v\n1.1.1.1 shown\n";
    let mut file = FileReader::new("f".to_string(), Some(text.to_string()), Scope::new());
    for _ in 0..4 {
        assert!(file.next());
    }
    assert!(file.hosts.hosts.is_empty());
    assert!(!file.vars.contains_key(&"k".to_string()));
    file.parse_all();
    assert_eq!(file.vars.get(&"k".to_string()), Some("v".to_string()));
    assert_eq!(file.hosts.hosts, vec![host("1.1.1.1", "shown")]);
}

#[test]
fn nested_block_follows_innermost_condition() {
    // An `if` inside a false branch is skipped, so the first `end` closes the outer block.
    let text = "if a == b\nif c == c\n1.1.1.1 inner\nend\n2.2.2.2 outer\nend\n3.3.3.3 after\n";
    let file = read(text, Scope::new());
    assert_eq!(file.hosts.hosts, vec![host("2.2.2.2", "outer"), host("3.3.3.3", "after")]);
    // A block opened inside a true one governs visibility alone until its `end`.
    let text = "if a == a\nif c == d\n1.1.1.1 inner\nend\n2.2.2.2 outer\nend\n3.3.3.3 after\n";
    let file = read(text, Scope::new());
    assert_eq!(file.hosts.hosts, vec![host("2.2.2.2", "outer"), host("3.3.3.3", "after")]);
}

#[test]
fn try_probes() {
    let text = "10.0.0.1 known\ntry has known\n1.1.1.1 has_yes\nend\ntry has unknown\n1.1.1.2 has_no\nend\ntry var nothing\n1.1.1.3 var_no\nend\ntry bogus x\n1.1.1.4 bogus\nend\ntry file /\n1.1.1.5 root_exists\nend\ntry file /no/such/path/anywhere\n1.1.1.6 missing\nend\n";
    let file = read(text, Scope::new());
    assert_eq!(
        file.hosts.hosts,
        vec![host("10.0.0.1", "known"), host("1.1.1.1", "has_yes"), host("1.1.1.5", "root_exists")]
    );
}

#[test]
fn set_and_unset() {
    let text = "set a = 1\nset b=2\nset broken\nunset a\n";
    let file = read(text, Scope::new());
    assert!(!file.vars.contains_key(&"a".to_string()));
    assert_eq!(file.vars.get(&"b".to_string()), Some("2".to_string()));
    assert!(!file.vars.contains_key(&"broken".to_string()));
}

#[test]
fn crlf_lines_and_else_toggle() {
    let text = "if x == y\r\n1.1.1.1 a\r\nelse\r\n2.2.2.2 b\r\nelse\r\n3.3.3.3 c\r\nend\r\n";
    let file = read(text, Scope::new());
    assert_eq!(file.hosts.hosts, vec![host("2.2.2.2", "b")]);
    assert_eq!(file.lines.len(), 7);
    assert_eq!(file.lines[0], "if x == y");
}

#[test]
fn later_fragment_sees_earlier_one_in_name_order() {
    let entries = vec![
        ("hosts.d/20-b.conf".to_string(), Some("10.0.0.2 $x\n".to_string())),
        ("hosts.d/10-a.conf".to_string(), Some("set x = 1\n".to_string())),
    ];
    let mut dir = DirReader::new("hosts.d".to_string(), entries, vec![]);
    assert_eq!(dir.files[0].0, "hosts.d/10-a.conf");
    assert_eq!(dir.files[1].0, "hosts.d/20-b.conf");
    dir.parse_all();
    assert_eq!(dir.get_hosts().hosts, vec![host("10.0.0.2", "1")]);
}

#[test]
fn last_write_wins_across_fragments() {
    let entries = vec![
        ("d/1.conf".to_string(), Some("set v = first\n".to_string())),
        ("d/2.conf".to_string(), Some("set v = second\n1.1.1.1 $v\n".to_string())),
        ("d/3.conf".to_string(), Some("2.2.2.2 $v\n".to_string())),
    ];
    let mut dir = DirReader::new("d".to_string(), entries, vec![]);
    dir.parse_all();
    assert_eq!(dir.hosts.hosts, vec![host("1.1.1.1", "second"), host("2.2.2.2", "second")]);
    assert_eq!(dir.vars.get(&"v".to_string()), Some("second".to_string()));
}

#[test]
fn unset_does_not_reach_back_across_fragments() {
    let entries = vec![
        ("d/1.conf".to_string(), Some("set v = kept\n".to_string())),
        ("d/2.conf".to_string(), Some("unset v\n".to_string())),
        ("d/3.conf".to_string(), Some("1.1.1.1 $v\n".to_string())),
    ];
    let mut dir = DirReader::new("d".to_string(), entries, vec![]);
    dir.parse_all();
    assert_eq!(dir.hosts.hosts, vec![host("1.1.1.1", "kept")]);
}

#[test]
fn unreadable_fragment_contributes_nothing() {
    let entries = vec![
        ("d/1.conf".to_string(), Some("set v = a\n1.1.1.1 one\n".to_string())),
        ("d/2.conf".to_string(), None),
        ("d/3.conf".to_string(), Some("3.3.3.3 $v\n".to_string())),
    ];
    let mut dir = DirReader::new("d".to_string(), entries, vec![]);
    dir.parse_all();
    assert_eq!(dir.hosts.hosts, vec![host("1.1.1.1", "one"), host("3.3.3.3", "a")]);
    assert_eq!(dir.file_index, 3);
}

#[test]
fn hosts_keep_fragment_then_line_order() {
    let entries = vec![
        ("d/b".to_string(), Some("3.3.3.3 c\n1.1.1.1 a\n".to_string())),
        ("d/a".to_string(), Some("1.1.1.1 a\n2.2.2.2 b\n".to_string())),
    ];
    let mut dir = DirReader::new("d".to_string(), entries, vec![]);
    dir.parse_all();
    assert_eq!(
        dir.hosts.hosts,
        vec![host("1.1.1.1", "a"), host("2.2.2.2", "b"), host("3.3.3.3", "c"), host("1.1.1.1", "a")]
    );
}

#[test]
fn environment_is_seen_with_prefix() {
    let env = vec![("HOME".to_string(), "/root".to_string())];
    let entries = vec![("d/a".to_string(), Some("1.1.1.1 $env_HOME\n".to_string()))];
    let mut dir = DirReader::new("d".to_string(), entries, env);
    dir.parse_all();
    assert_eq!(dir.hosts.hosts, vec![host("1.1.1.1", "/root")]);
}

#[test]
fn reader_hands_out_fragments_then_none() {
    let entries = vec![("d/a".to_string(), Some("1.1.1.1 a\n".to_string()))];
    let mut dir = DirReader::new("d".to_string(), entries, vec![]);
    let file = dir.next().unwrap();
    assert_eq!(file.path, "d/a");
    assert_eq!(file.lines, vec!["1.1.1.1 a".to_string()]);
    assert!(dir.next().is_none());
}

#[test]
fn substitution_of_tokens() {
    let mut vars = Scope::new();
    vars.insert("x".to_string(), "val".to_string());
    let mut file = FileReader::new("f".to_string(), Some(String::new()), vars);
    assert_eq!(file.parse_var_or_literal("$x"), "val");
    assert_eq!(file.parse_var_or_literal("$$x"), "val");
    assert_eq!(file.parse_var_or_literal("x"), "x");
    assert_eq!(file.parse_var_or_literal("$y"), "");
    assert!(file.parse_conditional("$x == val"));
    assert!(!file.parse_conditional("$x != val"));
    assert!(file.parse_try("var x", false));
    assert!(file.parse_try("file whatever", true));
    assert!(!file.parse_try("file whatever", false));
}

#[test]
fn repeated_sigils_name_the_bare_variable() {
    let mut vars = Scope::new();
    vars.insert("$x".to_string(), "w".to_string());
    let mut file = FileReader::new("f".to_string(), Some(String::new()), vars);
    assert_eq!(file.parse_var_or_literal("$$x"), "");
    assert!(matches!(&file.problems[..], [Problem::UnresolvedVariable(n)] if n == "x"));
}

#[test]
fn repeated_directive_words_are_stripped() {
    let file = read("set set a = 1
if if $a == 1
1.1.1.1 shown
end
", Scope::new());
    assert_eq!(file.vars.get(&"a".to_string()), Some("1".to_string()));
    assert_eq!(file.hosts.hosts, vec![host("1.1.1.1", "shown")]);
}

#[test]
fn line_problems_are_recorded_in_order() {
    let text = "broken
set nothing
if a
end
if a <> b
end
try x
end
try bogus x
end
$u $v
";
    let file = read(text, Scope::new());
    let kinds: Vec<String> = file.problems.iter().map(|p| format!("{:?}", p)).collect();
    assert_eq!(
        kinds,
        vec![
            "MissingHostname",
            "InvalidAssignment",
            "InvalidConditional",
            "InvalidOperator(\"<>\")",
            "InvalidTry",
            "UnknownProbe(\"bogus\")",
            "UnresolvedVariable(\"v\")",
            "UnresolvedVariable(\"u\")",
        ]
    );
    assert_eq!(file.hosts.hosts, vec![host("", "")]);
}

#[test]
fn false_branch_records_no_problem() {
    let file = read("if a == b
broken
$u x
end
", Scope::new());
    assert!(file.problems.is_empty());
}

#[test]
fn reading_past_the_end_changes_nothing() {
    let mut file = FileReader::new("f".to_string(), Some("1.1.1.1 a\n".to_string()), Scope::new());
    file.line_index = 5;
    assert!(!file.parse_current_line());
    assert!(!file.next());
    file.parse_all();
    assert!(file.hosts.hosts.is_empty());
    assert_eq!(file.line_index, 5);
}

#[test]
fn ping_takes_the_outside_answer() {
    let text = "try ping 10.0.0.1\n1.1.1.1 up\nend\n";
    let mut file = FileReader::new("f".to_string(), Some(text.to_string()), Scope::new());
    file.line_index = 1;
    assert_eq!(file.outside_probe(), Some(("ping".to_string(), "10.0.0.1".to_string())));
    file.apply_line(true);
    file.parse_all();
    assert_eq!(file.hosts.hosts, vec![host("1.1.1.1", "up")]);
    let file = read(text, Scope::new());
    assert!(file.hosts.hosts.is_empty());
    assert!(file.problems.is_empty());
}
