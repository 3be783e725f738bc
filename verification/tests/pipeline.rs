use qgrep::errors::QError;
use qgrep::matcher::CompiledMatcher;
use qgrep::processor::format_matches;
use qgrep::processor::process_line;
use qgrep::processor::process_lines;
use qgrep::resolver::parse_rules_filenames;

fn strings(items: &[&str]) -> Vec<String> {
    items.iter().map(|s| s.to_string()).collect()
}

#[test]
fn resolve_dedups_and_keeps_first_order() {
    let paths = parse_rules_filenames("ips,urls,ips", "/etc/q/rules");
    assert_eq!(paths, strings(&["/etc/q/rules/ips", "/etc/q/rules/urls"]));
}

#[test]
fn resolve_single_name() {
    let paths = parse_rules_filenames("ips", "/etc/q/rules");
    assert_eq!(paths, strings(&["/etc/q/rules/ips"]));
}

#[test]
fn resolve_trailing_comma_gives_empty_segment() {
    let paths = parse_rules_filenames("ips,", "/etc/q/rules");
    assert_eq!(paths, strings(&["/etc/q/rules/ips", "/etc/q/rules/"]));
}

#[test]
fn resolve_size_is_at_most_the_number_of_names() {
    let paths = parse_rules_filenames("a,b,a,b,a", "/r");
    assert!(1 <= paths.len() && paths.len() <= 5);
    assert_eq!(paths, strings(&["/r/a", "/r/b"]));
}

#[test]
fn literal_rules_never_act_as_metacharacters() {
    let m = CompiledMatcher::compile(&strings(&["abc", "a.c"]), false).unwrap();
    let found = m.match_line("xx abc yy a.c zz");
    assert_eq!(found, strings(&["abc", "a.c"]));
    // "a.c" is escaped: it must not match "abc" or "aXc".
    assert_eq!(m.match_line("zz aXc zz"), strings(&[] as &[&str]));
    assert_eq!(m.match_line("abc"), strings(&["abc"]));
}

#[test]
fn case_insensitive_rule_matches_other_case() {
    let m = CompiledMatcher::compile(&strings(&["Hello"]), true).unwrap();
    assert_eq!(m.match_line("say hello now"), strings(&["hello"]));
}

#[test]
fn case_sensitive_rule_wants_exact_case() {
    let m = CompiledMatcher::compile(&strings(&["Hello"]), false).unwrap();
    assert_eq!(m.match_line("say hello now"), strings(&[] as &[&str]));
    assert_eq!(m.match_line("say Hello now"), strings(&["Hello"]));
}

#[test]
fn same_line_mode_joins_matches() {
    let m = CompiledMatcher::compile(&strings(&["foo", "bar"]), false).unwrap();
    assert_eq!(process_line(&m, "xx foo yy bar zz", true), strings(&["foo bar"]));
}

#[test]
fn per_line_mode_prints_each_match() {
    let m = CompiledMatcher::compile(&strings(&["foo", "bar"]), false).unwrap();
    assert_eq!(process_line(&m, "xx foo yy bar zz", false), strings(&["foo", "bar"]));
}

#[test]
fn zero_matches_emit_zero_lines() {
    let m = CompiledMatcher::compile(&strings(&["foo"]), false).unwrap();
    assert_eq!(process_line(&m, "nothing here", true), strings(&[] as &[&str]));
    assert_eq!(process_line(&m, "nothing here", false), strings(&[] as &[&str]));
}

#[test]
fn empty_rule_lines_are_dropped() {
    let with_empty = CompiledMatcher::compile(&strings(&["", "abc", ""]), false).unwrap();
    let without = CompiledMatcher::compile(&strings(&["abc"]), false).unwrap();
    assert_eq!(with_empty.match_line("x abc y"), without.match_line("x abc y"));
    assert_eq!(with_empty.match_line("x abc y"), strings(&["abc"]));
}

#[test]
fn all_empty_rules_match_nothing() {
    let m = CompiledMatcher::compile(&strings(&["", ""]), false).unwrap();
    assert_eq!(m.match_line("anything at all"), strings(&[] as &[&str]));
    let none = CompiledMatcher::compile(&strings(&[] as &[&str]), false).unwrap();
    assert_eq!(none.match_line("anything at all"), strings(&[] as &[&str]));
}

#[test]
fn input_lines_are_trimmed_before_matching() {
    // The rule begins with a space, so whether trimming happened is visible.
    let m = CompiledMatcher::compile(&strings(&[" x"]), false).unwrap();
    assert_eq!(process_line(&m, "  xq", false), strings(&[] as &[&str]));
    assert_eq!(process_line(&m, "a xq", false), strings(&[" x"]));
    // Trailing white space is trimmed too: without the trim the line
    // below would end in a match of "x ".
    let t = CompiledMatcher::compile(&strings(&["x "]), false).unwrap();
    assert_eq!(process_line(&t, "qx ", false), strings(&[] as &[&str]));
    assert_eq!(process_line(&t, "qx q", false), strings(&["x "]));
}

#[test]
fn matches_keep_duplicates_and_order() {
    let m = CompiledMatcher::compile(&strings(&["ab"]), false).unwrap();
    assert_eq!(m.match_line("ab ab ab"), strings(&["ab", "ab", "ab"]));
}

#[test]
fn running_twice_gives_identical_output() {
    let rules = strings(&["foo", "b.r"]);
    let input = strings(&["xx foo yy", "nothing", "b.r and foo"]);
    let m1 = CompiledMatcher::compile(&rules, false).unwrap();
    let m2 = CompiledMatcher::compile(&rules, false).unwrap();
    let out1 = process_lines(&m1, &input, false);
    let out2 = process_lines(&m2, &input, false);
    assert_eq!(out1, out2);
    assert_eq!(out1, strings(&["foo", "b.r", "foo"]));
}

#[test]
fn whole_run_output_in_same_line_mode() {
    let m = CompiledMatcher::compile(&strings(&["foo", "bar"]), false).unwrap();
    let input = strings(&["foo then bar", "none", "bar"]);
    assert_eq!(process_lines(&m, &input, true), strings(&["foo bar", "bar"]));
}

#[test]
fn format_joins_or_splits() {
    let ms = strings(&["a", "b", "c"]);
    assert_eq!(format_matches(&ms, true), strings(&["a b c"]));
    assert_eq!(format_matches(&ms, false), strings(&["a", "b", "c"]));
    assert_eq!(format_matches(&strings(&[] as &[&str]), true), strings(&[] as &[&str]));
}

#[test]
fn error_messages_name_their_cause() {
    let e = QError::FileAccess { path: "/r/ips".to_string() };
    assert_eq!(e.message(), "cannot open rule file /r/ips".to_string());
    let e = QError::LineRead { path: "/r/ips".to_string() };
    assert_eq!(e.message(), "cannot read a line from rule file /r/ips".to_string());
    let e = QError::PatternCompile { message: "boom".to_string() };
    assert_eq!(e.message(), "cannot compile rule pattern: boom".to_string());
    let e = QError::InputOpen { path: "/data/in".to_string() };
    assert_eq!(e.message(), "cannot open input file /data/in".to_string());
    assert_eq!(QError::InputRead.message(), "cannot read a line from the input".to_string());
}

#[test]
fn escaped_specials_match_themselves() {
    let m = CompiledMatcher::compile(&strings(&["a+b", "(c)"]), false).unwrap();
    assert_eq!(m.match_line("x a+b y (c) z"), strings(&["a+b", "(c)"]));
    assert_eq!(m.match_line("aab ab c"), strings(&[] as &[&str]));
}
