use clusterbanned::firewall::{
    check_region_id, each_ip, find_region, first_commands, has_cluster, ip_rule_name, judge_add,
    rule_name, select_missing, select_targets, AddVerdict, Cluster, Command, Directory,
    RegionEntry, Reply, Target,
};
use clusterbanned::legacy::{
    append_single_block, block_pattern, rewrite_single_block, strip_matches, RewriteError,
};
use clusterbanned::listing::parse_blocked_domains_from_text;
use clusterbanned::mirror::{
    block_report, describe_deleted, is_managed_rule_line, managed_prefixes, rule_to_delete,
    unblock_report, Tally,
};
use clusterbanned::orchestrator::{combine, mode_for};
use clusterbanned::ping::{
    classify_failure, parse_ping_time, parse_whole, pick_time, timeout_seconds, PingFailure,
    TimeShown,
};
use clusterbanned::process::{describe_killed, process_matches, process_matches_any, text_mentions};
use clusterbanned::reconciler::{Change, Clearing, Mode};
use clusterbanned::report::{describe_change, describe_clearing, render_decimal};
use clusterbanned::store::{
    backup_path, describe_failure, first_found, hosts_paths, next_step, pick_path, Failure, Stage,
    Step,
};
use clusterbanned::text::{
    blank_wide_spaces, collapse_blank_runs, end_with_line_feed, find, includes, is_space_byte,
    led_len, matches_at, split_fields, starts_with, strip, to_lower, trim, wide_space_len,
};

fn text(bytes: &[u8]) -> String {
    String::from_utf8(bytes.to_vec()).unwrap()
}

fn list(items: &[&str]) -> Vec<Vec<u8>> {
    items.iter().map(|s| s.as_bytes().to_vec()).collect()
}

fn strings(items: &[Vec<u8>]) -> Vec<String> {
    items.iter().map(|s| text(s)).collect()
}

#[test]
fn find_gives_the_first_place_at_or_after_the_start() {
    assert_eq!(find(b"abcabc", b"bc", 0), Some(1));
    assert_eq!(find(b"abcabc", b"bc", 1), Some(1));
    assert_eq!(find(b"abcabc", b"bc", 2), Some(4));
    assert_eq!(find(b"abcabc", b"bc", 5), None);
    assert_eq!(find(b"abcabc", b"bc", 60), None);
    assert_eq!(find(b"abc", b"abcd", 0), None);
    assert_eq!(find(b"abc", b"", 0), Some(0));
    assert_eq!(find(b"abc", b"", 3), Some(3));
    assert_eq!(find(b"", b"a", 0), None);
    assert!(matches_at(b"abc", b"bc", 1));
    assert!(!matches_at(b"abc", b"bc", 2));
    assert!(starts_with(b"abc", b"ab"));
    assert!(!starts_with(b"abc", b"bc"));
    assert!(includes(b"abc", b"c"));
    assert!(!includes(b"abc", b"d"));
}

#[test]
fn white_space_of_one_byte() {
    for b in [b' ', b'\t', b'\n', 0x0b, 0x0c, b'\r'] {
        assert!(is_space_byte(b));
    }
    for b in [0u8, 8, 14, 31, 33, b'a', 0xa0, 0x85] {
        assert!(!is_space_byte(b));
    }
    assert_eq!(text(trim(b" \t\r\n x y \x0b\x0c\n")), "x y");
    assert_eq!(text(trim(b"   ")), "");
    assert_eq!(text(trim(b"")), "");
    assert_eq!(text(trim(b"xy")), "xy");
}

#[test]
fn white_space_is_what_the_standard_library_counts_as_such() {
    for code in 0u32..0x3100 {
        let Some(c) = char::from_u32(code) else { continue };
        let written = c.to_string();
        let bytes = written.as_bytes();
        let here = wide_space_len(bytes, 0);
        if bytes.len() == 1 {
            assert_eq!(is_space_byte(bytes[0]), c.is_whitespace(), "U+{:04X}", code);
            assert_eq!(here, 0);
        } else if c.is_whitespace() {
            assert_eq!(here, bytes.len(), "U+{:04X}", code);
        } else {
            assert_eq!(here, 0, "U+{:04X}", code);
        }
    }
    assert_eq!(wide_space_len(b"a", 5), 0);
    assert_eq!(wide_space_len(&[0xe2, 0x80], 0), 0);
    assert_eq!(wide_space_len(&[0xc2], 0), 0);
}

#[test]
fn wide_white_space_is_written_over_and_stripped() {
    let line = "\u{3000}0.0.0.0\u{a0}a.com\u{2003}é\u{85}";
    let flat = blank_wide_spaces(line.as_bytes());
    assert_eq!(flat.len(), line.len());
    assert_eq!(text(&flat), "   0.0.0.0  a.com   é  ");
    assert_eq!(strings(&split_fields(&flat)), vec!["0.0.0.0", "a.com", "é"]);
    assert_eq!(text(strip(line.as_bytes())), "0.0.0.0\u{a0}a.com\u{2003}é");
    assert_eq!(text(strip("\u{2028} x \t".as_bytes())), "x");
    assert_eq!(text(strip("\u{a0}\u{a0}".as_bytes())), "");
    assert_eq!(text(strip(b"")), "");
    assert_eq!(text(strip("é".as_bytes())), "é");
}

#[test]
fn line_feeds_at_the_ends() {
    assert_eq!(led_len(b"\n\n a\n"), 2);
    assert_eq!(led_len(b" \n"), 0);
    assert_eq!(led_len(b""), 0);
    assert_eq!(text(&end_with_line_feed(b"a\n\n\n")), "a\n");
    assert_eq!(text(&end_with_line_feed(b"a ")), "a \n");
    assert_eq!(text(&end_with_line_feed(b"")), "\n");
    assert_eq!(text(&end_with_line_feed(b"\n\n")), "\n");
}

#[test]
fn fields_are_the_runs_between_white_space() {
    assert_eq!(strings(&split_fields(b"  0.0.0.0\t a.com   # c  ")), vec!["0.0.0.0", "a.com", "#", "c"]);
    assert_eq!(strings(&split_fields(b"one")), vec!["one"]);
    assert!(split_fields(b" \t ").is_empty());
    assert!(split_fields(b"").is_empty());
}

#[test]
fn lower_case_is_that_of_the_standard_library() {
    let mut set = clusterbanned::names::DomainSet::new();
    assert!(set.insert(b"AbC.Example-09_Z"));
    assert!(set.insert("É.c".as_bytes()));
    assert!(!set.insert("é.c".as_bytes()));
    assert!(set.insert("ΑΒΓ.gr".as_bytes()));
    assert!(!set.insert("αβγ.gr".as_bytes()));
    assert_eq!(strings(&set.to_vec()), vec!["abc.example-09_z", "é.c", "αβγ.gr"]);
    assert!(set.contains("é.c".as_bytes()));
    assert!(!set.contains("É.c".as_bytes()));
    assert!(set.insert_as_written("É.c".as_bytes().to_vec()));
    assert!(set.contains("É.c".as_bytes()));
}

#[test]
fn lower_case_of_bytes_that_are_a_text_and_of_bytes_that_are_none() {
    assert_eq!(text(&to_lower("AbC.É-Ω_09".as_bytes())), "abc.é-ω_09");
    assert_eq!(text(&to_lower("İ".as_bytes())), "İ".to_lowercase());
    assert_eq!(to_lower(b""), Vec::<u8>::new());
    assert_eq!(to_lower(&[0x41, 0xff]), vec![0x41, 0xff]);
    assert_eq!(to_lower(&[0xc3]), vec![0xc3]);
}

#[test]
fn names_of_a_hosts_file_follow_the_standard_library() {
    assert_eq!(
        strings(&parse_blocked_domains_from_text("a É.c\n0.0.0.0\u{a0}Wide.Example\u{3000}X.y\n".as_bytes())),
        vec!["wide.example", "x.y", "é.c"]
    );
    assert_eq!(
        strings(&parse_blocked_domains_from_text("\u{2003}# 0.0.0.0 hidden.example\n".as_bytes())),
        Vec::<String>::new()
    );
}

#[test]
fn collapse_leaves_at_most_one_blank_line() {
    assert_eq!(text(&collapse_blank_runs(b"a\n\n\nb")), "a\n\nb");
    assert_eq!(text(&collapse_blank_runs(b"a\n\n\n\n\n\nb\n\n\n")), "a\n\nb\n\n");
    assert_eq!(text(&collapse_blank_runs(b"\n\n\n\na")), "\n\na");
    assert_eq!(text(&collapse_blank_runs(b"a\n\nb\nc")), "a\n\nb\nc");
    assert_eq!(text(&collapse_blank_runs(b"")), "");
}

#[test]
fn decimal_digits_of_numbers() {
    assert_eq!(text(&render_decimal(0)), "0");
    assert_eq!(text(&render_decimal(7)), "7");
    assert_eq!(text(&render_decimal(10)), "10");
    assert_eq!(text(&render_decimal(1234567890)), "1234567890");
    assert_eq!(text(&render_decimal(u64::MAX)), "18446744073709551615");
}

#[test]
fn changes_are_told_in_words() {
    let path = b"/etc/hosts";
    assert_eq!(
        text(&describe_change(Change::Blocked { count: 12 }, path)),
        "Successfully blocked 12 domains (wrote to /etc/hosts)"
    );
    assert_eq!(
        text(&describe_change(Change::BlockRemoved, path)),
        "Removed clusterbanned block (wrote to /etc/hosts)"
    );
    assert_eq!(
        text(&describe_change(Change::EntriesRemoved { removed: 2, left: 30 }, path)),
        "Removed 2 entries, left 30 entries (wrote to /etc/hosts)"
    );
    assert_eq!(
        text(&describe_change(Change::NothingToUpdate, path)),
        "No cluster entries to update"
    );
    assert_eq!(
        text(&describe_change(Change::NoMatchingEntries, path)),
        "No matching entries to remove"
    );
}

#[test]
fn clearing_is_told_in_words() {
    let done = Clearing { removed: 3, halted: false, content: None };
    assert_eq!(text(&describe_clearing(&done)), "Successfully removed 3 block(s) from hosts");
    let none = Clearing { removed: 0, halted: false, content: None };
    assert_eq!(text(&describe_clearing(&none)), "No clusterbanned blocks found in hosts");
    let stopped = Clearing { removed: 1, halted: true, content: None };
    assert_eq!(
        text(&describe_clearing(&stopped)),
        "Successfully removed 1 block(s) from hosts\nStopped at a marker without an end marker; it was left in place"
    );
}

#[test]
fn hosts_file_is_looked_for_in_two_places() {
    let paths = hosts_paths();
    assert_eq!(paths[0], "C:\\Windows\\System32\\drivers\\etc\\hosts");
    assert_eq!(paths[1], "/etc/hosts");
    assert_eq!(pick_path(&[false, true]), 1);
    assert_eq!(pick_path(&[true, true]), 0);
    assert_eq!(pick_path(&[false, false]), 0);
    assert_eq!(pick_path(&[]), 0);
    assert_eq!(first_found(&[false, false, true, true]), Some(2));
    assert_eq!(first_found(&[false, false]), None);
}

#[test]
fn backup_is_named_by_path_and_time() {
    assert_eq!(
        text(&backup_path(b"/etc/hosts", 1700000000)),
        "/etc/hosts.clusterbanned.bak.1700000000"
    );
    assert_eq!(text(&backup_path(b"hosts", 0)), "hosts.clusterbanned.bak.0");
}

#[test]
fn backup_comes_before_the_write_and_its_failure_ends_all() {
    assert_eq!(next_step(Stage::Begin, false, false, true), Step::ReadHosts);
    assert_eq!(next_step(Stage::Begin, true, true, false), Step::ReadHosts);
    assert_eq!(next_step(Stage::ReadTried, true, true, false), Step::Fail(Failure::NotFound));
    assert_eq!(next_step(Stage::ReadTried, false, true, true), Step::Succeed);
    assert_eq!(next_step(Stage::ReadTried, true, true, true), Step::WriteBackup);
    assert_eq!(next_step(Stage::ReadTried, true, false, true), Step::WriteHosts);
    assert_eq!(next_step(Stage::BackupTried, true, true, true), Step::WriteHosts);
    assert_eq!(
        next_step(Stage::BackupTried, true, true, false),
        Step::Fail(Failure::BackupFailed)
    );
    assert_eq!(next_step(Stage::WriteTried, true, true, true), Step::Succeed);
    assert_eq!(
        next_step(Stage::WriteTried, true, false, false),
        Step::Fail(Failure::PermissionDenied)
    );
}

#[test]
fn failures_are_told_in_words() {
    assert_eq!(
        text(&describe_failure(Failure::PermissionDenied, b"/etc/hosts", b"Permission denied (os error 13)")),
        "failed to write hosts file (/etc/hosts): Permission denied (os error 13). Try running the app with elevated privileges"
    );
    assert_eq!(
        text(&describe_failure(Failure::NotFound, b"/etc/hosts", b"No such file")),
        "failed to read hosts file (/etc/hosts): No such file"
    );
    assert_eq!(
        text(&describe_failure(Failure::InvalidRequest, b"", b"missing required key blocked_domains")),
        "invalid request: missing required key blocked_domains"
    );
    assert_eq!(
        text(&describe_failure(Failure::BackupFailed, b"/etc/hosts.clusterbanned.bak.5", b"disk full")),
        "failed to write backup /etc/hosts.clusterbanned.bak.5: disk full"
    );
    assert_eq!(
        text(&describe_failure(Failure::PartialFailure, b"", b"2 of 5")),
        "some names were passed over or failed: 2 of 5"
    );
    assert_eq!(
        text(&describe_failure(Failure::Unavailable, b"/etc/hosts", b"whatever")),
        "hosts file not found or unreadable"
    );
}

#[test]
fn an_unread_hosts_file_is_unavailable_and_no_mismatch() {
    let nothing = clusterbanned::consistency::Selection { regions: vec![] };
    let unread = clusterbanned::consistency::check(None, &nothing);
    assert_eq!(unread.failure(), Some(Failure::Unavailable));
    assert!(!unread.mismatch);
    let read = clusterbanned::consistency::check(Some(b"127.0.0.1 localhost\n"), &nothing);
    assert_eq!(read.failure(), None);
}

#[test]
fn a_pattern_that_is_none_is_turned_down() {
    for pattern in ["(", "["] {
        let said = regex::bytes::Regex::new(pattern).unwrap_err().to_string();
        assert_eq!(
            strip_matches(pattern, b"abc"),
            Err(RewriteError::BadPattern { detail: said.clone().into_bytes() })
        );
        assert!(!said.is_empty());
    }
    assert_eq!(strip_matches("b+", b"abbcb"), Ok(b"ac".to_vec()));
    assert_eq!(strip_matches("x", b"abc"), Ok(b"abc".to_vec()));
}

fn directory() -> Directory {
    Directory {
        regions: vec![
            RegionEntry {
                id: b"eu".to_vec(),
                clusters: vec![
                    Cluster { domain: b"login.eu.example".to_vec(), ips: list(&["1.1.1.1", "", "2.2.2.2"]) },
                    Cluster { domain: b"game.eu.example".to_vec(), ips: list(&[]) },
                    Cluster { domain: b"chat.eu.example".to_vec(), ips: list(&["3.3.3.3"]) },
                    Cluster { domain: b"blank.eu.example".to_vec(), ips: list(&["", ""]) },
                ],
            },
            RegionEntry {
                id: b"asia".to_vec(),
                clusters: vec![Cluster { domain: b"login.asia.example".to_vec(), ips: list(&["9.9.9.9"]) }],
            },
            RegionEntry {
                id: b"eu".to_vec(),
                clusters: vec![Cluster { domain: b"late.eu.example".to_vec(), ips: list(&["8.8.8.8"]) }],
            },
        ],
    }
}

#[test]
fn targets_are_the_wanted_names_of_the_first_region_of_that_id() {
    let dir = directory();
    assert_eq!(find_region(&dir, b"eu"), Some(0));
    assert_eq!(find_region(&dir, b"asia"), Some(1));
    assert_eq!(find_region(&dir, b"us"), None);
    let wanted = list(&["chat.eu.example", "login.eu.example", "blank.eu.example", "late.eu.example", "unknown"]);
    let targets = select_targets(&dir, b"eu", &wanted);
    assert_eq!(targets.len(), 3);
    assert_eq!(text(&targets[0].domain), "login.eu.example");
    assert_eq!(strings(&targets[0].ips), vec!["1.1.1.1", "2.2.2.2"]);
    assert_eq!(text(&targets[1].domain), "chat.eu.example");
    assert_eq!(strings(&targets[1].ips), vec!["3.3.3.3"]);
    assert_eq!(text(&targets[2].domain), "blank.eu.example");
    assert!(targets[2].ips.is_empty());
    assert!(select_targets(&dir, b"us", &wanted).is_empty());
    assert!(select_targets(&dir, b"asia", &wanted).is_empty());
    assert!(select_targets(&dir, b"eu", &list(&["LOGIN.eu.example"])).is_empty());
}

#[test]
fn region_id_must_not_be_empty() {
    assert_eq!(check_region_id(b""), Err(Failure::InvalidRequest));
    assert_eq!(check_region_id(b"eu"), Ok(()));
}

#[test]
fn rules_are_named_after_the_domain() {
    assert_eq!(text(&rule_name(b"login.eu.example")), "WoT_Blitz_Block_login_eu_example");
    assert_eq!(text(&rule_name(b"")), "WoT_Blitz_Block_");
    assert_eq!(
        text(&ip_rule_name(b"a.b", b"10.0.0.1")),
        "WoT_Blitz_Block_a_b_10_0_0_1"
    );
}

fn shown(command: &Command) -> String {
    match command {
        Command::DeleteRule { name } => format!("delete {}", text(name)),
        Command::AddRule { name, ips } => format!("add {} {}", text(name), strings(ips).join(",")),
    }
}

#[test]
fn commands_for_blocking_and_unblocking() {
    let target = Target { domain: b"a.b".to_vec(), ips: list(&["1.1.1.1", "2.2.2.2"]) };
    let block: Vec<String> = first_commands(&target, true).iter().map(shown).collect();
    assert_eq!(block, vec!["delete WoT_Blitz_Block_a_b", "add WoT_Blitz_Block_a_b 1.1.1.1,2.2.2.2"]);
    let each: Vec<String> = each_ip(&target, true).iter().map(shown).collect();
    assert_eq!(
        each,
        vec!["add WoT_Blitz_Block_a_b_1_1_1_1 1.1.1.1", "add WoT_Blitz_Block_a_b_2_2_2_2 2.2.2.2"]
    );
    let unblock: Vec<String> = first_commands(&target, false).iter().map(shown).collect();
    assert_eq!(
        unblock,
        vec![
            "delete WoT_Blitz_Block_a_b",
            "delete WoT_Blitz_Block_a_b_1_1_1_1",
            "delete WoT_Blitz_Block_a_b_2_2_2_2"
        ]
    );
}

#[test]
fn a_refused_list_of_addresses_asks_for_one_rule_each() {
    assert_eq!(judge_add(&Reply::Done), AddVerdict::Created);
    assert_eq!(
        judge_add(&Reply::Failed { detail: b"bad value for remoteip given".to_vec() }),
        AddVerdict::TryEachIp
    );
    assert_eq!(judge_add(&Reply::Failed { detail: b"access denied".to_vec() }), AddVerdict::Failed);
    assert_eq!(judge_add(&Reply::NotRun { detail: b"remoteip".to_vec() }), AddVerdict::Failed);
}

#[test]
fn blocking_is_told_in_words() {
    let target = Target { domain: b"a.b".to_vec(), ips: list(&["1.1.1.1", "2.2.2.2", "3.3.3.3"]) };
    assert_eq!(
        block_report(&target, &Reply::Done, &vec![]).map(|w| text(&w)),
        Ok("Firewall rule created for a.b (3 IPs)".to_string())
    );
    let refused = Reply::Failed { detail: b"remoteip not accepted".to_vec() };
    assert_eq!(
        block_report(&target, &refused, &vec![true, false, true]).map(|w| text(&w)),
        Ok("Blocked IP: 1.1.1.1\nBlocked IP: 3.3.3.3".to_string())
    );
    assert_eq!(
        block_report(&target, &refused, &vec![false, true]).map(|w| text(&w)),
        Ok("Blocked IP: 2.2.2.2".to_string())
    );
    assert_eq!(
        block_report(&target, &refused, &vec![false, false, false]).map(|w| text(&w)),
        Ok("No firewall changes made".to_string())
    );
    assert_eq!(
        block_report(&target, &Reply::Failed { detail: b"access denied".to_vec() }, &vec![])
            .map_err(|w| text(&w)),
        Err("Failed to create firewall rule: access denied".to_string())
    );
    assert_eq!(
        block_report(&target, &Reply::NotRun { detail: b"no such program".to_vec() }, &vec![])
            .map_err(|w| text(&w)),
        Err("Failed to create firewall rule: no such program".to_string())
    );
}

#[test]
fn unblocking_is_told_in_words() {
    let target = Target { domain: b"a.b".to_vec(), ips: list(&["1.1.1.1"]) };
    assert_eq!(text(&unblock_report(&target, &Reply::Done)), "Firewall rule removed for a.b");
    assert_eq!(
        text(&unblock_report(&target, &Reply::Failed { detail: b"No rules match".to_vec() })),
        "Note: Firewall rule for a.b may not have existed"
    );
    assert_eq!(
        text(&unblock_report(&target, &Reply::NotRun { detail: b"x".to_vec() })),
        "No firewall changes made"
    );
}

#[test]
fn tally_sums_up_a_request() {
    let empty = Tally::new();
    assert_eq!(text(&empty.summary(true, b"eu")), "No firewall rules added for region eu");
    assert_eq!(text(&empty.summary(false, b"eu")), "No firewall rules removed for region eu");
    assert_eq!(empty.failure(), None);
    let fine = Target { domain: b"a.b".to_vec(), ips: list(&["1.1.1.1"]) };
    let mut smooth = Tally::new();
    smooth.record(&fine, true, Some(&Ok(b"done".to_vec())));
    assert_eq!(smooth.failure(), None);
    smooth.record(&fine, true, None);
    assert_eq!(smooth.failure(), Some(Failure::PartialFailure));
    let mut rough = Tally::new();
    rough.record(&fine, false, Some(&Err(b"no".to_vec())));
    assert_eq!(rough.failure(), Some(Failure::PartialFailure));

    let a = Target { domain: b"a.b".to_vec(), ips: list(&["1.1.1.1", "2.2.2.2"]) };
    let b = Target { domain: b"c.d".to_vec(), ips: list(&["3.3.3.3"]) };
    let c = Target { domain: b"e.f".to_vec(), ips: list(&[]) };
    let mut tally = Tally::new();
    tally.record(&a, true, Some(&Ok(b"Firewall rule created for a.b (2 IPs)".to_vec())));
    tally.record(&b, true, Some(&Err(b"Failed to create firewall rule: denied".to_vec())));
    tally.record(&c, true, None);
    assert_eq!(
        text(&tally.summary(true, b"eu")),
        "Blocked 2 IPs across 3 domains\na.b: Firewall rule created for a.b (2 IPs)\nFailed to block c.d: Failed to create firewall rule: denied\nNo IPs found for e.f"
    );

    let mut tally = Tally::new();
    tally.record(&a, false, Some(&Ok(b"Firewall rule removed for a.b".to_vec())));
    tally.record(&b, false, Some(&Err(b"oops".to_vec())));
    assert_eq!(
        text(&tally.summary(false, b"eu")),
        "Unblocked 2 IPs across 2 domains\na.b: Firewall rule removed for a.b\nFailed to unblock c.d: oops"
    );
}

#[test]
fn rules_are_read_from_the_list_of_the_firewall() {
    assert_eq!(
        rule_to_delete(b"Rule Name:                            WoT_Blitz_Block_a_b  ", b"WoT_Blitz_Block_"),
        Some(b"WoT_Blitz_Block_a_b".to_vec())
    );
    assert_eq!(rule_to_delete(b"Rule Name: Other_Rule", b"WoT_Blitz_Block_"), None);
    assert_eq!(rule_to_delete(b"Name: WoT_Block_x", b"WoT_Block_"), None);
    assert_eq!(
        rule_to_delete(b"x Rule Name: ClusterBanned_1 Rule Name: ignored", b"ClusterBanned_"),
        Some(b"ClusterBanned_1".to_vec())
    );
    assert_eq!(rule_to_delete(b"WoT_Block_ Rule Name:", b"WoT_Block_"), Some(Vec::new()));
    let prefixes = managed_prefixes();
    assert_eq!(prefixes, ["WoT_Blitz_Block_", "WoT_Block_", "ClusterBanned_"]);
    assert!(is_managed_rule_line(b"Rule Name:   WoT_Blitz_Block_a"));
    assert!(is_managed_rule_line(b"Rule Name:   my ClusterBanned rule"));
    assert!(is_managed_rule_line(b"WoT_Block Rule Name:"));
    assert!(!is_managed_rule_line(b"Rule Name:   Core Networking"));
    assert!(!is_managed_rule_line(b"Description: WoT_Blitz"));
    assert_eq!(text(&describe_deleted(0)), "No firewall rules found to delete");
    assert_eq!(text(&describe_deleted(4)), "Deleted 4 firewall rules");
}

#[test]
fn both_outcomes_go_into_one_answer() {
    assert_eq!(mode_for(true), Mode::SetNames);
    assert_eq!(mode_for(false), Mode::RemoveNames);

    let both = combine(&Some(Ok(b"hosts fine".to_vec())), &Some(Ok(b"firewall fine".to_vec())));
    assert!(both.success);
    assert_eq!(text(&both.hosts), "hosts fine");
    assert_eq!(text(&both.firewall), "firewall fine");

    let partial = combine(&Some(Ok(b"hosts fine".to_vec())), &Some(Err(b"denied".to_vec())));
    assert!(!partial.success);
    assert_eq!(text(&partial.hosts), "hosts fine");
    assert_eq!(text(&partial.firewall), "Error: denied");

    let skipped = combine(&None, &None);
    assert!(skipped.success);
    assert_eq!(text(&skipped.hosts), "Skipped");
    assert_eq!(text(&skipped.firewall), "Skipped");

    let failed = combine(&Some(Err(b"no file".to_vec())), &None);
    assert!(!failed.success);
    assert_eq!(text(&failed.hosts), "Error: no file");
    assert_eq!(text(&failed.firewall), "Skipped");
}

fn read_decimals(shown: &[TimeShown]) -> Vec<Option<u64>> {
    shown
        .iter()
        .map(|s| match s {
            TimeShown::Decimal { text } => std::str::from_utf8(text)
                .ok()
                .and_then(|t| t.parse::<f64>().ok())
                .map(|v| v as u64),
            TimeShown::Millis { .. } => None,
        })
        .collect()
}

fn ping_time(output: &[u8]) -> Option<u64> {
    let shown = parse_ping_time(output);
    pick_time(&shown, &read_decimals(&shown))
}

fn shown_texts(output: &[u8]) -> Vec<String> {
    parse_ping_time(output)
        .iter()
        .map(|s| match s {
            TimeShown::Millis { value } => format!("whole {}", value),
            TimeShown::Decimal { text } => format!("decimal {:?}", String::from_utf8_lossy(text)),
        })
        .collect()
}

#[test]
fn ping_time_is_read_in_both_forms() {
    assert_eq!(
        ping_time(b"Pinging 92.223.31.134 with 32 bytes of data:\r\nReply from 92.223.31.134: bytes=32 time=64ms TTL=45\r\n"),
        Some(64)
    );
    assert_eq!(
        ping_time(b"PING example (1.2.3.4) 56(84) bytes of data.\n64 bytes from 1.2.3.4: icmp_seq=1 ttl=45 time=63.8 ms\n"),
        Some(63)
    );
    assert_eq!(ping_time(b"64 bytes from 1.2.3.4: icmp_seq=1 ttl=45 time=7 ms"), Some(7));
    assert_eq!(ping_time(b"time=0.4 ms"), Some(0));
    assert_eq!(ping_time(b"time=1e3 ms"), Some(1000));
    assert_eq!(ping_time(b"time=abc ms\ntime=12ms"), Some(12));
    assert_eq!(ping_time(b"time=5 s\n  time= 9 ms  \n"), Some(9));
    assert_eq!(ping_time("time=\u{a0}9\u{2003}ms".as_bytes()), Some(9));
    assert_eq!(ping_time(b"Request timed out."), None);
    assert_eq!(ping_time(b"time=ms"), None);
    assert_eq!(ping_time(b""), None);
}

#[test]
fn times_shown_are_handed_on_line_by_line() {
    assert_eq!(
        shown_texts(b"time=abc ms\nnothing here\ntime=12ms\ntime= 63.8 ms\ntime=7 ms"),
        vec!["decimal \"abc\"", "whole 12", "decimal \"63.8\"", "whole 7"]
    );
    assert_eq!(shown_texts(b"time=5 s"), Vec::<String>::new());
    assert_eq!(shown_texts(b"time=ms"), Vec::<String>::new());
    assert_eq!(shown_texts(b"time= ms"), vec!["decimal \"\""]);
}

#[test]
fn the_first_time_that_could_be_read_is_picked() {
    let shown = parse_ping_time(b"time=abc ms\ntime=2.5 ms\ntime=12ms");
    assert_eq!(pick_time(&shown, &vec![None, Some(2), None]), Some(2));
    assert_eq!(pick_time(&shown, &vec![Some(9), Some(2), None]), Some(9));
    assert_eq!(pick_time(&shown, &vec![None, None, Some(5)]), Some(12));
    assert_eq!(pick_time(&shown, &vec![]), Some(12));
    assert_eq!(pick_time(&shown, &vec![None]), Some(12));
    let shown = parse_ping_time(b"time=abc ms");
    assert_eq!(pick_time(&shown, &vec![None]), None);
    assert_eq!(pick_time(&shown, &vec![]), None);
    assert_eq!(pick_time(&Vec::new(), &vec![Some(1)]), None);
}

#[test]
fn numbers_are_read_with_care() {
    assert_eq!(parse_whole(b"0"), Some(0));
    assert_eq!(parse_whole(b"+15"), Some(15));
    assert_eq!(parse_whole(b"18446744073709551615"), Some(u64::MAX));
    assert_eq!(parse_whole(b"18446744073709551616"), None);
    assert_eq!(parse_whole(b""), None);
    assert_eq!(parse_whole(b"+"), None);
    assert_eq!(parse_whole(b"-1"), None);
    assert_eq!(parse_whole(b"1.5"), None);
    assert_eq!(parse_whole(b"1 2"), None);
}

#[test]
fn timeout_is_rounded_up_to_whole_seconds() {
    assert_eq!(timeout_seconds(None), 1);
    assert_eq!(timeout_seconds(Some(0)), 0);
    assert_eq!(timeout_seconds(Some(1)), 1);
    assert_eq!(timeout_seconds(Some(1000)), 1);
    assert_eq!(timeout_seconds(Some(1001)), 2);
    assert_eq!(timeout_seconds(Some(u64::MAX)), 18446744073709552);
}

#[test]
fn ping_failures_are_told_apart() {
    assert_eq!(classify_failure(b"Request timed out.", b""), PingFailure::Timeout);
    assert_eq!(classify_failure(b"Destination host unreachable.", b""), PingFailure::Unreachable);
    assert_eq!(
        classify_failure(b"Ping request could not find host nowhere.", b""),
        PingFailure::DnsError
    );
    assert_eq!(classify_failure(b"", b"could not find host"), PingFailure::DnsError);
    assert_eq!(classify_failure(b"general failure", b"Destination host unreachable"), PingFailure::Other);
}

#[test]
fn processes_are_told_by_a_part_of_their_name() {
    assert!(text_mentions(b"WorldOfTanksBlitz.exe", b"tanksblitz"));
    assert!(text_mentions(b"abc", b""));
    assert!(!text_mentions(b"abc", b"abcd"));
    assert!(process_matches(b"wotblitz", None, b"Blitz"));
    assert!(process_matches(b"launcher", Some(b"C:\\Games\\WoTBlitz.exe"), b"wotblitz"));
    assert!(!process_matches(b"launcher", Some(b"other"), b"wotblitz"));
    assert!(!process_matches(b"launcher", None, b"wotblitz"));
    assert!(process_matches_any(b"java", &list(&["-jar", "Blitz.jar"]), b"blitz"));
    assert!(!process_matches_any(b"java", &list(&["-jar", "other.jar"]), b"blitz"));
    assert_eq!(text(&describe_killed(2)), "killed 2 processes");
}

#[test]
fn every_mapped_name_is_listed() {
    let hosts = b"# comment with.dots here\n127.0.0.1 localhost\n10.0.0.1 Router.Local  nas.local alias\n\n   #indented.comment x.y\n0.0.0.0 b.example.com\n0.0.0.0 B.EXAMPLE.COM a.example.com\nlonely.example.com\n";
    assert_eq!(
        strings(&parse_blocked_domains_from_text(hosts)),
        vec!["a.example.com", "b.example.com", "nas.local", "router.local"]
    );
    assert!(parse_blocked_domains_from_text(b"").is_empty());
    assert!(parse_blocked_domains_from_text(b"127.0.0.1 localhost\n").is_empty());
}

#[test]
fn block_pattern_escapes_the_markers() {
    assert_eq!(
        block_pattern(),
        "\\# clusterbanned start[\\s\\S]*?\\# clusterbanned end"
    );
}

#[test]
fn old_rewrite_takes_every_block_out_and_adds_one() {
    let before = b"127.0.0.1 localhost\n# clusterbanned start\n0.0.0.0 old.com\n# clusterbanned end\nkept\n# clusterbanned start region:eu\n0.0.0.0 older.com\n# clusterbanned end";
    let after = rewrite_single_block(before, &list(&["B.com", "a.com"])).unwrap();
    assert_eq!(
        text(&after),
        "127.0.0.1 localhost\n\nkept\n# clusterbanned start\n0.0.0.0 B.com\n0.0.0.0 a.com\n# clusterbanned end"
    );
    let after = rewrite_single_block(b"plain\n", &list(&[])).unwrap();
    assert_eq!(text(&after), "plain\n# clusterbanned start\n# clusterbanned end");
}

#[test]
fn single_block_is_put_behind_a_line_feed() {
    assert_eq!(
        text(&append_single_block(b"no line feed".to_vec(), &list(&["a.com"]))),
        "no line feed\n# clusterbanned start\n0.0.0.0 a.com\n# clusterbanned end"
    );
    assert_eq!(
        text(&append_single_block(Vec::new(), &list(&[]))),
        "\n# clusterbanned start\n# clusterbanned end"
    );
}

fn drive(target: Target, enable: bool, replies: Vec<Reply>) -> (Vec<String>, clusterbanned::job::MirrorJob) {
    let mut job = clusterbanned::job::MirrorJob::start(target, enable);
    let mut ran = Vec::new();
    let mut replies = replies.into_iter();
    while let Some(command) = job.next_command() {
        ran.push(shown(&command));
        job.advance(replies.next().unwrap_or(Reply::Done));
    }
    (ran, job)
}

#[test]
fn blocking_runs_delete_then_add() {
    let target = Target { domain: b"a.b".to_vec(), ips: list(&["1.1.1.1", "2.2.2.2"]) };
    let (ran, job) = drive(target, true, vec![Reply::Failed { detail: b"no such rule".to_vec() }, Reply::Done]);
    assert_eq!(ran, vec!["delete WoT_Blitz_Block_a_b", "add WoT_Blitz_Block_a_b 1.1.1.1,2.2.2.2"]);
    assert_eq!(
        job.outcome().map(|o| o.map(|w| text(&w))),
        Some(Ok("Firewall rule created for a.b (2 IPs)".to_string()))
    );
}

#[test]
fn blocking_falls_back_to_one_rule_for_each_address() {
    let target = Target { domain: b"a.b".to_vec(), ips: list(&["1.1.1.1", "2.2.2.2", "3.3.3.3"]) };
    let replies = vec![
        Reply::Done,
        Reply::Failed { detail: b"Invalid value for remoteip".to_vec() },
        Reply::Done,
        Reply::NotRun { detail: b"gone".to_vec() },
        Reply::Done,
    ];
    let (ran, job) = drive(target, true, replies);
    assert_eq!(
        ran,
        vec![
            "delete WoT_Blitz_Block_a_b",
            "add WoT_Blitz_Block_a_b 1.1.1.1,2.2.2.2,3.3.3.3",
            "add WoT_Blitz_Block_a_b_1_1_1_1 1.1.1.1",
            "add WoT_Blitz_Block_a_b_2_2_2_2 2.2.2.2",
            "add WoT_Blitz_Block_a_b_3_3_3_3 3.3.3.3",
        ]
    );
    assert_eq!(
        job.outcome().map(|o| o.map(|w| text(&w))),
        Some(Ok("Blocked IP: 1.1.1.1\nBlocked IP: 3.3.3.3".to_string()))
    );
}

#[test]
fn blocking_gives_up_on_any_other_failure() {
    let target = Target { domain: b"a.b".to_vec(), ips: list(&["1.1.1.1"]) };
    let (ran, job) = drive(
        target,
        true,
        vec![Reply::Done, Reply::Failed { detail: b"access denied".to_vec() }],
    );
    assert_eq!(ran.len(), 2);
    assert_eq!(
        job.outcome().map(|o| o.map_err(|w| text(&w))),
        Some(Err("Failed to create firewall rule: access denied".to_string()))
    );
}

#[test]
fn unblocking_deletes_the_rule_and_the_rule_of_each_address() {
    let target = Target { domain: b"a.b".to_vec(), ips: list(&["1.1.1.1", "2.2.2.2"]) };
    let (ran, job) = drive(target, false, vec![Reply::Failed { detail: b"No rules match".to_vec() }]);
    assert_eq!(
        ran,
        vec![
            "delete WoT_Blitz_Block_a_b",
            "delete WoT_Blitz_Block_a_b_1_1_1_1",
            "delete WoT_Blitz_Block_a_b_2_2_2_2",
        ]
    );
    assert_eq!(
        job.outcome().map(|o| o.map(|w| text(&w))),
        Some(Ok("Note: Firewall rule for a.b may not have existed".to_string()))
    );
    let mut tally = Tally::new();
    job.record_into(&mut tally);
    assert_eq!(
        text(&tally.summary(false, b"eu")),
        "Unblocked 2 IPs across 1 domains\na.b: Note: Firewall rule for a.b may not have existed"
    );
}

#[test]
fn a_name_without_addresses_is_passed_over() {
    let target = Target { domain: b"a.b".to_vec(), ips: list(&[]) };
    let (ran, job) = drive(target, true, vec![]);
    assert!(ran.is_empty());
    assert!(job.outcome().is_none());
    let mut tally = Tally::new();
    job.record_into(&mut tally);
    assert_eq!(text(&tally.summary(true, b"eu")), "Blocked 0 IPs across 1 domains\nNo IPs found for a.b");
    assert_eq!(tally.failure(), Some(Failure::PartialFailure));
}

#[test]
fn a_job_answers_nothing_before_its_end() {
    let target = Target { domain: b"a.b".to_vec(), ips: list(&["1.1.1.1"]) };
    let mut job = clusterbanned::job::MirrorJob::start(target, true);
    assert!(job.outcome().is_none());
    job.advance(Reply::Done);
    assert!(job.outcome().is_none());
    job.advance(Reply::Done);
    assert!(job.outcome().is_some());
    assert!(job.next_command().is_none());
    job.advance(Reply::NotRun { detail: vec![] });
    assert_eq!(
        job.outcome().map(|o| o.map(|w| text(&w))),
        Some(Ok("Firewall rule created for a.b (1 IPs)".to_string()))
    );
}

#[test]
fn what_the_pattern_crate_gave_is_handed_on() {
    assert_eq!(clusterbanned::legacy::stripped_from(Ok(b"left over".to_vec())), Ok(b"left over".to_vec()));
    assert_eq!(clusterbanned::legacy::stripped_from(Ok(Vec::new())), Ok(Vec::new()));
    let refused = regex::bytes::Regex::new("(").unwrap_err();
    let said = refused.to_string().into_bytes();
    assert_eq!(
        clusterbanned::legacy::stripped_from(Err(refused)),
        Err(RewriteError::BadPattern { detail: said })
    );
    assert_eq!(
        clusterbanned::legacy::rewritten_from(Ok(b"kept".to_vec()), &list(&["a.com"])).map(|t| text(&t)),
        Ok("kept\n# clusterbanned start\n0.0.0.0 a.com\n# clusterbanned end".to_string())
    );
    assert_eq!(
        clusterbanned::legacy::rewritten_from(
            Err(RewriteError::BadPattern { detail: b"no".to_vec() }),
            &list(&["a.com"])
        ),
        Err(RewriteError::BadPattern { detail: b"no".to_vec() })
    );
}

#[test]
fn names_that_the_region_lacks_are_told_in_the_order_given() {
    let dir = directory();
    let wanted = list(&["chat.eu.example", "unknown", "late.eu.example", "blank.eu.example", "LOGIN.eu.example", "unknown"]);
    assert_eq!(
        strings(&select_missing(&dir, b"eu", &wanted)),
        vec!["unknown", "late.eu.example", "LOGIN.eu.example", "unknown"]
    );
    assert_eq!(strings(&select_missing(&dir, b"asia", &list(&["login.asia.example"]))), Vec::<String>::new());
    assert_eq!(strings(&select_missing(&dir, b"us", &list(&["b", "a"]))), vec!["b", "a"]);
    assert!(select_missing(&dir, b"eu", &list(&[])).is_empty());
    assert!(has_cluster(&dir.regions[0].clusters, b"game.eu.example"));
    assert!(!has_cluster(&dir.regions[0].clusters, b"late.eu.example"));
}

#[test]
fn a_name_that_the_region_lacks_gets_a_line_of_its_own() {
    let dir = directory();
    let wanted = list(&["login.eu.example", "nowhere.example"]);
    let mut tally = Tally::new();
    for target in select_targets(&dir, b"eu", &wanted) {
        tally.record(&target, true, Some(&Ok(b"done".to_vec())));
    }
    assert_eq!(tally.failure(), None);
    for name in select_missing(&dir, b"eu", &wanted) {
        tally.record_missing(&name);
    }
    assert_eq!(tally.failure(), Some(Failure::PartialFailure));
    assert_eq!(
        text(&tally.summary(true, b"eu")),
        "Blocked 2 IPs across 2 domains\nlogin.eu.example: done\nNo directory entry for nowhere.example"
    );
}

#[test]
fn a_rule_name_keeps_the_white_space_inside_it() {
    assert_eq!(
        rule_to_delete("Rule Name:\u{a0} WoT_Block_a\u{a0}b \u{3000}".as_bytes(), b"WoT_Block_"),
        Some("WoT_Block_a\u{a0}b".as_bytes().to_vec())
    );
}
