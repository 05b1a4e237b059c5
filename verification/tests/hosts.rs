use clusterbanned::codec::{decode, decode_names, encode, next_span, region_of_line};
use clusterbanned::consistency::{check, read_blocked, Choice, RegionChoices, Selection};
use clusterbanned::document::HostsDocument;
use clusterbanned::names::{less, DomainSet};
use clusterbanned::reconciler::{apply, clear_all, remove_names, set_names, Change, Mode};
use clusterbanned::request::{build_request, carry_out};
use clusterbanned::store::Failure;

fn names(list: &[&str]) -> DomainSet {
    let raw: Vec<Vec<u8>> = list.iter().map(|s| s.as_bytes().to_vec()).collect();
    DomainSet::from_names(&raw)
}

fn text(bytes: &[u8]) -> String {
    String::from_utf8(bytes.to_vec()).unwrap()
}

fn listed(set: &DomainSet) -> Vec<String> {
    set.to_vec().iter().map(|n| text(n)).collect()
}

const EU_BLOCK: &str =
    "# clusterbanned start region:eu\n0.0.0.0 x.example.com\n0.0.0.0 y.example.com\n# clusterbanned end";

#[test]
fn names_are_lowered_sorted_and_unique() {
    let set = names(&["b.com", "A.com", "a.com", "c.com", "B.COM"]);
    assert_eq!(listed(&set), vec!["a.com", "b.com", "c.com"]);
    assert_eq!(set.len(), 3);
    assert!(set.contains(b"a.com"));
    assert!(!set.contains(b"A.com"));
    assert!(!set.contains(b"d.com"));
}

#[test]
fn names_order_is_bytewise() {
    assert!(less(b"a", b"b"));
    assert!(less(b"a", b"aa"));
    assert!(less(b"", b"a"));
    assert!(!less(b"a", b"a"));
    assert!(!less(b"b", b"a"));
    assert!(less(b"Z", b"a"));
    let set = names(&["b", "aa", "a", "ab"]);
    assert_eq!(listed(&set), vec!["a", "aa", "ab", "b"]);
}

#[test]
fn names_insert_tells_whether_new() {
    let mut set = DomainSet::new();
    assert!(set.is_empty());
    assert!(set.insert(b"One.example"));
    assert!(!set.insert(b"one.EXAMPLE"));
    assert!(set.insert(b"another.example"));
    assert_eq!(listed(&set), vec!["another.example", "one.example"]);
    assert_eq!(text(set.get(1)), "one.example");
}

#[test]
fn names_without_and_absorb() {
    let a = names(&["a.com", "b.com", "c.com"]);
    let b = names(&["b.com", "z.com"]);
    assert_eq!(listed(&a.without(&b)), vec!["a.com", "c.com"]);
    assert_eq!(listed(&b.without(&a)), vec!["z.com"]);
    let mut c = names(&["m.com"]);
    c.absorb(&a);
    c.absorb(&b);
    assert_eq!(listed(&c), vec!["a.com", "b.com", "c.com", "m.com", "z.com"]);
}

#[test]
fn encode_writes_header_entries_and_end_marker() {
    let set = names(&["y.example.com", "x.example.com"]);
    assert_eq!(text(&encode(Some(b"eu"), &set)), EU_BLOCK);
    assert_eq!(
        text(&encode(None, &set)),
        "# clusterbanned start\n0.0.0.0 x.example.com\n0.0.0.0 y.example.com\n# clusterbanned end"
    );
}

#[test]
fn encode_of_no_names_is_empty() {
    assert!(encode(Some(b"eu"), &DomainSet::new()).is_empty());
    assert!(encode(None, &DomainSet::new()).is_empty());
}

#[test]
fn decode_reads_back_what_encode_wrote() {
    let set = names(&["b.example", "a.example", "c.example"]);
    let written = encode(Some(b"asia-1"), &set);
    let blocks = decode(&written);
    assert_eq!(blocks.len(), 1);
    assert_eq!(blocks[0].start, 0);
    assert_eq!(blocks[0].end, written.len());
    assert_eq!(blocks[0].region, Some(b"asia-1".to_vec()));
    assert_eq!(listed(&blocks[0].names), vec!["a.example", "b.example", "c.example"]);

    let untagged = encode(None, &set);
    let blocks = decode(&untagged);
    assert_eq!(blocks.len(), 1);
    assert_eq!(blocks[0].region, None);
    assert_eq!(listed(&blocks[0].names), listed(&set));
}

#[test]
fn decode_finds_blocks_among_other_lines() {
    let doc = format!(
        "127.0.0.1 localhost\n{}\n# a comment\n# clusterbanned start region:asia\n0.0.0.0 B.com\n# clusterbanned end\ntail\n",
        EU_BLOCK
    );
    let blocks = decode(doc.as_bytes());
    assert_eq!(blocks.len(), 2);
    assert_eq!(blocks[0].start, 20);
    assert_eq!(blocks[0].end, 20 + EU_BLOCK.len());
    assert_eq!(blocks[0].region, Some(b"eu".to_vec()));
    assert_eq!(listed(&blocks[0].names), vec!["x.example.com", "y.example.com"]);
    assert_eq!(blocks[1].region, Some(b"asia".to_vec()));
    assert_eq!(listed(&blocks[1].names), vec!["b.com"]);
    assert_eq!(&doc.as_bytes()[blocks[1].start..blocks[1].end],
        &b"# clusterbanned start region:asia\n0.0.0.0 B.com\n# clusterbanned end"[..]);
}

#[test]
fn decode_ignores_a_start_marker_without_end_marker() {
    let doc = format!("{}\n# clusterbanned start region:open\n0.0.0.0 lost.com\n", EU_BLOCK);
    let blocks = decode(doc.as_bytes());
    assert_eq!(blocks.len(), 1);
    assert_eq!(blocks[0].region, Some(b"eu".to_vec()));
    assert_eq!(decode(b"# clusterbanned start\n0.0.0.0 a.com\n").len(), 0);
    assert_eq!(decode(b"").len(), 0);
    assert_eq!(next_span(b"# clusterbanned end # clusterbanned start", 0), None);
}

#[test]
fn region_tag_is_the_token_behind_the_key() {
    assert_eq!(region_of_line(b"# clusterbanned start region:eu"), Some(b"eu".to_vec()));
    assert_eq!(region_of_line(b"# clusterbanned start region:eu west"), Some(b"eu".to_vec()));
    assert_eq!(region_of_line(b"# clusterbanned start region:  eu\t"), Some(b"eu".to_vec()));
    assert_eq!(region_of_line(b"# clusterbanned start region:"), None);
    assert_eq!(region_of_line(b"# clusterbanned start region:   "), None);
    assert_eq!(region_of_line(b"# clusterbanned start"), None);
    assert_eq!(region_of_line(b"x region:a region:b"), Some(b"a".to_vec()));
}

#[test]
fn block_lines_need_two_fields_and_marker_lines_do_not_count() {
    let block = b"# clusterbanned start region:eu\n0.0.0.0 A.com\n\n   \nlonely\n1.2.3.4\tTabbed.Org  extra\n# note here\n  # clusterbanned end";
    let set = decode_names(block);
    assert_eq!(listed(&set), vec!["a.com", "note", "tabbed.org"]);
}

#[test]
fn find_block_takes_the_first_that_names_the_region() {
    let doc = HostsDocument::new(
        b"# clusterbanned start region:eu\n0.0.0.0 a.com\n# clusterbanned end\n\n# clusterbanned start region:asia\n0.0.0.0 b.com\n# clusterbanned end\n\n# clusterbanned start region:eu\n0.0.0.0 c.com\n# clusterbanned end\n".to_vec(),
    );
    let eu = doc.find_block(Some(b"eu")).unwrap();
    assert_eq!(eu.start, 0);
    assert_eq!(listed(&eu.names), vec!["a.com"]);
    let asia = doc.find_block(Some(b"asia")).unwrap();
    assert_eq!(asia.start, 67);
    assert_eq!(listed(&asia.names), vec!["b.com"]);
    let any = doc.find_block(None).unwrap();
    assert_eq!(any.start, 0);
    assert!(doc.find_block(Some(b"us")).is_none());
    assert!(doc.find_block(Some(b"e")).is_none());
    assert_eq!(doc.blocks().len(), 3);
}

#[test]
fn find_block_without_region_skips_no_untagged_block() {
    let doc = HostsDocument::new(
        b"# clusterbanned start\n0.0.0.0 a.com\n# clusterbanned end\n".to_vec(),
    );
    assert!(doc.find_block(Some(b"eu")).is_none());
    let any = doc.find_block(None).unwrap();
    assert_eq!(any.region, None);
    assert_eq!((any.start, any.end), (0, 55));
}

#[test]
fn replace_span_cuts_runs_of_line_feeds_down_to_two() {
    let mut doc = HostsDocument::new(b"a\n\nXX\n\nb\n\n\n\nc".to_vec());
    doc.replace_span(3, 5, b"");
    assert_eq!(text(doc.render()), "a\n\nb\n\nc");
    let mut doc = HostsDocument::new(b"head tail".to_vec());
    doc.replace_span(4, 5, b"\n\n\n\n\n");
    assert_eq!(text(doc.render()), "head\n\ntail");
    let mut doc = HostsDocument::new(b"abc".to_vec());
    doc.replace_span(1, 2, b"-+-");
    assert_eq!(text(&doc.into_bytes()), "a-+-c");
}

#[test]
fn append_block_leaves_one_blank_line_and_one_line_feed() {
    let mut doc = HostsDocument::new(b"one\n\n\n\n".to_vec());
    doc.append_block(b"BLOCK");
    assert_eq!(text(doc.render()), "one\n\nBLOCK\n");
    let mut doc = HostsDocument::new(b"one".to_vec());
    doc.append_block(b"BLOCK");
    assert_eq!(text(doc.render()), "one\n\nBLOCK\n");
    let mut doc = HostsDocument::new(Vec::new());
    doc.append_block(b"BLOCK");
    assert_eq!(text(doc.render()), "\n\nBLOCK\n");
}

#[test]
fn find_all_gives_every_place() {
    let doc = HostsDocument::new(b"abcabcab".to_vec());
    assert_eq!(doc.find_all(b"ab"), vec![0, 3, 6]);
    assert_eq!(doc.find_all(b"abc"), vec![0, 3]);
    assert_eq!(doc.find_all(b"x"), Vec::<usize>::new());
    let doc = HostsDocument::new(b"aaa".to_vec());
    assert_eq!(doc.find_all(b"aa"), vec![0, 1]);
}

#[test]
fn set_replaces_the_block_of_the_region_and_keeps_other_lines() {
    let before = format!("192.168.1.1 router.local\n\n{}\n", EU_BLOCK);
    let edit = set_names(before.as_bytes(), Some(b"eu"), &names(&["y.example.com", "z.example.com"]));
    assert_eq!(edit.change, Change::Blocked { count: 2 });
    assert_eq!(
        text(&edit.content.unwrap()),
        "192.168.1.1 router.local\n\n# clusterbanned start region:eu\n0.0.0.0 y.example.com\n0.0.0.0 z.example.com\n# clusterbanned end\n"
    );
}

#[test]
fn set_twice_is_set_once() {
    let start = b"192.168.1.1 router.local\n# my own line\n";
    let wanted = names(&["b.example", "a.example"]);
    let once = set_names(start, Some(b"eu"), &wanted).content.unwrap();
    let twice = set_names(&once, Some(b"eu"), &wanted).content.unwrap();
    assert_eq!(text(&once), "192.168.1.1 router.local\n# my own line\n\n# clusterbanned start region:eu\n0.0.0.0 a.example\n0.0.0.0 b.example\n# clusterbanned end\n");
    assert_eq!(once, twice);
    let thrice = set_names(&twice, Some(b"eu"), &wanted).content.unwrap();
    assert_eq!(twice, thrice);
}

#[test]
fn set_on_an_empty_file() {
    let edit = set_names(b"", None, &names(&["a.com"]));
    assert_eq!(edit.change, Change::Blocked { count: 1 });
    assert_eq!(
        text(&edit.content.unwrap()),
        "\n\n# clusterbanned start\n0.0.0.0 a.com\n# clusterbanned end\n"
    );
}

#[test]
fn set_with_no_names_removes_the_block_or_does_nothing() {
    let before = format!("keep me\n\n{}\n", EU_BLOCK);
    let edit = set_names(before.as_bytes(), Some(b"eu"), &DomainSet::new());
    assert_eq!(edit.change, Change::BlockRemoved);
    assert_eq!(text(&edit.content.unwrap()), "keep me\n");

    let edit = set_names(b"keep me\n", Some(b"eu"), &DomainSet::new());
    assert_eq!(edit.change, Change::NothingToUpdate);
    assert!(edit.content.is_none());

    let edit = set_names(before.as_bytes(), Some(b"asia"), &DomainSet::new());
    assert_eq!(edit.change, Change::NothingToUpdate);
    assert!(edit.content.is_none());
}

#[test]
fn set_for_two_regions_makes_two_blocks() {
    let first = set_names(b"127.0.0.1 localhost\n", Some(b"eu"), &names(&["a.com"]))
        .content
        .unwrap();
    let second = set_names(&first, Some(b"asia"), &names(&["b.com"])).content.unwrap();
    assert_eq!(
        text(&second),
        "127.0.0.1 localhost\n\n# clusterbanned start region:eu\n0.0.0.0 a.com\n# clusterbanned end\n\n# clusterbanned start region:asia\n0.0.0.0 b.com\n# clusterbanned end\n"
    );
    let blocks = decode(&second);
    assert_eq!(blocks.len(), 2);
    assert_eq!(blocks[0].region, Some(b"eu".to_vec()));
    assert_eq!(blocks[1].region, Some(b"asia".to_vec()));

    let removed = remove_names(&second, Some(b"eu"), &names(&["a.com"]));
    assert_eq!(removed.change, Change::BlockRemoved);
    let after = removed.content.unwrap();
    assert_eq!(
        text(&after),
        "127.0.0.1 localhost\n\n# clusterbanned start region:asia\n0.0.0.0 b.com\n# clusterbanned end\n"
    );
    let blocks = decode(&after);
    assert_eq!(blocks.len(), 1);
    assert_eq!(blocks[0].region, Some(b"asia".to_vec()));
    assert_eq!(listed(&blocks[0].names), vec!["b.com"]);
}

#[test]
fn remove_without_block_does_nothing() {
    let edit = remove_names(b"127.0.0.1 localhost\n", Some(b"eu"), &names(&["a.com"]));
    assert_eq!(edit.change, Change::NothingToUpdate);
    assert!(edit.content.is_none());
}

#[test]
fn remove_of_names_that_are_not_there_does_nothing() {
    let before = format!("{}\n", EU_BLOCK);
    let edit = remove_names(before.as_bytes(), Some(b"eu"), &names(&["other.com"]));
    assert_eq!(edit.change, Change::NoMatchingEntries);
    assert!(edit.content.is_none());
    let edit = remove_names(before.as_bytes(), Some(b"eu"), &DomainSet::new());
    assert_eq!(edit.change, Change::NoMatchingEntries);
}

#[test]
fn remove_counts_what_went_and_what_stays() {
    let before = format!("first\n\n{}\nlast\n", EU_BLOCK);
    let edit = remove_names(
        before.as_bytes(),
        Some(b"eu"),
        &names(&["X.EXAMPLE.COM", "unknown.com", "also.unknown"]),
    );
    assert_eq!(edit.change, Change::EntriesRemoved { removed: 1, left: 1 });
    assert_eq!(
        text(&edit.content.unwrap()),
        "first\n\n# clusterbanned start region:eu\n0.0.0.0 y.example.com\n# clusterbanned end\nlast\n"
    );
}

#[test]
fn remove_of_all_names_takes_the_block_out() {
    let before = format!("first\n\n{}\n\nlast\n", EU_BLOCK);
    let edit = remove_names(
        before.as_bytes(),
        Some(b"eu"),
        &names(&["x.example.com", "y.example.com"]),
    );
    assert_eq!(edit.change, Change::BlockRemoved);
    assert_eq!(text(&edit.content.unwrap()), "first\n\nlast\n");
}

#[test]
fn remove_without_region_keeps_the_tag_of_the_block() {
    let before = format!("{}\n", EU_BLOCK);
    let edit = remove_names(before.as_bytes(), None, &names(&["x.example.com"]));
    assert_eq!(edit.change, Change::EntriesRemoved { removed: 1, left: 1 });
    assert_eq!(
        text(&edit.content.unwrap()),
        "# clusterbanned start region:eu\n0.0.0.0 y.example.com\n# clusterbanned end\n"
    );
}

#[test]
fn apply_goes_by_the_mode() {
    let before = format!("{}\n", EU_BLOCK);
    let wanted = names(&["x.example.com"]);
    let set = apply(before.as_bytes(), Some(b"eu"), &wanted, Mode::SetNames);
    assert_eq!(set.change, Change::Blocked { count: 1 });
    let removed = apply(before.as_bytes(), Some(b"eu"), &wanted, Mode::RemoveNames);
    assert_eq!(removed.change, Change::EntriesRemoved { removed: 1, left: 1 });
}

#[test]
fn edits_leave_other_lines_byte_for_byte() {
    let before = "# Host Database\n127.0.0.1\tlocalhost\n  ::1   ip6-localhost # odd  spacing\n\n# clusterbanned start region:eu\n0.0.0.0 x.example.com\n# clusterbanned end\n\nfe80::1%lo0 localhost\n";
    let edit = set_names(before.as_bytes(), Some(b"eu"), &names(&["n.example.com"]));
    assert_eq!(
        text(&edit.content.unwrap()),
        "# Host Database\n127.0.0.1\tlocalhost\n  ::1   ip6-localhost # odd  spacing\n\nfe80::1%lo0 localhost\n\n# clusterbanned start region:eu\n0.0.0.0 n.example.com\n# clusterbanned end\n"
    );
}

#[test]
fn clear_takes_out_every_block_whatever_its_tag() {
    let before = "127.0.0.1 localhost\n# clusterbanned start region:eu\n0.0.0.0 a.com\n# clusterbanned end\nmiddle line\n# clusterbanned start region:%%garbled## tag\n0.0.0.0 b.com\n# clusterbanned end\n# clusterbanned start\n0.0.0.0 c.com\n# clusterbanned end\nlast line\n";
    let cleared = clear_all(before.as_bytes());
    assert_eq!(cleared.removed, 3);
    assert!(!cleared.halted);
    assert_eq!(
        text(&cleared.content.unwrap()),
        "127.0.0.1 localhost\n\nmiddle line\n\nlast line\n"
    );
}

#[test]
fn clear_stops_at_a_marker_without_end_marker() {
    let before = "top\n# clusterbanned start region:eu\n0.0.0.0 a.com\n# clusterbanned end\n# clusterbanned start region:open\n0.0.0.0 b.com\nbottom\n";
    let cleared = clear_all(before.as_bytes());
    assert_eq!(cleared.removed, 1);
    assert!(cleared.halted);
    assert_eq!(
        text(&cleared.content.unwrap()),
        "top\n\n# clusterbanned start region:open\n0.0.0.0 b.com\nbottom\n"
    );
}

#[test]
fn clear_of_a_file_without_blocks_writes_nothing() {
    let cleared = clear_all(b"127.0.0.1 localhost\n\n\n\nmore\n");
    assert_eq!(cleared.removed, 0);
    assert!(!cleared.halted);
    assert!(cleared.content.is_none());
    let cleared = clear_all(b"# clusterbanned start\nnever closed\n");
    assert_eq!(cleared.removed, 0);
    assert!(cleared.halted);
    assert!(cleared.content.is_none());
}

#[test]
fn clear_of_a_file_that_is_one_block_leaves_one_line_feed() {
    let before = format!("{}\n", EU_BLOCK);
    let cleared = clear_all(before.as_bytes());
    assert_eq!(cleared.removed, 1);
    assert_eq!(text(&cleared.content.unwrap()), "\n");
}

fn selection(region: &str, domain: &str, enabled: Option<bool>) -> Selection {
    Selection {
        regions: vec![RegionChoices {
            region: region.as_bytes().to_vec(),
            choices: vec![Choice { domain: domain.as_bytes().to_vec(), enabled }],
        }],
    }
}

#[test]
fn check_without_hosts_file_reports_no_mismatch() {
    let found = check(None, &selection("eu", "x.example.com", Some(false)));
    assert!(!found.available);
    assert!(!found.mismatch);
    assert!(found.blocked.is_empty());
}

#[test]
fn check_holds_enabled_against_blocked() {
    let hosts = format!("10.0.0.1 free.example.com\n{}\n", EU_BLOCK);
    let hosts = hosts.as_bytes();
    let blocked = check(Some(hosts), &Selection { regions: vec![] });
    assert!(blocked.available);
    assert!(!blocked.mismatch);
    assert_eq!(listed(&blocked.blocked), vec!["x.example.com", "y.example.com"]);

    assert!(!check(Some(hosts), &selection("eu", "X.example.com", Some(false))).mismatch);
    assert!(check(Some(hosts), &selection("eu", "x.example.com", Some(true))).mismatch);
    assert!(check(Some(hosts), &selection("eu", "x.example.com", None)).mismatch);
    assert!(!check(Some(hosts), &selection("eu", "free.example.com", Some(true))).mismatch);
    assert!(!check(Some(hosts), &selection("eu", "free.example.com", None)).mismatch);
    assert!(check(Some(hosts), &selection("eu", "free.example.com", Some(false))).mismatch);
}

#[test]
fn check_finds_a_mismatch_in_any_region() {
    let hosts = format!("{}\n", EU_BLOCK);
    let sel = Selection {
        regions: vec![
            RegionChoices {
                region: b"eu".to_vec(),
                choices: vec![
                    Choice { domain: b"x.example.com".to_vec(), enabled: Some(false) },
                    Choice { domain: b"y.example.com".to_vec(), enabled: Some(false) },
                ],
            },
            RegionChoices { region: b"empty".to_vec(), choices: vec![] },
            RegionChoices {
                region: b"asia".to_vec(),
                choices: vec![
                    Choice { domain: b"q.example.com".to_vec(), enabled: Some(true) },
                    Choice { domain: b"r.example.com".to_vec(), enabled: Some(false) },
                ],
            },
        ],
    };
    assert!(check(Some(hosts.as_bytes()), &sel).mismatch);
}

#[test]
fn check_after_remove_reports_no_mismatch() {
    let start = set_names(b"127.0.0.1 localhost\n", Some(b"eu"), &names(&["d.example", "e.example"]))
        .content
        .unwrap();
    assert!(check(Some(&start), &selection("eu", "d.example", Some(true))).mismatch);
    let after = remove_names(&start, Some(b"eu"), &names(&["d.example"])).content.unwrap();
    let found = check(Some(&after), &selection("eu", "d.example", Some(true)));
    assert!(found.available);
    assert!(!found.mismatch);
    assert_eq!(listed(&found.blocked), vec!["e.example"]);
}

#[test]
fn read_blocked_joins_the_names_of_all_blocks() {
    let hosts = "# clusterbanned start region:eu\n0.0.0.0 b.com\n0.0.0.0 a.com\n# clusterbanned end\n1.1.1.1 outside.com\n# clusterbanned start region:asia\n0.0.0.0 c.com\n0.0.0.0 A.com\n# clusterbanned end\n";
    assert_eq!(listed(&read_blocked(hosts.as_bytes())), vec!["a.com", "b.com", "c.com"]);
    assert!(read_blocked(b"1.1.1.1 outside.com\n").is_empty());
}

#[test]
fn request_without_names_is_turned_down() {
    let refused = build_request(None, Some(b"eu".to_vec()), Some(true), None);
    assert!(matches!(refused, Err(Failure::InvalidRequest)));
}

#[test]
fn request_is_carried_out_as_built() {
    let list = vec![b"B.com".to_vec(), b"a.com".to_vec(), b"b.com".to_vec()];
    let request = build_request(Some(&list), Some(b"eu".to_vec()), None, Some(true)).unwrap();
    assert_eq!(request.mode, Mode::SetNames);
    assert!(request.backup);
    assert_eq!(listed(&request.names), vec!["a.com", "b.com"]);
    let edit = carry_out(b"", &request);
    assert_eq!(edit.change, Change::Blocked { count: 2 });
    assert_eq!(
        text(&edit.content.unwrap()),
        "\n\n# clusterbanned start region:eu\n0.0.0.0 a.com\n0.0.0.0 b.com\n# clusterbanned end\n"
    );

    let request = build_request(Some(&list), None, Some(true), Some(false)).unwrap();
    assert_eq!(request.mode, Mode::RemoveNames);
    assert!(!request.backup);
    let request = build_request(Some(&list), None, Some(false), None).unwrap();
    assert_eq!(request.mode, Mode::SetNames);
    assert!(!request.backup);
}

const EDITED: &str = "# my hosts\n127.0.0.1 localhost\n\n# clusterbanned start region:eu  (edited by hand)\n\n0.0.0.0 One.Example   # why not\n\n\n\n   0.0.0.0\ttwo.example\n# clusterbanned end\n\n# clusterbanned start region:asia\n0.0.0.0 three.example\n# clusterbanned end\n";

#[test]
fn a_block_changed_by_hand_is_read_as_it_stands() {
    let blocks = decode(EDITED.as_bytes());
    assert_eq!(blocks.len(), 2);
    assert_eq!(blocks[0].region, Some(b"eu".to_vec()));
    assert_eq!(listed(&blocks[0].names), vec!["one.example", "two.example"]);
    assert_eq!(blocks[1].region, Some(b"asia".to_vec()));
    assert_eq!(listed(&blocks[1].names), vec!["three.example"]);
}

#[test]
fn remove_leaves_a_block_changed_by_hand_with_its_names() {
    let edit = remove_names(EDITED.as_bytes(), Some(b"asia"), &names(&["three.example"]));
    assert_eq!(edit.change, Change::BlockRemoved);
    let after = edit.content.unwrap();
    assert_eq!(
        text(&after),
        "# my hosts\n127.0.0.1 localhost\n\n# clusterbanned start region:eu  (edited by hand)\n\n0.0.0.0 One.Example   # why not\n\n   0.0.0.0\ttwo.example\n# clusterbanned end\n"
    );
    let blocks = decode(&after);
    assert_eq!(blocks.len(), 1);
    assert_eq!(blocks[0].region, Some(b"eu".to_vec()));
    assert_eq!(listed(&blocks[0].names), vec!["one.example", "two.example"]);
    assert!(!check(Some(&after), &selection("asia", "three.example", Some(true))).mismatch);
}

#[test]
fn set_twice_is_set_once_beside_a_block_changed_by_hand() {
    let wanted = names(&["four.example"]);
    let once = set_names(EDITED.as_bytes(), Some(b"asia"), &wanted).content.unwrap();
    let twice = set_names(&once, Some(b"asia"), &wanted).content.unwrap();
    assert_eq!(once, twice);
    let blocks = decode(&once);
    assert_eq!(blocks.len(), 2);
    assert_eq!(listed(&blocks[0].names), vec!["one.example", "two.example"]);
    assert_eq!(blocks[1].region, Some(b"asia".to_vec()));
    assert_eq!(listed(&blocks[1].names), vec!["four.example"]);
}

#[test]
fn set_twice_differs_where_three_line_feeds_stood_and_no_block() {
    let start = b"a\n\n\nb\n";
    let wanted = names(&["x.example"]);
    let once = set_names(start, Some(b"eu"), &wanted).content.unwrap();
    let twice = set_names(&once, Some(b"eu"), &wanted).content.unwrap();
    assert_eq!(text(&once), "a\n\n\nb\n\n# clusterbanned start region:eu\n0.0.0.0 x.example\n# clusterbanned end\n");
    assert_eq!(text(&twice), "a\n\nb\n\n# clusterbanned start region:eu\n0.0.0.0 x.example\n# clusterbanned end\n");
    let thrice = set_names(&twice, Some(b"eu"), &wanted).content.unwrap();
    assert_eq!(twice, thrice);
}

#[test]
fn clear_takes_out_blocks_changed_by_hand() {
    let cleared = clear_all(EDITED.as_bytes());
    assert_eq!(cleared.removed, 2);
    assert!(!cleared.halted);
    assert_eq!(text(&cleared.content.unwrap()), "# my hosts\n127.0.0.1 localhost\n");
}

#[test]
fn clear_touches_no_line_that_it_leaves() {
    let before = format!("\n\n a\n{}\n\tb \n\n\n", EU_BLOCK);
    let cleared = clear_all(before.as_bytes());
    assert_eq!(cleared.removed, 1);
    assert_eq!(text(&cleared.content.unwrap()), " a\n\n\tb \n");
    let before = format!(" a\n{}", EU_BLOCK);
    assert_eq!(text(&clear_all(before.as_bytes()).content.unwrap()), " a\n");
}

#[test]
fn what_is_written_ends_with_just_one_line_feed() {
    let before = format!("keep me\n\n{}\n\n\n", EU_BLOCK);
    let edit = set_names(before.as_bytes(), Some(b"eu"), &DomainSet::new());
    assert_eq!(text(&edit.content.unwrap()), "keep me\n");
    let before = format!("keep me\n{}", EU_BLOCK);
    let edit = remove_names(before.as_bytes(), Some(b"eu"), &names(&["x.example.com"]));
    assert!(text(&edit.content.clone().unwrap()).ends_with("# clusterbanned end\n"));
    let whole = format!("{}", EU_BLOCK);
    let all = decode(whole.as_bytes())[0].names.to_vec();
    let edit = remove_names(whole.as_bytes(), Some(b"eu"), &DomainSet::from_names(&all));
    assert_eq!(edit.change, Change::BlockRemoved);
    assert_eq!(text(&edit.content.unwrap()), "\n");
}

#[test]
fn names_are_held_against_each_other_in_lower_case_of_any_script() {
    let file = "# clusterbanned start region:eu\n0.0.0.0\u{a0}É.c\n\u{3000}0.0.0.0 ΑΒΓ.gr extra\n# clusterbanned end\n";
    let blocks = decode(file.as_bytes());
    assert_eq!(blocks.len(), 1);
    assert_eq!(listed(&blocks[0].names), vec!["é.c", "αβγ.gr"]);
    assert!(!check(Some(file.as_bytes()), &selection("eu", "É.c", Some(false))).mismatch);
    assert!(check(Some(file.as_bytes()), &selection("eu", "É.c", Some(true))).mismatch);
    assert!(check(Some(file.as_bytes()), &selection("eu", "e.c", Some(false))).mismatch);
    let edit = remove_names(file.as_bytes(), Some(b"eu"), &names(&["Αβγ.GR"]));
    assert_eq!(edit.change, Change::EntriesRemoved { removed: 1, left: 1 });
    assert_eq!(
        text(&edit.content.unwrap()),
        "# clusterbanned start region:eu\n0.0.0.0 é.c\n# clusterbanned end\n"
    );
}

#[test]
fn a_region_ends_at_white_space_of_any_kind() {
    let file = "# clusterbanned start region:eu\u{a0}(mine)\n0.0.0.0 a.com\n# clusterbanned end\n";
    let blocks = decode(file.as_bytes());
    assert_eq!(blocks[0].region, Some(b"eu".to_vec()));
}

#[test]
fn an_edit_keeps_the_first_line_and_leaves_no_run_of_line_feeds() {
    let files = [
        format!("127.0.0.1 localhost\n\n\n{}\n\n\n\nafter\n\n\n", EU_BLOCK),
        format!("first\n{}", EU_BLOCK),
        format!(" spaced first \n\n{}\n\n", EU_BLOCK),
        EDITED.to_string(),
    ];
    for file in files {
        let first = file.lines().next().unwrap().to_string();
        let written = [
            set_names(file.as_bytes(), Some(b"eu"), &names(&["new.example"])).content,
            set_names(file.as_bytes(), Some(b"eu"), &DomainSet::new()).content,
            remove_names(file.as_bytes(), Some(b"eu"), &names(&["x.example.com", "one.example"])).content,
            remove_names(
                file.as_bytes(),
                Some(b"eu"),
                &names(&["x.example.com", "y.example.com", "one.example", "two.example"]),
            )
            .content,
        ];
        for content in written {
            let content = text(&content.unwrap());
            assert!(content.starts_with(&first), "{:?}", content);
            assert_eq!(&content[first.len()..first.len() + 1], "\n");
            assert!(!content.contains("\n\n\n"), "{:?}", content);
            assert!(content.ends_with('\n') && !content.ends_with("\n\n"), "{:?}", content);
        }
        let cleared = text(&clear_all(file.as_bytes()).content.unwrap());
        assert!(!cleared.contains("\n\n\n"));
        assert!(cleared.ends_with('\n') && !cleared.ends_with("\n\n"));
        assert!(cleared.starts_with(&first));
    }
}

#[test]
fn a_new_block_has_one_empty_line_before_it() {
    for file in ["a", "a\n", "a\n\n\n\n", "a \n\n"] {
        let content = text(&set_names(file.as_bytes(), Some(b"eu"), &names(&["n.example"])).content.unwrap());
        let at = content.find("# clusterbanned start").unwrap();
        assert!(content[..at].ends_with("\n\n"));
        assert!(!content[..at].ends_with("\n\n\n"));
        assert!(content[..at].starts_with(file.trim_end_matches('\n')));
    }
}
