use groupby::collection::Collection;
use groupby::grouping::{group_lines, groupby_regex, Grouping};
use groupby::pattern::{validate_group_id, GroupId, GroupIdError, Pattern, RegexMatcher};
use groupby::present::{count_line, count_width, digit_count, present, render_groupby};

fn strings(v: &[&str]) -> Vec<String> {
    v.iter().map(|s| s.to_string()).collect()
}

fn sample() -> Vec<String> {
    strings(&["a: x", "b: y", "a: z", "a: x"])
}

fn collection(unique: bool, n: usize) -> Collection {
    let mut c = Collection::new(unique);
    for i in 0..n {
        c.add(format!("line {}", i));
    }
    c
}

#[test]
fn whole_match_keeps_every_line_in_order() {
    let re = Pattern::new(r"^(\w+):").unwrap();
    let (g, out) = render_groupby(&re, &GroupId::Whole, &sample(), false, false);
    assert_eq!(g.keys, strings(&["a:", "b:"]));
    assert_eq!(g.groups[0].lines, strings(&["a: x", "a: z", "a: x"]));
    assert_eq!(g.groups[1].lines, strings(&["b: y"]));
    assert_eq!(out, strings(&["a:", "    a: x", "    a: z", "    a: x", "b:", "    b: y"]));
}

#[test]
fn indexed_group_unique_keeps_distinct_sorted() {
    let re = Pattern::new(r"^(\w+):").unwrap();
    let gid = GroupId::from("1");
    assert!(validate_group_id(&gid, &re).is_ok());
    let (g, out) = render_groupby(&re, &gid, &sample(), true, false);
    assert_eq!(g.keys, strings(&["a", "b"]));
    assert_eq!(g.groups[0].lines, strings(&["a: x", "a: z"]));
    assert_eq!(out, strings(&["a", "    a: x", "    a: z", "b", "    b: y"]));
}

#[test]
fn unmatched_line_gets_no_match_key() {
    let re = Pattern::new(r"\d+").unwrap();
    let (_, out) = render_groupby(&re, &GroupId::Whole, &strings(&["###"]), false, false);
    assert_eq!(out, strings(&["***NO-MATCH***", "    ###"]));
}

#[test]
fn group_outside_the_match_gets_no_match_key() {
    let re = Pattern::new(r"(a)|(b)").unwrap();
    let gid = GroupId::Index(2);
    assert!(validate_group_id(&gid, &re).is_ok());
    let m = RegexMatcher::new(&re, &gid);
    assert_eq!(m.extract("a"), "***NO-MATCH***");
    assert_eq!(m.extract("b"), "b");
}

#[test]
fn named_group_selects_its_text() {
    let re = Pattern::new(r"(?P<level>[A-Z]+) ").unwrap();
    let gid = GroupId::from("level");
    assert!(validate_group_id(&gid, &re).is_ok());
    let lines = strings(&["WARN disk", "INFO up", "WARN cpu", "plain"]);
    let (_, out) = render_groupby(&re, &gid, &lines, false, false);
    assert_eq!(
        out,
        strings(&["***NO-MATCH***", "    plain", "INFO", "    INFO up", "WARN", "    WARN disk", "    WARN cpu"])
    );
}

#[test]
fn count_only_pads_to_widest_count() {
    let g = Grouping {
        unique: false,
        keys: strings(&["k1", "k2", "k3"]),
        groups: vec![collection(false, 3), collection(false, 27), collection(false, 150)],
    };
    assert_eq!(count_width(&g), 3);
    assert_eq!(present(&g, true), strings(&["003: k1", "027: k2", "150: k3"]));
}

#[test]
fn count_only_sums_to_line_totals() {
    let re = Pattern::new(r"^(\w+):").unwrap();
    let (_, all) = render_groupby(&re, &GroupId::Whole, &sample(), false, true);
    assert_eq!(all, strings(&["3: a:", "1: b:"]));
    let (_, unique) = render_groupby(&re, &GroupId::Whole, &sample(), true, true);
    assert_eq!(unique, strings(&["2: a:", "1: b:"]));
}

#[test]
fn empty_input_gives_no_output() {
    let re = Pattern::new(r"x").unwrap();
    let (g, out) = render_groupby(&re, &GroupId::Whole, &Vec::new(), false, true);
    assert_eq!(g.len(), 0);
    assert_eq!(count_width(&g), 0);
    assert!(out.is_empty());
}

#[test]
fn count_line_formats() {
    assert_eq!(count_line(7, 0, &"k".to_string()), "7: k");
    assert_eq!(count_line(7, 3, &"k".to_string()), "007: k");
    assert_eq!(count_line(1234, 2, &"k".to_string()), "1234: k");
    assert_eq!(digit_count(0), 1);
    assert_eq!(digit_count(9), 1);
    assert_eq!(digit_count(10), 2);
    assert_eq!(digit_count(usize::MAX), 20);
}

#[test]
fn unknown_name_is_rejected() {
    let re = Pattern::new(r"(?P<word>\w+)").unwrap();
    match validate_group_id(&GroupId::from("nope"), &re) {
        Err(e) => {
            assert!(matches!(e, GroupIdError::UnknownName(_)));
            assert_eq!(e.message(), "Group name unknown: nope");
        }
        Ok(()) => panic!("expected an error"),
    }
    assert!(validate_group_id(&GroupId::from("word"), &re).is_ok());
}

#[test]
fn index_too_large_is_rejected() {
    let re = Pattern::new(r"^(\w+):").unwrap();
    assert!(validate_group_id(&GroupId::Index(1), &re).is_ok());
    match validate_group_id(&GroupId::from("2"), &re) {
        Err(e) => {
            assert!(matches!(e, GroupIdError::IndexTooLarge(2)));
            assert_eq!(e.message(), "Group index too large: 2");
        }
        Ok(()) => panic!("expected an error"),
    }
}

#[test]
fn invalid_pattern_is_rejected() {
    assert!(Pattern::new("(").is_err());
    assert!(Pattern::new("(a)").is_ok());
}

#[test]
fn group_id_reads_index_or_name() {
    assert!(matches!(GroupId::from("12"), GroupId::Index(12)));
    assert!(matches!(GroupId::from("+3"), GroupId::Index(3)));
    assert!(matches!(GroupId::from("0"), GroupId::Index(0)));
    assert!(matches!(GroupId::from("name"), GroupId::Name(ref n) if n == "name"));
    assert!(matches!(GroupId::from(""), GroupId::Name(ref n) if n.is_empty()));
    assert!(matches!(GroupId::from("+"), GroupId::Name(_)));
    assert!(matches!(GroupId::from("1a"), GroupId::Name(_)));
    assert!(matches!(GroupId::from("99999999999999999999999"), GroupId::Name(_)));
}

#[test]
fn unique_collection_merges_and_sorts() {
    let mut c = Collection::new(true);
    for l in ["b", "a", "c", "a", "b"] {
        c.add(l.to_string());
    }
    assert_eq!(c.lines, strings(&["a", "b", "c"]));
    assert_eq!(c.len(), 3);
    let mut d = Collection::new(false);
    for l in ["b", "a", "b"] {
        d.add(l.to_string());
    }
    assert_eq!(d.lines, strings(&["b", "a", "b"]));
}

#[test]
fn keys_sort_by_code_point() {
    let keys = strings(&["b", "B", "é", "a", "ab", "", "b"]);
    let lines = strings(&["1", "2", "3", "4", "5", "6", "7"]);
    let g = group_lines(&keys, &lines, false);
    assert_eq!(g.keys, strings(&["", "B", "a", "ab", "b", "é"]));
    assert_eq!(g.groups[4].lines, strings(&["1", "7"]));
}

#[test]
fn every_line_lands_in_one_group() {
    let re = Pattern::new(r"\w").unwrap();
    let lines = strings(&["x1", "y2", "x3", "z", "x1"]);
    let g = groupby_regex(&re, &GroupId::Whole, &lines, false);
    let total: usize = g.groups.iter().map(|c| c.len()).sum();
    assert_eq!(total, lines.len());
    for l in &lines {
        let n = g.groups.iter().filter(|c| c.lines.contains(l)).count();
        assert_eq!(n, 1);
    }
}
