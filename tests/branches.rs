use bits::branches::{authored_by, split_authors, Branches, ForEachRef};

fn line(author: &str, name: &str, object: &str) -> String {
    format!("{author}\u{0}2024-01-02 10:00:00 +0100\u{0}{name}\u{0}{object}\u{0}Fix things")
}

#[test]
fn from_output_reads_local_branch() {
    let l = line("Ada Lovelace", "refs/heads/feature", "abc");
    let r = ForEachRef::from_output(&l).unwrap().unwrap();
    assert_eq!(r.author_name, "Ada Lovelace");
    assert_eq!(r.author_date, "2024-01-02 10:00:00 +0100");
    assert_eq!(r.ref_name, "feature");
    assert_eq!(r.object_name, "abc");
    assert_eq!(r.subject, "Fix things");
    assert!(r.is_local && !r.is_remote && !r.diverged);
    assert_eq!(r.kind(false), Some("L"));
}

#[test]
fn from_output_reads_remote_branch_and_skips_tags() {
    let l = line("Ada", "refs/remotes/origin/feature", "abc");
    let r = ForEachRef::from_output(&l).unwrap().unwrap();
    assert_eq!(r.ref_name, "feature");
    assert!(!r.is_local && r.is_remote);
    assert_eq!(r.kind(false), None);
    assert_eq!(r.kind(true), Some("R"));
    let t = line("Ada", "refs/tags/v1", "abc");
    assert_eq!(ForEachRef::from_output(&t), Ok(None));
}

#[test]
fn from_output_rejects_wrong_field_count() {
    assert_eq!(
        ForEachRef::from_output("a\u{0}b"),
        Err("Unexpected result returned trying to parse for-each-ref: 'a\u{0}b'".to_string())
    );
}

#[test]
fn authors_are_split_and_lowered() {
    let f = split_authors(&vec!["Ada  Lovelace".to_string(), "BOB".to_string()]);
    assert_eq!(
        f,
        vec![
            vec!["ada".to_string(), "lovelace".to_string()],
            vec!["bob".to_string()]
        ]
    );
    assert!(authored_by(&f, "Lovelace Ada"));
    assert!(authored_by(&f, "Bob Smith"));
    assert!(!authored_by(&f, "Ada Smith"));
    assert!(authored_by(&Vec::new(), "anyone"));
}

#[test]
fn merge_joins_local_and_remote() {
    let refs = vec![
        ForEachRef::from_output(&line("Ada", "refs/heads/f", "abc")).unwrap().unwrap(),
        ForEachRef::from_output(&line("Ada", "refs/remotes/origin/f", "abc")).unwrap().unwrap(),
        ForEachRef::from_output(&line("Bob", "refs/heads/g", "111")).unwrap().unwrap(),
        ForEachRef::from_output(&line("Bob", "refs/remotes/origin/g", "222")).unwrap().unwrap(),
    ];
    let m = Branches::merge(refs, &Vec::new());
    assert_eq!(m.len(), 2);
    assert_eq!(m[0].ref_name, "f");
    assert_eq!(m[0].kind(false), Some("B"));
    assert_eq!(m[1].ref_name, "g");
    assert!(m[1].diverged);
    assert_eq!(m[1].object_name, "222");
    assert_eq!(m[1].kind(false), Some("D"));
}

#[test]
fn merge_hides_other_authors() {
    let refs = vec![
        ForEachRef::from_output(&line("Ada", "refs/heads/f", "abc")).unwrap().unwrap(),
        ForEachRef::from_output(&line("Bob", "refs/heads/g", "111")).unwrap().unwrap(),
    ];
    let filter = split_authors(&vec!["ada".to_string()]);
    let m = Branches::merge(refs, &filter);
    assert_eq!(m[0].kind(true), Some("L"));
    assert_eq!(m[1].kind(true), None);
}

#[test]
fn sort_puts_local_last_then_date_then_author() {
    let mk = |author: &str, date: &str, name: &str| {
        ForEachRef::from_output(&format!(
            "{author}\u{0}{date}\u{0}{name}\u{0}abc\u{0}s"
        ))
        .unwrap()
        .unwrap()
    };
    let refs = vec![
        mk("Bob", "2024-02-01", "refs/heads/a"),
        mk("Ada", "2024-03-01", "refs/remotes/origin/b"),
        mk("Ada", "2024-02-01", "refs/heads/c"),
        mk("Ada", "2024-02-01", "refs/heads/d"),
    ];
    let sorted = Branches::sort_refs(refs);
    let names: Vec<&str> = sorted.iter().map(|r| r.ref_name.as_str()).collect();
    assert_eq!(names[0], "b");
    assert_eq!(names[3], "a");
    assert!(names[1] == "c" || names[1] == "d");
    assert_eq!(sorted.len(), 4);
}
