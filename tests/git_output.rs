use bits::git::{ref_format, Git, GitRefField};
use bits::term_colors::TermColors;

#[test]
fn push_remote_is_read_from_remote_listing() {
    let out = "origin\thttps://repo.com/proj.git (fetch)\norigin\thttps://repo.com/proj.git (push)\n";
    assert_eq!(
        Git::push_remote(out),
        Some("https://repo.com/proj.git".to_string())
    );
    assert_eq!(Git::push_remote("origin\thttps://x (fetch)\n"), None);
    assert_eq!(Git::push_remote(""), None);
    let two = "up\tgit@a:b (push)\r\norigin\tgit@c:d (push)\n";
    assert_eq!(Git::push_remote(two), Some("git@a:b".to_string()));
}

#[test]
fn revision_and_branch_are_trimmed() {
    assert_eq!(Git::revision("  0123abc\n"), "0123abc");
    assert_eq!(Git::branch("main\n"), Some("main".to_string()));
    assert_eq!(Git::branch("\n"), None);
}

#[test]
fn ref_format_joins_atoms() {
    let fields = vec![
        GitRefField::AuthorName,
        GitRefField::AuthorDateISO,
        GitRefField::RefName,
        GitRefField::ObjectName,
        GitRefField::Subject,
    ];
    assert_eq!(
        ref_format(&fields),
        "%(authorname)%00%(authordate:iso8601)%00%(refname)%00%(objectname)%00%(contents:subject)"
    );
    assert_eq!(ref_format(&vec![GitRefField::RefName]), "%(refname)");
    assert_eq!(ref_format(&Vec::new()), "");
}

#[test]
fn colour_rows() {
    assert!(!TermColors::ends_row(0));
    assert!(TermColors::ends_row(15));
    assert!(!TermColors::ends_row(16));
    assert!(TermColors::ends_row(21));
    assert!(TermColors::ends_row(255));
}
