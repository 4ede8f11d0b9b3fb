use bits::open::{CanOpen, GitOpen, GitState, Open, OpenError, PatternOpen};

fn get_open_config() -> Open {
    Open {
        program: "echo".to_string(),
        patterns: vec![PatternOpen {
            priority: 1,
            pattern: r"test-(\d+)".to_string(),
            url: "https://example.com/<pat1>".to_string(),
        }],
        git: Vec::new(),
    }
}

fn get_git_open_config() -> GitOpen {
    GitOpen {
        priority: 1,
        remote: "https?://repo.com/(\\.*).git".to_string(),
        url: "https://repo.com/<r1>/".to_string(),
        branch: None,
        commit: Some("https://repo.com/<r1>/<commit>".to_string()),
        patterns: vec![PatternOpen {
            priority: 2,
            pattern: "^(\\d+)$".to_string(),
            url: "https://repo.com/<r1>/p1/<pat1>".to_string(),
        }],
    }
}

fn repo_rule() -> GitOpen {
    GitOpen {
        priority: 0,
        remote: "https?://repo.com/(.*).git".to_string(),
        url: "https://repo.com/<r1>/".to_string(),
        branch: None,
        commit: Some("https://repo.com/<r1>/<commit>".to_string()),
        patterns: vec![PatternOpen {
            priority: 2,
            pattern: "^(\\d+)$".to_string(),
            url: "https://repo.com/<r1>/p1/<pat1>".to_string(),
        }],
    }
}

fn repo_open() -> Open {
    Open {
        program: "echo".to_string(),
        patterns: Vec::new(),
        git: vec![("repo".to_string(), repo_rule())],
    }
}

fn state(remote: Option<&str>, revision: Option<&str>, branch: Option<&str>) -> GitState {
    GitState {
        remote: remote.map(|s| s.to_string()),
        revision: revision.map(|s| s.to_string()),
        branch: branch.map(|s| s.to_string()),
    }
}

const REMOTE: &str = "https://repo.com/proj.git";

#[test]
fn test_open_pattern() {
    let open = get_open_config();
    let can = open.open_pattern("test-123");

    assert_eq!(can.len(), 1);
    assert_eq!(can[0].url, "https://example.com/123");
    assert_eq!(can[0].priority, 1);

    let can = open.open_pattern("feature-123");
    assert!(can.is_empty());
}

#[test]
fn test_git_open_get_base_url() {
    let git_open = get_git_open_config();

    assert_eq!(
        git_open.get_base(".", false, &None),
        Some("https://repo.com/<r1>/".to_string())
    );
}

#[test]
fn test_git_get_base_commit() {
    let git_open = get_git_open_config();

    assert_eq!(
        git_open.get_base("abc", true, &None),
        Some("https://repo.com/<r1>/abc".to_string())
    );
    assert_eq!(
        git_open.get_base("helloa", true, &None),
        Some("https://repo.com/<r1>/helloa".to_string())
    );
    assert_eq!(
        git_open.get_base("", true, &None),
        Some("https://repo.com/<r1>/".to_string())
    );
    assert_eq!(
        git_open.get_base("1", true, &None),
        Some("https://repo.com/<r1>/1".to_string())
    );
    assert_eq!(git_open.get_base("", false, &None), None,);
    assert_eq!(git_open.get_base("abc", false, &None), None,);
}

#[test]
fn test_git_get_base_pattern() {
    let git_open = get_git_open_config();

    assert_eq!(
        git_open.get_base("123", false, &None),
        Some("https://repo.com/<r1>/p1/123".to_string())
    );
    assert_eq!(
        git_open.get_base("1", false, &None),
        Some("https://repo.com/<r1>/p1/1".to_string())
    );
    assert_eq!(git_open.get_base("a", false, &None), None);
    assert_eq!(git_open.get_base("abc", false, &None), None,);
}

#[test]
fn pattern_rule_resolves_issue_token() {
    let open = get_open_config();
    let none = state(None, None, None);
    assert_eq!(
        open.open("test-123", &none),
        Ok("https://example.com/123".to_string())
    );
    assert_eq!(
        open.open("feature-123", &none),
        Err(OpenError::NoMatch("feature-123".to_string()))
    );
}

#[test]
fn no_rule_gives_no_match() {
    let open = Open::default();
    assert_eq!(open.program, "xdg-open");
    let st = state(Some(REMOTE), Some("abc"), None);
    assert_eq!(open.open("x", &st), Err(OpenError::NoMatch("x".to_string())));
    let open = repo_open();
    assert_eq!(
        open.open("zzz", &state(Some(REMOTE), None, None)),
        Err(OpenError::NoMatch("zzz".to_string()))
    );
}

#[test]
fn git_rule_dot_gives_base_url() {
    let open = repo_open();
    let st = state(Some(REMOTE), None, Some("main"));
    assert_eq!(open.open(".", &st), Ok("https://repo.com/proj/".to_string()));
}

#[test]
fn git_rule_commit_gives_commit_url() {
    let open = repo_open();
    let st = state(Some(REMOTE), Some("abc"), None);
    assert_eq!(open.open("abc", &st), Ok("https://repo.com/proj/abc".to_string()));
    let st = state(Some(REMOTE), Some("0123abcd"), None);
    assert_eq!(
        open.open("HEAD", &st),
        Ok("https://repo.com/proj/0123abcd".to_string())
    );
}

#[test]
fn git_rule_nested_pattern_gives_pattern_url() {
    let open = repo_open();
    let st = state(Some(REMOTE), None, None);
    assert_eq!(
        open.open("123", &st),
        Ok("https://repo.com/proj/p1/123".to_string())
    );
    let can = open.open_git("a", &st);
    assert!(can.is_empty());
}

#[test]
fn nested_pattern_candidate_has_its_own_priority() {
    let open = repo_open();
    let can = open.open_git("123", &state(Some(REMOTE), None, None));
    assert_eq!(
        can,
        vec![CanOpen {
            priority: 2,
            url: "https://repo.com/proj/p1/123".to_string()
        }]
    );
    let can = open.open_git("abc", &state(Some(REMOTE), Some("abc"), None));
    assert_eq!(can[0].priority, 0);
}

#[test]
fn git_rule_with_branch_template() {
    let mut rule = repo_rule();
    rule.branch = Some("https://repo.com/<r1>/tree/<branch>".to_string());
    let open = Open {
        program: "echo".to_string(),
        patterns: Vec::new(),
        git: vec![("repo".to_string(), rule)],
    };
    assert!(open.wants_branch("."));
    assert!(!open.wants_branch("main"));
    assert_eq!(
        open.open(".", &state(Some(REMOTE), None, Some("dev"))),
        Ok("https://repo.com/proj/tree/dev".to_string())
    );
    assert_eq!(
        open.open(".", &state(Some(REMOTE), None, None)),
        Ok("https://repo.com/proj/".to_string())
    );
}

#[test]
fn foreign_remote_contributes_nothing() {
    let open = repo_open();
    for token in [".", "123", "abc"] {
        let st = state(Some("git@elsewhere.org:proj"), Some("abc"), Some("main"));
        assert!(open.open_git(token, &st).is_empty());
        assert!(open.open(token, &st).is_err());
    }
    assert!(open.open_git("123", &state(None, None, None)).is_empty());
}

#[test]
fn pattern_beats_git_rule_by_priority() {
    let mut open = repo_open();
    open.patterns.push(PatternOpen {
        priority: 5,
        pattern: r"^(\d+)$".to_string(),
        url: "https://issues.example.com/<pat1>".to_string(),
    });
    let st = state(Some(REMOTE), None, None);
    assert_eq!(
        open.open("42", &st),
        Ok("https://issues.example.com/42".to_string())
    );
}

#[test]
fn equal_priorities_resolve_the_same_every_time() {
    let open = Open {
        program: "echo".to_string(),
        patterns: vec![
            PatternOpen {
                priority: 3,
                pattern: "^x-(.*)$".to_string(),
                url: "https://first.example/<pat1>".to_string(),
            },
            PatternOpen {
                priority: 3,
                pattern: "^x-(.*)$".to_string(),
                url: "https://second.example/<pat1>".to_string(),
            },
        ],
        git: Vec::new(),
    };
    let st = state(None, None, None);
    let first = open.open("x-1", &st);
    for _ in 0..5 {
        assert_eq!(open.open("x-1", &st), first);
    }
    assert_eq!(first, Ok("https://second.example/1".to_string()));
}

#[test]
fn full_placeholders_leave_none_behind() {
    let rule = PatternOpen {
        priority: 0,
        pattern: r"^(\w+)/(\d+)$".to_string(),
        url: "https://host/<pat1>/issues/<pat2>".to_string(),
    };
    let url = rule.get_match("proj/77").unwrap();
    assert_eq!(url, "https://host/proj/issues/77");
    assert!(!url.contains("<pat"));
}

#[test]
fn extra_placeholders_stay_literal() {
    let rule = PatternOpen {
        priority: 0,
        pattern: r"^(\d+)$".to_string(),
        url: "https://host/<pat1>/<pat2>/<pat1>".to_string(),
    };
    assert_eq!(
        rule.get_match("5"),
        Some("https://host/5/<pat2>/<pat1>".to_string())
    );
}

#[test]
fn group_outside_the_match_fails() {
    let rule = PatternOpen {
        priority: 0,
        pattern: r"^a(b)?c$".to_string(),
        url: "https://host/<pat1>".to_string(),
    };
    assert_eq!(rule.get_match("ac"), None);
    assert_eq!(rule.get_match("abc"), Some("https://host/b".to_string()));
}

#[test]
fn many_groups_use_two_digit_placeholders() {
    let rule = PatternOpen {
        priority: 0,
        pattern: r"^(a)(b)(c)(d)(e)(f)(g)(h)(i)(j)(k)$".to_string(),
        url: "<pat11>-<pat1>-<pat10>".to_string(),
    };
    assert_eq!(rule.get_match("abcdefghijk"), Some("k-a-j".to_string()));
}

#[test]
fn invalid_regex_is_reported() {
    let mut open = get_open_config();
    assert_eq!(open.validate(), Ok(()));
    open.patterns.push(PatternOpen {
        priority: 0,
        pattern: "(".to_string(),
        url: "x".to_string(),
    });
    assert_eq!(open.validate(), Err(OpenError::InvalidRegex("(".to_string())));
    let mut rule = repo_rule();
    rule.remote = "[".to_string();
    let open = Open {
        program: "echo".to_string(),
        patterns: Vec::new(),
        git: vec![("r".to_string(), rule)],
    };
    assert_eq!(open.validate(), Err(OpenError::InvalidRegex("[".to_string())));
}

#[test]
fn queries_follow_the_token() {
    let open = repo_open();
    assert!(open.wants_remote());
    assert!(!Open::default().wants_remote());
    assert!(!Open::wants_revision("."));
    assert!(Open::wants_revision("abc"));
    assert!(!open.wants_branch("."));
}

#[test]
fn resolve_checks_rules_first() {
    let mut open = get_open_config();
    let st = state(None, None, None);
    assert_eq!(
        open.resolve("test-7", &st),
        Ok("https://example.com/7".to_string())
    );
    assert_eq!(
        open.resolve("nothing", &st),
        Err(OpenError::NoMatch("nothing".to_string()))
    );
    open.patterns.push(PatternOpen {
        priority: 0,
        pattern: "a(".to_string(),
        url: "x".to_string(),
    });
    assert_eq!(
        open.resolve("test-7", &st),
        Err(OpenError::InvalidRegex("a(".to_string()))
    );
}
