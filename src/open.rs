//! Rules that turn a token into a URL, and the choice among their candidates.

use vstd::prelude::*;
use vstd::string::*;

use crate::matcher::{captures, is_valid_regex, regex_captures, regex_valid};
use crate::subst::{
    count_open, holds_placeholders, lemma_full_substitution, occurs, opening, placeholder,
    plain_groups, replace_first, replace_first_exec, substitute, substitute_groups,
};

verus! {

/// Opening of the placeholders of a pattern rule's groups: `<pat1>`, `<pat2>`, ...
pub open spec fn pat_prefix() -> Seq<char> {
    seq!['<', 'p', 'a', 't']
}

/// Opening of the placeholders of a push remote's groups: `<r1>`, `<r2>`, ...
pub open spec fn remote_prefix() -> Seq<char> {
    seq!['<', 'r']
}

/// The placeholder of the current branch.
pub open spec fn branch_tag() -> Seq<char> {
    seq!['<', 'b', 'r', 'a', 'n', 'c', 'h', '>']
}

/// The placeholder of the resolved commit.
pub open spec fn commit_tag() -> Seq<char> {
    seq!['<', 'c', 'o', 'm', 'm', 'i', 't', '>']
}

/// The token that stands for the current context.
pub open spec fn dot() -> Seq<char> {
    seq!['.']
}

fn is_dot(text: &str) -> (r: bool)
    ensures
        r == (text@ == dot()),
{
    if text.unicode_len() == 1 {
        let c = text.get_char(0);
        if c == '.' {
            assert(text@ == dot());
            true
        } else {
            false
        }
    } else {
        false
    }
}

/// A rule that matches the token against a regular expression and fills the
/// groups into a URL template.
pub struct PatternOpen {
    pub priority: i32,
    pub pattern: String,
    pub url: String,
}

/// A rule scoped to the repositories whose push remote matches `remote`.
pub struct GitOpen {
    pub priority: i32,
    pub remote: String,
    pub url: String,
    pub branch: Option<String>,
    pub commit: Option<String>,
    pub patterns: Vec<PatternOpen>,
}

/// A URL offered by one rule, with the priority it competes with.
#[derive(Debug, PartialEq, Eq)]
pub struct CanOpen {
    pub priority: i32,
    pub url: String,
}

impl View for CanOpen {
    type V = (int, Seq<char>);

    open spec fn view(&self) -> (int, Seq<char>) {
        (self.priority as int, self.url@)
    }
}

/// What git tells of the working copy: the push remote's URL, the token
/// resolved as a revision, and the current branch; `None` where git had
/// nothing to say.
pub struct GitState {
    pub remote: Option<String>,
    pub revision: Option<String>,
    pub branch: Option<String>,
}

/// The opener and its rules; git rules are kept in declaration order, each
/// under its name.
pub struct Open {
    pub program: String,
    pub patterns: Vec<PatternOpen>,
    pub git: Vec<(String, GitOpen)>,
}

/// Why a token could not be opened.
#[derive(Debug, PartialEq, Eq)]
pub enum OpenError {
    /// No rule offered a URL for the token.
    NoMatch(String),
    /// A rule holds a regular expression that does not compile.
    InvalidRegex(String),
}

/// The priority and URL of a candidate, if there is one.
pub open spec fn opt_can(o: Option<CanOpen>) -> Option<(int, Seq<char>)> {
    match o {
        Some(c) => Some(c@),
        None => None,
    }
}

/// The priorities and URLs of candidates, in order.
pub open spec fn cans(v: Seq<CanOpen>) -> Seq<(int, Seq<char>)> {
    v.map_values(|c: CanOpen| c@)
}

/// The first of `ps[i..]` that matches, with the URL it gives and its priority.
pub open spec fn first_match_from(ps: Seq<PatternOpen>, text: Seq<char>, i: int) -> Option<
    (int, Seq<char>),
>
    decreases ps.len() - i,
{
    if i < 0 || i >= ps.len() {
        None
    } else {
        match ps[i].match_spec(text) {
            Some(u) => Some((ps[i].priority as int, u)),
            None => first_match_from(ps, text, i + 1),
        }
    }
}

/// The candidates of the first `n` pattern rules, in order.
pub open spec fn pattern_cans_upto(ps: Seq<PatternOpen>, text: Seq<char>, n: nat) -> Seq<
    (int, Seq<char>),
>
    decreases n,
{
    if n == 0 || n > ps.len() {
        Seq::empty()
    } else {
        let prev = pattern_cans_upto(ps, text, (n - 1) as nat);
        match ps[n - 1].match_spec(text) {
            Some(u) => prev.push((ps[n - 1].priority as int, u)),
            None => prev,
        }
    }
}

/// Whether the token names a commit, and the text that stands for `<commit>`.
pub open spec fn working_token(text: Seq<char>, revision: Option<Seq<char>>) -> (bool, Seq<char>) {
    if text == dot() {
        (false, text)
    } else {
        match revision {
            Some(c) => (true, c),
            None => (false, text),
        }
    }
}

/// The candidate of a git rule for a push remote: the base URL with the
/// remote's groups filled in.
pub open spec fn git_candidate(
    rule: GitOpen,
    text: Seq<char>,
    is_commit: bool,
    remote: Seq<char>,
    branch: Option<Seq<char>>,
) -> Option<(int, Seq<char>)> {
    match rule.base_spec(text, is_commit, branch) {
        None => None,
        Some(c) => match regex_captures(rule.remote@, remote) {
            None => None,
            Some(gs) => match substitute(c.1, remote_prefix(), gs) {
                None => None,
                Some(u) => Some((c.0, u)),
            },
        },
    }
}

/// The candidates of the first `n` git rules, in order.
pub open spec fn git_cans_upto(
    rules: Seq<(String, GitOpen)>,
    text: Seq<char>,
    is_commit: bool,
    remote: Seq<char>,
    branch: Option<Seq<char>>,
    n: nat,
) -> Seq<(int, Seq<char>)>
    decreases n,
{
    if n == 0 || n > rules.len() {
        Seq::empty()
    } else {
        let prev = git_cans_upto(rules, text, is_commit, remote, branch, (n - 1) as nat);
        match git_candidate(rules[n - 1].1, text, is_commit, remote, branch) {
            Some(c) => prev.push(c),
            None => prev,
        }
    }
}

/// Index of the winner among the first `n` candidates: the highest priority,
/// and among equals the one that comes last.
pub open spec fn best_upto(cs: Seq<(int, Seq<char>)>, n: nat) -> int
    decreases n,
{
    if n <= 1 {
        0
    } else {
        let b = best_upto(cs, (n - 1) as nat);
        if cs[n - 1].0 >= cs[b].0 {
            n - 1
        } else {
            b
        }
    }
}

/// The URL that wins among candidates, if there is any.
pub open spec fn select_spec(cs: Seq<(int, Seq<char>)>) -> Option<Seq<char>> {
    if cs.len() == 0 {
        None
    } else {
        Some(cs[best_upto(cs, cs.len())].1)
    }
}

impl PatternOpen {
    /// The rule's pattern compiles.
    pub open spec fn wf(&self) -> bool {
        regex_valid(self.pattern@)
    }

    /// The URL of this rule for a token: `None` when the pattern does not match
    /// or a group took no part in the match.
    pub open spec fn match_spec(&self, text: Seq<char>) -> Option<Seq<char>> {
        match regex_captures(self.pattern@, text) {
            None => None,
            Some(gs) => substitute(self.url@, pat_prefix(), gs),
        }
    }

    /// The URL of this rule for a token (see `match_spec`).
    pub fn get_match(&self, text: &str) -> (r: Option<String>)
        requires
            self.wf(),
        ensures
            r.deep_view() == self.match_spec(text@),
    {
        let groups = captures(self.pattern.as_str(), text)?;
        let prefix = vec!['<', 'p', 'a', 't'];
        assert(prefix@ == pat_prefix());
        substitute_groups(self.url.as_str(), &prefix, &groups)
    }
}

impl GitOpen {
    /// The remote pattern and every nested pattern compile.
    pub open spec fn wf(&self) -> bool {
        &&& regex_valid(self.remote@)
        &&& forall|i: int| 0 <= i < self.patterns@.len() ==> (#[trigger] self.patterns@[i]).wf()
    }

    /// The base URL of this rule for a token, before the remote's groups are
    /// filled in, with the priority it competes with.
    pub open spec fn base_spec(&self, text: Seq<char>, is_commit: bool, branch: Option<Seq<char>>) -> Option<
        (int, Seq<char>),
    > {
        if text == dot() {
            match (self.branch, branch) {
                (Some(t), Some(b)) => Some((self.priority as int, replace_first(t@, branch_tag(), b))),
                _ => Some((self.priority as int, self.url@)),
            }
        } else if is_commit {
            match self.commit {
                Some(t) => Some((self.priority as int, replace_first(t@, commit_tag(), text))),
                None => None,
            }
        } else {
            first_match_from(self.patterns@, text, 0)
        }
    }

    /// The base URL and its priority; a nested pattern rule lends its own priority.
    pub fn get_base_candidate(&self, text: &str, is_commit: bool, branch: &Option<String>) -> (r:
        Option<CanOpen>)
        requires
            self.wf(),
        ensures
            opt_can(r) == self.base_spec(text@, is_commit, branch.deep_view()),
    {
        if is_dot(text) {
            if let Some(branch_url) = &self.branch {
                if let Some(b) = branch {
                    let tag = vec!['<', 'b', 'r', 'a', 'n', 'c', 'h', '>'];
                    assert(tag@ == branch_tag());
                    let url = replace_first_exec(branch_url.as_str(), &tag, b.as_str());
                    return Some(CanOpen { priority: self.priority, url });
                }
            }
            return Some(CanOpen { priority: self.priority, url: self.url.clone() });
        }
        if is_commit {
            if let Some(commit) = &self.commit {
                let tag = vec!['<', 'c', 'o', 'm', 'm', 'i', 't', '>'];
                assert(tag@ == commit_tag());
                let url = replace_first_exec(commit.as_str(), &tag, text);
                return Some(CanOpen { priority: self.priority, url });
            }
            return None;
        }
        let mut i: usize = 0;
        while i < self.patterns.len()
            invariant
                self.wf(),
                !is_commit,
                text@ != dot(),
                i <= self.patterns.len(),
                first_match_from(self.patterns@, text@, 0) == first_match_from(
                    self.patterns@,
                    text@,
                    i as int,
                ),
            decreases self.patterns.len() - i,
        {
            let pattern = &self.patterns[i];
            assert(pattern.wf());
            if let Some(url) = pattern.get_match(text) {
                return Some(CanOpen { priority: pattern.priority, url });
            }
            i += 1;
        }
        None
    }

    /// The base URL of this rule for a token (see `get_base_candidate`).
    pub fn get_base(&self, text: &str, is_commit: bool, branch: &Option<String>) -> (r: Option<String>)
        requires
            self.wf(),
        ensures
            r.deep_view() == match self.base_spec(text@, is_commit, branch.deep_view()) {
                Some(c) => Some(c.1),
                None => None,
            },
    {
        match self.get_base_candidate(text, is_commit, branch) {
            Some(c) => Some(c.url),
            None => None,
        }
    }
}

proof fn lemma_pattern_cans_none(ps: Seq<PatternOpen>, text: Seq<char>, n: nat)
    requires
        n <= ps.len(),
        forall|i: int| 0 <= i < ps.len() ==> (#[trigger] ps[i]).match_spec(text) is None,
    ensures
        pattern_cans_upto(ps, text, n).len() == 0,
    decreases n,
{
    if n > 0 {
        lemma_pattern_cans_none(ps, text, (n - 1) as nat);
        assert(ps[n - 1].match_spec(text) is None);
    }
}

proof fn lemma_git_cans_none(
    rules: Seq<(String, GitOpen)>,
    text: Seq<char>,
    is_commit: bool,
    remote: Seq<char>,
    branch: Option<Seq<char>>,
    n: nat,
)
    requires
        n <= rules.len(),
        forall|i: int|
            0 <= i < rules.len() ==> git_candidate(
                (#[trigger] rules[i]).1,
                text,
                is_commit,
                remote,
                branch,
            ) is None,
    ensures
        git_cans_upto(rules, text, is_commit, remote, branch, n).len() == 0,
    decreases n,
{
    if n > 0 {
        lemma_git_cans_none(rules, text, is_commit, remote, branch, (n - 1) as nat);
        assert(git_candidate(rules[n - 1].1, text, is_commit, remote, branch) is None);
    }
}

/// A token that no pattern rule matches, and for which no git rule yields a
/// URL under the push remote (if there is one), resolves to nothing.
pub proof fn lemma_no_rule_no_match(o: Open, text: Seq<char>, git: GitState)
    requires
        forall|i: int|
            0 <= i < o.patterns@.len() ==> (#[trigger] o.patterns@[i]).match_spec(text) is None,
        git.remote matches Some(rm) ==> forall|i: int|
            0 <= i < o.git@.len() ==> git_candidate(
                (#[trigger] o.git@[i]).1,
                working_token(text, git.revision.deep_view()).1,
                working_token(text, git.revision.deep_view()).0,
                rm@,
                git.branch.deep_view(),
            ) is None,
    ensures
        o.resolve_spec(text, git) is None,
{
    lemma_pattern_cans_none(o.patterns@, text, o.patterns@.len());
    if let Some(rm) = git.remote {
        let (is_commit, t) = working_token(text, git.revision.deep_view());
        lemma_git_cans_none(o.git@, t, is_commit, rm@, git.branch.deep_view(), o.git@.len());
    }
}

/// A git rule whose remote pattern does not match the push remote yields no
/// candidate, whatever the token.
pub proof fn lemma_foreign_remote_contributes_nothing(
    rule: GitOpen,
    text: Seq<char>,
    is_commit: bool,
    remote: Seq<char>,
    branch: Option<Seq<char>>,
)
    requires
        regex_captures(rule.remote@, remote) is None,
    ensures
        git_candidate(rule, text, is_commit, remote, branch) is None,
{
}

/// Candidate `k` has the highest priority among the first `n`, and every
/// candidate after it a lower one.
pub open spec fn is_winner(cs: Seq<(int, Seq<char>)>, n: nat, k: int) -> bool {
    &&& 0 <= k < n
    &&& forall|j: int| 0 <= j < n ==> #[trigger] cs[j].0 <= cs[k].0
    &&& forall|j: int| k < j < n ==> #[trigger] cs[j].0 < cs[k].0
}

/// The winner among candidates is fixed by their priorities and order alone:
/// the chosen index has the highest priority with none after it as high, and
/// no other index has that property, so equal priorities never leave the
/// choice open.
pub proof fn lemma_winner(cs: Seq<(int, Seq<char>)>, n: nat)
    requires
        0 < n <= cs.len(),
    ensures
        is_winner(cs, n, best_upto(cs, n)),
        forall|k: int| #[trigger] is_winner(cs, n, k) ==> k == best_upto(cs, n),
    decreases n,
{
    if n > 1 {
        lemma_winner(cs, (n - 1) as nat);
    }
    let b = best_upto(cs, n);
    assert forall|k: int| #[trigger] is_winner(cs, n, k) implies k == b by {
        if k < b {
            assert(cs[b].0 < cs[k].0);
        } else if b < k {
            assert(cs[k].0 < cs[b].0);
        }
    }
}

/// A pattern rule whose URL template holds each of the placeholders
/// `<pat1>` .. `<patN>` for the `N` groups of its pattern, and no other `<`,
/// gives for a matching token a URL with no placeholder left, provided the
/// groups took part and hold no `<`.
pub proof fn lemma_full_template_leaves_no_placeholder(rule: PatternOpen, text: Seq<char>)
    requires
        regex_captures(rule.pattern@, text) matches Some(gs) && gs.len() >= 1 && count_open(
            rule.url@,
        ) == gs.len() - 1 && plain_groups(gs) && holds_placeholders(
            rule.url@,
            pat_prefix(),
            1,
            gs.len(),
        ),
    ensures
        rule.match_spec(text) is Some,
        forall|i: nat| !#[trigger] occurs(rule.match_spec(text)->0, placeholder(pat_prefix(), i)),
{
    let gs = regex_captures(rule.pattern@, text)->0;
    assert(opening(pat_prefix()));
    lemma_full_substitution(rule.url@, pat_prefix(), gs);
}

/// Index of the winning candidate, if there is any.
pub fn select(cands: &Vec<CanOpen>) -> (r: Option<usize>)
    ensures
        match r {
            None => cands@.len() == 0,
            Some(k) => {
                &&& k < cands@.len()
                &&& k as int == best_upto(cans(cands@), cands@.len())
            },
        },
{
    if cands.len() == 0 {
        return None;
    }
    let ghost cs = cans(cands@);
    let mut best: usize = 0;
    let mut i: usize = 1;
    while i < cands.len()
        invariant
            cs == cans(cands@),
            1 <= i <= cands.len(),
            best as int == best_upto(cs, i as nat),
            best < i,
        decreases cands.len() - i,
    {
        if cands[i].priority >= cands[best].priority {
            best = i;
        }
        i += 1;
    }
    Some(best)
}

impl Default for Open {
    fn default() -> (r: Open)
        ensures
            r.program@ == "xdg-open"@,
            r.patterns@.len() == 0,
            r.git@.len() == 0,
    {
        Open { program: "xdg-open".to_owned(), patterns: Vec::new(), git: Vec::new() }
    }
}

impl Open {
    /// Every regular expression of the rules compiles.
    pub open spec fn wf(&self) -> bool {
        &&& forall|i: int| 0 <= i < self.patterns@.len() ==> (#[trigger] self.patterns@[i]).wf()
        &&& forall|i: int| 0 <= i < self.git@.len() ==> (#[trigger] self.git@[i]).1.wf()
    }

    /// The candidates of the pattern rules, in declaration order.
    pub open spec fn pattern_cans(&self, text: Seq<char>) -> Seq<(int, Seq<char>)> {
        pattern_cans_upto(self.patterns@, text, self.patterns@.len())
    }

    /// The candidates of the git rules, in declaration order; none without a push remote.
    pub open spec fn git_cans(
        &self,
        text: Seq<char>,
        remote: Option<Seq<char>>,
        revision: Option<Seq<char>>,
        branch: Option<Seq<char>>,
    ) -> Seq<(int, Seq<char>)> {
        match remote {
            None => Seq::empty(),
            Some(rm) => {
                let (is_commit, t) = working_token(text, revision);
                git_cans_upto(self.git@, t, is_commit, rm, branch, self.git@.len())
            },
        }
    }

    /// Every candidate for a token: those of the git rules, then those of the pattern rules.
    pub open spec fn candidates(&self, text: Seq<char>, git: GitState) -> Seq<(int, Seq<char>)> {
        self.git_cans(text, git.remote.deep_view(), git.revision.deep_view(), git.branch.deep_view())
            + self.pattern_cans(text)
    }

    /// The URL that a token resolves to, if any rule offers one.
    pub open spec fn resolve_spec(&self, text: Seq<char>, git: GitState) -> Option<Seq<char>> {
        select_spec(self.candidates(text, git))
    }

    /// Checks that every regular expression of the rules compiles.
    pub fn validate(&self) -> (r: Result<(), OpenError>)
        ensures
            r is Ok <==> self.wf(),
            r matches Err(e) ==> (e matches OpenError::InvalidRegex(p) && !regex_valid(p@)),
    {
        let mut i: usize = 0;
        while i < self.patterns.len()
            invariant
                i <= self.patterns.len(),
                forall|j: int| 0 <= j < i ==> (#[trigger] self.patterns@[j]).wf(),
            decreases self.patterns.len() - i,
        {
            if !is_valid_regex(self.patterns[i].pattern.as_str()) {
                assert(!self.patterns@[i as int].wf());
                return Err(OpenError::InvalidRegex(self.patterns[i].pattern.clone()));
            }
            i += 1;
        }
        let mut i: usize = 0;
        while i < self.git.len()
            invariant
                i <= self.git.len(),
                forall|j: int| 0 <= j < self.patterns@.len() ==> (#[trigger] self.patterns@[j]).wf(),
                forall|j: int| 0 <= j < i ==> (#[trigger] self.git@[j]).1.wf(),
            decreases self.git.len() - i,
        {
            let rule = &self.git[i].1;
            if !is_valid_regex(rule.remote.as_str()) {
                assert(!self.git@[i as int].1.wf());
                return Err(OpenError::InvalidRegex(rule.remote.clone()));
            }
            let mut k: usize = 0;
            while k < rule.patterns.len()
                invariant
                    i < self.git.len(),
                    rule == self.git@[i as int].1,
                    k <= rule.patterns.len(),
                    forall|j: int| 0 <= j < k ==> (#[trigger] rule.patterns@[j]).wf(),
                decreases rule.patterns.len() - k,
            {
                if !is_valid_regex(rule.patterns[k].pattern.as_str()) {
                    assert(!rule.patterns@[k as int].wf());
                    assert(!self.git@[i as int].1.wf());
                    return Err(OpenError::InvalidRegex(rule.patterns[k].pattern.clone()));
                }
                k += 1;
            }
            i += 1;
        }
        Ok(())
    }

    /// Whether resolving a token may read the push remote: only when a git rule exists.
    pub fn wants_remote(&self) -> (r: bool)
        ensures
            r == (self.git@.len() > 0),
    {
        self.git.len() > 0
    }

    /// Whether resolving this token reads the current branch: only for "." and
    /// only when a git rule has a branch template.
    pub fn wants_branch(&self, text: &str) -> (r: bool)
        ensures
            r == (text@ == dot() && exists|i: int|
                0 <= i < self.git@.len() && (#[trigger] self.git@[i]).1.branch is Some),
    {
        if !is_dot(text) {
            return false;
        }
        let mut i: usize = 0;
        while i < self.git.len()
            invariant
                text@ == dot(),
                i <= self.git.len(),
                forall|j: int| 0 <= j < i ==> (#[trigger] self.git@[j]).1.branch is None,
            decreases self.git.len() - i,
        {
            if self.git[i].1.branch.is_some() {
                assert(self.git@[i as int].1.branch is Some);
                return true;
            }
            i += 1;
        }
        false
    }

    /// Whether resolving this token asks git to resolve it as a revision.
    pub fn wants_revision(text: &str) -> (r: bool)
        ensures
            r == (text@ != dot()),
    {
        !is_dot(text)
    }

    /// The candidates of the pattern rules that match the token.
    pub fn open_pattern(&self, text: &str) -> (r: Vec<CanOpen>)
        requires
            self.wf(),
        ensures
            cans(r@) == self.pattern_cans(text@),
    {
        let mut can: Vec<CanOpen> = Vec::new();
        let mut i: usize = 0;
        while i < self.patterns.len()
            invariant
                self.wf(),
                i <= self.patterns.len(),
                cans(can@) == pattern_cans_upto(self.patterns@, text@, i as nat),
            decreases self.patterns.len() - i,
        {
            let pattern = &self.patterns[i];
            assert(pattern.wf());
            let ghost before = can@;
            if let Some(url) = pattern.get_match(text) {
                can.push(CanOpen { priority: pattern.priority, url });
                assert(cans(can@) == cans(before).push(can@.last()@));
            }
            i += 1;
        }
        can
    }

    /// The candidates of the git rules for the token and the state of the working copy.
    pub fn open_git(&self, text: &str, git: &GitState) -> (r: Vec<CanOpen>)
        requires
            self.wf(),
        ensures
            cans(r@) == self.git_cans(
                text@,
                git.remote.deep_view(),
                git.revision.deep_view(),
                git.branch.deep_view(),
            ),
    {
        let mut can: Vec<CanOpen> = Vec::new();
        let remote = match &git.remote {
            None => {
                return can;
            },
            Some(r) => r,
        };
        let dot_token = is_dot(text);
        let (is_commit, token): (bool, &str) = if dot_token {
            (false, text)
        } else {
            match &git.revision {
                Some(c) => (true, c.as_str()),
                None => (false, text),
            }
        };
        assert((is_commit, token@) == working_token(text@, git.revision.deep_view()));
        let prefix = vec!['<', 'r'];
        assert(prefix@ == remote_prefix());
        let mut i: usize = 0;
        while i < self.git.len()
            invariant
                self.wf(),
                prefix@ == remote_prefix(),
                i <= self.git.len(),
                cans(can@) == git_cans_upto(
                    self.git@,
                    token@,
                    is_commit,
                    remote@,
                    git.branch.deep_view(),
                    i as nat,
                ),
            decreases self.git.len() - i,
        {
            let rule = &self.git[i].1;
            assert(rule.wf());
            let ghost before = can@;
            if let Some(base) = rule.get_base_candidate(token, is_commit, &git.branch) {
                if let Some(groups) = captures(rule.remote.as_str(), remote.as_str()) {
                    if let Some(url) = substitute_groups(base.url.as_str(), &prefix, &groups) {
                        can.push(CanOpen { priority: base.priority, url });
                        assert(cans(can@) == cans(before).push(can@.last()@));
                    }
                }
            }
            i += 1;
        }
        can
    }

    /// Resolves a token after checking the rules' regular expressions: an
    /// invalid one is reported, and otherwise the result is that of `open`.
    pub fn resolve(&self, text: &str, git: &GitState) -> (r: Result<String, OpenError>)
        ensures
            !self.wf() <==> r matches Err(OpenError::InvalidRegex(_)),
            r matches Err(OpenError::InvalidRegex(p)) ==> !regex_valid(p@),
            self.wf() ==> match r {
                Ok(url) => self.resolve_spec(text@, *git) == Some(url@),
                Err(e) => {
                    &&& self.resolve_spec(text@, *git) is None
                    &&& e matches OpenError::NoMatch(t) && t@ == text@
                },
            },
    {
        match self.validate() {
            Err(e) => Err(e),
            Ok(()) => self.open(text, git),
        }
    }

    /// Resolves a token to the URL of the winning candidate: the highest
    /// priority, and among equals the last in the order of `candidates`.
    pub fn open(&self, text: &str, git: &GitState) -> (r: Result<String, OpenError>)
        requires
            self.wf(),
        ensures
            match r {
                Ok(url) => self.resolve_spec(text@, *git) == Some(url@),
                Err(e) => {
                    &&& self.resolve_spec(text@, *git) is None
                    &&& e matches OpenError::NoMatch(t) && t@ == text@
                },
            },
    {
        let mut can = self.open_git(text, git);
        let mut pats = self.open_pattern(text);
        let ghost g = can@;
        let ghost p = pats@;
        can.append(&mut pats);
        assert(cans(can@) == cans(g) + cans(p));
        match select(&can) {
            Some(k) => {
                assert(cans(can@)[k as int] == can@[k as int]@);
                Ok(can[k].url.clone())
            },
            None => Err(OpenError::NoMatch(text.to_owned())),
        }
    }
}

} // verus!
