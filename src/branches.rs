//! The branch listing: refs read from `git for-each-ref`, filtered by author.

use vstd::prelude::*;
use vstd::string::*;

use crate::text::{same_text, split, split_exec, starts_with_exec, trim, trim_exec, words, words_exec};

verus! {

/// Settings of the branch listing.
pub struct Branches {}

impl Default for Branches {
    fn default() -> (r: Branches)
        ensures
            r == (Branches {}),
    {
        Branches {}
    }
}

/// The lower-case form of a text, as `str::to_lowercase` gives it.
pub uninterp spec fn lower_of(s: Seq<char>) -> Seq<char>;

/// Relies on `str::to_lowercase`: the result depends on the characters alone.
#[verifier::external_body]
fn lowercase(s: &str) -> (r: String)
    ensures
        r@ == lower_of(s@),
{
    s.to_lowercase()
}

/// One ref printed by `git for-each-ref`.
#[derive(Debug, PartialEq, Eq)]
pub struct ForEachRef {
    pub author_name: String,
    pub author_date: String,
    pub ref_name: String,
    pub object_name: String,
    pub subject: String,
    pub is_remote: bool,
    pub is_local: bool,
    pub diverged: bool,
}

/// The message for a line that does not hold five fields.
pub open spec fn parse_error(output: Seq<char>) -> Seq<char> {
    "Unexpected result returned trying to parse for-each-ref: '"@ + output + "'"@
}

/// `f` is the ref described by the five fields `ps`: a branch under
/// `refs/heads/` is local, one under `refs/remotes/origin/` remote, and the
/// prefix is taken off its name.
pub open spec fn ref_from_fields(f: ForEachRef, ps: Seq<Seq<char>>) -> bool {
    let name = ps[2];
    &&& f.author_name@ == ps[0]
    &&& f.author_date@ == ps[1]
    &&& f.object_name@ == ps[3]
    &&& f.subject@ == ps[4]
    &&& !f.diverged
    &&& if "refs/heads/"@.is_prefix_of(name) {
        &&& f.ref_name@ == name.subrange("refs/heads/"@.len() as int, name.len() as int)
        &&& f.is_local && !f.is_remote
    } else if "refs/remotes/origin/"@.is_prefix_of(name) {
        &&& f.ref_name@ == name.subrange("refs/remotes/origin/"@.len() as int, name.len() as int)
        &&& !f.is_local && f.is_remote
    } else {
        &&& f.ref_name@ == name
        &&& !f.is_local && !f.is_remote
    }
}

fn suffix(s: &str, prefix: &str) -> (r: String)
    requires
        prefix@.is_prefix_of(s@),
    ensures
        r@ == s@.subrange(prefix@.len() as int, s@.len() as int),
{
    let n = s.unicode_len();
    let k = prefix.unicode_len();
    s.substring_char(k, n).to_owned()
}

impl ForEachRef {
    /// Reads one line of `for-each-ref` output whose fields (author, date,
    /// ref, object, subject) are separated by NUL characters. Tags are
    /// skipped; a line with another number of fields is an error.
    pub fn from_output(output: &str) -> (r: Result<Option<ForEachRef>, String>)
        ensures
            ({
                let ps = split(trim(output@), '\0');
                match r {
                    Err(m) => ps.len() != 5 && m@ == parse_error(output@),
                    Ok(None) => ps.len() == 5 && "refs/tags"@.is_prefix_of(ps[2]),
                    Ok(Some(f)) => {
                        &&& ps.len() == 5
                        &&& !"refs/tags"@.is_prefix_of(ps[2])
                        &&& ref_from_fields(f, ps)
                    },
                }
            }),
    {
        let trimmed = trim_exec(output);
        let line = split_exec(trimmed.as_str(), '\0');
        let ghost ps = line.deep_view();
        if line.len() != 5 {
            let mut m = "Unexpected result returned trying to parse for-each-ref: '".to_owned();
            m.append(output);
            m.append("'");
            return Err(m);
        }
        assert(ps[0] == line@[0]@ && ps[1] == line@[1]@ && ps[2] == line@[2]@);
        assert(ps[3] == line@[3]@ && ps[4] == line@[4]@);
        let name = line[2].as_str();
        if starts_with_exec(name, "refs/tags") {
            return Ok(None);
        }
        let mut is_remote = false;
        let mut is_local = false;
        let ref_name = if starts_with_exec(name, "refs/heads/") {
            is_local = true;
            suffix(name, "refs/heads/")
        } else if starts_with_exec(name, "refs/remotes/origin/") {
            is_remote = true;
            suffix(name, "refs/remotes/origin/")
        } else {
            name.to_owned()
        };
        Ok(
            Some(
                ForEachRef {
                    author_name: line[0].clone(),
                    author_date: line[1].clone(),
                    ref_name,
                    object_name: line[3].clone(),
                    subject: line[4].clone(),
                    is_remote,
                    is_local,
                    diverged: false,
                },
            ),
        )
    }

    /// The letter of the listing's type column: `D` for a branch both local
    /// and remote whose commits differ, `B` for one both local and remote,
    /// `L` for a local one, `R` for a remote one when remotes are listed;
    /// `None` for a ref that is not listed.
    pub fn kind(&self, include_remotes: bool) -> (r: Option<&'static str>)
        ensures
            r matches Some(k) ==> k@ == (if self.is_local && self.is_remote && self.diverged {
                "D"@
            } else if self.is_local && self.is_remote {
                "B"@
            } else if self.is_local {
                "L"@
            } else {
                "R"@
            }),
            r is None <==> (!self.is_local && !(self.is_remote && include_remotes)),
    {
        if self.is_local && self.is_remote {
            if self.diverged {
                Some("D")
            } else {
                Some("B")
            }
        } else if self.is_local {
            Some("L")
        } else if self.is_remote && include_remotes {
            Some("R")
        } else {
            None
        }
    }
}

/// The words of each author, in lower case.
pub fn split_authors(authors: &Vec<String>) -> (r: Vec<Vec<String>>)
    ensures
        r@.len() == authors@.len(),
        forall|i: int|
            0 <= i < authors@.len() ==> (#[trigger] r@[i]).deep_view() == words(
                authors@[i]@,
            ).map_values(|w: Seq<char>| lower_of(w)),
{
    let mut r: Vec<Vec<String>> = Vec::new();
    let mut i: usize = 0;
    while i < authors.len()
        invariant
            i <= authors.len(),
            r@.len() == i,
            forall|j: int|
                0 <= j < i ==> (#[trigger] r@[j]).deep_view() == words(authors@[j]@).map_values(
                    |w: Seq<char>| lower_of(w),
                ),
        decreases authors.len() - i,
    {
        let ws = words_exec(authors[i].as_str());
        let ghost wv = ws.deep_view();
        let mut low: Vec<String> = Vec::new();
        let mut k: usize = 0;
        while k < ws.len()
            invariant
                wv == ws.deep_view(),
                k <= ws.len(),
                low.deep_view() == wv.subrange(0, k as int).map_values(|w: Seq<char>| lower_of(w)),
            decreases ws.len() - k,
        {
            let l = lowercase(ws[k].as_str());
            let ghost before = low.deep_view();
            low.push(l);
            assert(low.deep_view() == before.push(l@));
            assert(wv.subrange(0, k + 1) == wv.subrange(0, k as int).push(wv[k as int]));
            k += 1;
        }
        assert(wv.subrange(0, ws.len() as int) == wv);
        r.push(low);
        i += 1;
    }
    r
}

/// Whether an author, given by name, passes the filter: an empty filter
/// passes everyone; otherwise some entry must have each of its words among
/// the words of the lower-cased name.
pub open spec fn authored_by_spec(filter: Seq<Seq<Seq<char>>>, author_name: Seq<char>) -> bool {
    filter.len() == 0 || exists|i: int|
        0 <= i < filter.len() && entry_holds(#[trigger] filter[i], words(lower_of(author_name)))
}

/// Each word of a filter entry is among the words of an author.
pub open spec fn entry_holds(entry: Seq<Seq<char>>, author_words: Seq<Seq<char>>) -> bool {
    forall|j: int| 0 <= j < entry.len() ==> author_words.contains(#[trigger] entry[j])
}

fn contains_text(v: &Vec<String>, t: &str) -> (r: bool)
    ensures
        r == v.deep_view().contains(t@),
{
    let ghost vv = v.deep_view();
    let mut i: usize = 0;
    while i < v.len()
        invariant
            vv == v.deep_view(),
            i <= v.len(),
            forall|j: int| 0 <= j < i ==> vv[j] != t@,
        decreases v.len() - i,
    {
        if same_text(v[i].as_str(), t) {
            assert(vv[i as int] == t@);
            return true;
        }
        i += 1;
    }
    false
}

fn entry_holds_exec(entry: &Vec<String>, author_words: &Vec<String>) -> (r: bool)
    ensures
        r == entry_holds(entry.deep_view(), author_words.deep_view()),
{
    let ghost ev = entry.deep_view();
    let mut k: usize = 0;
    while k < entry.len()
        invariant
            ev == entry.deep_view(),
            k <= entry.len(),
            forall|j: int| 0 <= j < k ==> author_words.deep_view().contains(#[trigger] ev[j]),
        decreases entry.len() - k,
    {
        assert(ev[k as int] == entry@[k as int]@);
        if !contains_text(author_words, entry[k].as_str()) {
            return false;
        }
        k += 1;
    }
    true
}

/// Whether the author of a ref passes the filter made by `split_authors`.
pub fn authored_by(filter: &Vec<Vec<String>>, author_name: &str) -> (r: bool)
    ensures
        r == authored_by_spec(filter.deep_view(), author_name@),
{
    let ghost fv = filter.deep_view();
    if filter.len() == 0 {
        return true;
    }
    let author_words = words_exec(lowercase(author_name).as_str());
    let mut i: usize = 0;
    while i < filter.len()
        invariant
            fv == filter.deep_view(),
            author_words.deep_view() == words(lower_of(author_name@)),
            i <= filter.len(),
            forall|a: int|
                0 <= a < i ==> !entry_holds(#[trigger] fv[a], words(lower_of(author_name@))),
        decreases filter.len() - i,
    {
        assert(fv[i as int] == filter@[i as int].deep_view());
        if entry_holds_exec(&filter[i], &author_words) {
            return true;
        }
        i += 1;
    }
    false
}

/// A ref after the author filter: one whose author does not pass counts
/// neither as local nor as remote.
pub open spec fn filtered(f: ForEachRef, filter: Seq<Seq<Seq<char>>>) -> ForEachRef {
    if authored_by_spec(filter, f.author_name@) {
        f
    } else {
        ForEachRef { is_local: false, is_remote: false, ..f }
    }
}

/// Two refs of one branch name taken together: local or remote if either is;
/// diverged when their commits differ, and then the newer one's commit,
/// author and subject are kept where the branch is remote.
pub open spec fn merged(prev: ForEachRef, t: ForEachRef) -> ForEachRef {
    let is_local = prev.is_local || t.is_local;
    let is_remote = prev.is_remote || t.is_remote;
    if prev.object_name@ != t.object_name@ {
        if is_remote {
            ForEachRef {
                author_name: t.author_name,
                author_date: t.author_date,
                ref_name: prev.ref_name,
                object_name: t.object_name,
                subject: t.subject,
                is_local,
                is_remote,
                diverged: true,
            }
        } else {
            ForEachRef { is_local, is_remote, diverged: true, ..prev }
        }
    } else {
        ForEachRef { is_local, is_remote, ..prev }
    }
}

/// The first index from `i` on of a ref named `name`.
pub open spec fn find_ref(ms: Seq<ForEachRef>, name: Seq<char>, i: int) -> Option<int>
    decreases ms.len() - i,
{
    if i < 0 || i >= ms.len() {
        None
    } else if ms[i].ref_name@ == name {
        Some(i)
    } else {
        find_ref(ms, name, i + 1)
    }
}

/// The branches after the first `n` refs: one entry per branch name, in the
/// order in which the names first come.
pub open spec fn merge_upto(refs: Seq<ForEachRef>, filter: Seq<Seq<Seq<char>>>, n: nat) -> Seq<
    ForEachRef,
>
    decreases n,
{
    if n == 0 || n > refs.len() {
        Seq::empty()
    } else {
        let ms = merge_upto(refs, filter, (n - 1) as nat);
        let t = filtered(refs[n - 1], filter);
        match find_ref(ms, t.ref_name@, 0) {
            Some(j) => ms.update(j, merged(ms[j], t)),
            None => ms.push(t),
        }
    }
}

fn filter_ref(f: ForEachRef, filter: &Vec<Vec<String>>) -> (r: ForEachRef)
    ensures
        r == filtered(f, filter.deep_view()),
{
    if authored_by(filter, f.author_name.as_str()) {
        f
    } else {
        ForEachRef { is_local: false, is_remote: false, ..f }
    }
}

fn merge_pair(prev: ForEachRef, t: ForEachRef) -> (r: ForEachRef)
    ensures
        r == merged(prev, t),
{
    let is_local = prev.is_local || t.is_local;
    let is_remote = prev.is_remote || t.is_remote;
    if !same_text(prev.object_name.as_str(), t.object_name.as_str()) {
        if is_remote {
            ForEachRef {
                author_name: t.author_name,
                author_date: t.author_date,
                ref_name: prev.ref_name,
                object_name: t.object_name,
                subject: t.subject,
                is_local,
                is_remote,
                diverged: true,
            }
        } else {
            ForEachRef { is_local, is_remote, diverged: true, ..prev }
        }
    } else {
        ForEachRef { is_local, is_remote, ..prev }
    }
}

fn find_ref_exec(ms: &Vec<ForEachRef>, name: &str) -> (r: Option<usize>)
    ensures
        match r {
            Some(j) => j < ms@.len() && find_ref(ms@, name@, 0) == Some(j as int),
            None => find_ref(ms@, name@, 0) is None,
        },
{
    let mut i: usize = 0;
    while i < ms.len()
        invariant
            i <= ms.len(),
            find_ref(ms@, name@, 0) == find_ref(ms@, name@, i as int),
        decreases ms.len() - i,
    {
        if same_text(ms[i].ref_name.as_str(), name) {
            return Some(i);
        }
        i += 1;
    }
    None
}

/// Lexicographic comparison of two texts by code point: negative, zero or
/// positive as `a` comes before, equals or comes after `b`.
pub open spec fn text_cmp(a: Seq<char>, b: Seq<char>) -> int
    decreases a.len(),
{
    if a.len() == 0 {
        if b.len() == 0 {
            0
        } else {
            -1
        }
    } else if b.len() == 0 {
        1
    } else if (a[0] as u32) < (b[0] as u32) {
        -1
    } else if (a[0] as u32) > (b[0] as u32) {
        1
    } else {
        text_cmp(a.drop_first(), b.drop_first())
    }
}

pub open spec fn bool_cmp(a: bool, b: bool) -> int {
    if a == b {
        0
    } else if b {
        -1
    } else {
        1
    }
}

/// The listing's order of refs: by whether the ref is local (those that are
/// not come first), then likewise by whether it is remote, then by date and
/// by author.
pub open spec fn ref_cmp(x: ForEachRef, y: ForEachRef) -> int {
    let c = seq![
        bool_cmp(x.is_local, y.is_local),
        bool_cmp(x.is_remote, y.is_remote),
        text_cmp(x.author_date@, y.author_date@),
        text_cmp(x.author_name@, y.author_name@),
    ];
    first_nonzero(c, 0)
}

/// The first entry of `c` from `i` on that is not zero, or zero.
pub open spec fn first_nonzero(c: Seq<int>, i: int) -> int
    decreases c.len() - i,
{
    if i < 0 || i >= c.len() {
        0
    } else if c[i] != 0 {
        c[i]
    } else {
        first_nonzero(c, i + 1)
    }
}

proof fn lemma_text_cmp_flip(a: Seq<char>, b: Seq<char>)
    ensures
        text_cmp(a, b) == -text_cmp(b, a),
    decreases a.len(),
{
    if a.len() > 0 && b.len() > 0 {
        lemma_text_cmp_flip(a.drop_first(), b.drop_first());
    }
}

proof fn lemma_first_nonzero_flip(c: Seq<int>, d: Seq<int>, i: int)
    requires
        c.len() == d.len(),
        forall|k: int| 0 <= k < c.len() ==> #[trigger] c[k] == -d[k],
    ensures
        first_nonzero(c, i) == -first_nonzero(d, i),
    decreases c.len() - i,
{
    if 0 <= i < c.len() {
        lemma_first_nonzero_flip(c, d, i + 1);
    }
}

proof fn lemma_ref_cmp_flip(x: ForEachRef, y: ForEachRef)
    ensures
        ref_cmp(x, y) == -ref_cmp(y, x),
{
    lemma_text_cmp_flip(x.author_date@, y.author_date@);
    lemma_text_cmp_flip(x.author_name@, y.author_name@);
    let c = seq![
        bool_cmp(x.is_local, y.is_local),
        bool_cmp(x.is_remote, y.is_remote),
        text_cmp(x.author_date@, y.author_date@),
        text_cmp(x.author_name@, y.author_name@),
    ];
    let d = seq![
        bool_cmp(y.is_local, x.is_local),
        bool_cmp(y.is_remote, x.is_remote),
        text_cmp(y.author_date@, x.author_date@),
        text_cmp(y.author_name@, x.author_name@),
    ];
    assert forall|k: int| 0 <= k < c.len() implies #[trigger] c[k] == -d[k] by {}
    lemma_first_nonzero_flip(c, d, 0);
}

fn text_cmp_exec(a: &str, b: &str) -> (r: i8)
    ensures
        r as int == text_cmp(a@, b@),
{
    let av = crate::subst::chars_of(a);
    let bv = crate::subst::chars_of(b);
    let mut i: usize = 0;
    assert(a@.subrange(0, a@.len() as int) =~= a@);
    assert(b@.subrange(0, b@.len() as int) =~= b@);
    while i < av.len() && i < bv.len()
        invariant
            av@ == a@,
            bv@ == b@,
            i <= av.len(),
            i <= bv.len(),
            text_cmp(a@, b@) == text_cmp(
                a@.subrange(i as int, a@.len() as int),
                b@.subrange(i as int, b@.len() as int),
            ),
        decreases av.len() - i,
    {
        let ghost sa = a@.subrange(i as int, a@.len() as int);
        let ghost sb = b@.subrange(i as int, b@.len() as int);
        assert(sa[0] == av@[i as int] && sb[0] == bv@[i as int]);
        let x = av[i] as u32;
        let y = bv[i] as u32;
        if x < y {
            return -1;
        }
        if x > y {
            return 1;
        }
        assert(sa.drop_first() =~= a@.subrange(i + 1, a@.len() as int));
        assert(sb.drop_first() =~= b@.subrange(i + 1, b@.len() as int));
        i += 1;
    }
    if i < av.len() {
        1
    } else if i < bv.len() {
        -1
    } else {
        0
    }
}

fn bool_cmp_exec(a: bool, b: bool) -> (r: i8)
    ensures
        r as int == bool_cmp(a, b),
{
    if a == b {
        0
    } else if b {
        -1
    } else {
        1
    }
}

fn ref_cmp_exec(x: &ForEachRef, y: &ForEachRef) -> (r: i8)
    ensures
        r as int == ref_cmp(*x, *y),
{
    let c = vec![
        bool_cmp_exec(x.is_local, y.is_local),
        bool_cmp_exec(x.is_remote, y.is_remote),
        text_cmp_exec(x.author_date.as_str(), y.author_date.as_str()),
        text_cmp_exec(x.author_name.as_str(), y.author_name.as_str()),
    ];
    let ghost cs = seq![
        bool_cmp(x.is_local, y.is_local),
        bool_cmp(x.is_remote, y.is_remote),
        text_cmp(x.author_date@, y.author_date@),
        text_cmp(x.author_name@, y.author_name@),
    ];
    assert(c@.len() == cs.len());
    assert(forall|k: int| 0 <= k < cs.len() ==> #[trigger] cs[k] == c@[k] as int);
    assert(ref_cmp(*x, *y) == first_nonzero(cs, 0));
    let mut i: usize = 0;
    while i < c.len()
        invariant
            ref_cmp(*x, *y) == first_nonzero(cs, 0),
            c@.len() == cs.len(),
            forall|k: int| 0 <= k < cs.len() ==> #[trigger] cs[k] == c@[k] as int,
            i <= c.len(),
            first_nonzero(cs, 0) == first_nonzero(cs, i as int),
        decreases c.len() - i,
    {
        if c[i] != 0 {
            assert(first_nonzero(cs, i as int) == cs[i as int]);
            return c[i];
        }
        i += 1;
    }
    0
}

/// Each ref of the sequence comes no later than the next in the listing's order.
pub open spec fn in_order(v: Seq<ForEachRef>) -> bool {
    forall|i: int| 0 <= i < v.len() - 1 ==> ref_cmp(#[trigger] v[i], v[i + 1]) <= 0
}

impl Branches {
    /// Puts refs in the listing's order (see `ref_cmp`).
    pub fn sort_refs(refs: Vec<ForEachRef>) -> (r: Vec<ForEachRef>)
        ensures
            r@.to_multiset() == refs@.to_multiset(),
            in_order(r@),
    {
        broadcast use vstd::seq_lib::group_to_multiset_ensures;

        let ghost all = refs@;
        let mut rest = refs;
        let mut out: Vec<ForEachRef> = Vec::new();
        let ghost mut done: nat = 0;
        while rest.len() > 0
            invariant
                done + rest@.len() == all.len(),
                rest@ == all.subrange(done as int, all.len() as int),
                out@.to_multiset() == all.subrange(0, done as int).to_multiset(),
                in_order(out@),
            decreases rest@.len(),
        {
            let x = rest.remove(0);
            assert(x == all[done as int]);
            let mut p: usize = 0;
            while p < out.len() && ref_cmp_exec(&x, &out[p]) >= 0
                invariant
                    p <= out.len(),
                    forall|k: int| 0 <= k < p ==> ref_cmp(x, #[trigger] out@[k]) >= 0,
                decreases out.len() - p,
            {
                p += 1;
            }
            let ghost before = out@;
            proof {
                if p > 0 {
                    lemma_ref_cmp_flip(x, before[p - 1]);
                }
            }
            out.insert(p, x);
            assert(out@ == before.insert(p as int, x));
            proof {
                vstd::seq_lib::to_multiset_insert(before, p as int, x);
                vstd::seq_lib::to_multiset_build(all.subrange(0, done as int), x);
            }
            assert forall|i: int| 0 <= i < out@.len() - 1 implies ref_cmp(
                #[trigger] out@[i],
                out@[i + 1],
            ) <= 0 by {
                if i < p as int - 1 {
                    assert(out@[i] == before[i] && out@[i + 1] == before[i + 1]);
                } else if i == p as int - 1 {
                    assert(out@[i] == before[i]);
                } else if i == p as int {
                } else {
                    assert(out@[i] == before[i - 1] && out@[i + 1] == before[i]);
                }
            }
            assert(all.subrange(0, done + 1 as int) =~= all.subrange(0, done as int).push(x));
            proof {
                done = done + 1;
            }
            assert(rest@ =~= all.subrange(done as int, all.len() as int));
        }
        assert(all.subrange(0, all.len() as int) =~= all);
        out
    }

    /// Gathers parsed refs into one entry per branch name, after the author
    /// filter made by `split_authors`.
    pub fn merge(refs: Vec<ForEachRef>, filter: &Vec<Vec<String>>) -> (r: Vec<ForEachRef>)
        ensures
            r@ == merge_upto(refs@, filter.deep_view(), refs@.len()),
    {
        let ghost all = refs@;
        let mut rest = refs;
        let n = rest.len();
        let mut ms: Vec<ForEachRef> = Vec::new();
        let mut i: usize = 0;
        while rest.len() > 0
            invariant
                n == all.len(),
                i + rest@.len() == all.len(),
                rest@ == all.subrange(i as int, all.len() as int),
                ms@ == merge_upto(all, filter.deep_view(), i as nat),
            decreases rest@.len(),
        {
            let f = rest.remove(0);
            assert(f == all[i as int]);
            let t = filter_ref(f, filter);
            match find_ref_exec(&ms, t.ref_name.as_str()) {
                Some(j) => {
                    let prev = ms.remove(j);
                    let m = merge_pair(prev, t);
                    ms.insert(j, m);
                },
                None => {
                    ms.push(t);
                },
            }
            i += 1;
            assert(rest@ == all.subrange(i as int, all.len() as int));
        }
        ms
    }
}

} // verus!
