//! Small operations on text: white space, trimming, splitting at a character.

use vstd::prelude::*;
use vstd::string::*;

use crate::subst::{chars_of, find_first, first_occurrence, lemma_first_occurrence_unique, occurs_at};

verus! {

/// The characters with the Unicode `White_Space` property.
pub open spec fn space(c: char) -> bool {
    let u = c as u32;
    ||| 9 <= u <= 13
    ||| u == 32
    ||| u == 0x85
    ||| u == 0xA0
    ||| u == 0x1680
    ||| 0x2000 <= u <= 0x200A
    ||| u == 0x2028
    ||| u == 0x2029
    ||| u == 0x202F
    ||| u == 0x205F
    ||| u == 0x3000
}

/// Whether a character is white space.
pub fn is_space(c: char) -> (r: bool)
    ensures
        r == space(c),
{
    let u = c as u32;
    (9 <= u && u <= 13) || u == 32 || u == 0x85 || u == 0xA0 || u == 0x1680 || (0x2000 <= u && u
        <= 0x200A) || u == 0x2028 || u == 0x2029 || u == 0x202F || u == 0x205F || u == 0x3000
}

/// `s` without its leading white space.
pub open spec fn trim_start(s: Seq<char>) -> Seq<char>
    decreases s.len(),
{
    if s.len() > 0 && space(s[0]) {
        trim_start(s.drop_first())
    } else {
        s
    }
}

/// `s` without its trailing white space.
pub open spec fn trim_end(s: Seq<char>) -> Seq<char>
    decreases s.len(),
{
    if s.len() > 0 && space(s.last()) {
        trim_end(s.drop_last())
    } else {
        s
    }
}

/// `s` without leading and trailing white space.
pub open spec fn trim(s: Seq<char>) -> Seq<char> {
    trim_end(trim_start(s))
}

/// `s` without leading and trailing white space.
pub fn trim_exec(s: &str) -> (r: String)
    ensures
        r@ == trim(s@),
{
    let v = chars_of(s);
    let n = v.len();
    let mut i: usize = 0;
    assert(s@.subrange(0, n as int) == s@);
    while i < n && is_space(v[i])
        invariant
            v@ == s@,
            n == v.len(),
            i <= n,
            trim_start(s@) == trim_start(s@.subrange(i as int, n as int)),
        decreases n - i,
    {
        assert(s@.subrange(i as int, n as int).drop_first() == s@.subrange(i + 1, n as int));
        i += 1;
    }
    assert(trim_start(s@) == s@.subrange(i as int, n as int));
    let mut j: usize = n;
    while j > i && is_space(v[j - 1])
        invariant
            v@ == s@,
            n == v.len(),
            i <= j <= n,
            trim(s@) == trim_end(s@.subrange(i as int, j as int)),
        decreases j,
    {
        assert(s@.subrange(i as int, j as int).drop_last() == s@.subrange(i as int, j - 1));
        j -= 1;
    }
    s.substring_char(i, j).to_owned()
}

/// State of a left-to-right scan of `s` split at `c`, after `n` characters:
/// the pieces completed so far and where the current piece starts.
pub open spec fn split_scan(s: Seq<char>, c: char, n: nat) -> (Seq<Seq<char>>, int)
    decreases n,
{
    if n == 0 {
        (Seq::empty(), 0)
    } else {
        let (ps, st) = split_scan(s, c, (n - 1) as nat);
        if s[n - 1] == c {
            (ps.push(s.subrange(st, n - 1)), n as int)
        } else {
            (ps, st)
        }
    }
}

/// The pieces of `s` between the occurrences of `c`; one more than there are occurrences.
pub open spec fn split(s: Seq<char>, c: char) -> Seq<Seq<char>> {
    let (ps, st) = split_scan(s, c, s.len());
    ps.push(s.subrange(st, s.len() as int))
}

proof fn lemma_split_scan_start(s: Seq<char>, c: char, n: nat)
    requires
        n <= s.len(),
    ensures
        0 <= split_scan(s, c, n).1 <= n,
    decreases n,
{
    if n > 0 {
        lemma_split_scan_start(s, c, (n - 1) as nat);
    }
}

/// The pieces of `s` between the occurrences of `c`.
pub fn split_exec(s: &str, c: char) -> (r: Vec<String>)
    ensures
        r.deep_view() == split(s@, c),
{
    let v = chars_of(s);
    let n = v.len();
    let mut pieces: Vec<String> = Vec::new();
    let mut start: usize = 0;
    let mut i: usize = 0;
    while i < n
        invariant
            v@ == s@,
            n == v.len(),
            i <= n,
            start <= i,
            split_scan(s@, c, i as nat) == (pieces.deep_view(), start as int),
        decreases n - i,
    {
        if v[i] == c {
            let piece = s.substring_char(start, i).to_owned();
            let ghost before = pieces.deep_view();
            pieces.push(piece);
            assert(pieces.deep_view() == before.push(piece@));
            start = i + 1;
        }
        i += 1;
    }
    let last = s.substring_char(start, n).to_owned();
    let ghost before = pieces.deep_view();
    pieces.push(last);
    assert(pieces.deep_view() == before.push(last@));
    pieces
}

/// `s` split at the first occurrence of `c`, which is in neither part.
pub open spec fn split_once(s: Seq<char>, c: char) -> Option<(Seq<char>, Seq<char>)> {
    if exists|k: int| first_occurrence(s, seq![c], k) {
        let k = choose|k: int| first_occurrence(s, seq![c], k);
        Some((s.subrange(0, k), s.subrange(k + 1, s.len() as int)))
    } else {
        None
    }
}

/// Splits `s` at the first occurrence of `c`, which is in neither part.
pub fn split_once_exec(s: &str, c: char) -> (r: Option<(String, String)>)
    ensures
        match r {
            None => split_once(s@, c) is None,
            Some((a, b)) => split_once(s@, c) == Some((a@, b@)),
        },
{
    let v = chars_of(s);
    let p = vec![c];
    match find_first(&v, &p) {
        None => {
            assert(p@ == seq![c]);
            assert forall|k: int| !first_occurrence(s@, seq![c], k) by {
                assert(!occurs_at(s@, p@, k));
            }
            None
        },
        Some(k) => {
            assert(occurs_at(v@, p@, k as int));
            assert(k < v.len());
            let a = s.substring_char(0, k).to_owned();
            let b = s.substring_char(k + 1, v.len()).to_owned();
            assert(p@ == seq![c]);
            proof {
                let j = choose|j: int| first_occurrence(s@, seq![c], j);
                lemma_first_occurrence_unique(s@, seq![c], j, k as int);
            }
            Some((a, b))
        },
    }
}

/// State of a left-to-right scan of `s` for its words after `n` characters:
/// the words completed so far and where the current word starts.
pub open spec fn words_scan(s: Seq<char>, n: nat) -> (Seq<Seq<char>>, int)
    decreases n,
{
    if n == 0 {
        (Seq::empty(), 0)
    } else {
        let (ws, st) = words_scan(s, (n - 1) as nat);
        if space(s[n - 1]) {
            if st < n - 1 {
                (ws.push(s.subrange(st, n - 1)), n as int)
            } else {
                (ws, n as int)
            }
        } else {
            (ws, st)
        }
    }
}

/// The maximal runs of characters of `s` that are not white space, in order.
pub open spec fn words(s: Seq<char>) -> Seq<Seq<char>> {
    let (ws, st) = words_scan(s, s.len());
    if st < s.len() {
        ws.push(s.subrange(st, s.len() as int))
    } else {
        ws
    }
}

/// The words of `s`: its maximal runs of characters that are not white space.
pub fn words_exec(s: &str) -> (r: Vec<String>)
    ensures
        r.deep_view() == words(s@),
{
    let v = chars_of(s);
    let n = v.len();
    let mut ws: Vec<String> = Vec::new();
    let mut start: usize = 0;
    let mut i: usize = 0;
    while i < n
        invariant
            v@ == s@,
            n == v.len(),
            i <= n,
            start <= i,
            words_scan(s@, i as nat) == (ws.deep_view(), start as int),
        decreases n - i,
    {
        if is_space(v[i]) {
            if start < i {
                let w = s.substring_char(start, i).to_owned();
                let ghost before = ws.deep_view();
                ws.push(w);
                assert(ws.deep_view() == before.push(w@));
            }
            start = i + 1;
        }
        i += 1;
    }
    if start < n {
        let w = s.substring_char(start, n).to_owned();
        let ghost before = ws.deep_view();
        ws.push(w);
        assert(ws.deep_view() == before.push(w@));
    }
    ws
}

/// Whether two strings hold the same characters.
pub fn same_text(a: &str, b: &str) -> (r: bool)
    ensures
        r == (a@ == b@),
{
    if a.unicode_len() != b.unicode_len() {
        return false;
    }
    let r = starts_with_exec(a, b);
    assert(r ==> a@ == b@) by {
        if r {
            assert(a@ =~= b@);
        }
    }
    r
}

/// Whether `p` is a prefix of `s`.
pub fn starts_with_exec(s: &str, p: &str) -> (r: bool)
    ensures
        r == p@.is_prefix_of(s@),
{
    let v = chars_of(s);
    let w = chars_of(p);
    if w.len() > v.len() {
        return false;
    }
    let mut i: usize = 0;
    while i < w.len()
        invariant
            v@ == s@,
            w@ == p@,
            w.len() <= v.len(),
            i <= w.len(),
            forall|j: int| 0 <= j < i ==> s@[j] == p@[j],
        decreases w.len() - i,
    {
        if v[i] != w[i] {
            return false;
        }
        i += 1;
    }
    true
}

} // verus!
