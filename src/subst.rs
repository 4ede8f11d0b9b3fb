//! Placeholder substitution: the i-th placeholder of a template is replaced,
//! once and at its first occurrence, by the text of the i-th capturing group.

use vstd::prelude::*;
use vstd::string::*;

verus! {

/// The character of a decimal digit.
pub open spec fn digit(d: nat) -> char {
    if d == 0 {
        '0'
    } else if d == 1 {
        '1'
    } else if d == 2 {
        '2'
    } else if d == 3 {
        '3'
    } else if d == 4 {
        '4'
    } else if d == 5 {
        '5'
    } else if d == 6 {
        '6'
    } else if d == 7 {
        '7'
    } else if d == 8 {
        '8'
    } else {
        '9'
    }
}

/// The decimal representation of `n`, without leading zeros.
pub open spec fn decimal(n: nat) -> Seq<char>
    decreases n,
{
    if n < 10 {
        seq![digit(n)]
    } else {
        decimal(n / 10).push(digit(n % 10))
    }
}

/// The placeholder numbered `i` for a given opening, e.g. `<pat` and 2 give `<pat2>`.
pub open spec fn placeholder(prefix: Seq<char>, i: nat) -> Seq<char> {
    prefix + decimal(i) + seq!['>']
}

/// `p` stands in `s` at position `k`.
pub open spec fn occurs_at(s: Seq<char>, p: Seq<char>, k: int) -> bool {
    0 <= k && k + p.len() <= s.len() && s.subrange(k, k + p.len()) == p
}

/// `k` is the leftmost position at which `p` stands in `s`.
pub open spec fn first_occurrence(s: Seq<char>, p: Seq<char>, k: int) -> bool {
    &&& occurs_at(s, p, k)
    &&& forall|j: int| 0 <= j < k ==> !#[trigger] occurs_at(s, p, j)
}

/// `s` with its leftmost occurrence of `p` replaced by `r`; `s` itself when `p`
/// does not occur.
pub open spec fn replace_first(s: Seq<char>, p: Seq<char>, r: Seq<char>) -> Seq<char> {
    if exists|k: int| first_occurrence(s, p, k) {
        let k = choose|k: int| first_occurrence(s, p, k);
        s.subrange(0, k) + r + s.subrange(k + p.len(), s.len() as int)
    } else {
        s
    }
}

/// Substitution of the groups `1 .. n` (group 0 is the whole match), in order.
/// A group that did not take part in the match fails the substitution.
pub open spec fn substitute_upto(
    template: Seq<char>,
    prefix: Seq<char>,
    groups: Seq<Option<Seq<char>>>,
    n: nat,
) -> Option<Seq<char>>
    decreases n,
{
    if n <= 1 {
        Some(template)
    } else {
        match substitute_upto(template, prefix, groups, (n - 1) as nat) {
            None => None,
            Some(u) => match groups[n - 1] {
                None => None,
                Some(g) => Some(replace_first(u, placeholder(prefix, (n - 1) as nat), g)),
            },
        }
    }
}

/// Substitution of every capturing group of a match into a template.
pub open spec fn substitute(
    template: Seq<char>,
    prefix: Seq<char>,
    groups: Seq<Option<Seq<char>>>,
) -> Option<Seq<char>> {
    substitute_upto(template, prefix, groups, groups.len())
}

fn digit_char(d: usize) -> (c: char)
    requires
        d < 10,
    ensures
        c == digit(d as nat),
{
    if d == 0 {
        '0'
    } else if d == 1 {
        '1'
    } else if d == 2 {
        '2'
    } else if d == 3 {
        '3'
    } else if d == 4 {
        '4'
    } else if d == 5 {
        '5'
    } else if d == 6 {
        '6'
    } else if d == 7 {
        '7'
    } else if d == 8 {
        '8'
    } else {
        '9'
    }
}

/// The characters of the decimal representation of `n`.
pub fn decimal_chars(n: usize) -> (r: Vec<char>)
    ensures
        r@ == decimal(n as nat),
    decreases n,
{
    if n < 10 {
        vec![digit_char(n)]
    } else {
        let mut v = decimal_chars(n / 10);
        v.push(digit_char(n % 10));
        v
    }
}

/// The characters of the placeholder numbered `i`.
pub fn placeholder_chars(prefix: &Vec<char>, i: usize) -> (r: Vec<char>)
    ensures
        r@ == placeholder(prefix@, i as nat),
{
    let mut r = prefix.clone();
    let digits = decimal_chars(i);
    let mut j: usize = 0;
    while j < digits.len()
        invariant
            j <= digits.len(),
            r@ == prefix@ + digits@.subrange(0, j as int),
        decreases digits.len() - j,
    {
        r.push(digits[j]);
        j += 1;
        assert(r@ == prefix@ + digits@.subrange(0, j as int));
    }
    assert(digits@.subrange(0, digits.len() as int) == digits@);
    r.push('>');
    r
}

/// The characters of a string, one by one.
pub fn chars_of(s: &str) -> (r: Vec<char>)
    ensures
        r@ == s@,
{
    let n = s.unicode_len();
    let mut r: Vec<char> = Vec::new();
    let mut i: usize = 0;
    while i < n
        invariant
            n == s@.len(),
            i <= n,
            r@ == s@.subrange(0, i as int),
        decreases n - i,
    {
        r.push(s.get_char(i));
        i += 1;
    }
    assert(s@.subrange(0, n as int) == s@);
    r
}

fn occurs_at_exec(s: &Vec<char>, p: &Vec<char>, k: usize) -> (b: bool)
    requires
        k + p.len() <= s.len(),
    ensures
        b == occurs_at(s@, p@, k as int),
{
    let mut i: usize = 0;
    while i < p.len()
        invariant
            k + p.len() <= s.len(),
            i <= p.len(),
            forall|j: int| 0 <= j < i ==> s@[k + j] == p@[j],
        decreases p.len() - i,
    {
        if s[k + i] != p[i] {
            assert(s@.subrange(k as int, k + p.len())[i as int] != p@[i as int]);
            return false;
        }
        i += 1;
    }
    assert(s@.subrange(k as int, k + p.len()) == p@);
    true
}

/// The leftmost position at which `p` stands in `s`, if any.
pub fn find_first(s: &Vec<char>, p: &Vec<char>) -> (r: Option<usize>)
    ensures
        match r {
            Some(k) => first_occurrence(s@, p@, k as int),
            None => forall|j: int| !#[trigger] occurs_at(s@, p@, j),
        },
{
    if p.len() > s.len() {
        return None;
    }
    let last = s.len() - p.len();
    let mut k: usize = 0;
    while k <= last
        invariant
            last == s.len() - p.len(),
            k <= last + 1,
            forall|j: int| 0 <= j < k ==> !#[trigger] occurs_at(s@, p@, j),
        decreases last + 1 - k,
    {
        if occurs_at_exec(s, p, k) {
            return Some(k);
        }
        if k == last {
            assert forall|j: int| !#[trigger] occurs_at(s@, p@, j) by {
                if 0 <= j <= k {
                }
            }
            return None;
        }
        k += 1;
    }
    None
}

/// A text has at most one leftmost occurrence of a pattern.
pub proof fn lemma_first_occurrence_unique(s: Seq<char>, p: Seq<char>, a: int, b: int)
    requires
        first_occurrence(s, p, a),
        first_occurrence(s, p, b),
    ensures
        a == b,
{
    if a < b {
        assert(!occurs_at(s, p, a));
    } else if b < a {
        assert(!occurs_at(s, p, b));
    }
}

/// `s` with the leftmost occurrence of `p` replaced by `rep`.
pub fn replace_first_exec(s: &str, p: &Vec<char>, rep: &str) -> (r: String)
    ensures
        r@ == replace_first(s@, p@, rep@),
{
    let sv = chars_of(s);
    match find_first(&sv, p) {
        None => {
            assert(!exists|k: int| first_occurrence(s@, p@, k)) by {
                assert forall|k: int| !first_occurrence(s@, p@, k) by {
                    assert(!occurs_at(s@, p@, k));
                }
            }
            s.to_owned()
        },
        Some(k) => {
            assert(k + p.len() <= sv.len());
            let mut out = s.substring_char(0, k).to_owned();
            out.append(rep);
            out.append(s.substring_char(k + p.len(), sv.len()));
            proof {
                let c = choose|c: int| first_occurrence(s@, p@, c);
                lemma_first_occurrence_unique(s@, p@, c, k as int);
            }
            out
        },
    }
}

proof fn lemma_substitute_fails_onward(
    template: Seq<char>,
    prefix: Seq<char>,
    groups: Seq<Option<Seq<char>>>,
    n: nat,
    m: nat,
)
    requires
        n <= m,
        substitute_upto(template, prefix, groups, n) is None,
    ensures
        substitute_upto(template, prefix, groups, m) is None,
    decreases m - n,
{
    if n < m {
        lemma_substitute_fails_onward(template, prefix, groups, n, (m - 1) as nat);
    }
}

/// Substitutes the capturing groups `groups[1..]` into `template`: the i-th
/// group replaces the first occurrence of the placeholder numbered i. `None`
/// when a group did not take part in the match.
pub fn substitute_groups(template: &str, prefix: &Vec<char>, groups: &Vec<Option<String>>) -> (r:
    Option<String>)
    ensures
        r.deep_view() == substitute(template@, prefix@, groups.deep_view()),
{
    let ghost gv = groups.deep_view();
    let mut url = template.to_owned();
    if groups.len() == 0 {
        return Some(url);
    }
    let mut i: usize = 1;
    while i < groups.len()
        invariant
            gv == groups.deep_view(),
            gv.len() == groups.len(),
            1 <= i <= groups.len(),
            substitute_upto(template@, prefix@, gv, i as nat) == Some(url@),
        decreases groups.len() - i,
    {
        assert(gv[i as int] == groups@[i as int].deep_view());
        match &groups[i] {
            None => {
                assert(substitute_upto(template@, prefix@, gv, (i + 1) as nat) is None);
                proof {
                    lemma_substitute_fails_onward(
                        template@,
                        prefix@,
                        gv,
                        (i + 1) as nat,
                        gv.len(),
                    );
                }
                return None;
            },
            Some(g) => {
                let ph = placeholder_chars(prefix, i);
                url = replace_first_exec(url.as_str(), &ph, g.as_str());
            },
        }
        i += 1;
    }
    Some(url)
}

/// The number of `<` characters in `s`.
pub open spec fn count_open(s: Seq<char>) -> nat
    decreases s.len(),
{
    if s.len() == 0 {
        0
    } else {
        count_open(s.drop_last()) + if s.last() == '<' {
            1nat
        } else {
            0nat
        }
    }
}

/// An opening for placeholders: it starts with `<` and holds no other `<` and no `>`.
pub open spec fn opening(prefix: Seq<char>) -> bool {
    &&& prefix.len() >= 1
    &&& prefix[0] == '<'
    &&& forall|k: int| 0 < k < prefix.len() ==> #[trigger] prefix[k] != '<'
    &&& forall|k: int| 0 <= k < prefix.len() ==> #[trigger] prefix[k] != '>'
}

proof fn lemma_count_concat(a: Seq<char>, b: Seq<char>)
    ensures
        count_open(a + b) == count_open(a) + count_open(b),
    decreases b.len(),
{
    if b.len() == 0 {
        assert(a + b =~= a);
    } else {
        assert((a + b).drop_last() =~= a + b.drop_last());
        lemma_count_concat(a, b.drop_last());
    }
}

proof fn lemma_count_zero(s: Seq<char>)
    ensures
        count_open(s) == 0 <==> forall|k: int| 0 <= k < s.len() ==> #[trigger] s[k] != '<',
    decreases s.len(),
{
    if s.len() > 0 {
        lemma_count_zero(s.drop_last());
        if count_open(s) == 0 {
            assert forall|k: int| 0 <= k < s.len() implies #[trigger] s[k] != '<' by {
                if k < s.len() - 1 {
                    assert(s.drop_last()[k] == s[k]);
                }
            }
        }
        if forall|k: int| 0 <= k < s.len() ==> #[trigger] s[k] != '<' {
            assert forall|k: int| 0 <= k < s.drop_last().len() implies #[trigger] s.drop_last()[k]
                != '<' by {
                assert(s.drop_last()[k] == s[k]);
            }
            assert(s[s.len() - 1] != '<');
        }
    }
}

proof fn lemma_decimal_digits(n: nat)
    ensures
        decimal(n).len() >= 1,
        forall|k: int|
            0 <= k < decimal(n).len() ==> #[trigger] decimal(n)[k] != '<' && decimal(n)[k] != '>',
    decreases n,
{
    if n >= 10 {
        lemma_decimal_digits(n / 10);
        let d = decimal(n / 10);
        assert forall|k: int| 0 <= k < decimal(n).len() implies #[trigger] decimal(n)[k] != '<'
            && decimal(n)[k] != '>' by {
            if k < d.len() {
                assert(decimal(n)[k] == d[k]);
            }
        }
    }
}

proof fn lemma_digit_injective(x: nat, y: nat)
    requires
        x < 10,
        y < 10,
        digit(x) == digit(y),
    ensures
        x == y,
{
}

proof fn lemma_decimal_injective(a: nat, b: nat)
    requires
        decimal(a) == decimal(b),
    ensures
        a == b,
    decreases a,
{
    if a >= 10 {
        lemma_decimal_digits(a / 10);
    }
    if b >= 10 {
        lemma_decimal_digits(b / 10);
    }
    if a < 10 && b < 10 {
        assert(decimal(a) == seq![digit(a)]);
        assert(decimal(b) == seq![digit(b)]);
        assert(seq![digit(a)][0] == digit(a));
        assert(seq![digit(b)][0] == digit(b));
        assert(decimal(a)[0] == decimal(b)[0]);
        lemma_digit_injective(a, b);
    } else if a >= 10 && b >= 10 {
        assert(decimal(a).last() == digit(a % 10));
        assert(decimal(b).last() == digit(b % 10));
        lemma_digit_injective(a % 10, b % 10);
        assert(decimal(a).drop_last() =~= decimal(a / 10));
        assert(decimal(b).drop_last() =~= decimal(b / 10));
        lemma_decimal_injective(a / 10, b / 10);
        assert(a == 10 * (a / 10) + a % 10);
        assert(b == 10 * (b / 10) + b % 10);
    } else if a < 10 {
        assert(decimal(a) == seq![digit(a)]);
        assert(decimal(b) == decimal(b / 10).push(digit(b % 10)));
        assert(decimal(a).len() != decimal(b).len());
    } else {
        assert(decimal(b) == seq![digit(b)]);
        assert(decimal(a) == decimal(a / 10).push(digit(a % 10)));
        assert(decimal(a).len() != decimal(b).len());
    }
}

proof fn lemma_count_one()
    ensures
        count_open(seq!['<']) == 1,
{
    let s = seq!['<'];
    assert(s.drop_last() =~= Seq::<char>::empty());
    assert(count_open(Seq::<char>::empty()) == 0);
    assert(s.last() == '<');
    assert(count_open(s) == count_open(s.drop_last()) + 1);
}

proof fn lemma_placeholder_shape(prefix: Seq<char>, i: nat)
    requires
        opening(prefix),
    ensures
        ({
            let p = placeholder(prefix, i);
            &&& p.len() >= 2
            &&& p[0] == '<'
            &&& p[p.len() - 1] == '>'
            &&& forall|k: int| 0 < k < p.len() ==> #[trigger] p[k] != '<'
            &&& forall|k: int| 0 <= k < p.len() - 1 ==> #[trigger] p[k] != '>'
            &&& count_open(p) == 1
        }),
{
    lemma_decimal_digits(i);
    let p = placeholder(prefix, i);
    let d = decimal(i);
    assert(p.len() == prefix.len() + d.len() + 1);
    assert(p[0] == prefix[0]);
    assert(p[p.len() - 1] == '>');
    assert forall|k: int| 0 < k < p.len() implies #[trigger] p[k] != '<' by {
        if k < prefix.len() {
            assert(p[k] == prefix[k]);
        } else if k < prefix.len() + d.len() {
            assert(p[k] == d[k - prefix.len()]);
        }
    }
    assert forall|k: int| 0 <= k < p.len() - 1 implies #[trigger] p[k] != '>' by {
        if k < prefix.len() {
            assert(p[k] == prefix[k]);
        } else {
            assert(p[k] == d[k - prefix.len()]);
        }
    }
    let rest = p.subrange(1, p.len() as int);
    assert(p =~= seq!['<'] + rest);
    lemma_count_concat(seq!['<'], rest);
    lemma_count_one();
    assert forall|k: int| 0 <= k < rest.len() implies #[trigger] rest[k] != '<' by {
        assert(rest[k] == p[k + 1]);
    }
    lemma_count_zero(rest);
}

/// Two distinct placeholders never overlap where they occur.
proof fn lemma_placeholders_apart(
    u: Seq<char>,
    prefix: Seq<char>,
    i: nat,
    j: nat,
    p: int,
    q: int,
)
    requires
        opening(prefix),
        i != j,
        occurs_at(u, placeholder(prefix, i), p),
        occurs_at(u, placeholder(prefix, j), q),
    ensures
        q + placeholder(prefix, j).len() <= p || p + placeholder(prefix, i).len() <= q,
{
    let a = placeholder(prefix, i);
    let b = placeholder(prefix, j);
    lemma_placeholder_shape(prefix, i);
    lemma_placeholder_shape(prefix, j);
    if p < q && q < p + a.len() {
        assert(u.subrange(p, p + a.len())[q - p] == u[q]);
        assert(u.subrange(q, q + b.len())[0] == u[q]);
    } else if q < p && p < q + b.len() {
        assert(u.subrange(q, q + b.len())[p - q] == u[p]);
        assert(u.subrange(p, p + a.len())[0] == u[p]);
    } else if p == q {
        if a.len() <= b.len() {
            assert(u.subrange(p, p + a.len())[a.len() - 1] == u[p + a.len() - 1]);
            assert(u.subrange(q, q + b.len())[a.len() - 1] == u[p + a.len() - 1]);
        } else {
            assert(u.subrange(q, q + b.len())[b.len() - 1] == u[q + b.len() - 1]);
            assert(u.subrange(p, p + a.len())[b.len() - 1] == u[q + b.len() - 1]);
        }
        assert(a.len() == b.len());
        assert(a =~= b);
        assert(decimal(i) =~= a.subrange(prefix.len() as int, a.len() - 1));
        assert(decimal(j) =~= b.subrange(prefix.len() as int, b.len() - 1));
        lemma_decimal_injective(i, j);
    }
}

proof fn lemma_first_exists(s: Seq<char>, p: Seq<char>, q: int)
    requires
        occurs_at(s, p, q),
    ensures
        exists|k: int| first_occurrence(s, p, k),
    decreases q,
{
    if exists|j: int| 0 <= j < q && occurs_at(s, p, j) {
        let j = choose|j: int| 0 <= j < q && occurs_at(s, p, j);
        lemma_first_exists(s, p, j);
    } else {
        assert(first_occurrence(s, p, q));
    }
}

/// `p` stands somewhere in `s`.
pub open spec fn occurs(s: Seq<char>, p: Seq<char>) -> bool {
    exists|q: int| occurs_at(s, p, q)
}

/// Each placeholder numbered `lo .. hi` stands somewhere in `s`.
pub open spec fn holds_placeholders(s: Seq<char>, prefix: Seq<char>, lo: nat, hi: nat) -> bool {
    forall|i: nat| lo <= i < hi ==> #[trigger] occurs(s, placeholder(prefix, i))
}

/// Every group from 1 on took part in the match and holds no `<`.
pub open spec fn plain_groups(groups: Seq<Option<Seq<char>>>) -> bool {
    forall|i: int|
        1 <= i < groups.len() ==> #[trigger] groups[i] is Some && count_open(groups[i]->0) == 0
}

proof fn lemma_substitution_step(
    u: Seq<char>,
    prefix: Seq<char>,
    g: Seq<char>,
    k: nat,
    hi: nat,
)
    requires
        opening(prefix),
        k < hi,
        count_open(g) == 0,
        holds_placeholders(u, prefix, k, hi),
    ensures
        count_open(replace_first(u, placeholder(prefix, k), g)) + 1 == count_open(u),
        holds_placeholders(replace_first(u, placeholder(prefix, k), g), prefix, k + 1, hi),
{
    let ph = placeholder(prefix, k);
    lemma_placeholder_shape(prefix, k);
    assert(occurs(u, ph));
    let q0 = choose|q: int| occurs_at(u, ph, q);
    lemma_first_exists(u, ph, q0);
    let p = choose|p: int| first_occurrence(u, ph, p);
    let left = u.subrange(0, p);
    let right = u.subrange(p + ph.len(), u.len() as int);
    let v = left + g + right;
    assert(replace_first(u, ph, g) == v);
    assert(u =~= left + ph + right);
    lemma_count_concat(left, ph);
    lemma_count_concat(left + ph, right);
    lemma_count_concat(left, g);
    lemma_count_concat(left + g, right);
    assert forall|i: nat| k + 1 <= i < hi implies #[trigger] occurs(v, placeholder(prefix, i)) by {
        let b = placeholder(prefix, i);
        assert(occurs(u, b));
        let q = choose|q: int| occurs_at(u, b, q);
        lemma_placeholders_apart(u, prefix, k, i, p, q);
        lemma_occurrence_survives(u, ph, g, b, p, q);
    }
}

proof fn lemma_occurrence_survives(
    u: Seq<char>,
    ph: Seq<char>,
    g: Seq<char>,
    b: Seq<char>,
    p: int,
    q: int,
)
    requires
        occurs_at(u, ph, p),
        occurs_at(u, b, q),
        q + b.len() <= p || p + ph.len() <= q,
    ensures
        occurs(u.subrange(0, p) + g + u.subrange(p + ph.len(), u.len() as int), b),
{
    let v = u.subrange(0, p) + g + u.subrange(p + ph.len(), u.len() as int);
    if q + b.len() <= p {
        assert(v.subrange(q, q + b.len()) =~= u.subrange(q, q + b.len()));
        assert(occurs_at(v, b, q));
    } else {
        let q2 = q - ph.len() + g.len();
        assert(v.subrange(q2, q2 + b.len()) =~= u.subrange(q, q + b.len()));
        assert(occurs_at(v, b, q2));
    }
}

/// What substitution keeps up through group `m`: the remaining placeholders
/// `m .. n` still occur, and there are as many `<` left.
proof fn lemma_substitution_progress(
    template: Seq<char>,
    prefix: Seq<char>,
    groups: Seq<Option<Seq<char>>>,
    m: nat,
)
    requires
        opening(prefix),
        1 <= m <= groups.len(),
        count_open(template) == groups.len() - 1,
        plain_groups(groups),
        holds_placeholders(template, prefix, 1, groups.len()),
    ensures
        substitute_upto(template, prefix, groups, m) is Some,
        count_open(substitute_upto(template, prefix, groups, m)->0) == groups.len() - m,
        holds_placeholders(substitute_upto(template, prefix, groups, m)->0, prefix, m, groups.len()),
    decreases m,
{
    if m > 1 {
        let k = (m - 1) as nat;
        lemma_substitution_progress(template, prefix, groups, k);
        let u = substitute_upto(template, prefix, groups, k)->0;
        assert(groups[k as int] is Some && count_open(groups[k as int]->0) == 0);
        lemma_substitution_step(u, prefix, groups[k as int]->0, k, groups.len());
    }
}

/// Substitution into a template that holds each of the placeholders `1 .. n`
/// of a match with `n` groups, and no other `<`, leaves no placeholder
/// behind, provided the groups took part and hold no `<`.
pub proof fn lemma_full_substitution(
    template: Seq<char>,
    prefix: Seq<char>,
    groups: Seq<Option<Seq<char>>>,
)
    requires
        opening(prefix),
        groups.len() >= 1,
        count_open(template) == groups.len() - 1,
        plain_groups(groups),
        holds_placeholders(template, prefix, 1, groups.len()),
    ensures
        substitute(template, prefix, groups) is Some,
        forall|i: nat| !#[trigger] occurs(substitute(template, prefix, groups)->0, placeholder(prefix, i)),
{
    lemma_substitution_progress(template, prefix, groups, groups.len());
    let r = substitute(template, prefix, groups)->0;
    lemma_count_zero(r);
    assert forall|i: nat| !#[trigger] occurs(r, placeholder(prefix, i)) by {
        lemma_placeholder_shape(prefix, i);
        if occurs(r, placeholder(prefix, i)) {
            let q = choose|q: int| occurs_at(r, placeholder(prefix, i), q);
            assert(r.subrange(q, q + placeholder(prefix, i).len())[0] == r[q]);
        }
    }
}

} // verus!
