//! Character-sequence order, prefix tests and the small string
//! operations that paths are made of.  Paths compare by code point,
//! which for UTF-8 text coincides with byte order.

use vstd::prelude::*;

verus! {

// ---------------------------------------------------------------
// Lexicographic order
// ---------------------------------------------------------------

/// Strict lexicographic order on character sequences.
pub open spec fn lex_lt(a: Seq<char>, b: Seq<char>) -> bool
    decreases a.len(),
{
    if b.len() == 0 {
        false
    } else if a.len() == 0 {
        true
    } else if a[0] == b[0] {
        lex_lt(a.drop_first(), b.drop_first())
    } else {
        a[0] < b[0]
    }
}

pub open spec fn lex_le(a: Seq<char>, b: Seq<char>) -> bool {
    lex_lt(a, b) || a == b
}

/// `p` is a leading segment of `s`.
pub open spec fn is_prefix(p: Seq<char>, s: Seq<char>) -> bool {
    p.len() <= s.len() && s.subrange(0, p.len() as int) == p
}

pub proof fn lemma_lex_irrefl(a: Seq<char>)
    ensures
        !lex_lt(a, a),
    decreases a.len(),
{
    if a.len() > 0 {
        lemma_lex_irrefl(a.drop_first());
    }
}

pub proof fn lemma_lex_trichotomy(a: Seq<char>, b: Seq<char>)
    ensures
        lex_lt(a, b) || lex_lt(b, a) || a == b,
    decreases a.len(),
{
    if a.len() == 0 && b.len() == 0 {
        assert(a =~= b);
    } else if a.len() > 0 && b.len() > 0 && a[0] == b[0] {
        lemma_lex_trichotomy(a.drop_first(), b.drop_first());
        if a.drop_first() == b.drop_first() {
            assert(a =~= b) by {
                assert(a.drop_first().len() == a.len() - 1);
                assert(b.drop_first().len() == b.len() - 1);
                assert(a.len() == b.len());
                assert forall|i: int| 0 <= i < a.len() implies a[i] == b[i] by {
                    if i > 0 {
                        assert(a[i] == a.drop_first()[i - 1]);
                        assert(b[i] == b.drop_first()[i - 1]);
                    }
                }
            }
        }
    }
}

pub proof fn lemma_lex_trans(a: Seq<char>, b: Seq<char>, c: Seq<char>)
    requires
        lex_lt(a, b),
        lex_lt(b, c),
    ensures
        lex_lt(a, c),
    decreases a.len(),
{
    if a.len() > 0 {
        if a[0] == b[0] && b[0] == c[0] {
            lemma_lex_trans(a.drop_first(), b.drop_first(), c.drop_first());
        }
    }
}

pub proof fn lemma_lex_asym(a: Seq<char>, b: Seq<char>)
    requires
        lex_lt(a, b),
    ensures
        !lex_lt(b, a),
{
    if lex_lt(b, a) {
        lemma_lex_trans(a, b, a);
        lemma_lex_irrefl(a);
    }
}

pub proof fn lemma_lex_le_lt_trans(a: Seq<char>, b: Seq<char>, c: Seq<char>)
    requires
        lex_le(a, b),
        lex_lt(b, c),
    ensures
        lex_lt(a, c),
{
    if a != b {
        lemma_lex_trans(a, b, c);
    }
}

pub proof fn lemma_lex_le_trans(a: Seq<char>, b: Seq<char>, c: Seq<char>)
    requires
        lex_le(a, b),
        lex_le(b, c),
    ensures
        lex_le(a, c),
{
    if a != b && b != c {
        lemma_lex_trans(a, b, c);
    }
}

pub proof fn lemma_prefix_le(p: Seq<char>, s: Seq<char>)
    requires
        is_prefix(p, s),
    ensures
        lex_le(p, s),
    decreases p.len(),
{
    if p.len() == 0 {
        if s.len() == 0 {
            assert(p =~= s);
        }
    } else {
        assert(p[0] == s.subrange(0, p.len() as int)[0]);
        let p1 = p.drop_first();
        let s1 = s.drop_first();
        assert(is_prefix(p1, s1)) by {
            assert(s1.subrange(0, p1.len() as int) =~= p1) by {
                assert forall|i: int| 0 <= i < p1.len() implies s1[i] == p1[i] by {
                    assert(p[i + 1] == s.subrange(0, p.len() as int)[i + 1]);
                }
            }
        }
        lemma_prefix_le(p1, s1);
        if p1 == s1 {
            if p.len() == s.len() {
                assert(p =~= s) by {
                    assert forall|i: int| 0 <= i < p.len() implies p[i] == s[i] by {
                        if i > 0 {
                            assert(p[i] == p1[i - 1]);
                            assert(s[i] == s1[i - 1]);
                        }
                    }
                }
            } else {
                assert(s1.len() > p1.len());
                assert(false);
            }
        }
    }
}

proof fn lemma_prefix_drop(p: Seq<char>, s: Seq<char>)
    requires
        is_prefix(p, s),
        p.len() > 0,
    ensures
        is_prefix(p.drop_first(), s.drop_first()),
        p[0] == s[0],
{
    assert(p[0] == s.subrange(0, p.len() as int)[0]);
    assert(s.drop_first().subrange(0, p.len() - 1) =~= p.drop_first()) by {
        assert forall|i: int| 0 <= i < p.len() - 1 implies s.drop_first()[i] == p.drop_first()[i] by {
            assert(p[i + 1] == s.subrange(0, p.len() as int)[i + 1]);
        }
    }
}

proof fn lemma_prefix_undrop(p: Seq<char>, s: Seq<char>)
    requires
        p.len() > 0,
        s.len() > 0,
        p[0] == s[0],
        is_prefix(p.drop_first(), s.drop_first()),
    ensures
        is_prefix(p, s),
{
    assert(s.subrange(0, p.len() as int) =~= p) by {
        assert forall|i: int| 0 <= i < p.len() implies s[i] == p[i] by {
            if i > 0 {
                assert(s.drop_first().subrange(0, p.len() - 1)[i - 1] == p.drop_first()[i - 1]);
            }
        }
    }
}

/// Everything at or above a non-matching `t` (itself at or above `p`)
/// cannot start with `p` either.
pub proof fn lemma_not_prefix_ge(p: Seq<char>, t: Seq<char>, s: Seq<char>)
    requires
        !is_prefix(p, t),
        !lex_lt(t, p),
        !lex_lt(s, t),
    ensures
        !is_prefix(p, s),
    decreases p.len(),
{
    if p.len() == 0 {
        assert(is_prefix(p, t)) by {
            assert(t.subrange(0, 0) =~= p);
        }
    } else if is_prefix(p, s) {
        lemma_prefix_drop(p, s);
        if t.len() == 0 {
            assert(lex_lt(t, p));
        } else if t[0] == p[0] {
            assert(!lex_lt(t.drop_first(), p.drop_first()));
            assert(!lex_lt(s.drop_first(), t.drop_first()));
            if is_prefix(p.drop_first(), t.drop_first()) {
                lemma_prefix_undrop(p, t);
            }
            lemma_not_prefix_ge(p.drop_first(), t.drop_first(), s.drop_first());
        } else {
            assert(p[0] < t[0]);
            assert(lex_lt(s, t));
        }
    }
}

/// In between two strings that both sit at or above `p`, a string
/// below one that starts with `p` starts with `p` as well.
pub proof fn lemma_prefix_sandwich(p: Seq<char>, x: Seq<char>, y: Seq<char>)
    requires
        !lex_lt(x, p),
        lex_le(x, y),
        is_prefix(p, y),
    ensures
        is_prefix(p, x),
{
    if !is_prefix(p, x) {
        if lex_lt(x, y) {
            lemma_lex_asym(x, y);
        } else {
            lemma_lex_irrefl(x);
        }
        lemma_not_prefix_ge(p, x, y);
    }
}

// ---------------------------------------------------------------
// Executable comparisons
// ---------------------------------------------------------------

proof fn lemma_lex_skip_step(a: Seq<char>, b: Seq<char>, i: int)
    requires
        0 <= i < a.len(),
        i < b.len(),
        a[i] == b[i],
    ensures
        lex_lt(a.skip(i), b.skip(i)) == lex_lt(a.skip(i + 1), b.skip(i + 1)),
{
    assert(a.skip(i).drop_first() =~= a.skip(i + 1));
    assert(b.skip(i).drop_first() =~= b.skip(i + 1));
    assert(a.skip(i)[0] == a[i]);
    assert(b.skip(i)[0] == b[i]);
}

/// Strict lexicographic comparison of two strings.
pub fn str_lt(a: &str, b: &str) -> (r: bool)
    ensures
        r == lex_lt(a@, b@),
{
    let alen = a.unicode_len();
    let blen = b.unicode_len();
    let mut i: usize = 0;
    proof {
        assert(a@.skip(0) =~= a@);
        assert(b@.skip(0) =~= b@);
    }
    loop
        invariant
            i <= alen,
            i <= blen,
            alen == a@.len(),
            blen == b@.len(),
            lex_lt(a@, b@) == lex_lt(a@.skip(i as int), b@.skip(i as int)),
        decreases alen - i,
    {
        if i == blen {
            proof {
                assert(b@.skip(i as int).len() == 0);
            }
            return false;
        }
        if i == alen {
            proof {
                assert(a@.skip(i as int).len() == 0);
                assert(b@.skip(i as int).len() > 0);
            }
            return true;
        }
        let ca = a.get_char(i);
        let cb = b.get_char(i);
        if ca != cb {
            proof {
                assert(a@.skip(i as int)[0] == a@[i as int]);
                assert(b@.skip(i as int)[0] == b@[i as int]);
            }
            return ca < cb;
        }
        proof {
            lemma_lex_skip_step(a@, b@, i as int);
        }
        i = i + 1;
    }
}

/// String equality by content.
pub fn str_eq(a: &str, b: &str) -> (r: bool)
    ensures
        r == (a@ == b@),
{
    let alen = a.unicode_len();
    let blen = b.unicode_len();
    if alen != blen {
        return false;
    }
    let mut i: usize = 0;
    while i < alen
        invariant
            i <= alen,
            alen == a@.len(),
            alen == b@.len(),
            forall|j: int| 0 <= j < i ==> a@[j] == b@[j],
        decreases alen - i,
    {
        if a.get_char(i) != b.get_char(i) {
            return false;
        }
        i = i + 1;
    }
    proof {
        assert(a@ =~= b@);
    }
    true
}

/// Does `s` start with `p`?
pub fn str_starts_with(s: &str, p: &str) -> (r: bool)
    ensures
        r == is_prefix(p@, s@),
{
    let slen = s.unicode_len();
    let plen = p.unicode_len();
    if plen > slen {
        return false;
    }
    let mut i: usize = 0;
    while i < plen
        invariant
            i <= plen,
            plen <= slen,
            slen == s@.len(),
            plen == p@.len(),
            forall|j: int| 0 <= j < i ==> s@[j] == p@[j],
        decreases plen - i,
    {
        if s.get_char(i) != p.get_char(i) {
            proof {
                if is_prefix(p@, s@) {
                    assert(s@.subrange(0, plen as int)[i as int] == p@[i as int]);
                }
            }
            return false;
        }
        i = i + 1;
    }
    proof {
        assert(s@.subrange(0, plen as int) =~= p@);
    }
    true
}

/// Does `s` contain the character `c`?
pub fn str_contains_char(s: &str, c: char) -> (r: bool)
    ensures
        r == s@.contains(c),
{
    let n = s.unicode_len();
    let mut i: usize = 0;
    while i < n
        invariant
            i <= n,
            n == s@.len(),
            forall|j: int| 0 <= j < i ==> s@[j] != c,
        decreases n - i,
    {
        if s.get_char(i) == c {
            proof {
                assert(s@[i as int] == c);
            }
            return true;
        }
        i = i + 1;
    }
    false
}

// ---------------------------------------------------------------
// Building strings
// ---------------------------------------------------------------

/// Relies on `String::push`: appends the given character to the end
/// of the string.
#[verifier::external_body]
pub fn push_char(s: &mut String, c: char)
    ensures
        final(s)@ == old(s)@.push(c),
{
    s.push(c);
}

// ---------------------------------------------------------------
// Trimming
// ---------------------------------------------------------------

pub open spec fn count_leading(s: Seq<char>, c: char) -> int
    decreases s.len(),
{
    if s.len() == 0 {
        0
    } else if s[0] != c {
        0
    } else {
        1 + count_leading(s.drop_first(), c)
    }
}

pub open spec fn count_trailing(s: Seq<char>, c: char) -> int
    decreases s.len(),
{
    if s.len() == 0 {
        0
    } else if s[s.len() - 1] != c {
        0
    } else {
        1 + count_trailing(s.drop_last(), c)
    }
}

pub proof fn lemma_count_leading(s: Seq<char>, c: char)
    ensures
        0 <= count_leading(s, c) <= s.len(),
        forall|i: int| 0 <= i < count_leading(s, c) ==> s[i] == c,
        count_leading(s, c) < s.len() ==> s[count_leading(s, c)] != c,
    decreases s.len(),
{
    if s.len() > 0 && s[0] == c {
        lemma_count_leading(s.drop_first(), c);
        let k = count_leading(s, c);
        assert forall|i: int| 0 <= i < k implies s[i] == c by {
            if i > 0 {
                assert(s.drop_first()[i - 1] == s[i]);
            }
        }
        if k < s.len() {
            assert(s.drop_first()[k - 1] == s[k]);
        }
    }
}

pub proof fn lemma_count_trailing(s: Seq<char>, c: char)
    ensures
        0 <= count_trailing(s, c) <= s.len(),
        forall|i: int| s.len() - count_trailing(s, c) <= i < s.len() ==> s[i] == c,
        count_trailing(s, c) < s.len() ==> s[s.len() - count_trailing(s, c) - 1] != c,
    decreases s.len(),
{
    if s.len() > 0 && s[s.len() - 1] == c {
        lemma_count_trailing(s.drop_last(), c);
        let k = count_trailing(s, c);
        assert forall|i: int| s.len() - k <= i < s.len() implies s[i] == c by {
            if i < s.len() - 1 {
                assert(s.drop_last()[i] == s[i]);
            }
        }
        if k < s.len() {
            assert(s.drop_last()[s.len() - k - 1] == s[s.len() - k - 1]);
        }
    }
}

/// The string with every leading and trailing `c` removed.
pub open spec fn spec_trim_both(s: Seq<char>, c: char) -> Seq<char> {
    if count_leading(s, c) == s.len() {
        Seq::empty()
    } else {
        s.subrange(count_leading(s, c), s.len() - count_trailing(s, c))
    }
}

proof fn lemma_trim_bounds(s: Seq<char>, c: char)
    requires
        count_leading(s, c) < s.len(),
    ensures
        count_leading(s, c) < s.len() - count_trailing(s, c),
{
    lemma_count_leading(s, c);
    lemma_count_trailing(s, c);
    let a = count_leading(s, c);
    let b = count_trailing(s, c);
    if a >= s.len() - b {
        assert(s[a] == c);
    }
}

fn find_leading(s: &str, c: char) -> (r: usize)
    ensures
        r == count_leading(s@, c),
{
    let n = s.unicode_len();
    let mut i: usize = 0;
    while i < n && s.get_char(i) == c
        invariant
            i <= n,
            n == s@.len(),
            forall|j: int| 0 <= j < i ==> s@[j] == c,
        decreases n - i,
    {
        i = i + 1;
    }
    proof {
        lemma_count_leading(s@, c);
        let k = count_leading(s@, c);
        if i < k {
            assert(s@[i as int] == c);
        }
        if k < i {
            assert(s@[k] == c);
        }
    }
    i
}

fn find_trailing(s: &str, c: char) -> (r: usize)
    ensures
        r == count_trailing(s@, c),
{
    let n = s.unicode_len();
    let mut i: usize = 0;
    while i < n && s.get_char(n - 1 - i) == c
        invariant
            i <= n,
            n == s@.len(),
            forall|j: int| s@.len() - i <= j < s@.len() ==> s@[j] == c,
        decreases n - i,
    {
        i = i + 1;
    }
    proof {
        lemma_count_trailing(s@, c);
        let k = count_trailing(s@, c);
        if i < k {
            assert(s@[s@.len() - 1 - i] == c);
        }
        if k < i {
            assert(s@[s@.len() - 1 - k] == c);
        }
    }
    i
}

/// Both ends trimmed of `c`, as `str::trim_matches` does.
pub fn trim_char_both(s: &str, c: char) -> (r: String)
    ensures
        r@ == spec_trim_both(s@, c),
{
    let n = s.unicode_len();
    let a = find_leading(s, c);
    proof {
        lemma_count_leading(s@, c);
    }
    if a == n {
        return String::new();
    }
    let b = find_trailing(s, c);
    proof {
        lemma_trim_bounds(s@, c);
    }
    s.substring_char(a, n - b).to_owned()
}

/// The start trimmed of `c`, as `str::trim_start_matches` does.
pub fn trim_char_start(s: &str, c: char) -> (r: String)
    ensures
        r@ == s@.skip(count_leading(s@, c)),
{
    let n = s.unicode_len();
    let a = find_leading(s, c);
    proof {
        lemma_count_leading(s@, c);
    }
    s.substring_char(a, n).to_owned()
}

/// The end trimmed of `c`, as `str::trim_end_matches` does.
pub fn trim_char_end(s: &str, c: char) -> (r: String)
    ensures
        r@ == s@.take(s@.len() - count_trailing(s@, c)),
{
    let n = s.unicode_len();
    let b = find_trailing(s, c);
    proof {
        lemma_count_trailing(s@, c);
    }
    s.substring_char(0, n - b).to_owned()
}

// ---------------------------------------------------------------
// Splitting
// ---------------------------------------------------------------

/// The chunks of `s` between occurrences of `c`; always at least one
/// chunk, as `str::split` yields.
pub open spec fn split_at_char(s: Seq<char>, c: char) -> Seq<Seq<char>>
    decreases s.len(),
{
    if s.len() == 0 {
        seq![Seq::empty()]
    } else if s[0] == c {
        seq![Seq::<char>::empty()] + split_at_char(s.drop_first(), c)
    } else {
        let rest = split_at_char(s.drop_first(), c);
        seq![seq![s[0]] + rest[0]] + rest.drop_first()
    }
}

pub proof fn lemma_split_nonempty(s: Seq<char>, c: char)
    ensures
        split_at_char(s, c).len() >= 1,
    decreases s.len(),
{
    if s.len() > 0 {
        lemma_split_nonempty(s.drop_first(), c);
    }
}

/// Peeling the first chunk off a split: if `i` is the first
/// occurrence of `c` (or the length when there is none), the split is
/// the part before `i` followed by the split of the part after it.
pub proof fn lemma_split_peel(s: Seq<char>, c: char, i: int)
    requires
        0 <= i <= s.len(),
        forall|j: int| 0 <= j < i ==> s[j] != c,
        i < s.len() ==> s[i] == c,
    ensures
        i == s.len() ==> split_at_char(s, c) == seq![s],
        i < s.len() ==> split_at_char(s, c) == seq![s.take(i)] + split_at_char(
            s.skip(i + 1),
            c,
        ),
    decreases s.len(),
{
    lemma_split_nonempty(s, c);
    if s.len() == 0 {
        assert(s =~= Seq::<char>::empty());
        assert(split_at_char(s, c) =~= seq![s]);
    } else if i == 0 {
        if i < s.len() {
            assert(s.skip(1) =~= s.drop_first());
            assert(s.take(0) =~= Seq::<char>::empty());
            assert(split_at_char(s, c) =~= seq![s.take(0)] + split_at_char(s.skip(1), c));
        }
    } else {
        let s1 = s.drop_first();
        lemma_split_nonempty(s1, c);
        assert forall|j: int| 0 <= j < i - 1 implies s1[j] != c by {
            assert(s1[j] == s[j + 1]);
        }
        lemma_split_peel(s1, c, i - 1);
        let rest = split_at_char(s1, c);
        if i == s.len() {
            assert(rest == seq![s1]);
            assert(seq![s[0]] + rest[0] =~= s);
            assert(split_at_char(s, c) =~= seq![s]);
        } else {
            assert(rest == seq![s1.take(i - 1)] + split_at_char(s1.skip(i), c));
            assert(seq![s[0]] + rest[0] =~= s.take(i)) by {
                assert(rest[0] == s1.take(i - 1));
            }
            assert(s1.skip(i) =~= s.skip(i + 1));
            assert(rest.drop_first() =~= split_at_char(s.skip(i + 1), c));
            assert(split_at_char(s, c) =~= seq![s.take(i)] + split_at_char(s.skip(i + 1), c));
        }
    }
}

/// The views of a sequence of strings.
pub open spec fn views_of(v: Seq<String>) -> Seq<Seq<char>> {
    Seq::new(v.len(), |i: int| v[i]@)
}

/// Split `s` at every `c`, as `str::split` does.
pub fn split_char(s: &str, c: char) -> (r: Vec<String>)
    ensures
        views_of(r@) == split_at_char(s@, c),
        r@.len() >= 1,
{
    let n = s.unicode_len();
    let mut r: Vec<String> = Vec::new();
    let mut p: usize = 0;
    proof {
        assert(views_of(r@) =~= Seq::<Seq<char>>::empty());
        assert(s@.skip(0) =~= s@);
        assert(split_at_char(s@, c) =~= views_of(r@) + split_at_char(s@.skip(0), c));
    }
    loop
        invariant
            p <= n,
            n == s@.len(),
            split_at_char(s@, c) == views_of(r@) + split_at_char(s@.skip(p as int), c),
            p > 0 ==> r@.len() >= 1,
        decreases n + 1 - p,
    {
        let mut i = p;
        while i < n && s.get_char(i) != c
            invariant
                p <= i <= n,
                n == s@.len(),
                forall|j: int| p <= j < i ==> s@[j] != c,
            decreases n - i,
        {
            i = i + 1;
        }
        let tok = s.substring_char(p, i).to_owned();
        let ghost rem = s@.skip(p as int);
        proof {
            assert forall|j: int| 0 <= j < i - p implies rem[j] != c by {
                assert(rem[j] == s@[j + p]);
            }
            if (i as int) - (p as int) < rem.len() {
                assert(rem[i - p] == s@[i as int]);
            }
            lemma_split_peel(rem, c, i as int - p as int);
            assert(rem.take(i as int - p as int) =~= s@.subrange(p as int, i as int));
        }
        r.push(tok);
        if i == n {
            proof {
                assert(rem.len() == i - p);
                assert(views_of(r@) =~= views_of(r@.drop_last()) + seq![tok@]);
                assert(split_at_char(s@, c) =~= views_of(r@));
            }
            return r;
        }
        proof {
            assert(rem.skip(i as int - p as int + 1) =~= s@.skip(i as int + 1));
            assert(views_of(r@) =~= views_of(r@.drop_last()) + seq![tok@]);
            assert(split_at_char(s@, c) =~= views_of(r@) + split_at_char(
                s@.skip(i as int + 1),
                c,
            ));
        }
        p = i + 1;
    }
}

// ---------------------------------------------------------------
// Replacement
// ---------------------------------------------------------------

/// Every occurrence of `c` in `s` replaced by the sequence `t`.
pub open spec fn spec_replace(s: Seq<char>, c: char, t: Seq<char>) -> Seq<char>
    decreases s.len(),
{
    if s.len() == 0 {
        Seq::empty()
    } else if s[0] == c {
        t + spec_replace(s.drop_first(), c, t)
    } else {
        seq![s[0]] + spec_replace(s.drop_first(), c, t)
    }
}

proof fn lemma_replace_push(s: Seq<char>, c: char, t: Seq<char>, x: char)
    ensures
        spec_replace(s.push(x), c, t) == spec_replace(s, c, t) + (if x == c {
            t
        } else {
            seq![x]
        }),
    decreases s.len(),
{
    let tail: Seq<char> = if x == c { t } else { seq![x] };
    if s.len() == 0 {
        assert(s.push(x).len() == 1);
        assert(s.push(x)[0] == x);
        assert(s.push(x).drop_first() =~= Seq::<char>::empty());
        assert(spec_replace(Seq::<char>::empty(), c, t) == Seq::<char>::empty());
        assert(spec_replace(s, c, t) == Seq::<char>::empty());
        assert(spec_replace(s.push(x), c, t) =~= spec_replace(s, c, t) + tail);
    } else {
        assert(s.push(x).drop_first() =~= s.drop_first().push(x));
        lemma_replace_push(s.drop_first(), c, t, x);
        assert(s.push(x)[0] == s[0]);
        assert(spec_replace(s.push(x), c, t) =~= spec_replace(s, c, t) + tail);
    }
}

/// Replace every `c` in `s` by the string `t`.
pub fn str_replace(s: &str, c: char, t: &str) -> (r: String)
    ensures
        r@ == spec_replace(s@, c, t@),
{
    let n = s.unicode_len();
    let mut r = String::new();
    let mut i: usize = 0;
    proof {
        assert(s@.take(0) =~= Seq::<char>::empty());
    }
    while i < n
        invariant
            i <= n,
            n == s@.len(),
            r@ == spec_replace(s@.take(i as int), c, t@),
        decreases n - i,
    {
        let ch = s.get_char(i);
        proof {
            lemma_replace_push(s@.take(i as int), c, t@, s@[i as int]);
            assert(s@.take(i as int).push(s@[i as int]) =~= s@.take(i as int + 1));
        }
        if ch == c {
            r.append(t);
        } else {
            push_char(&mut r, ch);
            proof {
                assert(r@ =~= spec_replace(s@.take(i as int), c, t@) + seq![s@[i as int]]);
            }
        }
        i = i + 1;
    }
    proof {
        assert(s@.take(n as int) =~= s@);
    }
    r
}

// ---------------------------------------------------------------
// Last occurrence (for stepping to a parent directory)
// ---------------------------------------------------------------

/// Index of the first `c` in `s`, or the length when there is none.
pub open spec fn first_at(s: Seq<char>, c: char) -> int
    decreases s.len(),
{
    if s.len() == 0 {
        0
    } else if s[0] == c {
        0
    } else {
        1 + first_at(s.drop_first(), c)
    }
}

pub proof fn lemma_first_at(s: Seq<char>, c: char)
    ensures
        0 <= first_at(s, c) <= s.len(),
        forall|j: int| 0 <= j < first_at(s, c) ==> s[j] != c,
        first_at(s, c) < s.len() ==> s[first_at(s, c)] == c,
    decreases s.len(),
{
    if s.len() > 0 && s[0] != c {
        lemma_first_at(s.drop_first(), c);
        let k = first_at(s, c);
        assert forall|j: int| 0 <= j < k implies s[j] != c by {
            if j > 0 {
                assert(s.drop_first()[j - 1] == s[j]);
            }
        }
        if k < s.len() {
            assert(s.drop_first()[k - 1] == s[k]);
        }
    }
}

/// Find the first `c` in `s`; the length when there is none.
pub fn find_first_char(s: &str, c: char) -> (r: usize)
    ensures
        r == first_at(s@, c),
{
    let n = s.unicode_len();
    let mut i: usize = 0;
    while i < n && s.get_char(i) != c
        invariant
            i <= n,
            n == s@.len(),
            forall|j: int| 0 <= j < i ==> s@[j] != c,
        decreases n - i,
    {
        i = i + 1;
    }
    proof {
        lemma_first_at(s@, c);
        let k = first_at(s@, c);
        if i < k {
            assert(s@[i as int] == c);
        }
        if k < i {
            assert(s@[k] == c);
        }
    }
    i
}

/// Index of the last `c` in `s`, or `-1` when there is none.
pub open spec fn last_at(s: Seq<char>, c: char) -> int
    decreases s.len(),
{
    if s.len() == 0 {
        -1
    } else if s[s.len() - 1] == c {
        s.len() - 1
    } else {
        last_at(s.drop_last(), c)
    }
}

pub proof fn lemma_last_at(s: Seq<char>, c: char)
    ensures
        -1 <= last_at(s, c) < s.len(),
        last_at(s, c) >= 0 ==> s[last_at(s, c)] == c,
        forall|j: int| last_at(s, c) < j < s.len() ==> s[j] != c,
    decreases s.len(),
{
    if s.len() > 0 && s[s.len() - 1] != c {
        lemma_last_at(s.drop_last(), c);
        let k = last_at(s, c);
        if k >= 0 {
            assert(s.drop_last()[k] == s[k]);
        }
        assert forall|j: int| k < j < s.len() implies s[j] != c by {
            if j < s.len() - 1 {
                assert(s.drop_last()[j] == s[j]);
            }
        }
    }
}

/// Find the last `c` in `s`.
pub fn find_last_char(s: &str, c: char) -> (r: Option<usize>)
    ensures
        match r {
            Some(i) => i == last_at(s@, c),
            None => last_at(s@, c) == -1,
        },
{
    let n = s.unicode_len();
    let mut i: usize = n;
    while i > 0
        invariant
            i <= n,
            n == s@.len(),
            forall|j: int| i <= j < s@.len() ==> s@[j] != c,
        decreases i,
    {
        i = i - 1;
        if s.get_char(i) == c {
            proof {
                lemma_last_at(s@, c);
                let k = last_at(s@, c);
                assert(s@[i as int] == c);
                if k < i {
                    assert(s@[i as int] != c);
                }
            }
            return Some(i);
        }
    }
    proof {
        lemma_last_at(s@, c);
        if last_at(s@, c) >= 0 {
            assert(s@[last_at(s@, c)] != c);
        }
    }
    None
}

} // verus!
