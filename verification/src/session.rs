//! The navigable session: the sorted flat record list, a cursor
//! string for the current virtual directory, and navigation that is
//! nothing but range queries over the sorted list.

use vstd::prelude::*;
use crate::pathstr::{find_last_char, is_prefix, last_at, lex_le, lex_lt, count_trailing,
    lemma_lex_asym, lemma_lex_irrefl, lemma_lex_le_lt_trans, lemma_lex_le_trans,
    lemma_lex_trichotomy, lemma_not_prefix_ge, lemma_prefix_le, lemma_prefix_sandwich, push_char,
    str_eq, str_lt, str_starts_with, trim_char_end, first_at};
use crate::value::Value;
use crate::config::API;
use crate::format::{Formatter, Keywords, RenderOpts, spec_fmt, opts_of};

verus! {

/// The central invariant of the whole design: the flat list is in
/// ascending path order at all times.
pub open spec fn recs_sorted(rs: Seq<(String, Value)>) -> bool {
    forall|i: int, j: int| 0 <= i < j < rs.len() ==> lex_le(#[trigger] rs[i].0@, #[trigger] rs[j].0@)
}

/// The strict form: ascending with no path ever duplicated.  A
/// resolve pass hands the session a list in this shape.
pub open spec fn recs_strict(rs: Seq<(String, Value)>) -> bool {
    forall|i: int, j: int| 0 <= i < j < rs.len() ==> lex_lt(#[trigger] rs[i].0@, #[trigger] rs[j].0@)
}

/// The insertion point of `p`: the index of the first record whose
/// path is not below `p`.
pub open spec fn spec_lb(rs: Seq<(String, Value)>, p: Seq<char>) -> int
    decreases rs.len(),
{
    if rs.len() == 0 {
        0
    } else if lex_lt(rs[0].0@, p) {
        1 + spec_lb(rs.drop_first(), p)
    } else {
        0
    }
}

pub proof fn lemma_lb_char(rs: Seq<(String, Value)>, p: Seq<char>)
    ensures
        0 <= spec_lb(rs, p) <= rs.len(),
        forall|i: int| 0 <= i < spec_lb(rs, p) ==> lex_lt(#[trigger] rs[i].0@, p),
        spec_lb(rs, p) < rs.len() ==> !lex_lt(rs[spec_lb(rs, p)].0@, p),
    decreases rs.len(),
{
    if rs.len() > 0 && lex_lt(rs[0].0@, p) {
        lemma_lb_char(rs.drop_first(), p);
        let k = spec_lb(rs, p);
        assert forall|i: int| 0 <= i < k implies lex_lt(#[trigger] rs[i].0@, p) by {
            if i > 0 {
                assert(rs.drop_first()[i - 1] == rs[i]);
            }
        }
        if k < rs.len() {
            assert(rs.drop_first()[k - 1] == rs[k]);
        }
    }
}

/// The end of the contiguous block at or after `from` whose paths
/// start with `p`.
pub open spec fn spec_range_end(rs: Seq<(String, Value)>, p: Seq<char>, i: int) -> int
    decreases rs.len() - i,
{
    if i < 0 || i >= rs.len() || !is_prefix(p, rs[i].0@) {
        i
    } else {
        spec_range_end(rs, p, i + 1)
    }
}

proof fn lemma_range_end_char(rs: Seq<(String, Value)>, p: Seq<char>, i: int, k: int)
    requires
        0 <= i <= k <= rs.len(),
        forall|j: int| i <= j < k ==> is_prefix(p, #[trigger] rs[j].0@),
        k < rs.len() ==> !is_prefix(p, rs[k].0@),
    ensures
        spec_range_end(rs, p, i) == k,
    decreases k - i,
{
    if i < k {
        lemma_range_end_char(rs, p, i + 1, k);
    }
}

/// Lower bound: the first record at or above `target`.
pub fn locate(records: &Vec<(String, Value)>, target: &str) -> (r: usize)
    requires
        recs_sorted(records@),
    ensures
        r <= records@.len(),
        r as int == spec_lb(records@, target@),
        forall|i: int| 0 <= i < r ==> lex_lt(#[trigger] records@[i].0@, target@),
        forall|i: int| r <= i < records@.len() ==> !lex_lt(#[trigger] records@[i].0@, target@),
{
    let n = records.len();
    let mut lo: usize = 0;
    let mut hi: usize = n;
    while lo < hi
        invariant
            lo <= hi <= n,
            n == records@.len(),
            recs_sorted(records@),
            forall|i: int| 0 <= i < lo ==> lex_lt(#[trigger] records@[i].0@, target@),
            forall|i: int| hi <= i < n ==> !lex_lt(#[trigger] records@[i].0@, target@),
        decreases hi - lo,
    {
        let mid = lo + (hi - lo) / 2;
        if str_lt(records[mid].0.as_str(), target) {
            proof {
                assert forall|i: int| 0 <= i < mid + 1 implies lex_lt(
                    #[trigger] records@[i].0@,
                    target@,
                ) by {
                    if i < mid {
                        lemma_lex_le_lt_trans(records@[i].0@, records@[mid as int].0@, target@);
                    }
                }
            }
            lo = mid + 1;
        } else {
            proof {
                assert forall|i: int| mid <= i < n implies !lex_lt(
                    #[trigger] records@[i].0@,
                    target@,
                ) by {
                    if i > mid && lex_lt(records@[i].0@, target@) {
                        lemma_lex_le_lt_trans(records@[mid as int].0@, records@[i].0@, target@);
                    }
                }
            }
            hi = mid;
        }
    }
    proof {
        lemma_lb_char(records@, target@);
        let k = spec_lb(records@, target@);
        if k < lo {
            assert(lex_lt(records@[k].0@, target@));
        }
        if lo < k {
            assert(!lex_lt(records@[lo as int].0@, target@));
        }
    }
    lo
}

/// The sub-range "inside" the virtual directory `prefix`: a
/// contiguous index interval holding exactly the records whose path
/// starts with `prefix`, and nothing else.
pub fn range(records: &Vec<(String, Value)>, prefix: &str) -> (r: (usize, usize))
    requires
        recs_sorted(records@),
    ensures
        r.0 <= r.1 <= records@.len(),
        r.0 as int == spec_lb(records@, prefix@),
        r.1 as int == spec_range_end(records@, prefix@, r.0 as int),
        forall|i: int| r.0 <= i < r.1 ==> is_prefix(prefix@, #[trigger] records@[i].0@),
        forall|i: int| 0 <= i < r.0 ==> !is_prefix(prefix@, #[trigger] records@[i].0@),
        forall|i: int| r.1 <= i < records@.len() ==> !is_prefix(prefix@, #[trigger] records@[i].0@),
{
    let n = records.len();
    let lo = locate(records, prefix);
    let mut l: usize = lo;
    let mut h: usize = n;
    while l < h
        invariant
            lo <= l <= h <= n,
            n == records@.len(),
            recs_sorted(records@),
            forall|i: int| lo <= i < n ==> !lex_lt(#[trigger] records@[i].0@, prefix@),
            forall|i: int| lo <= i < l ==> is_prefix(prefix@, #[trigger] records@[i].0@),
            forall|i: int| h <= i < n ==> !is_prefix(prefix@, #[trigger] records@[i].0@),
        decreases h - l,
    {
        let mid = l + (h - l) / 2;
        if str_starts_with(records[mid].0.as_str(), prefix) {
            proof {
                assert forall|i: int| lo <= i < mid + 1 implies is_prefix(
                    prefix@,
                    #[trigger] records@[i].0@,
                ) by {
                    if i < mid {
                        lemma_prefix_sandwich(prefix@, records@[i].0@, records@[mid as int].0@);
                    } else {
                        assert(i == mid);
                    }
                }
            }
            l = mid + 1;
        } else {
            proof {
                assert forall|i: int| mid <= i < n implies !is_prefix(
                    prefix@,
                    #[trigger] records@[i].0@,
                ) by {
                    if i > mid {
                        lemma_lex_irrefl(records@[i].0@);
                        if lex_lt(records@[i].0@, records@[mid as int].0@) {
                            lemma_lex_asym(records@[i].0@, records@[mid as int].0@);
                        }
                        lemma_not_prefix_ge(prefix@, records@[mid as int].0@, records@[i].0@);
                    }
                }
            }
            h = mid;
        }
    }
    proof {
        assert forall|i: int| 0 <= i < lo implies !is_prefix(prefix@, #[trigger] records@[i].0@) by {
            if is_prefix(prefix@, records@[i].0@) {
                lemma_prefix_le(prefix@, records@[i].0@);
                lemma_lex_le_lt_trans(prefix@, records@[i].0@, prefix@);
                lemma_lex_irrefl(prefix@);
            }
        }
        lemma_range_end_char(records@, prefix@, lo as int, l as int);
    }
    (lo, l)
}

/// Check the sortedness invariant itself.
pub fn records_sorted(records: &Vec<(String, Value)>) -> (r: bool)
    ensures
        r == recs_sorted(records@),
{
    let n = records.len();
    if n == 0 {
        return true;
    }
    let mut i: usize = 0;
    while i + 1 < n
        invariant
            i < n,
            n == records@.len(),
            forall|k: int| 0 <= k < i ==> lex_le(#[trigger] records@[k].0@, records@[k + 1].0@),
        decreases n - i,
    {
        if str_lt(records[i + 1].0.as_str(), records[i].0.as_str()) {
            proof {
                lemma_lex_asym(records@[i as int + 1].0@, records@[i as int].0@);
                lemma_lex_irrefl(records@[i as int].0@);
                assert(!lex_le(records@[i as int].0@, records@[i as int + 1].0@));
            }
            return false;
        }
        proof {
            lemma_lex_trichotomy(records@[i as int].0@, records@[i as int + 1].0@);
        }
        i = i + 1;
    }
    proof {
        assert forall|a: int, b: int| 0 <= a < b < records@.len() implies lex_le(
            #[trigger] records@[a].0@,
            #[trigger] records@[b].0@,
        ) by {
            lemma_chain(records@, a, b);
        }
    }
    true
}

proof fn lemma_chain(rs: Seq<(String, Value)>, a: int, b: int)
    requires
        0 <= a <= b < rs.len(),
        forall|k: int| 0 <= k < rs.len() - 1 ==> lex_le(#[trigger] rs[k].0@, rs[k + 1].0@),
    ensures
        lex_le(rs[a].0@, rs[b].0@),
    decreases b - a,
{
    if a < b {
        lemma_chain(rs, a, b - 1);
        lemma_lex_le_trans(rs[a].0@, rs[b - 1].0@, rs[b].0@);
    }
}

// ---------------------------------------------------------------
// The session
// ---------------------------------------------------------------

/// What a completed resolve pass hands over: the lazy-expansion flag,
/// the root prefix the pass was anchored at, and the fresh sorted
/// record list that replaces the old one wholesale.
pub struct ResolveDone {
    pub more: bool,
    pub root: String,
    pub records: Vec<(String, Value)>,
}

/// What `change_directory` asks of its caller.
#[derive(Clone, Copy, PartialEq, Eq, Debug)]
pub enum CdOutcome {
    Unchanged,
    Changed,
    NoSuchPath,
    NeedResolve,
}

/// What one command line asks of the surrounding loop.
pub enum Action {
    Output(String),
    Quit,
    NeedResolve,
    NoSuchPath,
    Unknown,
    Nothing,
}

/// Where a `cd` argument truncates the cursor and what it appends:
/// `..` steps to the parent, an absolute argument replaces the
/// cursor, anything else descends from it.
pub open spec fn spec_cd_parts(cur: Seq<char>, arg: Seq<char>) -> (int, Seq<char>) {
    if arg == ".."@ {
        let trimmed = cur.take(cur.len() - count_trailing(cur, '/'));
        let k = last_at(trimmed, '/');
        (if k >= 0 { k } else { 0 }, Seq::empty())
    } else if arg.len() > 0 && arg[0] == '/' {
        (0, arg)
    } else {
        (cur.len() as int, arg)
    }
}

/// The candidate cursor before validation.
pub open spec fn spec_cd_prefix(cur: Seq<char>, truncate: int, append: Seq<char>) -> Seq<char> {
    let base = cur.take(truncate);
    if append.len() == 0 {
        base
    } else if append[0] != '/' && !(base.len() > 0 && base[base.len() - 1] == '/') {
        base + seq!['/'] + append
    } else {
        base + append
    }
}

/// Whether moving to `newcur` needs a fresh resolve pass: stepping
/// down needs one only while lazy expansion is pending, stepping up
/// only when the cursor leaves the resolved root.
pub open spec fn spec_cd_decision(append: Seq<char>, more: bool, newcur: Seq<char>, root: Seq<char>) -> CdOutcome {
    if append.len() > 0 && !more {
        CdOutcome::Changed
    } else if append.len() == 0 && is_prefix(root, newcur) {
        CdOutcome::Changed
    } else {
        CdOutcome::NeedResolve
    }
}

/// The complete cursor move: resolve the argument against the
/// cursor, validate the candidate against the record list (an exact
/// record, or a non-empty directory range), report `NoSuchPath` and
/// keep the cursor otherwise.
pub open spec fn spec_cd(
    cur: Seq<char>,
    arg: Seq<char>,
    recs: Seq<(String, Value)>,
    more: bool,
    root: Seq<char>,
) -> (Seq<char>, CdOutcome) {
    let parts = spec_cd_parts(cur, arg);
    let truncate = parts.0;
    let append = parts.1;
    if truncate == cur.len() && append.len() == 0 {
        (cur, CdOutcome::Unchanged)
    } else {
        let pfx = spec_cd_prefix(cur, truncate, append);
        if exists|i: int| 0 <= i < recs.len() && (#[trigger] recs[i].0@) == pfx {
            (pfx, spec_cd_decision(append, more, pfx, root))
        } else {
            let pfx2: Seq<char> = if pfx.len() > 0 && pfx[pfx.len() - 1] == '/' {
                pfx
            } else {
                pfx + seq!['/']
            };
            let ix = spec_lb(recs, pfx2);
            if ix >= recs.len() || !is_prefix(pfx2, recs[ix].0@) {
                (cur, CdOutcome::NoSuchPath)
            } else {
                (pfx2, spec_cd_decision(append, more, pfx2, root))
            }
        }
    }
}

/// The rendered text of the sub-range under the cursor.
pub open spec fn spec_list(recs: Seq<(String, Value)>, cur: Seq<char>, o: RenderOpts) -> Seq<char> {
    if cur == "/"@ {
        spec_fmt(recs, o)
    } else {
        let lo = spec_lb(recs, cur);
        let hi = spec_range_end(recs, cur, lo);
        spec_fmt(recs.subrange(lo, hi), o)
    }
}

/// The first word of a command line and the rest.
pub open spec fn spec_cmd_of(line: Seq<char>) -> Seq<char> {
    line.take(first_at(line, ' '))
}

pub open spec fn spec_arg_of(line: Seq<char>) -> Seq<char> {
    if first_at(line, ' ') < line.len() {
        line.skip(first_at(line, ' ') + 1)
    } else {
        Seq::empty()
    }
}

/// The interactive session over one resolved snapshot.
pub struct CLI {
    pub url: String,
    pub apis: Vec<API>,
    pub more: bool,
    pub root: String,
    pub records: Vec<(String, Value)>,
    pub current_path: String,
}

impl CLI {
    /// A session over the outcome of an initial resolve pass, with
    /// the cursor at the root.
    pub fn new(url: String, apis: Vec<API>, done: ResolveDone) -> (r: Self)
        requires
            recs_sorted(done.records@),
        ensures
            r.url == url,
            r.apis == apis,
            r.more == done.more,
            r.root == done.root,
            r.records == done.records,
            r.current_path@ == "/"@,
            recs_sorted(r.records@),
    {
        CLI {
            url,
            apis,
            more: done.more,
            root: done.root,
            records: done.records,
            current_path: String::from_str("/"),
        }
    }

    /// Replace the snapshot wholesale; the cursor survives.  This is
    /// the only way the record list ever changes, so a resolve pass
    /// that fails leaves the displayed list and cursor untouched.
    pub fn apply_refresh(&mut self, done: ResolveDone)
        requires
            recs_sorted(done.records@),
        ensures
            final(self).more == done.more,
            final(self).root == done.root,
            final(self).records == done.records,
            final(self).current_path == old(self).current_path,
            final(self).url == old(self).url,
            final(self).apis == old(self).apis,
            recs_sorted(final(self).records@),
    {
        self.more = done.more;
        self.root = done.root;
        self.records = done.records;
    }

    /// The record sub-range of the current virtual directory.
    pub fn filter_records(&self) -> (r: (usize, usize))
        requires
            recs_sorted(self.records@),
        ensures
            r.0 <= r.1 <= self.records@.len(),
            self.current_path@ == "/"@ ==> r.0 == 0 && r.1 as int == self.records@.len(),
            self.current_path@ != "/"@ ==> r.0 as int == spec_lb(self.records@, self.current_path@)
                && r.1 as int == spec_range_end(self.records@, self.current_path@, r.0 as int),
            forall|i: int| r.0 <= i < r.1 && self.current_path@ != "/"@ ==> is_prefix(
                self.current_path@,
                #[trigger] self.records@[i].0@,
            ),
    {
        if str_eq(self.current_path.as_str(), "/") {
            return (0, self.records.len());
        }
        range(&self.records, self.current_path.as_str())
    }

    /// Resolve a `cd` argument, as `spec_cd` lays out.
    pub fn change_directory(&mut self, arg: &str) -> (r: CdOutcome)
        requires
            recs_sorted(old(self).records@),
        ensures
            final(self).records == old(self).records,
            final(self).more == old(self).more,
            final(self).root == old(self).root,
            final(self).url == old(self).url,
            final(self).apis == old(self).apis,
            ({
                let sc = spec_cd(
                    old(self).current_path@,
                    arg@,
                    old(self).records@,
                    old(self).more,
                    old(self).root@,
                );
                final(self).current_path@ == sc.0 && r == sc.1
            }),
    {
        let ghost cur0 = self.current_path@;
        let cur_len = self.current_path.as_str().unicode_len();
        let is_dotdot = str_eq(arg, "..");
        let mut truncate: usize = 0;
        let mut append: &str = arg;
        if is_dotdot {
            let trimmed = trim_char_end(self.current_path.as_str(), '/');
            truncate = match find_last_char(trimmed.as_str(), '/') {
                Some(i) => i,
                None => 0,
            };
            append = "";
            proof {
                reveal_strlit("");
                crate::pathstr::lemma_last_at(trimmed@, '/');
                crate::pathstr::lemma_count_trailing(cur0, '/');
                assert(append@ =~= Seq::<char>::empty());
            }
        } else if arg.unicode_len() > 0 && arg.get_char(0) == '/' {
            truncate = 0;
        } else {
            truncate = cur_len;
        }
        let ghost parts = spec_cd_parts(cur0, arg@);
        proof {
            assert(truncate as int == parts.0 && append@ == parts.1);
        }
        let alen = append.unicode_len();
        if truncate == cur_len && alen == 0 {
            return CdOutcome::Unchanged;
        }
        let mut pfx = self.current_path.as_str().substring_char(0, truncate).to_owned();
        if alen > 0 {
            let pl = pfx.as_str().unicode_len();
            let starts_slash = append.get_char(0) == '/';
            let ends_slash = pl > 0 && pfx.as_str().get_char(pl - 1) == '/';
            if !starts_slash && !ends_slash {
                push_char(&mut pfx, '/');
            }
            pfx.append(append);
        }
        proof {
            assert(pfx@ =~= spec_cd_prefix(cur0, parts.0, parts.1));
        }
        let ghost pfxv = pfx@;
        let ix = locate(&self.records, pfx.as_str());
        let found = ix < self.records.len() && str_eq(self.records[ix].0.as_str(), pfx.as_str());
        proof {
            if found {
                assert(self.records@[ix as int].0@ == pfxv);
            } else if exists|i: int|
                0 <= i < self.records@.len() && (#[trigger] self.records@[i].0@) == pfxv {
                let w = choose|i: int|
                    0 <= i < self.records@.len() && (#[trigger] self.records@[i].0@) == pfxv;
                lemma_lex_irrefl(pfxv);
                assert(ix <= w);
                if ix < self.records@.len() {
                    if (ix as int) < w {
                        assert(lex_le(self.records@[ix as int].0@, self.records@[w].0@));
                    }
                    lemma_lex_trichotomy(self.records@[ix as int].0@, pfxv);
                    if lex_lt(pfxv, self.records@[ix as int].0@) {
                        if (ix as int) < w {
                            lemma_lex_le_lt_trans(pfxv, self.records@[ix as int].0@, pfxv);
                        }
                    }
                    assert(self.records@[ix as int].0@ == pfxv);
                    assert(false);
                }
            }
        }
        if found {
            self.current_path = pfx;
            if alen > 0 && !self.more {
                return CdOutcome::Changed;
            }
            if alen == 0 && str_starts_with(self.current_path.as_str(), self.root.as_str()) {
                return CdOutcome::Changed;
            }
            return CdOutcome::NeedResolve;
        }
        let pl = pfx.as_str().unicode_len();
        let has_slash = pl > 0 && pfx.as_str().get_char(pl - 1) == '/';
        if !has_slash {
            push_char(&mut pfx, '/');
        }
        let ghost pfx2 = pfx@;
        proof {
            assert(pfx2 =~= (if pfxv.len() > 0 && pfxv[pfxv.len() - 1] == '/' {
                pfxv
            } else {
                pfxv + seq!['/']
            }));
        }
        let ix2 = locate(&self.records, pfx.as_str());
        if ix2 >= self.records.len() || !str_starts_with(
            self.records[ix2].0.as_str(),
            pfx.as_str(),
        ) {
            return CdOutcome::NoSuchPath;
        }
        self.current_path = pfx;
        if alen > 0 && !self.more {
            return CdOutcome::Changed;
        }
        if alen == 0 && str_starts_with(self.current_path.as_str(), self.root.as_str()) {
            return CdOutcome::Changed;
        }
        CdOutcome::NeedResolve
    }

    /// The listing of the current virtual directory, exactly
    /// `spec_list`.
    pub fn list(&self) -> (r: String)
        requires
            recs_sorted(self.records@),
        ensures
            r@ == spec_list(
                self.records@,
                self.current_path@,
                RenderOpts {
                    width: 2,
                    yes: "yes"@,
                    no: "no"@,
                    kw: Keywords::Keep,
                },
            ),
    {
        let bounds = self.filter_records();
        let f = Formatter::new_range(&self.records, bounds.0, bounds.1, Keywords::Keep);
        let out = f.fmt();
        proof {
            if self.current_path@ == "/"@ {
                assert(self.records@.subrange(0, self.records@.len() as int) =~= self.records@);
            }
        }
        out
    }

    /// One command line: `cd <arg>`, `list`, `refresh`, `exit`;
    /// anything else is reported and ignored.
    pub fn run(&mut self, line: &str) -> (a: Action)
        requires
            recs_sorted(old(self).records@),
        ensures
            final(self).records == old(self).records,
            final(self).more == old(self).more,
            final(self).root == old(self).root,
            final(self).url == old(self).url,
            final(self).apis == old(self).apis,
            ({
                let cmd = spec_cmd_of(line@);
                let argv = spec_arg_of(line@);
                &&& (cmd == "cd"@ ==> ({
                    let sc = spec_cd(
                        old(self).current_path@,
                        argv,
                        old(self).records@,
                        old(self).more,
                        old(self).root@,
                    );
                    final(self).current_path@ == sc.0 && a == (match sc.1 {
                        CdOutcome::NoSuchPath => Action::NoSuchPath,
                        CdOutcome::NeedResolve => Action::NeedResolve,
                        _ => Action::Nothing,
                    })
                }))
                &&& (cmd != "cd"@ ==> final(self).current_path == old(self).current_path)
                &&& (cmd == "list"@ ==> (match a {
                    Action::Output(s) => s@ == spec_list(
                        old(self).records@,
                        old(self).current_path@,
                        RenderOpts { width: 2, yes: "yes"@, no: "no"@, kw: Keywords::Keep },
                    ),
                    _ => false,
                }))
                &&& (cmd == "exit"@ ==> a == Action::Quit)
                &&& (cmd == "refresh"@ ==> a == Action::NeedResolve)
                &&& (cmd != "cd"@ && cmd != "list"@ && cmd != "exit"@ && cmd != "refresh"@ ==> a
                    == Action::Unknown)
            }),
    {
        proof {
            reveal_strlit("cd");
            reveal_strlit("list");
            reveal_strlit("exit");
            reveal_strlit("refresh");
            assert("cd"@.len() == 2);
            assert("list"@.len() == 4);
            assert("exit"@.len() == 4);
            assert("refresh"@.len() == 7);
            assert("list"@[0] == 'l' && "exit"@[0] == 'e');
            assert("cd"@ != "list"@ && "cd"@ != "exit"@ && "cd"@ != "refresh"@);
            assert("list"@ != "exit"@ && "list"@ != "refresh"@ && "exit"@ != "refresh"@);
            crate::pathstr::lemma_first_at(line@, ' ');
        }
        let sp = crate::pathstr::find_first_char(line, ' ');
        let llen = line.unicode_len();
        let command = line.substring_char(0, sp);
        let arg = if sp < llen {
            line.substring_char(sp + 1, llen)
        } else {
            ""
        };
        proof {
            crate::pathstr::lemma_first_at(line@, ' ');
            assert(command@ == spec_cmd_of(line@));
            reveal_strlit("");
            if sp < llen {
                assert(arg@ == spec_arg_of(line@));
            } else {
                assert(arg@ =~= spec_arg_of(line@));
            }
        }
        if str_eq(command, "cd") {
            let o = self.change_directory(arg);
            return match o {
                CdOutcome::NoSuchPath => Action::NoSuchPath,
                CdOutcome::NeedResolve => Action::NeedResolve,
                _ => Action::Nothing,
            };
        }
        if str_eq(command, "list") {
            return Action::Output(self.list());
        }
        if str_eq(command, "exit") {
            return Action::Quit;
        }
        if str_eq(command, "refresh") {
            return Action::NeedResolve;
        }
        Action::Unknown
    }
}

/// Stepping to the parent of the root leaves the cursor at the root:
/// with every record path rooted at the separator, `cd ..` at `/` is
/// a no-op for the cursor.
pub proof fn lemma_cd_root_parent(recs: Seq<(String, Value)>, more: bool, root: Seq<char>)
    requires
        forall|i: int| 0 <= i < recs.len() ==> (#[trigger] recs[i].0@).len() > 0 && recs[i].0@[0]
            == '/',
    ensures
        spec_cd("/"@, ".."@, recs, more, root).0 == "/"@,
{
    reveal_strlit("/");
    reveal_strlit("..");
    assert("/"@.len() == 1 && "/"@[0] == '/');
    let cur = "/"@;
    crate::pathstr::lemma_count_trailing(cur, '/');
    assert(count_trailing(cur, '/') == 1) by {
        if count_trailing(cur, '/') < 1 {
            assert(cur[cur.len() - count_trailing(cur, '/') - 1] != '/');
        }
    }
    let trimmed = cur.take(0);
    assert(trimmed.len() == 0);
    assert(last_at(trimmed, '/') == -1);
    let parts = spec_cd_parts(cur, ".."@);
    assert(parts.0 == 0 && parts.1.len() == 0);
    let pfx = spec_cd_prefix(cur, 0, parts.1);
    assert(pfx =~= Seq::<char>::empty());
    assert forall|i: int| 0 <= i < recs.len() implies (#[trigger] recs[i].0@) != pfx by {
        assert(recs[i].0@.len() > 0);
    }
    let pfx2 = pfx + seq!['/'];
    assert(pfx2 =~= cur);
    lemma_lb_char(recs, pfx2);
    let ix = spec_lb(recs, pfx2);
    if 0 <= ix < recs.len() {
        assert(is_prefix(pfx2, recs[ix].0@)) by {
            assert(recs[ix].0@.subrange(0, 1) =~= pfx2);
        }
        assert(spec_cd(cur, ".."@, recs, more, root).0 == pfx2);
    } else {
        assert(spec_cd(cur, ".."@, recs, more, root).0 == cur);
    }
}

} // verus!
