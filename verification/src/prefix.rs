//! Prefix compression over a sorted list of slash-delimited paths.
//!
//! A single backward pass over the token-split paths maintains, for
//! the most recently visited path, a per-depth counter of how many
//! trailing paths share that depth's segment.  Whenever a counter's
//! run ends, a `Prefix` is emitted covering the index range the
//! counter accumulated; chains of depths with identical counters are
//! merged into one multi-segment label.  The ranges are built in
//! reverse index space and remapped at the end.
//!
//! The executable code is proved equal to the functional model
//! `spec_build_paths`, which pins the result down completely; the
//! model is also what makes the compressor's determinism a theorem.

use vstd::prelude::*;
use crate::pathstr::{push_char, spec_trim_both, split_at_char, str_eq, trim_char_both, split_char, views_of};

verus! {

/// The deepest path the grouped display supports.
pub const MAX_LEVEL: usize = 16;

/// A compressed run: a shared piece of path text governing the
/// half-open record range `[start, end)`.
#[derive(Debug, Clone, PartialEq, Eq)]
pub struct Prefix {
    pub text: String,
    pub start: usize,
    pub end: usize,
}

pub open spec fn runs_view(v: Seq<Prefix>) -> Seq<(Seq<char>, int, int)> {
    Seq::new(v.len(), |i: int| (v[i].text@, v[i].start as int, v[i].end as int))
}

/// Token list of one path: both ends trimmed of `/`, then split.
pub open spec fn spec_tokens(s: Seq<char>) -> Seq<Seq<char>> {
    split_at_char(spec_trim_both(s, '/'), '/')
}

pub open spec fn toks_of_paths(paths: Seq<Seq<char>>) -> Seq<Seq<Seq<char>>> {
    Seq::new(paths.len(), |i: int| spec_tokens(paths[i]))
}

/// The text of tokens `[from, to)`, each preceded by a separator.
pub open spec fn seg_text(toks: Seq<Seq<char>>, from: int, to: int) -> Seq<char>
    decreases to - from,
{
    if from >= to {
        Seq::empty()
    } else {
        seq!['/'] + toks[from] + seg_text(toks, from + 1, to)
    }
}

proof fn lemma_seg_snoc(toks: Seq<Seq<char>>, from: int, to: int)
    requires
        from <= to,
    ensures
        seg_text(toks, from, to + 1) == seg_text(toks, from, to) + seq!['/'] + toks[to],
    decreases to - from,
{
    if from == to {
        assert(seg_text(toks, to + 1, to + 1) =~= Seq::<char>::empty());
        assert(seg_text(toks, from, to) =~= Seq::<char>::empty());
        assert(seg_text(toks, from, to + 1) =~= seg_text(toks, from, to) + seq!['/'] + toks[to]);
    } else {
        lemma_seg_snoc(toks, from + 1, to);
        assert(seg_text(toks, from, to + 1) =~= seg_text(toks, from, to) + seq!['/'] + toks[to]);
    }
}

/// How many leading tokens two token lists share.
pub open spec fn common_len(a: Seq<Seq<char>>, b: Seq<Seq<char>>) -> int
    decreases a.len(),
{
    if a.len() == 0 || b.len() == 0 {
        0
    } else if a[0] == b[0] {
        1 + common_len(a.drop_first(), b.drop_first())
    } else {
        0
    }
}

proof fn lemma_common_len_char(a: Seq<Seq<char>>, b: Seq<Seq<char>>)
    ensures
        0 <= common_len(a, b) <= a.len(),
        common_len(a, b) <= b.len(),
        forall|i: int| 0 <= i < common_len(a, b) ==> a[i] == b[i],
        (common_len(a, b) < a.len() && common_len(a, b) < b.len()) ==> a[common_len(a, b)]
            != b[common_len(a, b)],
    decreases a.len(),
{
    if a.len() > 0 && b.len() > 0 && a[0] == b[0] {
        lemma_common_len_char(a.drop_first(), b.drop_first());
        let k = common_len(a, b);
        assert forall|i: int| 0 <= i < k implies a[i] == b[i] by {
            if i > 0 {
                assert(a.drop_first()[i - 1] == a[i]);
                assert(b.drop_first()[i - 1] == b[i]);
            }
        }
        if k < a.len() && k < b.len() {
            assert(a.drop_first()[k - 1] == a[k]);
            assert(b.drop_first()[k - 1] == b[k]);
        }
    }
}

// ---------------------------------------------------------------
// The functional model of the backward pass
// ---------------------------------------------------------------

/// State between two visited paths: the reference token list, the
/// per-depth share counters, and the runs emitted so far (in reverse
/// index space, in emission order).
pub struct BuildState {
    pub ref_toks: Seq<Seq<char>>,
    pub counts: Seq<int>,
    pub runs: Seq<(Seq<char>, int, int)>,
}

/// The inner sweep over the depths `[m, i]` that no longer match,
/// deepest first.  `len` is the surviving length of the reference
/// token list, `length` the number of depths merged into the pending
/// label.  Counters of one emit nothing; a counter smaller than its
/// parent emits the merged label; a counter equal to its parent merges
/// upward.
pub open spec fn inner_step(
    toks0: Seq<Seq<char>>,
    counts: Seq<int>,
    i: int,
    m: int,
    length: int,
    len: int,
    runs: Seq<(Seq<char>, int, int)>,
    idx: int,
) -> (int, Seq<(Seq<char>, int, int)>)
    decreases i + 1 - m,
{
    if i < m {
        (len, runs)
    } else if counts[i] == 1 {
        inner_step(toks0, counts, i - 1, m, length, len - 1, runs, idx)
    } else if i == 0 || counts[i] < counts[i - 1] {
        let run = (seg_text(toks0, len - length, len), idx - counts[i], idx);
        inner_step(toks0, counts, i - 1, m, 1, len - length, runs.push(run), idx)
    } else if counts[i] == counts[i - 1] {
        inner_step(toks0, counts, i - 1, m, length + 1, len, runs, idx)
    } else {
        inner_step(toks0, counts, i - 1, m, length, len - 1, runs, idx)
    }
}

/// One visited path: counters at matching depths grow, the sweep
/// handles the rest, and the reference switches to the new path when
/// it is the deeper one.
pub open spec fn step_state(st: BuildState, cur: Seq<Seq<char>>, idx: int) -> BuildState {
    let m = common_len(st.ref_toks, cur);
    let counts1 = Seq::new(st.counts.len(), |i: int| if i < m { st.counts[i] + 1 } else { st.counts[i] });
    let pair = inner_step(st.ref_toks, counts1, st.ref_toks.len() as int - 1, m, 1, st.ref_toks.len() as int, st.runs, idx);
    let len2 = pair.0;
    let runs2 = pair.1;
    let ref2 = st.ref_toks.take(len2);
    let counts2 = counts1.take(len2);
    if cur.len() > len2 {
        BuildState {
            ref_toks: cur,
            counts: counts2 + Seq::new((cur.len() - len2) as nat, |i: int| 1),
            runs: runs2,
        }
    } else {
        BuildState { ref_toks: ref2, counts: counts2, runs: runs2 }
    }
}

/// State after visiting paths `n-1` down to `j` (backward).
pub open spec fn process_from(toks: Seq<Seq<Seq<char>>>, j: int) -> BuildState
    decreases toks.len() - j,
{
    let n = toks.len() as int;
    if j >= n - 1 {
        BuildState {
            ref_toks: toks[n - 1],
            counts: Seq::new(toks[n - 1].len(), |i: int| 1),
            runs: Seq::empty(),
        }
    } else {
        step_state(process_from(toks, j + 1), toks[j], n - 1 - j)
    }
}

/// The final sweep once every path has been visited: runs still open
/// at the start of the list are flushed; here chains of equal counters
/// merge even when the counter is one, so the very first path always
/// closes its label.
pub open spec fn flush_runs(
    toks0: Seq<Seq<char>>,
    counts: Seq<int>,
    i: int,
    length: int,
    len: int,
    runs: Seq<(Seq<char>, int, int)>,
    total: int,
) -> Seq<(Seq<char>, int, int)>
    decreases i + 1,
{
    if i < 0 {
        runs
    } else if i == 0 || (counts[i] > 1 && counts[i] < counts[i - 1]) {
        let run = (seg_text(toks0, len - length, len), total - counts[i], total);
        flush_runs(toks0, counts, i - 1, 1, len - length, runs.push(run), total)
    } else if counts[i] == counts[i - 1] {
        flush_runs(toks0, counts, i - 1, length + 1, len, runs, total)
    } else {
        flush_runs(toks0, counts, i - 1, length, len - 1, runs, total)
    }
}

/// The complete compression of a sorted token-split path list:
/// process every path backward, flush, then reverse the emission
/// order and map reverse index space to forward index space.
pub open spec fn spec_build(toks: Seq<Seq<Seq<char>>>) -> Seq<(Seq<char>, int, int)> {
    let n = toks.len() as int;
    if n == 0 {
        Seq::empty()
    } else {
        let st = process_from(toks, 0);
        let runs = flush_runs(
            st.ref_toks,
            st.counts,
            st.ref_toks.len() as int - 1,
            1,
            st.ref_toks.len() as int,
            st.runs,
            n,
        );
        Seq::new(runs.len(), |k: int| {
            let r = runs[runs.len() - 1 - k];
            (r.0, n - r.2, n - r.1)
        })
    }
}

/// Compression of the paths themselves.
pub open spec fn spec_build_paths(paths: Seq<Seq<char>>) -> Seq<(Seq<char>, int, int)> {
    spec_build(toks_of_paths(paths))
}

/// Compression is deterministic: on one and the same sorted path
/// list it always yields one and the same ordered run list.  `build`
/// returns exactly `spec_build_paths` of its input, so any two runs
/// of it on equal path lists return equal run lists.
pub proof fn lemma_build_deterministic(a: Seq<Seq<char>>, b: Seq<Seq<char>>)
    requires
        a == b,
    ensures
        spec_build_paths(a) == spec_build_paths(b),
{
}

// ---------------------------------------------------------------
// Executable pieces
// ---------------------------------------------------------------

pub open spec fn ints_of(v: Seq<usize>) -> Seq<int> {
    Seq::new(v.len(), |i: int| v[i] as int)
}

/// Token list of one path, as `spec_tokens` describes.
pub fn tokenize(s: &str) -> (r: Vec<String>)
    ensures
        views_of(r@) == spec_tokens(s@),
        r@.len() >= 1,
{
    let t = trim_char_both(s, '/');
    split_char(t.as_str(), '/')
}

fn common_tokens(a: &Vec<String>, b: &Vec<String>) -> (r: usize)
    ensures
        r as int == common_len(views_of(a@), views_of(b@)),
{
    let ghost va = views_of(a@);
    let ghost vb = views_of(b@);
    let mut i: usize = 0;
    let alen = a.len();
    let blen = b.len();
    loop
        invariant
            i <= alen,
            i <= blen,
            alen == va.len(),
            blen == vb.len(),
            va == views_of(a@),
            vb == views_of(b@),
            forall|j: int| 0 <= j < i ==> va[j] == vb[j],
        decreases alen - i,
    {
        proof {
            lemma_common_len_char(va, vb);
        }
        if i == alen || i == blen {
            return i;
        }
        if !str_eq(a[i].as_str(), b[i].as_str()) {
            proof {
                assert(va[i as int] != vb[i as int]);
            }
            return i;
        }
        proof {
            assert(va[i as int] == vb[i as int]);
        }
        i = i + 1;
    }
}

fn seg_text_exec(toks: &Vec<String>, from: usize, to: usize) -> (r: String)
    requires
        from <= to <= toks@.len(),
    ensures
        r@ == seg_text(views_of(toks@), from as int, to as int),
{
    let ghost vt = views_of(toks@);
    let mut r = String::new();
    let mut k = from;
    proof {
        assert(seg_text(vt, from as int, from as int) =~= Seq::<char>::empty());
    }
    while k < to
        invariant
            from <= k <= to,
            to <= toks@.len(),
            vt == views_of(toks@),
            r@ == seg_text(vt, from as int, k as int),
        decreases to - k,
    {
        proof {
            lemma_seg_snoc(vt, from as int, k as int);
        }
        push_char(&mut r, '/');
        r.append(toks[k].as_str());
        proof {
            assert(r@ =~= seg_text(vt, from as int, k as int) + seq!['/'] + vt[k as int]);
        }
        k = k + 1;
    }
    r
}

/// The exec mirror of `step_state`, mutating the carried state.
fn step_exec(
    ref_toks: &mut Vec<String>,
    counts: &mut Vec<usize>,
    runs: &mut Vec<Prefix>,
    cur: Vec<String>,
    idx: usize,
)
    requires
        views_of(old(ref_toks)@).len() == ints_of(old(counts)@).len(),
        forall|k: int| 0 <= k < old(counts)@.len() ==> 1 <= #[trigger] old(counts)@[k] <= idx,
        forall|k: int| 0 <= k < old(runs)@.len() ==> (#[trigger] old(runs)@[k]).start < old(runs)@[k].end <= idx,
        idx < usize::MAX,
    ensures
        ({
            let st = BuildState {
                ref_toks: views_of(old(ref_toks)@),
                counts: ints_of(old(counts)@),
                runs: runs_view(old(runs)@),
            };
            let st2 = step_state(st, views_of(cur@), idx as int);
            views_of(final(ref_toks)@) == st2.ref_toks && ints_of(final(counts)@) == st2.counts
                && runs_view(final(runs)@) == st2.runs
        }),
        final(counts)@.len() == final(ref_toks)@.len(),
        forall|k: int| 0 <= k < final(counts)@.len() ==> 1 <= #[trigger] final(counts)@[k] <= idx
            + 1,
        forall|k: int| 0 <= k < final(runs)@.len() ==> (#[trigger] final(runs)@[k]).start < final(runs)@[k].end <= idx,
{
    let ghost st = BuildState {
        ref_toks: views_of(ref_toks@),
        counts: ints_of(counts@),
        runs: runs_view(runs@),
    };
    let ghost curv = views_of(cur@);
    let m = common_tokens(ref_toks, &cur);
    // grow the counters of the still-matching depths
    let mut k: usize = 0;
    proof {
        lemma_common_len_char(st.ref_toks, curv);
    }
    while k < m
        invariant
            k <= m,
            m <= counts@.len(),
            counts@.len() == st.counts.len(),
            forall|t: int| 0 <= t < counts@.len() ==> 1 <= #[trigger] st.counts[t] <= idx,
            idx < usize::MAX,
            forall|t: int| 0 <= t < counts@.len() ==> counts@[t] as int == (if t < k {
                st.counts[t] + 1
            } else {
                st.counts[t]
            }),
        decreases m - k,
    {
        let v = counts[k];
        counts[k] = v + 1;
        k = k + 1;
    }
    let ghost counts1 = Seq::new(st.counts.len(), |i: int| if i < m { st.counts[i] + 1 } else { st.counts[i] });
    proof {
        assert(ints_of(counts@) =~= counts1);
    }
    // the sweep over depths that stopped matching, deepest first
    let el0 = counts.len();
    let ghost target = inner_step(st.ref_toks, counts1, el0 as int - 1, m as int, 1, el0 as int, st.runs, idx as int);
    let mut i = el0;
    let mut length: usize = 1;
    let mut len = el0;
    while i > m
        invariant
            m <= i <= el0,
            el0 == counts@.len(),
            el0 == st.ref_toks.len(),
            ints_of(counts@) == counts1,
            counts1.len() == el0,
            views_of(ref_toks@) == st.ref_toks,
            len == i as int - 1 + length || (i == el0 && len == el0 && length == 1),
            1 <= length,
            len <= el0,
            idx < usize::MAX,
            forall|t: int| m <= t < counts@.len() ==> 1 <= #[trigger] counts1[t] <= idx,
            forall|t: int| 0 <= t < runs@.len() ==> (#[trigger] runs@[t]).start < runs@[t].end
                <= idx,
            inner_step(st.ref_toks, counts1, i as int - 1, m as int, length as int, len as int, runs_view(runs@), idx as int) == target,
        decreases i,
    {
        i = i - 1;
        let ghost pre_runs = runs_view(runs@);
        let c = counts[i];
        if c == 1 {
            len = len - 1;
        } else if i == 0 || counts[i] < counts[i - 1] {
            let text = seg_text_exec(ref_toks, len - length, len);
            runs.push(Prefix { text, start: idx - c, end: idx });
            proof {
                assert(runs_view(runs@) =~= pre_runs.push(
                    (seg_text(st.ref_toks, len as int - length as int, len as int), idx as int
                        - counts1[i as int], idx as int),
                ));
            }
            len = len - length;
            length = 1;
        } else if counts[i] == counts[i - 1] {
            length = length + 1;
        } else {
            len = len - 1;
        }
    }
    proof {
        assert(inner_step(st.ref_toks, counts1, m as int - 1, m as int, length as int, len as int, runs_view(runs@), idx as int) == (len as int, runs_view(runs@)));
        assert(target.0 == len as int && target.1 == runs_view(runs@));
    }
    ref_toks.truncate(len);
    counts.truncate(len);
    proof {
        assert(views_of(ref_toks@) =~= st.ref_toks.take(len as int));
        assert(ints_of(counts@) =~= counts1.take(len as int));
    }
    if cur.len() > len {
        let cl = cur.len();
        counts.resize(cl, 1);
        proof {
            assert(ints_of(counts@) =~= counts1.take(len as int) + Seq::new(
                (curv.len() - len as int) as nat,
                |i: int| 1,
            ));
        }
        *ref_toks = cur;
    }
    proof {
        let st2 = step_state(st, curv, idx as int);
        assert(views_of(ref_toks@) == st2.ref_toks && ints_of(counts@) == st2.counts
            && runs_view(runs@) == st2.runs);
        assert forall|t: int| 0 <= t < counts@.len() implies 1 <= #[trigger] counts@[t] <= idx
            + 1 by {
            assert(counts@[t] as int == ints_of(counts@)[t]);
            if t < len as int {
                assert(ints_of(counts@)[t] == counts1[t]);
                assert(1 <= st.counts[t] <= idx);
            } else {
                assert(ints_of(counts@)[t] == 1);
            }
        }
    }
}

/// The exec mirror of `flush_runs`.
fn flush_exec(ref_toks: &Vec<String>, counts: &Vec<usize>, runs: &mut Vec<Prefix>, total: usize)
    requires
        views_of(ref_toks@).len() == ints_of(counts@).len(),
        forall|k: int| 0 <= k < counts@.len() ==> 1 <= #[trigger] counts@[k] <= total,
        forall|k: int| 0 <= k < old(runs)@.len() ==> (#[trigger] old(runs)@[k]).start < old(runs)@[k].end <= total,
    ensures
        runs_view(final(runs)@) == flush_runs(
            views_of(ref_toks@),
            ints_of(counts@),
            ref_toks@.len() as int - 1,
            1,
            ref_toks@.len() as int,
            runs_view(old(runs)@),
            total as int,
        ),
        forall|k: int| 0 <= k < final(runs)@.len() ==> (#[trigger] final(runs)@[k]).start < final(runs)@[k].end <= total,
{
    let ghost toks0 = views_of(ref_toks@);
    let ghost counts0 = ints_of(counts@);
    let el0 = counts.len();
    let ghost target = flush_runs(toks0, counts0, el0 as int - 1, 1, el0 as int, runs_view(runs@), total as int);
    let mut i = el0;
    let mut length: usize = 1;
    let mut len = el0;
    while i > 0
        invariant
            i <= el0,
            el0 == counts@.len(),
            el0 == toks0.len(),
            toks0 == views_of(ref_toks@),
            counts0 == ints_of(counts@),
            len == i as int - 1 + length || (i == el0 && len == el0 && length == 1),
            1 <= length,
            len <= el0,
            forall|t: int| 0 <= t < counts@.len() ==> 1 <= #[trigger] counts0[t] <= total,
            forall|t: int| 0 <= t < runs@.len() ==> (#[trigger] runs@[t]).start < runs@[t].end
                <= total,
            flush_runs(toks0, counts0, i as int - 1, length as int, len as int, runs_view(runs@), total as int) == target,
        decreases i,
    {
        i = i - 1;
        let ghost pre_runs = runs_view(runs@);
        let c = counts[i];
        if i == 0 || (c > 1 && c < counts[i - 1]) {
            let text = seg_text_exec(ref_toks, len - length, len);
            runs.push(Prefix { text, start: total - c, end: total });
            proof {
                assert(runs_view(runs@) =~= pre_runs.push(
                    (seg_text(toks0, len as int - length as int, len as int), total as int
                        - counts0[i as int], total as int),
                ));
            }
            len = len - length;
            length = 1;
        } else if counts[i] == counts[i - 1] {
            length = length + 1;
        } else {
            len = len - 1;
        }
    }
    proof {
        assert(flush_runs(toks0, counts0, -1, length as int, len as int, runs_view(runs@), total as int) == runs_view(runs@));
    }
}

impl Prefix {
    /// Compress an ascending-sorted path list into its run list, the
    /// exact value the functional model `spec_build_paths` gives.
    pub fn build(paths: &Vec<String>) -> (r: Vec<Prefix>)
        ensures
            runs_view(r@) == spec_build_paths(views_of(paths@)),
            forall|i: int| 0 <= i < r@.len() ==> (#[trigger] r@[i]).start < r@[i].end
                <= paths@.len(),
    {
        let n = paths.len();
        let ghost allp = views_of(paths@);
        let ghost toksall = toks_of_paths(allp);
        if n == 0 {
            let r: Vec<Prefix> = Vec::new();
            proof {
                assert(runs_view(r@) =~= spec_build_paths(allp));
            }
            return r;
        }
        let mut ref_toks = tokenize(paths[n - 1].as_str());
        let mut counts: Vec<usize> = Vec::new();
        let mut t: usize = 0;
        let rl = ref_toks.len();
        while t < rl
            invariant
                t <= rl,
                counts@.len() == t,
                forall|k: int| 0 <= k < t ==> counts@[k] == 1usize,
            decreases rl - t,
        {
            counts.push(1);
            t = t + 1;
        }
        let mut runs: Vec<Prefix> = Vec::new();
        proof {
            assert(allp[n - 1] == paths@[n - 1]@);
            assert(toksall[n - 1] == spec_tokens(allp[n - 1]));
            assert(ints_of(counts@) =~= Seq::new(toksall[n as int - 1].len(), |i: int| 1));
            assert(runs_view(runs@) =~= Seq::<(Seq<char>, int, int)>::empty());
            assert(process_from(toksall, n - 1) == BuildState {
                ref_toks: views_of(ref_toks@),
                counts: ints_of(counts@),
                runs: runs_view(runs@),
            });
        }
        let mut j = n - 1;
        while j > 0
            invariant
                j <= n - 1,
                n == allp.len(),
                n == paths@.len(),
                allp == views_of(paths@),
                toksall == toks_of_paths(allp),
                views_of(ref_toks@) == process_from(toksall, j as int).ref_toks,
                ints_of(counts@) == process_from(toksall, j as int).counts,
                runs_view(runs@) == process_from(toksall, j as int).runs,
                counts@.len() == ref_toks@.len(),
                forall|k: int| 0 <= k < counts@.len() ==> 1 <= #[trigger] counts@[k] <= n - j,
                forall|k: int| 0 <= k < runs@.len() ==> (#[trigger] runs@[k]).start < runs@[k].end
                    <= n - 1 - j,
            decreases j,
        {
            j = j - 1;
            let idx = n - 1 - j;
            let cur = tokenize(paths[j].as_str());
            proof {
                assert(views_of(cur@) == toksall[j as int]);
            }
            step_exec(&mut ref_toks, &mut counts, &mut runs, cur, idx);
            proof {
                assert(process_from(toksall, j as int) == step_state(
                    process_from(toksall, j as int + 1),
                    toksall[j as int],
                    idx as int,
                ));
            }
        }
        flush_exec(&ref_toks, &counts, &mut runs, n);
        let ghost allruns = flush_runs(
            process_from(toksall, 0).ref_toks,
            process_from(toksall, 0).counts,
            process_from(toksall, 0).ref_toks.len() as int - 1,
            1,
            process_from(toksall, 0).ref_toks.len() as int,
            process_from(toksall, 0).runs,
            n as int,
        );
        proof {
            assert(runs_view(runs@) == allruns);
        }
        // reverse the emission order and map reverse index space to
        // forward index space
        let total = runs.len();
        let mut r: Vec<Prefix> = Vec::new();
        let mut k = total;
        while k > 0
            invariant
                k <= total,
                total == runs@.len(),
                runs_view(runs@) == allruns,
                forall|t: int| 0 <= t < runs@.len() ==> (#[trigger] runs@[t]).start < runs@[t].end
                    <= n,
                n == allp.len(),
                r@.len() == total - k,
                forall|t: int| 0 <= t < r@.len() ==> #[trigger] runs_view(r@)[t] == (
                    allruns[allruns.len() - 1 - t].0,
                    n - allruns[allruns.len() - 1 - t].2,
                    n - allruns[allruns.len() - 1 - t].1,
                ),
                forall|t: int| 0 <= t < r@.len() ==> (#[trigger] r@[t]).start < r@[t].end <= n,
            decreases k,
        {
            k = k - 1;
            let ghost r_pre = r@;
            let text = runs[k].text.clone();
            let ghost tv = text@;
            let a = runs[k].start;
            let b = runs[k].end;
            r.push(Prefix { text, start: n - b, end: n - a });
            proof {
                assert(runs_view(runs@)[k as int] == allruns[k as int]);
                assert(tv == allruns[k as int].0);
                assert forall|t: int| 0 <= t < r@.len() implies #[trigger] runs_view(r@)[t] == (
                    allruns[allruns.len() - 1 - t].0,
                    n - allruns[allruns.len() - 1 - t].2,
                    n - allruns[allruns.len() - 1 - t].1,
                ) by {
                    if t < r@.len() - 1 {
                        assert(r@[t] == r_pre[t]);
                        assert(runs_view(r_pre)[t] == (
                            allruns[allruns.len() - 1 - t].0,
                            n - allruns[allruns.len() - 1 - t].2,
                            n - allruns[allruns.len() - 1 - t].1,
                        ));
                    } else {
                        assert(allruns.len() - 1 - t == k as int);
                        assert(r@[t].text@ == tv);
                        assert(r@[t].start == n - b && r@[t].end == n - a);
                    }
                }
            }
        }
        proof {
            assert(runs_view(r@) =~= spec_build_paths(allp));
        }
        r
    }
}

} // verus!
