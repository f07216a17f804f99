//! The schema resolver as an explicit state machine.  The walk over
//! the schema tree, the flattening of fetched mappings into records,
//! the lazy-entity decisions and the final sort all live here and are
//! verified; the surrounding program only performs the blocking
//! fetches and feeds the outcome back in.
//!
//! Each call of `step` makes one transition: it either asks for a
//! fetch, reports that it advanced, hands over the finished sorted
//! snapshot, or fails the whole pass fail-fast, leaving everything
//! already collected untouched for the caller to discard.  The
//! contract pins every transition down to the frame level, so the
//! walk order, the fetch paths, the flattening and the lazy-entity
//! rule are all part of what is proved.

use vstd::prelude::*;
use crate::config::API;
use crate::value::Value;
use crate::session::{ResolveDone, recs_sorted, recs_strict};
use crate::pathstr::{count_leading, is_prefix, lex_le, lex_lt, lemma_lex_trans,
    lemma_lex_trichotomy, push_char, spec_replace, spec_trim_both, str_eq, str_lt, str_replace,
    str_starts_with, trim_char_both, trim_char_start};

verus! {

/// One fetch the caller must perform: the full path and the
/// extraction expression to apply to the payload, if any.
pub struct FetchCall {
    pub path: String,
    pub expr: Option<String>,
}

/// What a fetch came back with: a payload, nothing (the extraction
/// expression selected no sub-value), or a transport failure.
pub enum FetchOutcome {
    Payload(Value),
    NoMatch,
    Error(String),
}

/// What one transition asks of the caller.
pub enum ResolveStep {
    Working,
    Call(FetchCall),
    Done(ResolveDone),
    Failed(String),
}

/// One suspended schema-walk invocation: which child list it walks
/// (`loc` is the index path from the schema roots), anchored at which
/// prefix, how far it got, and the mapping entries still to flatten.
pub struct Frame {
    pub loc: Vec<usize>,
    pub prefix: String,
    pub api_idx: usize,
    pub in_entries: bool,
    pub entries: Vec<(String, Value)>,
}

/// The spec-side image of a frame.
pub struct FrameV {
    pub loc: Seq<usize>,
    pub prefix: Seq<char>,
    pub api_idx: int,
    pub in_entries: bool,
    pub entries: Seq<(String, Value)>,
}

pub open spec fn frame_v(f: Frame) -> FrameV {
    FrameV {
        loc: f.loc@,
        prefix: f.prefix@,
        api_idx: f.api_idx as int,
        in_entries: f.in_entries,
        entries: f.entries@,
    }
}

pub open spec fn stack_v(s: Seq<Frame>) -> Seq<FrameV> {
    Seq::new(s.len(), |i: int| frame_v(s[i]))
}

/// The child list `loc` points at, if it exists.
pub open spec fn spec_apis_at(apis: Seq<API>, loc: Seq<usize>) -> Option<Seq<API>>
    decreases loc.len(),
{
    if loc.len() == 0 {
        Some(apis)
    } else if (loc[0] as int) < apis.len() {
        match apis[loc[0] as int].apis {
            Some(sub) => spec_apis_at(sub@, loc.drop_first()),
            None => None,
        }
    } else {
        None
    }
}

/// The schema node a frame stands on, if any is left in its list.
pub open spec fn spec_node(apis: Seq<API>, f: FrameV) -> Option<API> {
    match spec_apis_at(apis, f.loc) {
        Some(list) => if 0 <= f.api_idx < list.len() {
            Some(list[f.api_idx])
        } else {
            None
        },
        None => None,
    }
}

pub open spec fn spec_node_children(n: Option<API>) -> bool {
    match n {
        Some(api) => match api.apis {
            Some(v) => v@.len() > 0,
            None => false,
        },
        None => false,
    }
}

pub open spec fn spec_node_entity(n: Option<API>) -> bool {
    match n {
        Some(api) => api.is_entity == Some(true),
        None => false,
    }
}

pub open spec fn spec_inc(a: int) -> int {
    if a < usize::MAX as int {
        a + 1
    } else {
        a
    }
}

/// A frame whose walk moved past its current node.
pub open spec fn spec_advance(f: FrameV) -> FrameV {
    FrameV { api_idx: spec_inc(f.api_idx), in_entries: false, ..f }
}

/// A mapping key as it enters a path: trimmed of separators, the
/// remaining separators percent-encoded so that one key is one path
/// segment.
pub open spec fn spec_encode_key(k: Seq<char>) -> Seq<char> {
    spec_replace(spec_trim_both(k, '/'), '/', "%2F"@)
}

pub fn encode_key(k: &str) -> (r: String)
    ensures
        r@ == spec_encode_key(k@),
{
    let t = trim_char_both(k, '/');
    str_replace(t.as_str(), '/', "%2F")
}

/// The path, extraction expression, entity marker and
/// children-present flag of the schema node `loc`/`idx`.
fn api_info(apis: &Vec<API>, loc: &Vec<usize>, idx: usize) -> (r: Option<
    (String, Option<String>, bool, bool),
>)
    ensures
        ({
            let sl = spec_apis_at(apis@, loc@);
            match r {
                Some(t) => sl is Some && (idx as int) < sl.unwrap().len() && ({
                    let api = sl.unwrap()[idx as int];
                    &&& t.0@ == api.path@
                    &&& (match (t.1, api.jsonpath) {
                        (Some(e), Some(j)) => e@ == j.0@,
                        (None, None) => true,
                        _ => false,
                    })
                    &&& t.2 == (api.is_entity == Some(true))
                    &&& t.3 == (match api.apis {
                        Some(v) => v@.len() > 0,
                        None => false,
                    })
                }),
                None => sl is None || (idx as int) >= sl.unwrap().len(),
            }
        }),
{
    let mut cur: &Vec<API> = apis;
    let mut i: usize = 0;
    let n = loc.len();
    proof {
        assert(loc@.skip(0) =~= loc@);
    }
    while i < n
        invariant
            i <= n,
            n == loc@.len(),
            spec_apis_at(apis@, loc@) == spec_apis_at(cur@, loc@.skip(i as int)),
        decreases n - i,
    {
        let k = loc[i];
        proof {
            assert(loc@.skip(i as int)[0] == loc@[i as int]);
            assert(loc@.skip(i as int).drop_first() =~= loc@.skip(i as int + 1));
        }
        if k >= cur.len() {
            return None;
        }
        match &cur[k].apis {
            Some(sub) => {
                cur = sub;
            },
            None => {
                return None;
            },
        }
        i = i + 1;
    }
    proof {
        assert(loc@.skip(n as int).len() == 0);
        assert(spec_apis_at(apis@, loc@) == Some(cur@));
    }
    if idx >= cur.len() {
        return None;
    }
    let api = &cur[idx];
    let path = api.path.clone();
    let expr = match &api.jsonpath {
        Some(j) => Some(j.0.clone()),
        None => None,
    };
    let is_entity = match api.is_entity {
        Some(b) => b,
        None => false,
    };
    let has_children = match &api.apis {
        Some(v) => v.len() > 0,
        None => false,
    };
    Some((path, expr, is_entity, has_children))
}

fn clone_loc(loc: &Vec<usize>) -> (r: Vec<usize>)
    ensures
        r@ == loc@,
{
    let mut r: Vec<usize> = Vec::new();
    let n = loc.len();
    let mut i: usize = 0;
    while i < n
        invariant
            i <= n,
            n == loc@.len(),
            r@ == loc@.take(i as int),
        decreases n - i,
    {
        r.push(loc[i]);
        proof {
            assert(loc@.take(i as int).push(loc@[i as int]) =~= loc@.take(i as int + 1));
        }
        i = i + 1;
    }
    proof {
        assert(loc@.take(n as int) =~= loc@);
    }
    r
}

// ---------------------------------------------------------------
// Sorting the collected records
// ---------------------------------------------------------------

/// Some record in `rs` carries the path `p`.
pub open spec fn path_present(rs: Seq<(String, Value)>, p: Seq<char>) -> bool {
    exists|j: int| 0 <= j < rs.len() && rs[j].0@ == p
}

/// Insert one record into a strictly ascending list, unless its path
/// is already present: the flat list never duplicates a path.
fn sorted_insert(r: &mut Vec<(String, Value)>, x: (String, Value))
    requires
        recs_strict(old(r)@),
    ensures
        recs_strict(final(r)@),
        forall|j: int| 0 <= j < final(r)@.len() ==> old(r)@.contains(#[trigger] final(r)@[j])
            || final(r)@[j] == x,
        path_present(final(r)@, x.0@),
        forall|j: int| 0 <= j < old(r)@.len() ==> path_present(final(r)@, (#[trigger] old(r)@[j]).0@),
{
    let mut k = r.len();
    while k > 0 && str_lt(x.0.as_str(), r[k - 1].0.as_str())
        invariant
            k <= r@.len(),
            r == old(r),
            forall|j: int| k <= j < r@.len() ==> lex_lt(x.0@, #[trigger] r@[j].0@),
        decreases k,
    {
        k = k - 1;
    }
    let ghost rold = r@;
    let ghost kk = k as int;
    if k > 0 && str_eq(x.0.as_str(), r[k - 1].0.as_str()) {
        // the path is already there; keep the list as it is
        proof {
            assert(rold[kk - 1].0@ == x.0@);
            assert(path_present(rold, x.0@));
            assert forall|j: int| 0 <= j < rold.len() implies rold.contains(
                #[trigger] rold[j],
            ) by {
                assert(rold[j] == rold[j]);
            }
            assert forall|j: int| 0 <= j < rold.len() implies path_present(
                rold,
                (#[trigger] rold[j]).0@,
            ) by {
                assert(rold[j].0@ == rold[j].0@);
            }
        }
        return ;
    }
    proof {
        if kk > 0 {
            lemma_lex_trichotomy(x.0@, rold[kk - 1].0@);
            assert(lex_lt(rold[kk - 1].0@, x.0@));
        }
    }
    r.insert(k, x);
    proof {
        assert(r@ =~= rold.take(kk).push(x) + rold.skip(kk));
        assert forall|i: int, j: int| 0 <= i < j < r@.len() implies lex_lt(
            #[trigger] r@[i].0@,
            #[trigger] r@[j].0@,
        ) by {
            if j < kk {
                assert(r@[i] == rold[i] && r@[j] == rold[j]);
            } else if i < kk && j == kk {
                assert(r@[i] == rold[i] && r@[j] == x);
                if i < kk - 1 {
                    assert(lex_lt(rold[i].0@, rold[kk - 1].0@));
                    lemma_lex_trans(rold[i].0@, rold[kk - 1].0@, x.0@);
                }
            } else if i < kk && j > kk {
                assert(r@[i] == rold[i] && r@[j] == rold[j - 1]);
            } else if i == kk {
                assert(r@[i] == x && r@[j] == rold[j - 1]);
                assert(lex_lt(x.0@, rold[j - 1].0@));
            } else {
                assert(r@[i] == rold[i - 1] && r@[j] == rold[j - 1]);
            }
        }
        assert forall|j: int| 0 <= j < r@.len() implies rold.contains(#[trigger] r@[j]) || r@[j]
            == x by {
            if j < kk {
                assert(r@[j] == rold[j]);
                assert(rold.contains(rold[j]));
            } else if j > kk {
                assert(r@[j] == rold[j - 1]);
                assert(rold.contains(rold[j - 1]));
            }
        }
        assert(r@[kk] == x);
        assert(path_present(r@, x.0@));
        assert forall|j: int| 0 <= j < rold.len() implies path_present(
            r@,
            (#[trigger] rold[j]).0@,
        ) by {
            if j < kk {
                assert(r@[j] == rold[j]);
                assert(r@[j].0@ == rold[j].0@);
            } else {
                assert(r@[j + 1] == rold[j]);
                assert(r@[j + 1].0@ == rold[j].0@);
            }
        }
    }
}

/// Drain a record list into a fresh strictly ascending one: every
/// drained path appears exactly once, every kept record is one of the
/// drained.  Which of several records sharing a path survives is not
/// specified; a well-formed schema never produces two.
pub fn sort_take(v: &mut Vec<(String, Value)>) -> (r: Vec<(String, Value)>)
    ensures
        recs_strict(r@),
        recs_sorted(r@),
        forall|i: int| 0 <= i < r@.len() ==> old(v)@.contains(#[trigger] r@[i]),
        forall|i: int| 0 <= i < old(v)@.len() ==> path_present(r@, (#[trigger] old(v)@[i]).0@),
{
    let mut r: Vec<(String, Value)> = Vec::new();
    while v.len() > 0
        invariant
            recs_strict(r@),
            v@.len() <= old(v)@.len(),
            forall|i: int| 0 <= i < v@.len() ==> v@[i] == old(v)@[i],
            forall|i: int| 0 <= i < r@.len() ==> old(v)@.contains(#[trigger] r@[i]),
            forall|i: int| v@.len() <= i < old(v)@.len() ==> path_present(
                r@,
                (#[trigger] old(v)@[i]).0@,
            ),
        decreases v@.len(),
    {
        let ghost vpre = v@;
        let x = match v.pop() {
            Some(x) => x,
            None => {
                proof {
                    assert(false);
                }
                return r;
            },
        };
        let ghost rpre = r@;
        proof {
            assert(x == vpre[vpre.len() - 1]);
            assert(vpre[vpre.len() - 1] == old(v)@[vpre.len() - 1]);
        }
        sorted_insert(&mut r, x);
        proof {
            assert forall|i: int| 0 <= i < r@.len() implies old(v)@.contains(#[trigger] r@[i]) by {
                if r@[i] == x {
                    assert(old(v)@[vpre.len() - 1] == x);
                    assert(old(v)@.contains(x));
                } else {
                    assert(rpre.contains(r@[i]));
                    let w = choose|w: int| 0 <= w < rpre.len() && rpre[w] == r@[i];
                    assert(old(v)@.contains(rpre[w]));
                }
            }
            assert forall|i: int| v@.len() <= i < old(v)@.len() implies path_present(
                r@,
                (#[trigger] old(v)@[i]).0@,
            ) by {
                if i == vpre.len() - 1 {
                    assert(old(v)@[i].0@ == x.0@);
                } else {
                    assert(path_present(rpre, old(v)@[i].0@));
                    let w = choose|w: int| 0 <= w < rpre.len() && rpre[w].0@ == old(v)@[i].0@;
                    assert(rpre[w] == rpre[w]);
                    assert(path_present(r@, rpre[w].0@));
                }
            }
        }
    }
    proof {
        assert forall|i: int, j: int| 0 <= i < j < r@.len() implies lex_le(
            #[trigger] r@[i].0@,
            #[trigger] r@[j].0@,
        ) by {
            assert(lex_lt(r@[i].0@, r@[j].0@));
        }
    }
    r
}

// ---------------------------------------------------------------
// The machine
// ---------------------------------------------------------------

/// One resolve pass in flight: the schema, the navigation target it
/// is anchored at (the lazy-entity rule expands along it), the
/// suspended invocations, and what has been collected so far.
pub struct Resolver {
    pub apis: Vec<API>,
    pub filter: String,
    pub stack: Vec<Frame>,
    pub results: Vec<(String, Value)>,
    pub more: bool,
    pub last_path: String,
    pub awaiting: bool,
    pub finished: bool,
}

impl Resolver {
    pub open spec fn wf(self) -> bool {
        self.awaiting ==> self.stack@.len() > 0
    }

    /// A fresh pass over the schema roots: one frame standing on the
    /// first root node, anchored at `/`, nothing collected, no
    /// expansion skipped yet.
    pub fn new(apis: Vec<API>, filter: String) -> (r: Self)
        ensures
            r.wf(),
            !r.finished,
            !r.awaiting,
            r.apis == apis,
            r.filter == filter,
            r.results@.len() == 0,
            r.more == false,
            r.stack@.len() == 1,
            frame_v(r.stack@[0]) == (FrameV {
                loc: Seq::<usize>::empty(),
                prefix: "/"@,
                api_idx: 0,
                in_entries: false,
                entries: Seq::<(String, Value)>::empty(),
            }),
    {
        let mut stack: Vec<Frame> = Vec::new();
        stack.push(
            Frame {
                loc: Vec::new(),
                prefix: String::from_str("/"),
                api_idx: 0,
                in_entries: false,
                entries: Vec::new(),
            },
        );
        Resolver {
            apis,
            filter,
            stack,
            results: Vec::new(),
            more: false,
            last_path: String::new(),
            awaiting: false,
            finished: false,
        }
    }

    /// One transition.  Feed `None` to let the machine advance, and
    /// the outcome of the requested fetch after a `Call`.
    pub fn step(&mut self, reply: Option<FetchOutcome>) -> (r: ResolveStep)
        requires
            !old(self).finished,
            old(self).wf(),
            old(self).awaiting == (reply is Some),
        ensures
            final(self).wf(),
            final(self).apis == old(self).apis,
            final(self).filter == old(self).filter,
            final(self).awaiting == (r is Call),
            final(self).finished == ((r is Done) || (r is Failed)),
            !(r is Done) ==> final(self).results@.len() >= old(self).results@.len(),
            !(r is Done) ==> final(self).results@.take(old(self).results@.len() as int) == old(self).results@,
            (match r {
                ResolveStep::Call(c) => final(self).last_path == c.path,
                _ => true,
            }),
            // fail-fast: a transport failure kills the pass and
            // leaves everything collected untouched, to be dropped
            (match reply {
                Some(FetchOutcome::Error(e)) => final(self).results == old(self).results && (
                match r {
                    ResolveStep::Failed(msg) => msg == e,
                    _ => false,
                }),
                // the extraction selected nothing: no records for the
                // node, the walk moves past it
                Some(FetchOutcome::NoMatch) => r is Working && final(self).results == old(self).results && final(self).more == old(self).more && stack_v(final(self).stack@)
                    == stack_v(old(self).stack@).update(
                    old(self).stack@.len() - 1,
                    spec_advance(stack_v(old(self).stack@).last()),
                ),
                Some(FetchOutcome::Payload(v)) => (match v {
                    // a mapping payload is staged for flattening,
                    // entry by entry, in payload order
                    Value::Object(entries) => r is Working && final(self).results == old(self).results && final(self).more == old(self).more && stack_v(final(self).stack@)
                        == stack_v(old(self).stack@).update(
                        old(self).stack@.len() - 1,
                        (FrameV {
                            in_entries: true,
                            entries: entries@,
                            ..stack_v(old(self).stack@).last()
                        }),
                    ),
                    // a non-mapping payload becomes the single leaf
                    // record for the node itself; the walk moves past
                    // the node, so nothing below it is ever fetched
                    _ => r is Working && final(self).results@ == old(self).results@.push(
                        (old(self).last_path, v),
                    ) && final(self).more == old(self).more && stack_v(final(self).stack@)
                        == stack_v(old(self).stack@).update(
                        old(self).stack@.len() - 1,
                        spec_advance(stack_v(old(self).stack@).last()),
                    ),
                }),
                None => ({
                    let st = stack_v(old(self).stack@);
                    if st.len() == 0 {
                        // the pass is complete: a strictly sorted
                        // snapshot of everything collected, the
                        // skipped-expansion flag, the pass's anchor
                        (match r {
                            ResolveStep::Done(d) => recs_strict(d.records@) && recs_sorted(
                                d.records@,
                            ) && (forall|i: int|
                                0 <= i < d.records@.len() ==> old(self).results@.contains(
                                    #[trigger] d.records@[i],
                                )) && (forall|i: int|
                                0 <= i < old(self).results@.len() ==> path_present(
                                    d.records@,
                                    (#[trigger] old(self).results@[i]).0@,
                                )) && d.more == old(self).more && d.root == old(self).filter,
                            _ => false,
                        })
                    } else {
                        let top = st.last();
                        let node = spec_node(old(self).apis@, top);
                        if top.in_entries {
                            if top.entries.len() > 0 {
                                // flatten the head entry: one record,
                                // keyed by prefix plus encoded key;
                                // children are entered exactly when
                                // the node has some and either is not
                                // entity-marked or the navigation
                                // target lies under the new record
                                let e0 = top.entries[0];
                                let path = top.prefix + spec_encode_key(e0.0@);
                                let along = is_prefix(path, old(self).filter@);
                                let skip = spec_node_children(node) && spec_node_entity(node)
                                    && !along;
                                let expand = spec_node_children(node) && (!spec_node_entity(node)
                                    || along);
                                let top2 = (FrameV { entries: top.entries.drop_first(), ..top });
                                &&& r is Working
                                &&& final(self).more == (old(self).more || skip)
                                &&& final(self).results@.len() == old(self).results@.len() + 1
                                &&& final(self).results@.last().0@ == path
                                &&& final(self).results@.last().1 == e0.1
                                &&& (if expand {
                                    stack_v(final(self).stack@) == stack_v(
                                        old(self).stack@,
                                    ).update(st.len() - 1, top2).push(
                                        (FrameV {
                                            loc: top.loc.push(top.api_idx as usize),
                                            prefix: path + seq!['/'],
                                            api_idx: 0,
                                            in_entries: false,
                                            entries: Seq::<(String, Value)>::empty(),
                                        }),
                                    )
                                } else {
                                    stack_v(final(self).stack@) == stack_v(
                                        old(self).stack@,
                                    ).update(st.len() - 1, top2)
                                })
                            } else {
                                // entries exhausted: move past the node
                                r is Working && final(self).results == old(self).results && final(self).more == old(self).more && stack_v(final(self).stack@) == stack_v(
                                    old(self).stack@,
                                ).update(st.len() - 1, spec_advance(top))
                            }
                        } else {
                            match node {
                                // a node is left: request its fetch,
                                // prefix plus its path with the
                                // leading separator trimmed
                                Some(api) => {
                                    &&& (match r {
                                        ResolveStep::Call(c) => c.path@ == top.prefix
                                            + api.path@.skip(count_leading(api.path@, '/')) && (
                                        match (c.expr, api.jsonpath) {
                                            (Some(e), Some(j)) => e@ == j.0@,
                                            (None, None) => true,
                                            _ => false,
                                        }),
                                        _ => false,
                                    })
                                    &&& final(self).results == old(self).results
                                    &&& final(self).more == old(self).more
                                    &&& stack_v(final(self).stack@) == stack_v(old(self).stack@)
                                },
                                // the list is exhausted: this
                                // invocation is complete
                                None => r is Working && final(self).results == old(self).results
                                    && final(self).more == old(self).more && stack_v(
                                    final(self).stack@,
                                ) == stack_v(old(self).stack@).drop_last(),
                            }
                        }
                    }
                }),
            }),
    {
        let ghost st0 = stack_v(old(self).stack@);
        match reply {
            Some(out) => {
                self.awaiting = false;
                match out {
                    FetchOutcome::Error(e) => {
                        self.finished = true;
                        return ResolveStep::Failed(e);
                    },
                    FetchOutcome::NoMatch => {
                        let mut fr = match self.stack.pop() {
                            Some(fr) => fr,
                            None => {
                                proof {
                                    assert(false);
                                }
                                return ResolveStep::Working;
                            },
                        };
                        let ghost topv = frame_v(fr);
                        if fr.api_idx < usize::MAX {
                            fr.api_idx = fr.api_idx + 1;
                        }
                        fr.in_entries = false;
                        proof {
                            assert(frame_v(fr) == spec_advance(topv));
                        }
                        self.stack.push(fr);
                        proof {
                            assert(self.results@.take(self.results@.len() as int)
                                =~= self.results@);
                            assert(stack_v(self.stack@) =~= st0.update(
                                st0.len() - 1,
                                spec_advance(st0.last()),
                            ));
                        }
                        return ResolveStep::Working;
                    },
                    FetchOutcome::Payload(v) => {
                        let mut fr = match self.stack.pop() {
                            Some(fr) => fr,
                            None => {
                                proof {
                                    assert(false);
                                }
                                return ResolveStep::Working;
                            },
                        };
                        let ghost topv = frame_v(fr);
                        match v {
                            Value::Object(entries) => {
                                let ghost ev = entries@;
                                fr.in_entries = true;
                                fr.entries = entries;
                                proof {
                                    assert(frame_v(fr) == (FrameV {
                                        in_entries: true,
                                        entries: ev,
                                        ..topv
                                    }));
                                }
                                self.stack.push(fr);
                                proof {
                                    assert(self.results@.take(self.results@.len() as int)
                                        =~= self.results@);
                                    assert(stack_v(self.stack@) =~= st0.update(
                                        st0.len() - 1,
                                        (FrameV { in_entries: true, entries: ev, ..st0.last() }),
                                    ));
                                }
                                return ResolveStep::Working;
                            },
                            other => {
                                let p = self.last_path.clone();
                                let ghost rpre = self.results@;
                                self.results.push((p, other));
                                if fr.api_idx < usize::MAX {
                                    fr.api_idx = fr.api_idx + 1;
                                }
                                fr.in_entries = false;
                                proof {
                                    assert(frame_v(fr) == spec_advance(topv));
                                }
                                self.stack.push(fr);
                                proof {
                                    assert(self.results@.take(rpre.len() as int) =~= rpre);
                                    assert(stack_v(self.stack@) =~= st0.update(
                                        st0.len() - 1,
                                        spec_advance(st0.last()),
                                    ));
                                }
                                return ResolveStep::Working;
                            },
                        }
                    },
                }
            },
            None => {
                if self.stack.len() == 0 {
                    self.finished = true;
                    let records = sort_take(&mut self.results);
                    let root = self.filter.clone();
                    return ResolveStep::Done(ResolveDone { more: self.more, root, records });
                }
                let mut fr = match self.stack.pop() {
                    Some(fr) => fr,
                    None => {
                        proof {
                            assert(false);
                        }
                        return ResolveStep::Working;
                    },
                };
                let ghost topv = frame_v(fr);
                if fr.in_entries {
                    if fr.entries.len() == 0 {
                        fr.in_entries = false;
                        if fr.api_idx < usize::MAX {
                            fr.api_idx = fr.api_idx + 1;
                        }
                        proof {
                            assert(frame_v(fr) == spec_advance(topv));
                        }
                        self.stack.push(fr);
                        proof {
                            assert(self.results@.take(self.results@.len() as int)
                                =~= self.results@);
                            assert(stack_v(self.stack@) =~= st0.update(
                                st0.len() - 1,
                                spec_advance(st0.last()),
                            ));
                        }
                        return ResolveStep::Working;
                    }
                    let pair = fr.entries.remove(0);
                    proof {
                        assert(fr.entries@ =~= topv.entries.drop_first());
                        assert(pair == topv.entries[0]);
                    }
                    let mut path = fr.prefix.clone();
                    let ek = encode_key(pair.0.as_str());
                    path.append(ek.as_str());
                    let pathc = path.clone();
                    let ghost rpre = self.results@;
                    self.results.push((path, pair.1));
                    proof {
                        assert(self.results@.take(rpre.len() as int) =~= rpre);
                    }
                    let info = api_info(&self.apis, &fr.loc, fr.api_idx);
                    let mut expand = false;
                    match info {
                        Some(inf) => {
                            if inf.3 {
                                let along = str_starts_with(
                                    self.filter.as_str(),
                                    pathc.as_str(),
                                );
                                if inf.2 && !along {
                                    self.more = true;
                                }
                                expand = !inf.2 || along;
                            }
                        },
                        None => {},
                    }
                    let ghost top2 = (FrameV { entries: topv.entries.drop_first(), ..topv });
                    proof {
                        assert(frame_v(fr) == top2);
                    }
                    if expand {
                        let mut cloc = clone_loc(&fr.loc);
                        cloc.push(fr.api_idx);
                        let mut cprefix = pathc;
                        push_char(&mut cprefix, '/');
                        let ghost clocv = cloc@;
                        let ghost cprefv = cprefix@;
                        proof {
                            assert(clocv =~= topv.loc.push(topv.api_idx as usize));
                            assert(cprefv =~= topv.prefix + spec_encode_key(topv.entries[0].0@)
                                + seq!['/']);
                        }
                        self.stack.push(fr);
                        self.stack.push(
                            Frame {
                                loc: cloc,
                                prefix: cprefix,
                                api_idx: 0,
                                in_entries: false,
                                entries: Vec::new(),
                            },
                        );
                        proof {
                            assert(frame_v(self.stack@.last()) == (FrameV {
                                loc: topv.loc.push(topv.api_idx as usize),
                                prefix: topv.prefix + spec_encode_key(topv.entries[0].0@)
                                    + seq!['/'],
                                api_idx: 0,
                                in_entries: false,
                                entries: Seq::<(String, Value)>::empty(),
                            })) by {
                                assert(self.stack@.last().loc@ == clocv);
                                assert(self.stack@.last().prefix@ == cprefv);
                                assert(self.stack@.last().entries@ =~= Seq::<(
                                    String,
                                    Value,
                                )>::empty());
                            }
                            assert(stack_v(self.stack@) =~= st0.update(st0.len() - 1, top2).push(
                                (FrameV {
                                    loc: topv.loc.push(topv.api_idx as usize),
                                    prefix: topv.prefix + spec_encode_key(topv.entries[0].0@)
                                        + seq!['/'],
                                    api_idx: 0,
                                    in_entries: false,
                                    entries: Seq::<(String, Value)>::empty(),
                                }),
                            ));
                        }
                        return ResolveStep::Working;
                    }
                    self.stack.push(fr);
                    proof {
                        assert(stack_v(self.stack@) =~= st0.update(st0.len() - 1, top2));
                    }
                    return ResolveStep::Working;
                }
                let info = api_info(&self.apis, &fr.loc, fr.api_idx);
                match info {
                    None => {
                        // this invocation is complete; its frame goes
                        proof {
                            assert(self.results@.take(self.results@.len() as int)
                                =~= self.results@);
                            assert(stack_v(self.stack@) =~= st0.drop_last());
                        }
                        return ResolveStep::Working;
                    },
                    Some(inf) => {
                        let mut path = fr.prefix.clone();
                        let t = trim_char_start(inf.0.as_str(), '/');
                        path.append(t.as_str());
                        self.last_path = path.clone();
                        self.awaiting = true;
                        self.stack.push(fr);
                        proof {
                            assert(self.results@.take(self.results@.len() as int)
                                =~= self.results@);
                            assert(stack_v(self.stack@) =~= st0);
                        }
                        return ResolveStep::Call(FetchCall { path, expr: inf.1 });
                    },
                }
            },
        }
    }
}

} // verus!
