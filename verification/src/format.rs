//! The hierarchical renderer: prints the records of a sub-range as
//! indented text, grouped under the compressed prefix runs, with the
//! nested values expanded one logical item per line.
//!
//! Every executable piece is proved equal to a spec mirror; the
//! top-level text of a record list is the single spec function
//! `spec_fmt`.

use vstd::prelude::*;
use crate::pathstr::{count_trailing, push_char, split_at_char, split_char, str_contains_char,
    str_replace, spec_replace};
use crate::prefix::{Prefix, runs_view, spec_build_paths};
use crate::value::Value;

verus! {

// ---------------------------------------------------------------
// Percent-decoding of displayed labels
// ---------------------------------------------------------------

/// What percent-decoding returns for a given character sequence.
pub uninterp spec fn decoded(s: Seq<char>) -> Seq<char>;

/// Relies on `urlencoding::decode`: the result is a function of the
/// input characters alone; an input without `%` comes back
/// unchanged; a decode failure (invalid UTF-8) is rendered as the
/// empty string, which is what every caller here does with it.
#[verifier::external_body]
fn percent_decode(s: &str) -> (r: String)
    ensures
        r@ == decoded(s@),
        !s@.contains('%') ==> r@ == s@,
{
    match urlencoding::decode(s) {
        Ok(c) => c.into_owned(),
        Err(_) => String::new(),
    }
}

/// A chunk of `p` whose decoding would itself contain the separator
/// makes the whole label ambiguous.
pub open spec fn spec_chunk_bad(p: Seq<char>) -> bool {
    exists|i: int|
        0 <= i < split_at_char(p, '/').len() && decoded(split_at_char(p, '/')[i]).contains('/')
}

/// The displayed form of a path label: decoded, unless decoding any
/// chunk would introduce a separator, in which case the separators
/// are first mapped to a visible joiner.
pub open spec fn spec_decode_path(p: Seq<char>) -> Seq<char> {
    if spec_chunk_bad(p) {
        decoded(spec_replace(p, '/', seq!['.']))
    } else {
        decoded(p)
    }
}

pub fn decode_path(path: &str) -> (r: String)
    ensures
        r@ == spec_decode_path(path@),
{
    let chunks = split_char(path, '/');
    let n = chunks.len();
    let mut i: usize = 0;
    let mut bad = false;
    while i < n && !bad
        invariant
            i <= n,
            n == chunks@.len(),
            crate::pathstr::views_of(chunks@) == split_at_char(path@, '/'),
            bad ==> spec_chunk_bad(path@),
            !bad ==> forall|j: int|
                0 <= j < i ==> !decoded(split_at_char(path@, '/')[j]).contains('/'),
        decreases n - i,
    {
        let d = percent_decode(chunks[i].as_str());
        if str_contains_char(d.as_str(), '/') {
            proof {
                assert(decoded(split_at_char(path@, '/')[i as int]).contains('/'));
            }
            bad = true;
        }
        i = i + 1;
    }
    if bad {
        let rep = str_replace(path, '/', ".");
        proof {
            reveal_strlit(".");
            assert("."@ =~= seq!['.']);
        }
        percent_decode(rep.as_str())
    } else {
        proof {
            if spec_chunk_bad(path@) {
                let j = choose|j: int|
                    0 <= j < split_at_char(path@, '/').len() && decoded(
                        split_at_char(path@, '/')[j],
                    ).contains('/');
                assert(!decoded(split_at_char(path@, '/')[j]).contains('/'));
            }
        }
        percent_decode(path)
    }
}

// ---------------------------------------------------------------
// Rendering options
// ---------------------------------------------------------------

/// The label transform applied to the key of a simple list: keep it,
/// or trim a trailing character (singularisation).
#[derive(Clone, Copy, PartialEq, Eq, Debug)]
pub enum Keywords {
    Keep,
    TrimEnd(char),
}

pub open spec fn spec_keyword_apply(kw: Keywords, s: Seq<char>) -> Seq<char> {
    match kw {
        Keywords::Keep => s,
        Keywords::TrimEnd(c) => s.take(s.len() - count_trailing(s, c)),
    }
}

fn keyword_apply(kw: Keywords, s: &str) -> (r: String)
    ensures
        r@ == spec_keyword_apply(kw, s@),
{
    match kw {
        Keywords::Keep => s.to_owned(),
        Keywords::TrimEnd(c) => crate::pathstr::trim_char_end(s, c),
    }
}

/// The ambient formatting state: indent step, the two words printed
/// for booleans, and the label transform.
pub struct Context {
    pub indent_width: usize,
    pub yes_word: String,
    pub no_word: String,
    pub keywords: Keywords,
    pub key: String,
    pub indent: usize,
}

impl Default for Context {
    fn default() -> (r: Self)
        ensures
            r.indent_width == 2,
            r.yes_word@ == "yes"@,
            r.no_word@ == "no"@,
            r.keywords == Keywords::Keep,
            r.key@ == Seq::<char>::empty(),
            r.indent == 0,
    {
        proof {
            reveal_strlit("");
        }
        Context {
            indent_width: 2,
            yes_word: String::from_str("yes"),
            no_word: String::from_str("no"),
            keywords: Keywords::Keep,
            key: String::new(),
            indent: 0,
        }
    }
}

impl Context {
    /// Fresh formatting state with the given options.
    pub fn new(indent_width: usize, yes_word: String, no_word: String, keywords: Keywords) -> (r:
        Self)
        ensures
            r.indent_width == indent_width,
            r.yes_word == yes_word,
            r.no_word == no_word,
            r.keywords == keywords,
            r.key@ == Seq::<char>::empty(),
            r.indent == 0,
    {
        Context {
            indent_width,
            yes_word,
            no_word,
            keywords,
            key: String::new(),
            indent: 0,
        }
    }
}

/// The spec-side options of a `Context`.
pub struct RenderOpts {
    pub width: int,
    pub yes: Seq<char>,
    pub no: Seq<char>,
    pub kw: Keywords,
}

pub open spec fn opts_of(ctx: Context) -> RenderOpts {
    RenderOpts { width: ctx.indent_width as int, yes: ctx.yes_word@, no: ctx.no_word@, kw: ctx.keywords }
}

// ---------------------------------------------------------------
// Small text helpers
// ---------------------------------------------------------------

pub open spec fn spec_spaces(n: int) -> Seq<char> {
    Seq::new(if n >= 0 { n as nat } else { 0 }, |i: int| ' ')
}

pub open spec fn nl() -> Seq<char> {
    seq!['\n']
}

pub open spec fn sat_add(a: int, b: int) -> int {
    if a + b > usize::MAX as int {
        usize::MAX as int
    } else {
        a + b
    }
}

pub open spec fn sat_sub(a: int, b: int) -> int {
    if a >= b {
        a - b
    } else {
        0
    }
}

pub fn sat_add_exec(a: usize, b: usize) -> (r: usize)
    ensures
        r as int == sat_add(a as int, b as int),
{
    if a > usize::MAX - b {
        usize::MAX
    } else {
        a + b
    }
}

fn sat_sub_exec(a: usize, b: usize) -> (r: usize)
    ensures
        r as int == sat_sub(a as int, b as int),
{
    if a >= b {
        a - b
    } else {
        0
    }
}

fn push_spaces(out: &mut String, n: usize)
    ensures
        final(out)@ == old(out)@ + spec_spaces(n as int),
{
    let mut i: usize = 0;
    proof {
        assert(old(out)@ + spec_spaces(0) =~= old(out)@);
    }
    while i < n
        invariant
            i <= n,
            out@ == old(out)@ + spec_spaces(i as int),
        decreases n - i,
    {
        push_char(out, ' ');
        proof {
            assert(old(out)@ + spec_spaces(i as int + 1) =~= (old(out)@ + spec_spaces(i as int)).push(' '));
        }
        i = i + 1;
    }
}

/// One line: indentation, a text, newline.
pub open spec fn spec_line1(indent: int, t: Seq<char>) -> Seq<char> {
    spec_spaces(indent) + t + nl()
}

/// One line: indentation, a label, a space, a value text, newline.
pub open spec fn spec_line2(indent: int, a: Seq<char>, b: Seq<char>) -> Seq<char> {
    spec_spaces(indent) + a + seq![' '] + b + nl()
}

fn push_line1(out: &mut String, indent: usize, t: &str)
    ensures
        final(out)@ == old(out)@ + spec_line1(indent as int, t@),
{
    push_spaces(out, indent);
    out.append(t);
    push_char(out, '\n');
    proof {
        assert(out@ =~= old(out)@ + spec_line1(indent as int, t@));
    }
}

fn push_line2(out: &mut String, indent: usize, a: &str, b: &str)
    ensures
        final(out)@ == old(out)@ + spec_line2(indent as int, a@, b@),
{
    push_spaces(out, indent);
    out.append(a);
    push_char(out, ' ');
    out.append(b);
    push_char(out, '\n');
    proof {
        assert(out@ =~= old(out)@ + spec_line2(indent as int, a@, b@));
    }
}

// ---------------------------------------------------------------
// Scalar text
// ---------------------------------------------------------------

/// The literal text of a scalar; arrays and objects have none.
pub open spec fn spec_scalar(v: Value) -> Seq<char> {
    match v {
        Value::Text(s) => s@,
        Value::Number(s) => s@,
        Value::Bool(b) => if b {
            "true"@
        } else {
            "false"@
        },
        _ => Seq::empty(),
    }
}

fn scalar_text(v: &Value) -> (r: String)
    ensures
        r@ == spec_scalar(*v),
{
    match v {
        Value::Text(s) => s.clone(),
        Value::Number(s) => s.clone(),
        Value::Bool(b) => if *b {
            String::from_str("true")
        } else {
            String::from_str("false")
        },
        _ => String::new(),
    }
}

pub open spec fn spec_all_primitive(items: Seq<Value>) -> bool {
    forall|i: int| 0 <= i < items.len() ==> (#[trigger] items[i]).spec_is_primitive()
}

// ---------------------------------------------------------------
// Value rendering
// ---------------------------------------------------------------

/// A simple list: one line per element, each under the (transformed)
/// label.
pub open spec fn spec_prim_lines(items: Seq<Value>, k: int, key: Seq<char>, indent: int) -> Seq<
    char,
>
    decreases items.len() - k,
{
    if k < 0 || k >= items.len() {
        Seq::empty()
    } else {
        spec_line2(indent, key, spec_scalar(items[k])) + spec_prim_lines(items, k + 1, key, indent)
    }
}

/// A list with structure: each element sits between bare marker
/// lines; a scalar element prints its literal text, a structured one
/// is rendered recursively.
pub open spec fn spec_mixed_lines(items: Seq<Value>, k: int, o: RenderOpts, indent: int) -> Seq<
    char,
>
    decreases items, items.len() - k,
{
    if k < 0 || k >= items.len() {
        Seq::empty()
    } else {
        let body = if items[k].spec_is_primitive() {
            spec_line1(indent, spec_scalar(items[k]))
        } else {
            spec_fmt_value(items[k], o, Seq::empty(), indent)
        };
        spec_line1(indent, seq!['!']) + body + spec_mixed_lines(items, k + 1, o, indent)
    }
}

/// A sequence value under a label.
pub open spec fn spec_fmt_array(items: Seq<Value>, o: RenderOpts, key: Seq<char>, indent: int) -> Seq<char>
    decreases items, items.len() + 1,
{
    if items.len() == 0 {
        Seq::empty()
    } else if spec_all_primitive(items) {
        spec_prim_lines(items, 0, spec_keyword_apply(o.kw, key), indent)
    } else {
        spec_line1(indent, key) + spec_mixed_lines(items, 0, o, sat_add(indent, o.width))
            + spec_line1(sat_add(indent, o.width), seq!['!'])
    }
}

/// A mapping's entries, in their own order, each at the current
/// indent; nested mappings indent one step deeper under their key.
pub open spec fn spec_fmt_object(entries: Seq<(String, Value)>, k: int, o: RenderOpts, indent: int) -> Seq<char>
    decreases entries, entries.len() - k,
{
    if k < 0 || k >= entries.len() {
        Seq::empty()
    } else {
        let key = entries[k].0@;
        let piece = match entries[k].1 {
            Value::Null => spec_line1(indent, key),
            Value::Bool(b) => spec_line2(indent, key, if b { o.yes } else { o.no }),
            Value::Number(s) => spec_line2(indent, key, s@),
            Value::Text(s) => spec_line2(indent, key, s@),
            Value::Array(items) => spec_fmt_array(items@, o, key, indent),
            Value::Object(sub) => spec_line1(indent, key) + spec_fmt_object(
                sub@,
                0,
                o,
                sat_add(indent, o.width),
            ),
        };
        piece + spec_fmt_object(entries, k + 1, o, indent)
    }
}

/// One value under a label: the empty label renders a mapping's
/// entries without a header.
pub open spec fn spec_fmt_value(v: Value, o: RenderOpts, key: Seq<char>, indent: int) -> Seq<char>
    decreases v, 1int,
{
    match v {
        Value::Null => spec_line1(indent, key),
        Value::Array(items) => spec_prim_lines(items@, 0, key, indent),
        Value::Object(entries) => (if key.len() > 0 {
            spec_line1(indent, key)
        } else {
            Seq::empty()
        }) + spec_fmt_object(entries@, 0, o, sat_add(indent, o.width)),
        _ => Seq::empty(),
    }
}

fn all_primitive(items: &Vec<Value>) -> (r: bool)
    ensures
        r == spec_all_primitive(items@),
{
    let n = items.len();
    let mut i: usize = 0;
    while i < n
        invariant
            i <= n,
            n == items@.len(),
            forall|j: int| 0 <= j < i ==> (#[trigger] items@[j]).spec_is_primitive(),
        decreases n - i,
    {
        if !items[i].is_primitive() {
            return false;
        }
        i = i + 1;
    }
    true
}

/// A sequence value under a label, as `spec_fmt_array` describes.
fn fmt_array(items: &Vec<Value>, ctx: &Context, key: &str, indent: usize, out: &mut String)
    ensures
        final(out)@ == old(out)@ + spec_fmt_array(items@, opts_of(*ctx), key@, indent as int),
    decreases items@, items@.len() + 1,
{
    let ghost o = opts_of(*ctx);
    let n = items.len();
    if n == 0 {
        proof {
            assert(out@ =~= old(out)@ + spec_fmt_array(items@, o, key@, indent as int));
        }
        return ;
    }
    if all_primitive(items) {
        let label = keyword_apply(ctx.keywords, key);
        let ghost base = out@;
        let mut k: usize = 0;
        while k < n
            invariant
                k <= n,
                n == items@.len(),
                label@ == spec_keyword_apply(o.kw, key@),
                out@ + spec_prim_lines(items@, k as int, label@, indent as int) == base
                    + spec_prim_lines(items@, 0, label@, indent as int),
            decreases n - k,
        {
            let t = scalar_text(&items[k]);
            push_line2(out, indent, label.as_str(), t.as_str());
            k = k + 1;
        }
        proof {
            assert(spec_prim_lines(items@, n as int, label@, indent as int) =~= Seq::<
                char,
            >::empty());
            assert(out@ =~= out@ + spec_prim_lines(items@, n as int, label@, indent as int));
            assert(out@ =~= base + spec_fmt_array(items@, o, key@, indent as int));
        }
        return ;
    }
    push_line1(out, indent, key);
    let inner = sat_add_exec(indent, ctx.indent_width);
    let ghost base = out@;
    let mut k: usize = 0;
    while k < n
        invariant
            k <= n,
            n == items@.len(),
            !spec_all_primitive(items@),
            inner as int == sat_add(indent as int, o.width),
            o == opts_of(*ctx),
            out@ + spec_mixed_lines(items@, k as int, o, inner as int) == base + spec_mixed_lines(
                items@,
                0,
                o,
                inner as int,
            ),
        decreases n - k,
    {
        push_line1(out, inner, "!");
        proof {
            reveal_strlit("!");
            assert("!"@ =~= seq!['!']);
        }
        let item = &items[k];
        if item.is_primitive() {
            let t = scalar_text(item);
            push_line1(out, inner, t.as_str());
        } else {
            proof {
                assert(items@[k as int] == *item);
            }
            fmt_value(item, ctx, "", inner, out);
            proof {
                reveal_strlit("");
                assert(""@ =~= Seq::<char>::empty());
            }
        }
        k = k + 1;
    }
    proof {
        assert(spec_mixed_lines(items@, n as int, o, inner as int) =~= Seq::<char>::empty());
        assert(out@ =~= out@ + spec_mixed_lines(items@, n as int, o, inner as int));
    }
    push_line1(out, inner, "!");
    proof {
        reveal_strlit("!");
        assert("!"@ =~= seq!['!']);
        assert(out@ =~= old(out)@ + spec_fmt_array(items@, o, key@, indent as int));
    }
}

/// A mapping's entries, as `spec_fmt_object` describes.
fn fmt_object(entries: &Vec<(String, Value)>, ctx: &Context, indent: usize, out: &mut String)
    ensures
        final(out)@ == old(out)@ + spec_fmt_object(entries@, 0, opts_of(*ctx), indent as int),
    decreases entries@, entries@.len(),
{
    let ghost o = opts_of(*ctx);
    let n = entries.len();
    let ghost base = out@;
    let mut k: usize = 0;
    while k < n
        invariant
            k <= n,
            n == entries@.len(),
            o == opts_of(*ctx),
            out@ + spec_fmt_object(entries@, k as int, o, indent as int) == base + spec_fmt_object(
                entries@,
                0,
                o,
                indent as int,
            ),
        decreases n - k,
    {
        let pair = &entries[k];
        proof {
            assert(entries@[k as int] == *pair);
        }
        match &pair.1 {
            Value::Null => {
                push_line1(out, indent, pair.0.as_str());
            },
            Value::Bool(b) => {
                if *b {
                    let w = ctx.yes_word.clone();
                    push_line2(out, indent, pair.0.as_str(), w.as_str());
                } else {
                    let w = ctx.no_word.clone();
                    push_line2(out, indent, pair.0.as_str(), w.as_str());
                }
            },
            Value::Number(s) => {
                push_line2(out, indent, pair.0.as_str(), s.as_str());
            },
            Value::Text(s) => {
                push_line2(out, indent, pair.0.as_str(), s.as_str());
            },
            Value::Array(items) => {
                fmt_array(items, ctx, pair.0.as_str(), indent, out);
            },
            Value::Object(sub) => {
                push_line1(out, indent, pair.0.as_str());
                let deeper = sat_add_exec(indent, ctx.indent_width);
                fmt_object(sub, ctx, deeper, out);
            },
        }
        k = k + 1;
    }
    proof {
        assert(spec_fmt_object(entries@, n as int, o, indent as int) =~= Seq::<char>::empty());
        assert(out@ =~= out@ + spec_fmt_object(entries@, n as int, o, indent as int));
    }
}

// ---------------------------------------------------------------
// The grouped walk over a record range
// ---------------------------------------------------------------

pub open spec fn rec_paths(recs: Seq<(String, Value)>) -> Seq<Seq<char>> {
    Seq::new(recs.len(), |i: int| recs[i].0@)
}

/// Close every open run whose range has ended at record `i`,
/// unwinding indentation and the covered label length.
pub open spec fn spec_close(
    runs: Seq<(Seq<char>, int, int)>,
    i: int,
    open: Seq<int>,
    indent: int,
    plen: int,
    w: int,
) -> (Seq<int>, int, int)
    decreases open.len(),
{
    if open.len() > 0 && 0 <= open.last() < runs.len() && i >= runs[open.last()].2 {
        spec_close(
            runs,
            i,
            open.drop_last(),
            sat_sub(indent, w),
            sat_sub(plen, runs[open.last()].0.len() as int),
            w,
        )
    } else {
        (open, indent, plen)
    }
}

/// Open every run that starts at record `i`: print its decoded text
/// as a header (with a trailing marker when the run covers the whole
/// remaining record path) and step the indentation in.
pub open spec fn spec_open(
    recs: Seq<(String, Value)>,
    runs: Seq<(Seq<char>, int, int)>,
    i: int,
    open: Seq<int>,
    index: int,
    indent: int,
    plen: int,
    w: int,
) -> (Seq<char>, Seq<int>, int, int, int)
    decreases runs.len() - index,
{
    if 0 <= index < runs.len() && i >= runs[index].1 {
        let t = runs[index];
        let plen2 = sat_add(plen, t.0.len() as int);
        let reclen: int = if 0 <= i < recs.len() {
            recs[i].0@.len() as int
        } else {
            0
        };
        let header = spec_line1(
            indent,
            spec_decode_path(t.0) + (if plen2 == reclen {
                seq![':']
            } else {
                Seq::<char>::empty()
            }),
        );
        let rest = spec_open(recs, runs, i, open.push(index), index + 1, sat_add(indent, w), plen2, w);
        (header + rest.0, rest.1, rest.2, rest.3, rest.4)
    } else {
        (Seq::empty(), open, index, indent, plen)
    }
}

/// One record's own output: with its path fully covered by the open
/// runs the value is rendered directly, otherwise the decoded path
/// remainder labels it.
pub open spec fn spec_record_out(rec: (String, Value), o: RenderOpts, indent: int, plen: int) -> Seq<char> {
    let len = rec.0@.len() as int;
    if plen == len {
        spec_fmt_value(rec.1, o, Seq::empty(), sat_sub(indent, o.width))
    } else {
        let off: int = if plen <= len {
            plen
        } else {
            len
        };
        let label = spec_decode_path(rec.0@.skip(off) + seq![':']);
        spec_fmt_value(rec.1, o, label, indent)
    }
}

/// The whole walk from record `i` onward.
pub open spec fn spec_walk(
    recs: Seq<(String, Value)>,
    runs: Seq<(Seq<char>, int, int)>,
    i: int,
    open: Seq<int>,
    index: int,
    indent: int,
    plen: int,
    o: RenderOpts,
) -> Seq<char>
    decreases recs.len() - i,
{
    if i < 0 || i >= recs.len() {
        Seq::empty()
    } else {
        let c = spec_close(runs, i, open, indent, plen, o.width);
        let op = spec_open(recs, runs, i, c.0, index, c.1, c.2, o.width);
        op.0 + spec_record_out(recs[i], o, op.3, op.4) + spec_walk(
            recs,
            runs,
            i + 1,
            op.1,
            op.2,
            op.3,
            op.4,
            o,
        )
    }
}

/// The rendered text of a record list: its paths compressed into
/// runs, then walked front to back.
pub open spec fn spec_fmt(recs: Seq<(String, Value)>, o: RenderOpts) -> Seq<char> {
    spec_walk(recs, spec_build_paths(rec_paths(recs)), 0, Seq::empty(), 0, 0, 0, o)
}

/// One value under a label, as `spec_fmt_value` describes.
pub fn fmt_value(v: &Value, ctx: &Context, key: &str, indent: usize, out: &mut String)
    ensures
        final(out)@ == old(out)@ + spec_fmt_value(*v, opts_of(*ctx), key@, indent as int),
    decreases *v, 1int,
{
    let ghost o = opts_of(*ctx);
    match v {
        Value::Null => {
            push_line1(out, indent, key);
        },
        Value::Array(items) => {
            let n = items.len();
            let ghost base = out@;
            let mut k: usize = 0;
            while k < n
                invariant
                    k <= n,
                    n == items@.len(),
                    out@ + spec_prim_lines(items@, k as int, key@, indent as int) == base
                        + spec_prim_lines(items@, 0, key@, indent as int),
                decreases n - k,
            {
                let t = scalar_text(&items[k]);
                push_line2(out, indent, key, t.as_str());
                k = k + 1;
            }
            proof {
                assert(spec_prim_lines(items@, n as int, key@, indent as int) =~= Seq::<
                    char,
                >::empty());
                assert(out@ =~= out@ + spec_prim_lines(items@, n as int, key@, indent as int));
            }
        },
        Value::Object(entries) => {
            let klen = key.unicode_len();
            if klen > 0 {
                push_line1(out, indent, key);
            }
            let deeper = sat_add_exec(indent, ctx.indent_width);
            fmt_object(entries, ctx, deeper, out);
        },
        _ => {
            proof {
                assert(out@ =~= old(out)@ + spec_fmt_value(*v, o, key@, indent as int));
            }
        },
    }
}

/// Renders a record range as grouped, indented text.
pub struct Formatter<'a> {
    pub records: &'a Vec<(String, Value)>,
    pub lo: usize,
    pub hi: usize,
    pub ctx: Context,
}

impl<'a> Formatter<'a> {
    /// A formatter over the whole record list, with default options.
    pub fn new(records: &'a Vec<(String, Value)>, keywords: Keywords) -> (r: Self)
        ensures
            r.records == records,
            r.lo == 0,
            r.hi == records@.len(),
            r.ctx.indent_width == 2,
            r.ctx.yes_word@ == "yes"@,
            r.ctx.no_word@ == "no"@,
            r.ctx.keywords == keywords,
    {
        let hi = records.len();
        let mut ctx = Context::default();
        ctx.keywords = keywords;
        Formatter { records, lo: 0, hi, ctx }
    }

    /// A formatter over the records `[lo, hi)`.
    pub fn new_range(records: &'a Vec<(String, Value)>, lo: usize, hi: usize, keywords: Keywords) -> (r: Self)
        requires
            lo <= hi <= records@.len(),
        ensures
            r.records == records,
            r.lo == lo,
            r.hi == hi,
            r.ctx.indent_width == 2,
            r.ctx.yes_word@ == "yes"@,
            r.ctx.no_word@ == "no"@,
            r.ctx.keywords == keywords,
    {
        let mut ctx = Context::default();
        ctx.keywords = keywords;
        Formatter { records, lo, hi, ctx }
    }

    /// The grouped, indented text of the selected record range.
    pub fn fmt(&self) -> (r: String)
        requires
            self.lo <= self.hi <= self.records@.len(),
        ensures
            r@ == spec_fmt(
                self.records@.subrange(self.lo as int, self.hi as int),
                opts_of(self.ctx),
            ),
    {
        let ghost recs = self.records@.subrange(self.lo as int, self.hi as int);
        let ghost o = opts_of(self.ctx);
        let w = self.ctx.indent_width;
        let rn = self.records.len();
        let n = self.hi - self.lo;
        let mut paths: Vec<String> = Vec::new();
        let mut t: usize = 0;
        while t < n
            invariant
                t <= n,
                self.lo + n <= rn,
                rn == self.records@.len(),
                n == recs.len(),
                recs == self.records@.subrange(self.lo as int, self.lo as int + n),
                paths@.len() == t,
                forall|j: int| 0 <= j < t ==> #[trigger] paths@[j]@ == recs[j].0@,
            decreases n - t,
        {
            proof {
                assert(recs[t as int] == self.records@[self.lo + t]);
            }
            paths.push(self.records[self.lo + t].0.clone());
            t = t + 1;
        }
        proof {
            assert(crate::pathstr::views_of(paths@) =~= rec_paths(recs));
        }
        let runs = Prefix::build(&paths);
        let ghost runsv = runs_view(runs@);
        let mut out = String::new();
        let mut open: Vec<usize> = Vec::new();
        let mut index: usize = 0;
        let mut indent: usize = 0;
        let mut plen: usize = 0;
        let mut i: usize = 0;
        proof {
            assert(crate::prefix::ints_of(open@) =~= Seq::<int>::empty());
            assert(out@ + spec_walk(recs, runsv, 0, crate::prefix::ints_of(open@), 0, 0, 0, o)
                =~= spec_walk(recs, runsv, 0, Seq::empty(), 0, 0, 0, o));
        }
        while i < n
            invariant
                i <= n,
                n == recs.len(),
                self.lo + n <= rn,
                rn == self.records@.len(),
                recs == self.records@.subrange(self.lo as int, self.lo as int + n),
                runsv == runs_view(runs@),
                w == self.ctx.indent_width,
                o == opts_of(self.ctx),
                index <= runs@.len(),
                forall|t: int| 0 <= t < open@.len() ==> #[trigger] open@[t] < runs@.len(),
                out@ + spec_walk(recs, runsv, i as int, crate::prefix::ints_of(open@), index as int, indent as int, plen as int, o)
                    == spec_walk(recs, runsv, 0, Seq::empty(), 0, 0, 0, o),
            decreases n - i,
        {
            let ghost walk_pre = spec_walk(recs, runsv, i as int, crate::prefix::ints_of(open@), index as int, indent as int, plen as int, o);
            // close the runs whose range ended before this record
            let ghost cl_t = spec_close(runsv, i as int, crate::prefix::ints_of(open@), indent as int, plen as int, w as int);
            while open.len() > 0 && i >= runs[open[open.len() - 1]].end
                invariant
                    index <= runs@.len(),
                    runsv == runs_view(runs@),
                    w == self.ctx.indent_width,
                    forall|t: int| 0 <= t < open@.len() ==> #[trigger] open@[t] < runs@.len(),
                    spec_close(runsv, i as int, crate::prefix::ints_of(open@), indent as int, plen as int, w as int) == cl_t,
                decreases open@.len(),
            {
                let top = open[open.len() - 1];
                let ghost open_pre = crate::prefix::ints_of(open@);
                proof {
                    assert(open_pre.last() == top as int);
                }
                open.pop();
                let tlen = runs[top].text.unicode_len();
                indent = sat_sub_exec(indent, w);
                plen = sat_sub_exec(plen, tlen);
                proof {
                    assert(crate::prefix::ints_of(open@) =~= open_pre.drop_last());
                }
            }
            proof {
                if open@.len() > 0 {
                    assert(crate::prefix::ints_of(open@).last() == open@[open@.len() - 1] as int);
                }
                assert(cl_t == (crate::prefix::ints_of(open@), indent as int, plen as int));
            }
            // open the runs that start at this record
            let ghost op_t = spec_open(recs, runsv, i as int, crate::prefix::ints_of(open@), index as int, indent as int, plen as int, w as int);
            let ghost out_mark = out@;
            while index < runs.len() && i >= runs[index].start
                invariant
                    i < n,
                    n == recs.len(),
                    self.lo + n <= rn,
                    rn == self.records@.len(),
                    recs == self.records@.subrange(self.lo as int, self.lo as int + n),
                    index <= runs@.len(),
                    runsv == runs_view(runs@),
                    w == self.ctx.indent_width,
                    forall|t: int| 0 <= t < open@.len() ==> #[trigger] open@[t] < runs@.len(),
                    op_t.0 == out@.skip(out_mark.len() as int) + spec_open(recs, runsv, i as int, crate::prefix::ints_of(open@), index as int, indent as int, plen as int, w as int).0,
                    out_mark.len() <= out@.len(),
                    out@.take(out_mark.len() as int) == out_mark,
                    op_t.1 == spec_open(recs, runsv, i as int, crate::prefix::ints_of(open@), index as int, indent as int, plen as int, w as int).1,
                    op_t.2 == spec_open(recs, runsv, i as int, crate::prefix::ints_of(open@), index as int, indent as int, plen as int, w as int).2,
                    op_t.3 == spec_open(recs, runsv, i as int, crate::prefix::ints_of(open@), index as int, indent as int, plen as int, w as int).3,
                    op_t.4 == spec_open(recs, runsv, i as int, crate::prefix::ints_of(open@), index as int, indent as int, plen as int, w as int).4,
                decreases runs@.len() - index,
            {
                let ghost open_pre = crate::prefix::ints_of(open@);
                let ghost out_pre = out@;
                let tlen = runs[index].text.unicode_len();
                let plen2 = sat_add_exec(plen, tlen);
                let d = decode_path(runs[index].text.as_str());
                push_spaces(&mut out, indent);
                out.append(d.as_str());
                proof {
                    assert(recs[i as int] == self.records@[self.lo + i]);
                }
                let reclen = self.records[self.lo + i].0.unicode_len();
                if plen2 == reclen {
                    push_char(&mut out, ':');
                }
                push_char(&mut out, '\n');
                proof {
                    let suffix: Seq<char> = if plen2 as int == recs[i as int].0@.len() as int {
                        seq![':']
                    } else {
                        Seq::<char>::empty()
                    };
                    assert(out@ =~= out_pre + spec_line1(indent as int, spec_decode_path(runsv[index as int].0) + suffix));
                }
                open.push(index);
                indent = sat_add_exec(indent, w);
                plen = plen2;
                index = index + 1;
                proof {
                    assert(crate::prefix::ints_of(open@) =~= open_pre.push(index as int - 1));
                    assert(out@.skip(out_mark.len() as int) =~= out_pre.skip(out_mark.len() as int) + out@.skip(out_pre.len() as int));
                    assert(out@.take(out_mark.len() as int) =~= out_mark);
                }
            }
            proof {
                assert(spec_open(recs, runsv, i as int, crate::prefix::ints_of(open@), index as int, indent as int, plen as int, w as int).0 =~= Seq::<char>::empty());
                assert(op_t.0 =~= out@.skip(out_mark.len() as int));
                assert(op_t.1 == crate::prefix::ints_of(open@));
                assert(op_t.2 == index as int && op_t.3 == indent as int && op_t.4 == plen as int);
            }
            // the record itself
            let ghost out_rec = out@;
            proof {
                assert(recs[i as int] == self.records@[self.lo + i]);
            }
            let reclen = self.records[self.lo + i].0.unicode_len();
            if plen == reclen {
                let id = sat_sub_exec(indent, w);
                fmt_value(&self.records[self.lo + i].1, &self.ctx, "", id, &mut out);
                proof {
                    reveal_strlit("");
                    assert(""@ =~= Seq::<char>::empty());
                    assert(out@ =~= out_rec + spec_record_out(recs[i as int], o, indent as int, plen as int));
                }
            } else {
                let off = if plen <= reclen {
                    plen
                } else {
                    reclen
                };
                let mut tail = self.records[self.lo + i].0.as_str().substring_char(off, reclen).to_owned();
                push_char(&mut tail, ':');
                let label = decode_path(tail.as_str());
                fmt_value(&self.records[self.lo + i].1, &self.ctx, label.as_str(), indent, &mut out);
                proof {
                    assert(tail@ =~= recs[i as int].0@.skip(off as int) + seq![':']);
                    assert(out@ =~= out_rec + spec_record_out(recs[i as int], o, indent as int, plen as int));
                }
            }
            proof {
                assert(walk_pre == op_t.0 + spec_record_out(recs[i as int], o, op_t.3, op_t.4)
                    + spec_walk(recs, runsv, i as int + 1, op_t.1, op_t.2, op_t.3, op_t.4, o));
                assert(out@ + spec_walk(recs, runsv, i as int + 1, crate::prefix::ints_of(open@), index as int, indent as int, plen as int, o)
                    =~= spec_walk(recs, runsv, 0, Seq::empty(), 0, 0, 0, o));
            }
            i = i + 1;
        }
        proof {
            assert(spec_walk(recs, runsv, n as int, crate::prefix::ints_of(open@), index as int, indent as int, plen as int, o) =~= Seq::<char>::empty());
            assert(out@ =~= spec_fmt(recs, o));
        }
        out
    }
}

} // verus!
