//! The decisions of the page server: which page file answers a request path,
//! which route parameters the page receives, the request object it sees, and
//! the response that its result becomes.
//!
//! The search for a page file asks its host about the pages directory one
//! probe at a time (does a path exist, is it a directory, what does a
//! directory hold) and decides from each reply what to ask next.

use crate::ast::{view_stmts, Stmt};
use crate::environment::Scope;
use crate::interpreter::{
    answered, error_message, host_ready, made, res_val, view_err, with_builtins, EvalError, HostCall,
    Interpreter, FUEL,
};
use crate::semantics::{run_program, Fault, Oracle, Request};
use crate::lexer::range_string;
use crate::model::{string_views, view_entries, Val};
use crate::parser::{parse, parse_message, spec_parse, ParseError};
use crate::text::{chars_of, concat, copy_str, from_str};
use crate::value::{dict_insert, display, insert_entry, keys_distinct, pair_views, Value};
use vstd::prelude::*;

verus! {

broadcast use crate::model::group_value_views;

/// Where the server finds its pages and its static files.
pub struct AppState {
    pub pages_dir: String,
    pub static_dir: String,
}

// ---------------------------------------------------------------------------
// Texts of paths.

/// The text without its leading slashes.
pub open spec fn trim_slashes(s: Seq<char>) -> Seq<char>
    decreases s.len(),
{
    if s.len() > 0 && s[0] == '/' {
        trim_slashes(s.drop_first())
    } else {
        s
    }
}

/// The non-empty pieces of `s[i..]` between slashes, the first of them
/// continuing `cur`.
pub open spec fn split_from(s: Seq<char>, i: int, cur: Seq<char>) -> Seq<Seq<char>>
    decreases s.len() - i,
{
    if i < 0 || i >= s.len() {
        if cur.len() > 0 {
            seq![cur]
        } else {
            Seq::empty()
        }
    } else if s[i] == '/' {
        (if cur.len() > 0 {
            seq![cur]
        } else {
            Seq::empty()
        }) + split_from(s, i + 1, Seq::empty())
    } else {
        split_from(s, i + 1, cur.push(s[i]))
    }
}

/// The non-empty pieces of a path between slashes.
pub open spec fn segments(s: Seq<char>) -> Seq<Seq<char>> {
    split_from(s, 0, Seq::empty())
}

pub open spec fn ends_with(s: Seq<char>, suffix: Seq<char>) -> bool {
    suffix.len() <= s.len() && s.subrange(s.len() - suffix.len(), s.len() as int) == suffix
}

/// The name of the page file for a request path: the path without its leading
/// slashes, or `index` when nothing is left.
pub open spec fn page_name(request: Seq<char>) -> Seq<char> {
    if trim_slashes(request).len() == 0 {
        "index"@
    } else {
        trim_slashes(request)
    }
}

/// The extension of the name is `novaw`: it ends with `.novaw` after at
/// least one more character.
pub open spec fn has_novaw_ext(name: Seq<char>) -> bool {
    ends_with(name, ".novaw"@) && name.len() > ".novaw"@.len()
}

/// `[name]`: a directory that matches any one segment.
pub open spec fn is_param_dir(name: Seq<char>) -> bool {
    name.len() > 0 && name[0] == '[' && name.last() == ']'
}

/// `[name].novaw`: a page that matches any one segment.
pub open spec fn is_param_file(name: Seq<char>) -> bool {
    name.len() > 0 && name[0] == '[' && ends_with(name, "].novaw"@)
}

// ---------------------------------------------------------------------------
// The search, over a model of the pages directory. A path under it is the
// sequence of names pushed onto it.

/// What the host's file system answers.
pub ghost struct FileSystem {
    pub present: spec_fn(Seq<Seq<char>>) -> bool,
    pub is_dir: spec_fn(Seq<Seq<char>>) -> bool,
    /// The entries of a directory, in the order the host lists them, each with
    /// whether it is a directory; nothing for a directory it cannot read.
    pub entries: spec_fn(Seq<Seq<char>>) -> Seq<(Seq<char>, bool)>,
}

/// What a directory listing offers for one segment.
pub ghost enum Hit {
    Dir(Seq<char>),
    File(Seq<char>),
    Nothing,
}

/// The first entry, from `j`, that is a `[name]` directory or a `[name].novaw` file.
pub open spec fn scan_entries(es: Seq<(Seq<char>, bool)>, j: int) -> Hit
    decreases es.len() - j,
{
    if j < 0 || j >= es.len() {
        Hit::Nothing
    } else if is_param_dir(es[j].0) && es[j].1 {
        Hit::Dir(es[j].0)
    } else if is_param_file(es[j].0) {
        Hit::File(es[j].0)
    } else {
        scan_entries(es, j + 1)
    }
}

pub open spec fn index_in(fs: FileSystem, dir: Seq<Seq<char>>) -> Option<Seq<Seq<char>>> {
    if (fs.present)(dir.push("index.novaw"@)) {
        Some(dir.push("index.novaw"@))
    } else {
        None
    }
}

/// The page for `segs[k..]` under `dir`. A segment names a directory to go
/// into, or, as the last segment, a page file with the `novaw` extension.
pub open spec fn walk(fs: FileSystem, dir: Seq<Seq<char>>, segs: Seq<Seq<char>>, k: int) -> Option<
    Seq<Seq<char>>,
>
    decreases segs.len() - k,
{
    if k < 0 || k >= segs.len() {
        index_in(fs, dir)
    } else if (fs.present)(dir.push(segs[k])) {
        if (fs.is_dir)(dir.push(segs[k])) {
            walk(fs, dir.push(segs[k]), segs, k + 1)
        } else if k == segs.len() - 1 && has_novaw_ext(segs[k]) {
            Some(dir.push(segs[k]))
        } else {
            None
        }
    } else {
        match scan_entries((fs.entries)(dir), 0) {
            Hit::Dir(n) => walk(fs, dir.push(n), segs, k + 1),
            Hit::File(n) => Some(dir.push(n)),
            Hit::Nothing => None,
        }
    }
}

/// The page whose directories and `[name]` stand-ins match the segments of a
/// page name.
pub open spec fn dynamic_page(fs: FileSystem, name: Seq<char>) -> Option<Seq<Seq<char>>> {
    if segments(name).len() == 0 {
        index_in(fs, Seq::empty())
    } else {
        walk(fs, Seq::empty(), segments(name), 0)
    }
}

/// The page file that answers a request path: `name.novaw` if it exists,
/// else the page found segment by segment.
pub open spec fn page_for(fs: FileSystem, request: Seq<char>) -> Option<Seq<Seq<char>>> {
    let name = page_name(request);
    if (fs.present)(seq![name + ".novaw"@]) {
        Some(seq![name + ".novaw"@])
    } else {
        dynamic_page(fs, name)
    }
}

/// The listings agree with the rest: each listed entry exists, and is a
/// directory when it is listed as one.
pub open spec fn fs_consistent(fs: FileSystem) -> bool {
    forall|dir: Seq<Seq<char>>, j: int|
        0 <= j < (fs.entries)(dir).len() ==> {
            &&& (fs.present)(dir.push(#[trigger] (fs.entries)(dir)[j].0))
            &&& (fs.entries)(dir)[j].1 ==> (fs.is_dir)(dir.push((fs.entries)(dir)[j].0))
        }
}

/// A page file: a path of at least one name, the last ending with `.novaw`.
pub open spec fn is_page_file(fs: FileSystem, p: Seq<Seq<char>>) -> bool {
    &&& p.len() >= 1
    &&& (fs.present)(p)
    &&& ends_with(p.last(), ".novaw"@)
}

proof fn lemma_scan_hit(es: Seq<(Seq<char>, bool)>, j: int) -> (k: int)
    requires
        scan_entries(es, j) is File || scan_entries(es, j) is Dir,
    ensures
        0 <= k < es.len(),
        scan_entries(es, j) matches Hit::File(n) ==> es[k].0 == n && is_param_file(n),
        scan_entries(es, j) matches Hit::Dir(n) ==> es[k].0 == n && es[k].1,
    decreases es.len() - j,
{
    if is_param_dir(es[j].0) && es[j].1 {
        j
    } else if is_param_file(es[j].0) {
        j
    } else {
        lemma_scan_hit(es, j + 1)
    }
}

proof fn lemma_novaw_suffixes(n: Seq<char>)
    ensures
        ends_with(n, "].novaw"@) ==> ends_with(n, ".novaw"@),
        ends_with("index.novaw"@, ".novaw"@),
{
    reveal_strlit("].novaw");
    reveal_strlit(".novaw");
    reveal_strlit("index.novaw");
    assert("index.novaw"@.subrange(5, 11) =~= ".novaw"@);
    if ends_with(n, "].novaw"@) {
        assert(n.subrange(n.len() - 6, n.len() as int) =~= n.subrange(n.len() - 7, n.len() as int).subrange(1, 7));
        assert("].novaw"@.subrange(1, 7) =~= ".novaw"@);
    }
}

proof fn lemma_walk_page(fs: FileSystem, dir: Seq<Seq<char>>, segs: Seq<Seq<char>>, k: int)
    requires
        fs_consistent(fs),
    ensures
        walk(fs, dir, segs, k) matches Some(p) ==> is_page_file(fs, p),
    decreases segs.len() - k,
{
    lemma_novaw_suffixes(Seq::empty());
    if k < 0 || k >= segs.len() {
    } else if (fs.present)(dir.push(segs[k])) {
        if (fs.is_dir)(dir.push(segs[k])) {
            lemma_walk_page(fs, dir.push(segs[k]), segs, k + 1);
        } else if k == segs.len() - 1 && has_novaw_ext(segs[k]) {
        }
    } else {
        let es = (fs.entries)(dir);
        match scan_entries(es, 0) {
            Hit::Dir(n) => lemma_walk_page(fs, dir.push(n), segs, k + 1),
            Hit::File(n) => {
                let i = lemma_scan_hit(es, 0);
                assert((fs.present)(dir.push(es[i].0)));
                lemma_novaw_suffixes(n);
            },
            Hit::Nothing => {},
        }
    }
}

/// On a file system whose listings agree with it, a page that a request finds
/// exists, and its name ends with `.novaw`.
pub proof fn law_found_page_exists(fs: FileSystem, request: Seq<char>)
    requires
        fs_consistent(fs),
    ensures
        page_for(fs, request) matches Some(p) ==> is_page_file(fs, p),
{
    let name = page_name(request);
    lemma_novaw_suffixes(Seq::empty());
    if (fs.present)(seq![name + ".novaw"@]) {
        assert((name + ".novaw"@).subrange(name.len() as int, (name + ".novaw"@).len() as int) =~= ".novaw"@);
    } else if segments(name).len() > 0 {
        lemma_walk_page(fs, Seq::empty(), segments(name), 0);
    }
}

/// A question to the host about a path under the pages directory.
pub enum Probe {
    Exists(Vec<String>),
    IsDir(Vec<String>),
    /// The entries of a directory, each name with whether it is a directory.
    ListDir(Vec<String>),
}

pub enum Reply {
    Answer(bool),
    Entries(Vec<(String, bool)>),
}

/// Where a search for a page stands: the probe whose reply it waits for.
pub enum PageSearch {
    /// Does `path.novaw` exist?
    Exact { path: String },
    /// Does `dir/index.novaw` exist?
    Index { dir: Vec<String> },
    /// Does `dir/segments[next]` exist?
    Entry { dir: Vec<String>, segments: Vec<String>, next: usize },
    /// Is `dir/segments[next]` a directory?
    Kind { dir: Vec<String>, segments: Vec<String>, next: usize },
    /// What does `dir` hold?
    Listing { dir: Vec<String>, segments: Vec<String>, next: usize },
}

/// What the search does next.
pub enum Step {
    Ask { next: PageSearch, probe: Probe },
    Found(Vec<String>),
    Missing,
}

pub ghost enum ProbeM {
    Exists(Seq<Seq<char>>),
    IsDir(Seq<Seq<char>>),
    ListDir(Seq<Seq<char>>),
}

pub ghost enum ReplyM {
    Answer(bool),
    Entries(Seq<(Seq<char>, bool)>),
}

pub ghost enum SearchM {
    Exact(Seq<char>),
    Index(Seq<Seq<char>>),
    Entry(Seq<Seq<char>>, Seq<Seq<char>>, int),
    Kind(Seq<Seq<char>>, Seq<Seq<char>>, int),
    Listing(Seq<Seq<char>>, Seq<Seq<char>>, int),
}

pub ghost enum StepM {
    Ask(SearchM, ProbeM),
    Found(Seq<Seq<char>>),
    Missing,
}

pub open spec fn entry_views(es: Seq<(String, bool)>) -> Seq<(Seq<char>, bool)> {
    es.map_values(|e: (String, bool)| (e.0@, e.1))
}

impl View for Probe {
    type V = ProbeM;

    open spec fn view(&self) -> ProbeM {
        match self {
            Probe::Exists(p) => ProbeM::Exists(string_views(p@)),
            Probe::IsDir(p) => ProbeM::IsDir(string_views(p@)),
            Probe::ListDir(p) => ProbeM::ListDir(string_views(p@)),
        }
    }
}

impl View for Reply {
    type V = ReplyM;

    open spec fn view(&self) -> ReplyM {
        match self {
            Reply::Answer(b) => ReplyM::Answer(*b),
            Reply::Entries(es) => ReplyM::Entries(entry_views(es@)),
        }
    }
}

impl View for PageSearch {
    type V = SearchM;

    open spec fn view(&self) -> SearchM {
        match self {
            PageSearch::Exact { path } => SearchM::Exact(path@),
            PageSearch::Index { dir } => SearchM::Index(string_views(dir@)),
            PageSearch::Entry { dir, segments, next } => SearchM::Entry(
                string_views(dir@),
                string_views(segments@),
                *next as int,
            ),
            PageSearch::Kind { dir, segments, next } => SearchM::Kind(
                string_views(dir@),
                string_views(segments@),
                *next as int,
            ),
            PageSearch::Listing { dir, segments, next } => SearchM::Listing(
                string_views(dir@),
                string_views(segments@),
                *next as int,
            ),
        }
    }
}

impl View for Step {
    type V = StepM;

    open spec fn view(&self) -> StepM {
        match self {
            Step::Ask { next, probe } => StepM::Ask(next@, probe@),
            Step::Found(p) => StepM::Found(string_views(p@)),
            Step::Missing => StepM::Missing,
        }
    }
}

/// A stage that waits on a segment has one.
pub open spec fn search_wf(s: SearchM) -> bool {
    match s {
        SearchM::Entry(_, segs, k) => 0 <= k < segs.len(),
        SearchM::Kind(_, segs, k) => 0 <= k < segs.len(),
        SearchM::Listing(_, segs, k) => 0 <= k < segs.len(),
        _ => true,
    }
}

/// The probe a stage waits on.
pub open spec fn probe_of(s: SearchM) -> ProbeM {
    match s {
        SearchM::Exact(p) => ProbeM::Exists(seq![p + ".novaw"@]),
        SearchM::Index(dir) => ProbeM::Exists(dir.push("index.novaw"@)),
        SearchM::Entry(dir, segs, k) => ProbeM::Exists(dir.push(segs[k])),
        SearchM::Kind(dir, segs, k) => ProbeM::IsDir(dir.push(segs[k])),
        SearchM::Listing(dir, _, _) => ProbeM::ListDir(dir),
    }
}

/// The reply is the file system's answer to the probe.
pub open spec fn answers(fs: FileSystem, p: ProbeM, r: ReplyM) -> bool {
    match (p, r) {
        (ProbeM::Exists(x), ReplyM::Answer(b)) => b == (fs.present)(x),
        (ProbeM::IsDir(x), ReplyM::Answer(b)) => b == (fs.is_dir)(x),
        (ProbeM::ListDir(x), ReplyM::Entries(es)) => es == (fs.entries)(x),
        _ => false,
    }
}

/// The reply has the kind the probe asks for.
pub open spec fn fits(p: ProbeM, r: ReplyM) -> bool {
    match (p, r) {
        (ProbeM::ListDir(_), ReplyM::Entries(_)) => true,
        (ProbeM::ListDir(_), _) => false,
        (_, ReplyM::Answer(_)) => true,
        _ => false,
    }
}

/// The page that a stage leads to, on a file system.
pub open spec fn remaining(fs: FileSystem, s: SearchM) -> Option<Seq<Seq<char>>> {
    match s {
        SearchM::Exact(p) => if (fs.present)(seq![p + ".novaw"@]) {
            Some(seq![p + ".novaw"@])
        } else {
            dynamic_page(fs, p)
        },
        SearchM::Index(dir) => index_in(fs, dir),
        SearchM::Entry(dir, segs, k) => walk(fs, dir, segs, k),
        SearchM::Kind(dir, segs, k) => if (fs.is_dir)(dir.push(segs[k])) {
            walk(fs, dir.push(segs[k]), segs, k + 1)
        } else if k == segs.len() - 1 && has_novaw_ext(segs[k]) {
            Some(dir.push(segs[k]))
        } else {
            None
        },
        SearchM::Listing(dir, segs, k) => match scan_entries((fs.entries)(dir), 0) {
            Hit::Dir(n) => walk(fs, dir.push(n), segs, k + 1),
            Hit::File(n) => Some(dir.push(n)),
            Hit::Nothing => None,
        },
    }
}

/// A bound on the probes a stage may still ask.
pub open spec fn measure(s: SearchM) -> int {
    match s {
        SearchM::Exact(p) => 3 * segments(p).len() as int + 3,
        SearchM::Index(_) => 0,
        SearchM::Entry(_, segs, k) => 3 * (segs.len() - k) + 2,
        SearchM::Kind(_, segs, k) => 3 * (segs.len() - k) + 1,
        SearchM::Listing(_, segs, k) => 3 * (segs.len() - k) + 1,
    }
}

/// What a step leads to: its page, or where its next stage leads.
pub open spec fn step_leads_to(fs: FileSystem, st: StepM) -> Option<Seq<Seq<char>>> {
    match st {
        StepM::Ask(next, _) => remaining(fs, next),
        StepM::Found(p) => Some(p),
        StepM::Missing => None,
    }
}

/// A step is sound: on every file system that gave the reply, it leads where
/// the stage led; and it asks its next stage's probe, of a stage nearer the end.
pub open spec fn step_sound(s: SearchM, reply: ReplyM, st: StepM) -> bool {
    &&& forall|fs: FileSystem| #[trigger]
        answers(fs, probe_of(s), reply) ==> remaining(fs, s) == step_leads_to(fs, st)
    &&& st matches StepM::Ask(next, p) ==> {
        &&& p == probe_of(next)
        &&& search_wf(next)
        &&& 0 <= measure(next) < measure(s)
    }
}

// ---------------------------------------------------------------------------
// Executable path helpers.

fn copy_names(v: &Vec<String>) -> (r: Vec<String>)
    ensures
        string_views(r@) == string_views(v@),
{
    let mut r: Vec<String> = Vec::new();
    let mut i: usize = 0;
    while i < v.len()
        invariant
            i <= v.len(),
            r.len() == i,
            forall|j: int| 0 <= j < i ==> #[trigger] r@[j]@ == v@[j]@,
        decreases v.len() - i,
    {
        r.push(copy_str(&v[i]));
        i = i + 1;
    }
    assert(string_views(r@) =~= string_views(v@));
    r
}

/// `dir` with one more name.
fn with_name(dir: &Vec<String>, name: String) -> (r: Vec<String>)
    ensures
        string_views(r@) == string_views(dir@).push(name@),
{
    let mut r = copy_names(dir);
    let ghost r0 = r@;
    r.push(name);
    assert(string_views(r@) =~= string_views(r0).push(name@));
    r
}

/// Whether `s` ends with `suffix`.
pub fn text_ends_with(s: &str, suffix: &str) -> (r: bool)
    ensures
        r == ends_with(s@, suffix@),
{
    let a = chars_of(s);
    let b = chars_of(suffix);
    if b.len() > a.len() {
        return false;
    }
    let off = a.len() - b.len();
    let mut i: usize = 0;
    while i < b.len()
        invariant
            a@ == s@,
            b@ == suffix@,
            off == a.len() - b.len(),
            i <= b.len(),
            forall|j: int| 0 <= j < i ==> a@[off + j] == b@[j],
        decreases b.len() - i,
    {
        if a[off + i] != b[i] {
            assert(a@.subrange(off as int, a.len() as int)[i as int] != b@[i as int]);
            return false;
        }
        i = i + 1;
    }
    assert(a@.subrange(off as int, a.len() as int) =~= b@);
    true
}

/// The request path without its leading slashes, or `index` when nothing is left.
pub fn page_name_of(request: &str) -> (r: String)
    ensures
        r@ == page_name(request@),
{
    let cs = chars_of(request);
    let mut k: usize = 0;
    assert(cs@.subrange(0, cs@.len() as int) =~= cs@);
    while k < cs.len() && cs[k] == '/'
        invariant
            cs@ == request@,
            k <= cs.len(),
            trim_slashes(request@) == trim_slashes(cs@.subrange(k as int, cs@.len() as int)),
        decreases cs.len() - k,
    {
        assert(cs@.subrange(k as int, cs@.len() as int).drop_first() =~= cs@.subrange(
            k + 1,
            cs@.len() as int,
        ));
        k = k + 1;
    }
    let rest = range_string(&cs, k, cs.len());
    if k == cs.len() {
        from_str("index")
    } else {
        assert(cs@.subrange(k as int, cs@.len() as int)[0] == cs@[k as int]);
        rest
    }
}

/// The non-empty pieces of a path between slashes.
pub fn path_segments(s: &str) -> (r: Vec<String>)
    ensures
        string_views(r@) == segments(s@),
{
    let cs = chars_of(s);
    let mut out: Vec<String> = Vec::new();
    let mut cur: Vec<char> = Vec::new();
    let mut i: usize = 0;
    while i < cs.len()
        invariant
            cs@ == s@,
            i <= cs.len(),
            segments(s@) == string_views(out@) + split_from(s@, i as int, cur@),
        decreases cs.len() - i,
    {
        let ghost o0 = string_views(out@);
        let ghost c0 = cur@;
        if cs[i] == '/' {
            if cur.len() > 0 {
                out.push(range_string(&cur, 0, cur.len()));
                assert(cur@.subrange(0, cur@.len() as int) =~= cur@);
                assert(string_views(out@) =~= o0.push(c0));
                assert(o0 + (seq![c0] + split_from(s@, i + 1, Seq::empty())) =~= o0.push(c0)
                    + split_from(s@, i + 1, Seq::empty()));
            } else {
                assert(o0 + (Seq::<Seq<char>>::empty() + split_from(s@, i + 1, Seq::empty()))
                    =~= o0 + split_from(s@, i + 1, Seq::empty()));
            }
            cur = Vec::new();
        } else {
            cur.push(cs[i]);
        }
        i = i + 1;
    }
    if cur.len() > 0 {
        let ghost o0 = string_views(out@);
        out.push(range_string(&cur, 0, cur.len()));
        assert(cur@.subrange(0, cur@.len() as int) =~= cur@);
        assert(string_views(out@) =~= o0.push(cur@));
        assert(o0 + seq![cur@] =~= o0.push(cur@));
    } else {
        assert(string_views(out@) + Seq::<Seq<char>>::empty() =~= string_views(out@));
    }
    out
}

fn is_param_dir_exec(name: &str) -> (r: bool)
    ensures
        r == is_param_dir(name@),
{
    let cs = chars_of(name);
    cs.len() > 0 && cs[0] == '[' && cs[cs.len() - 1] == ']'
}

fn is_param_file_exec(name: &str) -> (r: bool)
    ensures
        r == is_param_file(name@),
{
    let cs = chars_of(name);
    cs.len() > 0 && cs[0] == '[' && text_ends_with(name, "].novaw")
}

fn has_novaw_ext_exec(name: &str) -> (r: bool)
    ensures
        r == has_novaw_ext(name@),
{
    let suffix = ".novaw";
    text_ends_with(name, suffix) && name.unicode_len() > suffix.unicode_len()
}

// ---------------------------------------------------------------------------
// The steps of the search.

/// Asks for `dir/segments[next]`, or for `dir/index.novaw` past the last segment.
fn advance(dir: Vec<String>, segments: Vec<String>, next: usize) -> (r: Step)
    requires
        next <= segments.len(),
    ensures
        forall|fs: FileSystem| #[trigger]
            step_leads_to(fs, r@) == walk(fs, string_views(dir@), string_views(segments@), next as int),
        r@ matches StepM::Ask(s, p) && p == probe_of(s) && search_wf(s) && measure(s) <= 3 * (
        segments.len() - next) + 2,
{
    if next < segments.len() {
        let probe = Probe::Exists(with_name(&dir, copy_str(&segments[next])));
        Step::Ask { next: PageSearch::Entry { dir, segments, next }, probe }
    } else {
        let probe = Probe::Exists(with_name(&dir, from_str("index.novaw")));
        Step::Ask { next: PageSearch::Index { dir }, probe }
    }
}

/// The first search step: is there a page file named after the whole path?
pub fn begin_search(request_path: &str) -> (r: Step)
    ensures
        forall|fs: FileSystem| #[trigger] step_leads_to(fs, r@) == page_for(fs, request_path@),
        r@ matches StepM::Ask(s, p) && p == probe_of(s) && search_wf(s),
{
    let path = page_name_of(request_path);
    let mut file = vec![concat(path.as_str(), ".novaw")];
    let ghost f = file@[0]@;
    assert(string_views(file@) =~= seq![f]);
    Step::Ask { next: PageSearch::Exact { path }, probe: Probe::Exists(file) }
}

/// The search for a page file where the whole path names none: the path's
/// segments are matched one by one against directories, falling back to a
/// `[name]` directory or a `[name].novaw` file of the listing.
pub fn find_dynamic_file(search: PageSearch, reply: &Reply) -> (r: Step)
    requires
        search_wf(search@),
        !(search@ is Exact),
        fits(probe_of(search@), reply@),
    ensures
        step_sound(search@, reply@, r@),
{
    let ghost s0 = search@;
    match search {
        PageSearch::Exact { path } => Step::Missing,
        PageSearch::Index { dir } => {
            let b = match reply {
                Reply::Answer(b) => *b,
                Reply::Entries(_) => false,
            };
            if b {
                Step::Found(with_name(&dir, from_str("index.novaw")))
            } else {
                Step::Missing
            }
        },
        PageSearch::Entry { dir, segments, next } => {
            let b = match reply {
                Reply::Answer(b) => *b,
                Reply::Entries(_) => false,
            };
            let ghost dv = string_views(dir@);
            let ghost sv = string_views(segments@);
            if b {
                let probe = Probe::IsDir(with_name(&dir, copy_str(&segments[next])));
                Step::Ask { next: PageSearch::Kind { dir, segments, next }, probe }
            } else {
                let probe = Probe::ListDir(copy_names(&dir));
                Step::Ask { next: PageSearch::Listing { dir, segments, next }, probe }
            }
        },
        PageSearch::Kind { dir, segments, next } => {
            let b = match reply {
                Reply::Answer(b) => *b,
                Reply::Entries(_) => false,
            };
            let ghost dv = string_views(dir@);
            let ghost sv = string_views(segments@);
            assert(sv.len() == segments.len());
            let here = with_name(&dir, copy_str(&segments[next]));
            if b {
                let r = advance(here, segments, next + 1);
                r
            } else if next + 1 == segments.len() && has_novaw_ext_exec(segments[next].as_str()) {
                Step::Found(here)
            } else {
                Step::Missing
            }
        },
        PageSearch::Listing { dir, segments, next } => {
            let ghost dv = string_views(dir@);
            let ghost sv = string_views(segments@);
            assert(sv.len() == segments.len());
            match reply {
                Reply::Entries(es) => {
                    let mut j: usize = 0;
                    while j < es.len()
                        invariant
                            j <= es.len(),
                            next < segments.len(),
                            s0 == SearchM::Listing(dv, sv, next as int),
                            s0 == search@,
                            dv == string_views(dir@),
                            sv == string_views(segments@),
                            reply@ == ReplyM::Entries(entry_views(es@)),
                            scan_entries(entry_views(es@), 0) == scan_entries(
                                entry_views(es@),
                                j as int,
                            ),
                        decreases es.len() - j,
                    {
                        let name = &es[j].0;
                        assert(entry_views(es@)[j as int] == (es@[j as int].0@, es@[j as int].1));
                        if is_param_dir_exec(name.as_str()) && es[j].1 {
                            assert(scan_entries(entry_views(es@), j as int) == Hit::Dir(name@));
                            let d = with_name(&dir, copy_str(name));
                            let r = advance(d, segments, next + 1);
                            assert forall|fs: FileSystem| #[trigger]
                                answers(fs, probe_of(s0), reply@) implies remaining(fs, s0)
                                == step_leads_to(fs, r@) by {
                                assert(step_leads_to(fs, r@) == walk(fs, dv.push(name@), sv, next + 1));
                            }
                            return r;
                        }
                        if is_param_file_exec(name.as_str()) {
                            assert(scan_entries(entry_views(es@), j as int) == Hit::File(name@));
                            let r = Step::Found(with_name(&dir, copy_str(name)));
                            assert forall|fs: FileSystem| #[trigger]
                                answers(fs, probe_of(s0), reply@) implies remaining(fs, s0)
                                == step_leads_to(fs, r@) by {
                            }
                            return r;
                        }
                        j = j + 1;
                    }
                    Step::Missing
                },
                Reply::Answer(_) => Step::Missing,
            }
        },
    }
}

/// One step of the search for the page file that answers a request: from
/// the stage the search is at and the host's reply to its probe, the next
/// probe or the outcome.
pub fn find_novaw_file(search: PageSearch, reply: &Reply) -> (r: Step)
    requires
        search_wf(search@),
        fits(probe_of(search@), reply@),
    ensures
        step_sound(search@, reply@, r@),
{
    match search {
        PageSearch::Exact { path } => {
            let b = match reply {
                Reply::Answer(b) => *b,
                Reply::Entries(_) => false,
            };
            if b {
                let file = vec![concat(path.as_str(), ".novaw")];
                let ghost f = file@[0]@;
                assert(string_views(file@) =~= seq![f]);
                Step::Found(file)
            } else {
                let segs = path_segments(path.as_str());
                if segs.len() == 0 {
                    let dir: Vec<String> = Vec::new();
                    assert(string_views(dir@) =~= Seq::<Seq<char>>::empty());
                    let probe = Probe::Exists(with_name(&dir, from_str("index.novaw")));
                    Step::Ask { next: PageSearch::Index { dir }, probe }
                } else {
                    let r = advance(Vec::new(), segs, 0);
                    assert(string_views(Seq::<String>::empty()) =~= Seq::<Seq<char>>::empty());
                    r
                }
            }
        },
        other => find_dynamic_file(other, reply),
    }
}

// ---------------------------------------------------------------------------
// Route parameters.

/// `[name]` without its brackets.
pub open spec fn dir_param_name(seg: Seq<char>) -> Seq<char> {
    seg.subrange(1, seg.len() - 1)
}

/// The name of the parameter of a `[name].novaw` page: the file name without
/// its `[` and its `].novaw`.
pub open spec fn file_param_name(f: Seq<char>) -> Seq<char> {
    f.subrange(1, f.len() - 7)
}

/// From `i` on, each `[name]` directory of the page's directory path binds
/// `name` to the request segment at the same position, if there is one.
pub open spec fn dir_params(ps: Seq<Seq<char>>, rs: Seq<Seq<char>>, i: int, m: Seq<(Seq<char>, Val)>) -> Seq<
    (Seq<char>, Val),
>
    decreases ps.len() - i,
{
    if i < 0 || i >= ps.len() {
        m
    } else {
        dir_params(
            ps,
            rs,
            i + 1,
            if is_param_dir(ps[i]) && i < rs.len() {
                insert_entry(m, dir_param_name(ps[i]), Val::Str(rs[i]))
            } else {
                m
            },
        )
    }
}

/// The parameters of a page: from a `[name].novaw` file name, the last
/// request segment; from each `[name]` directory of the page's directory path
/// (counted from the start of that path), the request segment at its position.
pub open spec fn route_params(parent: Option<Seq<char>>, file_name: Seq<char>, request: Seq<char>) -> Seq<
    (Seq<char>, Val),
> {
    match parent {
        None => Seq::empty(),
        Some(p) => {
            let rs = segments(request);
            let m0 = if is_param_file(file_name) && rs.len() > 0 {
                insert_entry(Seq::empty(), file_param_name(file_name), Val::Str(rs.last()))
            } else {
                Seq::empty()
            };
            dir_params(segments(p), rs, 0, m0)
        },
    }
}

pub open spec fn opt_text(o: Option<String>) -> Option<Seq<char>> {
    match o {
        Some(s) => Some(s@),
        None => None,
    }
}

/// The route parameters of a page file, given the file's directory path (if
/// it has one) and its name, for a request path.
pub fn extract_route_params(parent: &Option<String>, file_name: &str, request_path: &str) -> (r: Vec<
    (String, Value),
>)
    ensures
        view_entries(r@) == route_params(opt_text(*parent), file_name@, request_path@),
        keys_distinct(view_entries(r@)),
{
    let mut params: Vec<(String, Value)> = Vec::new();
    assert(view_entries(params@) =~= Seq::<(Seq<char>, Val)>::empty());
    let p = match parent {
        None => {
            return params;
        },
        Some(p) => p,
    };
    let rs = path_segments(request_path);
    let ghost rsv = string_views(rs@);
    assert(rsv.len() == rs.len());
    if is_param_file_exec(file_name) && rs.len() > 0 {
        let cs = chars_of(file_name);
        proof {
            reveal_strlit("].novaw");
            if cs.len() < 8 {
                assert(cs@.subrange(cs.len() - 7, cs.len() as int)[0] == cs@[cs.len() - 7]);
            }
        }
        let name = range_string(&cs, 1, cs.len() - 7);
        let last = copy_str(&rs[rs.len() - 1]);
        dict_insert(&mut params, name, Value::String(last));
    }
    let ps = path_segments(p.as_str());
    let ghost psv = string_views(ps@);
    assert(psv.len() == ps.len());
    let mut i: usize = 0;
    while i < ps.len()
        invariant
            i <= ps.len(),
            psv == string_views(ps@),
            rsv == string_views(rs@),
            psv.len() == ps.len(),
            rsv.len() == rs.len(),
            route_params(opt_text(*parent), file_name@, request_path@) == dir_params(
                psv,
                rsv,
                i as int,
                view_entries(params@),
            ),
            keys_distinct(view_entries(params@)),
        decreases ps.len() - i,
    {
        let seg = &ps[i];
        if is_param_dir_exec(seg.as_str()) && i < rs.len() {
            let cs = chars_of(seg.as_str());
            let name = range_string(&cs, 1, cs.len() - 1);
            let v = copy_str(&rs[i]);
            dict_insert(&mut params, name, Value::String(v));
        }
        i = i + 1;
    }
    params
}

// ---------------------------------------------------------------------------
// The request object.

/// A map from the pairs, a later pair replacing an earlier one of the same key.
pub open spec fn pairs_dict(ps: Seq<(Seq<char>, Seq<char>)>) -> Seq<(Seq<char>, Val)>
    decreases ps.len(),
{
    if ps.len() == 0 {
        Seq::empty()
    } else {
        insert_entry(pairs_dict(ps.drop_last()), ps.last().0, Val::Str(ps.last().1))
    }
}

/// The `request` a page sees: its method, its path, and maps of its query
/// parameters and of its headers.
pub open spec fn request_object(
    method: Seq<char>,
    path: Seq<char>,
    query: Seq<(Seq<char>, Seq<char>)>,
    headers: Seq<(Seq<char>, Seq<char>)>,
) -> Val {
    let m1 = insert_entry(Seq::empty(), "method"@, Val::Str(method));
    let m2 = insert_entry(m1, "path"@, Val::Str(path));
    let m3 = insert_entry(m2, "query"@, Val::Dict(pairs_dict(query)));
    Val::Dict(insert_entry(m3, "headers"@, Val::Dict(pairs_dict(headers))))
}

fn dict_of_pairs(ps: &Vec<(String, String)>) -> (r: Vec<(String, Value)>)
    ensures
        view_entries(r@) == pairs_dict(pair_views(ps@)),
        keys_distinct(view_entries(r@)),
{
    let ghost pv = pair_views(ps@);
    let mut m: Vec<(String, Value)> = Vec::new();
    let mut i: usize = 0;
    assert(view_entries(m@) =~= Seq::<(Seq<char>, Val)>::empty());
    assert(pv.subrange(0, 0) =~= Seq::<(Seq<char>, Seq<char>)>::empty());
    while i < ps.len()
        invariant
            i <= ps.len(),
            pv == pair_views(ps@),
            view_entries(m@) == pairs_dict(pv.subrange(0, i as int)),
            keys_distinct(view_entries(m@)),
        decreases ps.len() - i,
    {
        assert(pv.subrange(0, i + 1).drop_last() =~= pv.subrange(0, i as int));
        assert(pv[i as int] == (ps@[i as int].0@, ps@[i as int].1@));
        dict_insert(&mut m, copy_str(&ps[i].0), Value::String(copy_str(&ps[i].1)));
        i = i + 1;
    }
    assert(pv.subrange(0, ps.len() as int) =~= pv);
    m
}

/// The `request` object of a page (see `request_object`).
pub fn request_context(
    method: &str,
    path: &str,
    query: &Vec<(String, String)>,
    headers: &Vec<(String, String)>,
) -> (r: Value)
    ensures
        r@ == request_object(method@, path@, pair_views(query@), pair_views(headers@)),
        r@ matches Val::Dict(m) && keys_distinct(m),
{
    let mut m: Vec<(String, Value)> = Vec::new();
    assert(view_entries(m@) =~= Seq::<(Seq<char>, Val)>::empty());
    dict_insert(&mut m, from_str("method"), Value::String(from_str(method)));
    dict_insert(&mut m, from_str("path"), Value::String(from_str(path)));
    dict_insert(&mut m, from_str("query"), Value::Dict(dict_of_pairs(query)));
    dict_insert(&mut m, from_str("headers"), Value::Dict(dict_of_pairs(headers)));
    Value::Dict(m)
}

// ---------------------------------------------------------------------------
// Responses.

/// Why a page produced no value.
pub enum PageError {
    /// The page file could not be read; the host's description of why.
    Unreadable(String),
    /// The page is not a program.
    Syntax(ParseError),
    /// The program failed.
    Runtime(EvalError),
}

pub open spec fn page_error_message(e: PageError) -> Seq<char> {
    match e {
        PageError::Unreadable(m) => m@,
        PageError::Syntax(x) => parse_message(x),
        PageError::Runtime(x) => error_message(x),
    }
}

impl PageError {
    /// The text by which the error is reported.
    pub fn message(&self) -> (r: String)
        ensures
            r@ == page_error_message(*self),
    {
        match self {
            PageError::Unreadable(m) => copy_str(m),
            PageError::Syntax(x) => x.message(),
            PageError::Runtime(x) => x.message(),
        }
    }
}

/// The body of a response: text, or a value to be sent as JSON.
pub enum Body {
    Text(String),
    Json(Value),
}

pub struct Response {
    pub status: u16,
    pub body: Body,
}

pub ghost enum BodyM {
    Text(Seq<char>),
    Json(Val),
}

pub open spec fn body_view(b: Body) -> BodyM {
    match b {
        Body::Text(t) => BodyM::Text(t@),
        Body::Json(v) => BodyM::Json(v@),
    }
}

/// The response to a request: `404` without a page; `500` with the error's
/// message when the page failed; else `200` with a string as it is, a list
/// or a map as JSON, and any other value as its text, but `204` for null.
pub open spec fn response_for(outcome: Option<Result<Val, Seq<char>>>) -> (u16, BodyM) {
    match outcome {
        None => (404u16, BodyM::Text("Not Found"@)),
        Some(Err(m)) => (500u16, BodyM::Text("Error: "@ + m)),
        Some(Ok(v)) => match v {
            Val::Str(s) => (200u16, BodyM::Text(s)),
            Val::Null => (204u16, BodyM::Text(Seq::empty())),
            Val::List(_) => (200u16, BodyM::Json(v)),
            Val::Dict(_) => (200u16, BodyM::Json(v)),
            _ => (200u16, BodyM::Text(display(v))),
        },
    }
}

pub open spec fn outcome_view(o: Option<Result<Value, PageError>>) -> Option<Result<Val, Seq<char>>> {
    match o {
        None => None,
        Some(Ok(v)) => Some(Ok(v@)),
        Some(Err(e)) => Some(Err(page_error_message(e))),
    }
}

/// The response to a request, from what running its page gave (`None`: no
/// page answers the path).
pub fn page_response(outcome: &Option<Result<Value, PageError>>) -> (r: Response)
    ensures
        (r.status, body_view(r.body)) == response_for(outcome_view(*outcome)),
{
    match outcome {
        None => Response { status: 404, body: Body::Text(from_str("Not Found")) },
        Some(Err(e)) => {
            let m = e.message();
            Response { status: 500, body: Body::Text(concat("Error: ", m.as_str())) }
        },
        Some(Ok(v)) => match v {
            Value::String(s) => Response { status: 200, body: Body::Text(copy_str(s)) },
            Value::Null => {
                let t = String::new();
                Response { status: 204, body: Body::Text(t) }
            },
            Value::List(_) => Response { status: 200, body: Body::Json(v.copy()) },
            Value::Dict(_) => Response { status: 200, body: Body::Json(v.copy()) },
            _ => Response { status: 200, body: Body::Text(v.to_text()) },
        },
    }
}

// ---------------------------------------------------------------------------
// Running a page.

/// The globals of a page: the builtins, then `request`, then `params` when
/// there are route parameters.
pub open spec fn page_globals(request: Val, params: Seq<(Seq<char>, Val)>) -> Scope {
    let g = insert_entry(with_builtins(Seq::empty()), "request"@, request);
    if params.len() > 0 {
        insert_entry(g, "params"@, Val::Dict(params))
    } else {
        g
    }
}

/// What a run gave, if the page was a program.
pub open spec fn run_result(r: Result<Value, PageError>) -> Option<Result<Val, Fault>> {
    match r {
        Ok(v) => Some(Ok(v@)),
        Err(PageError::Runtime(e)) => Some(Err(view_err(e))),
        Err(_) => None,
    }
}

/// The requests of a run were handed to `host` as `sent`, one by one, and
/// `host` gave back `got`, whose models the oracle gives.
pub open spec fn served_by<H: Fn(HostCall) -> Value>(
    host: &H,
    calls: Seq<Request>,
    o: Oracle,
    sent: Seq<HostCall>,
    got: Seq<Value>,
) -> bool {
    &&& sent.len() == calls.len()
    &&& got.len() == calls.len()
    &&& forall|i: int|
        0 <= i < calls.len() ==> {
            &&& (#[trigger] sent[i])@ == calls[i]
            &&& got[i]@ == o(i as nat)
            &&& call_ensures(*host, (sent[i],), got[i])
        }
}

/// Runs the source of a page in a fresh interpreter whose globals hold the
/// request object and the route parameters. A source that is not a program
/// fails with its parse error; otherwise the result is what the program gives
/// (see `run_program`) for the replies that `host` gave to the requests it
/// was handed.
pub fn execute_novaw_file<H: Fn(HostCall) -> Value>(
    source: &str,
    request: Value,
    params: Vec<(String, Value)>,
    host: &H,
) -> (r: Result<Value, PageError>)
    requires
        host_ready(host),
    ensures
        match spec_parse(source@) {
            Err(x) => r matches Err(PageError::Syntax(y)) && y == x,
            Ok(m) => exists|prog: Seq<Stmt>, o: Oracle, sent: Seq<HostCall>, got: Seq<Value>|
                #![trigger served_by(host, run_program(seq![page_globals(request@, view_entries(params@))], prog, FUEL as nat, o, 0).calls, o, sent, got)]
                {
                    &&& view_stmts(prog) == m
                    &&& run_result(r) == Some(
                        run_program(
                            seq![page_globals(request@, view_entries(params@))],
                            prog,
                            FUEL as nat,
                            o,
                            0,
                        ).res,
                    )
                    &&& served_by(
                        host,
                        run_program(
                            seq![page_globals(request@, view_entries(params@))],
                            prog,
                            FUEL as nat,
                            o,
                            0,
                        ).calls,
                        o,
                        sent,
                        got,
                    )
                },
        },
{
    let ghost rv = request@;
    let ghost pv = view_entries(params@);
    let mut interp = Interpreter::new();
    interp.define_global(from_str("request"), request);
    if params.len() > 0 {
        interp.define_global(from_str("params"), Value::Dict(params));
    }
    assert(interp.environment@ =~= seq![page_globals(rv, pv)]);
    let statements = match parse(source) {
        Ok(s) => s,
        Err(x) => {
            return Err(PageError::Syntax(x));
        },
    };
    let ghost s1 = interp;
    let r = interp.interpret(&statements, host);
    let ghost s2 = interp;
    let ghost o: Oracle = |i: nat|
        if i < s2.replies@.len() {
            s2.replies@[i as int]
        } else {
            Val::Null
        };
    assert(answered(o, s1, s2));
    let ghost run = run_program(s1.environment@, statements@, FUEL as nat, o, s1.pos());
    assert(run.res == res_val(r));
    assert(run.calls == made(s1, s2));
    assert(served_by(host, run.calls, o, s2.sent@, s2.got@)) by {
        assert forall|i: int| 0 <= i < run.calls.len() implies {
            &&& (#[trigger] s2.sent@[i])@ == run.calls[i]
            &&& s2.got@[i]@ == o(i as nat)
            &&& call_ensures(*host, (s2.sent@[i],), s2.got@[i])
        } by {
            assert(s2.sent@[i]@ == s2.calls@[i]);
            assert(s2.got@[i]@ == s2.replies@[i]);
        }
    }
    match r {
        Ok(v) => Ok(v),
        Err(e) => Err(PageError::Runtime(e)),
    }
}

} // verus!
