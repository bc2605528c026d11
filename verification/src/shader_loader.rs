//! [`ShaderLoader`]: loads shader sources and expands their `#include`
//! lines, keeping every loaded source in a cache in the order it was first
//! asked for. Fetching a file is left to the caller: the loader says which
//! file it needs next and is handed its text.

use crate::gl::ShaderLoaderError;
use crate::shader_text::{classify_line, line_kind, split_lines, split_lines_of, LineKind, ShaderLine};
use crate::text::{decimal, usize_to_string};
use indexmap::IndexMap;
use vstd::prelude::*;

verus! {

#[verifier::external_type_specification]
#[verifier::external_body]
#[verifier::reject_recursive_types(K)]
#[verifier::reject_recursive_types(V)]
#[verifier::reject_recursive_types(S)]
pub struct ExIndexMap<K, V, S>(IndexMap<K, V, S>);

/// The entries of the cache, in order: each path and its expanded text,
/// or nothing while the path is being loaded.
pub uninterp spec fn cache_entries(m: IndexMap<String, Option<String>>) -> Seq<(Seq<char>, Option<Seq<char>>)>;

/// The text of an optional string.
pub open spec fn opt_text(o: Option<String>) -> Option<Seq<char>> {
    match o {
        Some(s) => Some(s@),
        None => None,
    }
}

/// `IndexMap::new`: a map with no entries.
#[verifier::external_body]
fn cache_new() -> (r: IndexMap<String, Option<String>>)
    ensures
        cache_entries(r) == Seq::<(Seq<char>, Option<Seq<char>>)>::empty(),
{
    IndexMap::new()
}

/// `IndexMap::get`: the value of the entry whose key equals `key`, if any.
#[verifier::external_body]
fn cache_get<'a>(m: &'a IndexMap<String, Option<String>>, key: &str) -> (r: Option<&'a Option<String>>)
    ensures
        match r {
            Some(v) => exists|i: int|
                0 <= i < cache_entries(*m).len() && cache_entries(*m)[i].0 == key@ && cache_entries(*m)[i].1
                    == opt_text(*v),
            None => forall|i: int| 0 <= i < cache_entries(*m).len() ==> cache_entries(*m)[i].0 != key@,
        },
{
    m.get(key)
}

/// `IndexMap::get_index`: the key and value of entry `i`, if there is one.
#[verifier::external_body]
fn cache_get_index<'a>(m: &'a IndexMap<String, Option<String>>, i: usize) -> (r: Option<(&'a String, &'a Option<String>)>)
    ensures
        match r {
            Some((k, v)) => i < cache_entries(*m).len() && cache_entries(*m)[i as int] == (k@, opt_text(*v)),
            None => i >= cache_entries(*m).len(),
        },
{
    m.get_index(i)
}

/// `IndexMap::insert_full`: if an entry's key equals `key`, its value
/// becomes `value` and its position and old value are returned; otherwise
/// the entry is added last and its position returned.
#[verifier::external_body]
fn cache_insert_full(m: &mut IndexMap<String, Option<String>>, key: String, value: Option<String>) -> (r: (
    usize,
    Option<Option<String>>,
))
    ensures
        match r.1 {
            Some(prev) => {
                &&& r.0 < cache_entries(*old(m)).len()
                &&& cache_entries(*old(m))[r.0 as int].0 == key@
                &&& cache_entries(*old(m))[r.0 as int].1 == opt_text(prev)
                &&& cache_entries(*final(m)) == cache_entries(*old(m)).update(
                    r.0 as int,
                    (key@, opt_text(value)),
                )
            },
            None => {
                &&& forall|i: int| 0 <= i < cache_entries(*old(m)).len() ==> cache_entries(*old(m))[i].0 != key@
                &&& r.0 == cache_entries(*old(m)).len()
                &&& cache_entries(*final(m)) == cache_entries(*old(m)).push((key@, opt_text(value)))
            },
        },
{
    m.insert_full(key, value)
}

/// `IndexMut<usize>` of `IndexMap`: sets the value of entry `i`, which must
/// exist.
#[verifier::external_body]
fn cache_set_index(m: &mut IndexMap<String, Option<String>>, i: usize, value: Option<String>)
    requires
        i < cache_entries(*old(m)).len(),
    ensures
        cache_entries(*final(m)) == cache_entries(*old(m)).update(
            i as int,
            (cache_entries(*old(m))[i as int].0, opt_text(value)),
        ),
{
    m[i] = value;
}

/// A file being loaded: its path, its position in the cache, its lines
/// once fetched, how many lines are done, the text produced so far, and
/// whether the next plain line needs a `#line` directive.
struct Frame {
    path: String,
    index: usize,
    lines: Option<Vec<String>>,
    pos: usize,
    out: String,
    needs: bool,
}

/// A file being loaded, as values.
pub struct FrameView {
    pub path: Seq<char>,
    pub index: nat,
    pub lines: Option<Seq<Seq<char>>>,
    pub pos: nat,
    pub out: Seq<char>,
    pub needs: bool,
}

/// The state of a loader: the cache's entries, and the files being loaded,
/// the one that includes the next one first.
pub struct LoaderView {
    pub cache: Seq<(Seq<char>, Option<Seq<char>>)>,
    pub frames: Seq<FrameView>,
}

/// Loads shader sources and keeps them, expanded, by path.
pub struct ShaderLoader {
    cache: IndexMap<String, Option<String>>,
    frames: Vec<Frame>,
}

spec fn frame_view(f: Frame) -> FrameView {
    FrameView {
        path: f.path@,
        index: f.index as nat,
        lines: match f.lines {
            Some(v) => Some(v@.map_values(|l: String| l@)),
            None => None,
        },
        pos: f.pos as nat,
        out: f.out@,
        needs: f.needs,
    }
}

impl View for ShaderLoader {
    type V = LoaderView;

    closed spec fn view(&self) -> LoaderView {
        LoaderView { cache: cache_entries(self.cache), frames: self.frames@.map_values(|f: Frame| frame_view(f)) }
    }
}

/// Why loading a file failed.
pub enum FailureKind {
    RequestFailed,
    IncludeCycle,
    IncludeSyntaxError,
    VersionMismatch,
}

/// What the loader asks for or reports, as values.
pub enum StepView {
    /// The text of the file with this path is needed.
    Fetch(Seq<char>),
    /// The file asked for is loaded.
    Loaded,
    /// Loading failed, for the file with this path.
    Failed(FailureKind, Seq<char>),
}

/// What the loader asks for or reports.
pub enum LoadStep {
    /// The text of the file with this path is needed: hand it to
    /// [`ShaderLoader::resume_load`].
    Fetch(String),
    /// Loading ended.
    Done(Result<(), ShaderLoaderError>),
}

/// A step as values.
pub open spec fn step_view(s: LoadStep) -> StepView {
    match s {
        LoadStep::Fetch(p) => StepView::Fetch(p@),
        LoadStep::Done(Ok(())) => StepView::Loaded,
        LoadStep::Done(Err(ShaderLoaderError::RequestFailed(p))) => StepView::Failed(FailureKind::RequestFailed, p@),
        LoadStep::Done(Err(ShaderLoaderError::IncludeCycle(p))) => StepView::Failed(FailureKind::IncludeCycle, p@),
        LoadStep::Done(Err(ShaderLoaderError::IncludeSyntaxError(p))) => StepView::Failed(
            FailureKind::IncludeSyntaxError,
            p@,
        ),
        LoadStep::Done(Err(ShaderLoaderError::VersionMismatch(p))) => StepView::Failed(
            FailureKind::VersionMismatch,
            p@,
        ),
    }
}

/// The position of the cache entry for `name`, if there is one.
pub open spec fn lookup(cache: Seq<(Seq<char>, Option<Seq<char>>)>, name: Seq<char>) -> Option<int> {
    if exists|i: int| 0 <= i < cache.len() && cache[i].0 == name {
        Some(choose|i: int| 0 <= i < cache.len() && cache[i].0 == name)
    } else {
        None
    }
}

/// No two cache entries have the same path.
pub open spec fn keys_unique(cache: Seq<(Seq<char>, Option<Seq<char>>)>) -> bool {
    forall|i: int, j: int| 0 <= i < cache.len() && 0 <= j < cache.len() && cache[i].0 == cache[j].0 ==> i == j
}

/// The `#line` directive that says that line `line` of source `source`
/// comes next.
pub open spec fn line_directive(line: nat, source: nat) -> Seq<char> {
    "#line "@ + decimal(line) + " "@ + decimal(source) + "\n"@
}

/// The loader with every file being loaded given up.
pub open spec fn abandon(v: LoaderView) -> LoaderView {
    LoaderView { frames: Seq::empty(), ..v }
}

/// The loader with its last frame replaced by `f`.
pub open spec fn with_top(v: LoaderView, f: FrameView) -> LoaderView {
    LoaderView { frames: v.frames.drop_last().push(f), ..v }
}

/// The frames are consistent: each has a cache position, and every frame
/// but the last has its lines and stands at a line that it has.
pub open spec fn frames_wf(v: LoaderView) -> bool {
    &&& keys_unique(v.cache)
    &&& forall|k: int| 0 <= k < v.frames.len() ==> (#[trigger] v.frames[k]).index < v.cache.len()
    &&& forall|k: int|
        0 <= k < v.frames.len() ==> ((#[trigger] v.frames[k]).lines matches Some(ls) ==> v.frames[k].pos <= ls.len())
    &&& forall|k: int|
        0 <= k < v.frames.len() - 1 ==> ((#[trigger] v.frames[k]).lines matches Some(ls) && v.frames[k].pos < ls.len())
    &&& forall|k: int| 0 <= k < v.frames.len() ==> ((#[trigger] v.frames[k]).lines is None ==> v.frames[k].pos == 0)
}

/// The work left: one per frame, and one per line not yet done.
pub open spec fn cost(f: FrameView) -> nat {
    match f.lines {
        Some(ls) => if f.pos < ls.len() {
            (1 + ls.len() - f.pos) as nat
        } else {
            1
        },
        None => 1,
    }
}

/// The work left in `frames`.
pub open spec fn work(frames: Seq<FrameView>) -> nat
    decreases frames.len(),
{
    if frames.len() == 0 {
        0
    } else {
        work(frames.drop_last()) + cost(frames.last())
    }
}

/// One step of expanding the last file: finish it, or handle its next line.
/// The new state, and what is reported if the expansion stops here.
pub open spec fn step(v: LoaderView) -> (LoaderView, Option<StepView>) {
    if v.frames.len() == 0 || v.frames.last().lines is None {
        (v, Some(StepView::Loaded))
    } else {
        let top = v.frames.last();
        let lines = top.lines->Some_0;
        if top.pos >= lines.len() {
            let cache = v.cache.update(top.index as int, (v.cache[top.index as int].0, Some(top.out)));
            let rest = v.frames.drop_last();
            if rest.len() == 0 {
                (LoaderView { cache, frames: rest }, Some(StepView::Loaded))
            } else {
                let p = rest.last();
                let p1 = FrameView { out: p.out + top.out, needs: true, pos: p.pos + 1, ..p };
                (LoaderView { cache, frames: rest.drop_last().push(p1) }, None)
            }
        } else {
            let line = lines[top.pos as int];
            match line_kind(line) {
                LineKind::BadInclude => (abandon(v), Some(StepView::Failed(FailureKind::IncludeSyntaxError, top.path))),
                LineKind::Include(name) => match lookup(v.cache, name) {
                    Some(i) => match v.cache[i].1 {
                        Some(t) => (with_top(v, FrameView { out: top.out + t, needs: true, pos: top.pos + 1, ..top }), None),
                        None => (abandon(v), Some(StepView::Failed(FailureKind::IncludeCycle, name))),
                    },
                    None => (
                        LoaderView {
                            cache: v.cache.push((name, None)),
                            frames: v.frames.push(
                                FrameView {
                                    path: name,
                                    index: v.cache.len(),
                                    lines: None,
                                    pos: 0,
                                    out: Seq::empty(),
                                    needs: false,
                                },
                            ),
                        },
                        Some(StepView::Fetch(name)),
                    ),
                },
                LineKind::Version => (
                    with_top(v, FrameView { out: top.out + line + "\n"@, needs: true, pos: top.pos + 1, ..top }),
                    None,
                ),
                LineKind::Plain => (
                    with_top(
                        v,
                        FrameView {
                            out: top.out + (if top.needs {
                                line_directive(top.pos, top.index)
                            } else {
                                Seq::empty()
                            }) + line + "\n"@,
                            needs: false,
                            pos: top.pos + 1,
                            ..top
                        },
                    ),
                    None,
                ),
            }
        }
    }
}

/// The work of frames with one more frame on top.
pub proof fn lemma_work_push(frames: Seq<FrameView>, f: FrameView)
    ensures
        work(frames.push(f)) == work(frames) + cost(f),
{
    assert(frames.push(f).drop_last() =~= frames);
}

/// A step that does not stop the expansion leaves less work.
pub proof fn lemma_step_decreases(v: LoaderView)
    requires
        step(v).1 is None,
    ensures
        work(step(v).0.frames) < work(v.frames),
{
    let top = v.frames.last();
    let lines = top.lines->Some_0;
    let rest = v.frames.drop_last();
    assert(v.frames =~= rest.push(top));
    lemma_work_push(rest, top);
    if top.pos >= lines.len() {
        let p = rest.last();
        let p1 = FrameView { out: p.out + top.out, needs: true, pos: p.pos + 1, ..p };
        assert(rest =~= rest.drop_last().push(p));
        lemma_work_push(rest.drop_last(), p);
        lemma_work_push(rest.drop_last(), p1);
    } else {
        let n = step(v).0.frames.last();
        assert(step(v).0.frames =~= rest.push(n));
        lemma_work_push(rest, n);
    }
}

/// Expands the last file until it needs another file's text, fails, or
/// all files being loaded are done: the final state and the report.
pub open spec fn drive(v: LoaderView) -> (LoaderView, StepView)
    decreases work(v.frames),
{
    let (n, r) = step(v);
    match r {
        Some(x) => (n, x),
        None => {
            proof {
                lemma_step_decreases(v);
            }
            drive(n)
        },
    }
}

/// What starting to load `path` does.
pub open spec fn start_spec(v: LoaderView, path: Seq<char>) -> (LoaderView, StepView) {
    match lookup(v.cache, path) {
        Some(i) => match v.cache[i].1 {
            Some(_) => (v, StepView::Loaded),
            None => (v, StepView::Failed(FailureKind::IncludeCycle, path)),
        },
        None => (
            LoaderView {
                cache: v.cache.push((path, None)),
                frames: seq![
                    FrameView {
                        path,
                        index: v.cache.len(),
                        lines: None,
                        pos: 0,
                        out: Seq::empty(),
                        needs: false,
                    },
                ],
            },
            StepView::Fetch(path),
        ),
    }
}

/// What handing over the text of the file last asked for does: `None` if it
/// could not be fetched.
pub open spec fn resume_spec(v: LoaderView, text: Option<Seq<char>>) -> (LoaderView, StepView) {
    match text {
        None => (abandon(v), StepView::Failed(FailureKind::RequestFailed, v.frames.last().path)),
        Some(t) => drive(with_top(v, FrameView { lines: Some(split_lines(t)), ..v.frames.last() })),
    }
}

/// The cache position of an entry whose path is `name`, when paths are
/// unique.
proof fn lemma_lookup_found(cache: Seq<(Seq<char>, Option<Seq<char>>)>, name: Seq<char>, i: int)
    requires
        keys_unique(cache),
        0 <= i < cache.len(),
        cache[i].0 == name,
    ensures
        lookup(cache, name) == Some(i),
{
    let j = choose|j: int| 0 <= j < cache.len() && cache[j].0 == name;
    assert(cache[j].0 == cache[i].0);
}

/// A step keeps the frames consistent; if it does not stop, the last frame
/// has its lines; if it asks for a file, the new last frame waits for it;
/// otherwise no frame is left.
pub proof fn lemma_step_wf(v: LoaderView)
    requires
        frames_wf(v),
        v.frames.len() > 0,
        v.frames.last().lines is Some,
    ensures
        frames_wf(step(v).0),
        step(v).1 is None ==> step(v).0.frames.len() > 0 && step(v).0.frames.last().lines is Some,
        step(v).1 matches Some(StepView::Fetch(_)) ==> step(v).0.frames.len() > 0 && step(v).0.frames.last().lines is None,
        step(v).1 matches Some(StepView::Loaded) ==> step(v).0.frames.len() == 0,
        step(v).1 matches Some(StepView::Failed(_, _)) ==> step(v).0.frames.len() == 0,
{
    let n = step(v).0;
    let top = v.frames.last();
    let lines = top.lines->Some_0;
    let last = v.frames.len() - 1;
    assert(v.frames[last] == top);
    if top.pos >= lines.len() {
        let rest = v.frames.drop_last();
        assert forall|i: int, j: int|
            0 <= i < n.cache.len() && 0 <= j < n.cache.len() && n.cache[i].0 == n.cache[j].0 implies i == j by {
            assert(n.cache[i].0 == v.cache[i].0);
            assert(n.cache[j].0 == v.cache[j].0);
        }
        if rest.len() > 0 {
            assert forall|k: int| 0 <= k < n.frames.len() implies (#[trigger] n.frames[k]).index < n.cache.len() by {
                assert(n.frames[k].index == v.frames[k].index);
            }
            assert forall|k: int| 0 <= k < n.frames.len() implies ((#[trigger] n.frames[k]).lines matches Some(ls)
                ==> n.frames[k].pos <= ls.len()) by {
                if k < n.frames.len() - 1 {
                    assert(n.frames[k] == v.frames[k]);
                } else {
                    assert(v.frames[k].lines matches Some(ls) && v.frames[k].pos < ls.len());
                }
            }
            assert forall|k: int| 0 <= k < n.frames.len() - 1 implies ((#[trigger] n.frames[k]).lines matches Some(
                ls,
            ) && n.frames[k].pos < ls.len()) by {
                assert(n.frames[k] == v.frames[k]);
            }
            assert(v.frames[n.frames.len() - 1].lines is Some);
        }
    } else {
        let line = lines[top.pos as int];
        match line_kind(line) {
            LineKind::Include(name) => {
                match lookup(v.cache, name) {
                    Some(i) => {},
                    None => {
                        assert forall|a: int, b: int|
                            0 <= a < n.cache.len() && 0 <= b < n.cache.len() && n.cache[a].0 == n.cache[b].0 implies a
                            == b by {
                            if a < v.cache.len() && b == v.cache.len() {
                                assert(v.cache[a].0 == name);
                                assert(exists|q: int| 0 <= q < v.cache.len() && v.cache[q].0 == name);
                            }
                            if b < v.cache.len() && a == v.cache.len() {
                                assert(v.cache[b].0 == name);
                                assert(exists|q: int| 0 <= q < v.cache.len() && v.cache[q].0 == name);
                            }
                        }
                        assert forall|k: int| 0 <= k < n.frames.len() implies (#[trigger] n.frames[k]).index
                            < n.cache.len() by {
                            if k < v.frames.len() {
                                assert(n.frames[k] == v.frames[k]);
                            }
                        }
                        assert forall|k: int| 0 <= k < n.frames.len() implies ((#[trigger] n.frames[k]).lines matches Some(
                            ls,
                        ) ==> n.frames[k].pos <= ls.len()) by {
                            if k < v.frames.len() {
                                assert(n.frames[k] == v.frames[k]);
                            }
                        }
                        assert forall|k: int| 0 <= k < n.frames.len() - 1 implies ((#[trigger] n.frames[k]).lines matches Some(
                            ls,
                        ) && n.frames[k].pos < ls.len()) by {
                            assert(n.frames[k] == v.frames[k]);
                            if k < v.frames.len() - 1 {
                            } else {
                                assert(k == last);
                            }
                        }
                    },
                }
            },
            _ => {},
        }
        if step(v).1 is None {
            assert forall|k: int| 0 <= k < n.frames.len() implies (#[trigger] n.frames[k]).index < n.cache.len() by {
                if k < n.frames.len() - 1 {
                    assert(n.frames[k] == v.frames[k]);
                }
            }
            assert forall|k: int| 0 <= k < n.frames.len() implies ((#[trigger] n.frames[k]).lines matches Some(ls)
                ==> n.frames[k].pos <= ls.len()) by {
                if k < n.frames.len() - 1 {
                    assert(n.frames[k] == v.frames[k]);
                }
            }
            assert forall|k: int| 0 <= k < n.frames.len() - 1 implies ((#[trigger] n.frames[k]).lines matches Some(ls)
                && n.frames[k].pos < ls.len()) by {
                assert(n.frames[k] == v.frames[k]);
            }
        }
    }
}

/// Driving keeps the frames consistent and ends either waiting for a file
/// or with no frame left.
pub proof fn lemma_drive_wf(v: LoaderView)
    requires
        frames_wf(v),
        v.frames.len() > 0,
        v.frames.last().lines is Some,
    ensures
        frames_wf(drive(v).0),
        drive(v).1 matches StepView::Fetch(_) ==> drive(v).0.frames.len() > 0 && drive(v).0.frames.last().lines is None,
        !(drive(v).1 is Fetch) ==> drive(v).0.frames.len() == 0,
    decreases work(v.frames),
{
    lemma_step_wf(v);
    if step(v).1 is None {
        lemma_step_decreases(v);
        lemma_drive_wf(step(v).0);
    }
}

/// Including a file or keeping a `#version` line makes the next plain line
/// start with a `#line` directive.
pub open spec fn owes_directive(line: Seq<char>) -> bool {
    line_kind(line) is Include || line_kind(line) is Version
}

/// The expanded text cached for `name`, or nothing.
pub open spec fn cached_text(cache: Seq<(Seq<char>, Option<Seq<char>>)>, name: Seq<char>) -> Seq<char> {
    match lookup(cache, name) {
        Some(i) => match cache[i].1 {
            Some(t) => t,
            None => Seq::empty(),
        },
        None => Seq::empty(),
    }
}

/// What line `i` of a file with lines `lines`, at cache position `index`,
/// expands to: an included file's expanded text, a `#version` line as it
/// is, or a plain line, after a `#line` directive if the line before it was
/// an include or a `#version` line.
pub open spec fn expand_line(
    lines: Seq<Seq<char>>,
    i: int,
    index: nat,
    cache: Seq<(Seq<char>, Option<Seq<char>>)>,
) -> Seq<char> {
    match line_kind(lines[i]) {
        LineKind::Include(name) => cached_text(cache, name),
        LineKind::Version => lines[i] + "\n"@,
        LineKind::Plain => (if i > 0 && owes_directive(lines[i - 1]) {
            line_directive(i as nat, index)
        } else {
            Seq::empty()
        }) + lines[i] + "\n"@,
        LineKind::BadInclude => Seq::empty(),
    }
}

/// The expansion of the first `n` lines of a file.
pub open spec fn expansion(
    lines: Seq<Seq<char>>,
    n: int,
    index: nat,
    cache: Seq<(Seq<char>, Option<Seq<char>>)>,
) -> Seq<char>
    decreases n,
{
    if n <= 0 {
        Seq::empty()
    } else {
        expansion(lines, n - 1, index, cache) + expand_line(lines, n - 1, index, cache)
    }
}

/// Every file included by the first `n` lines is cached, expanded.
pub open spec fn includes_cached(lines: Seq<Seq<char>>, n: int, cache: Seq<(Seq<char>, Option<Seq<char>>)>) -> bool {
    forall|i: int|
        0 <= i < n ==> (#[trigger] line_kind(lines[i]) matches LineKind::Include(name) ==> (lookup(cache, name) matches Some(
            j,
        ) && cache[j].1 is Some))
}

/// A frame has produced the expansion of the lines it has done.
pub open spec fn frame_sound(f: FrameView, cache: Seq<(Seq<char>, Option<Seq<char>>)>) -> bool {
    match f.lines {
        Some(ls) => {
            &&& f.out == expansion(ls, f.pos as int, f.index, cache)
            &&& f.needs == (f.pos > 0 && owes_directive(ls[f.pos - 1]))
            &&& includes_cached(ls, f.pos as int, cache)
        },
        None => f.out.len() == 0 && !f.needs,
    }
}

/// The loader's state is sound: its frames are consistent; each file being
/// loaded has its own cache entry, still empty, under its path; each frame
/// but the last stands at the line that includes the next frame's file;
/// and every frame has produced the expansion of the lines it has done.
pub open spec fn loader_sound(v: LoaderView) -> bool {
    &&& frames_wf(v)
    &&& forall|k: int| 0 <= k < v.frames.len() ==> v.cache[(#[trigger] v.frames[k]).index as int].1 is None
    &&& forall|k: int| 0 <= k < v.frames.len() ==> v.cache[(#[trigger] v.frames[k]).index as int].0 == v.frames[k].path
    &&& forall|k1: int, k2: int|
        0 <= k1 < v.frames.len() && 0 <= k2 < v.frames.len() && #[trigger] v.frames[k1].index == #[trigger] v.frames[k2].index
            ==> k1 == k2
    &&& forall|k: int|
        0 <= k < v.frames.len() - 1 ==> line_kind((#[trigger] v.frames[k]).lines->Some_0[v.frames[k].pos as int])
            == LineKind::Include(v.frames[k + 1].path)
    &&& forall|k: int| 0 <= k < v.frames.len() ==> frame_sound(#[trigger] v.frames[k], v.cache)
}

/// The expansion of a prefix depends only on the cached texts of the files
/// it includes.
proof fn lemma_expansion_same(
    lines: Seq<Seq<char>>,
    n: int,
    index: nat,
    c1: Seq<(Seq<char>, Option<Seq<char>>)>,
    c2: Seq<(Seq<char>, Option<Seq<char>>)>,
)
    requires
        forall|i: int|
            0 <= i < n ==> (#[trigger] line_kind(lines[i]) matches LineKind::Include(name) ==> cached_text(c1, name)
                == cached_text(c2, name)),
    ensures
        expansion(lines, n, index, c1) == expansion(lines, n, index, c2),
    decreases n,
{
    if n > 0 {
        lemma_expansion_same(lines, n - 1, index, c1, c2);
        let _ = line_kind(lines[n - 1]);
    }
}

/// Giving a cache entry a text changes no lookup, and changes the cached
/// text of that entry's path only.
proof fn lemma_cache_set(cache: Seq<(Seq<char>, Option<Seq<char>>)>, ti: int, t: Seq<char>, name: Seq<char>)
    requires
        keys_unique(cache),
        0 <= ti < cache.len(),
    ensures
        keys_unique(cache.update(ti, (cache[ti].0, Some(t)))),
        lookup(cache.update(ti, (cache[ti].0, Some(t))), name) == lookup(cache, name),
        name == cache[ti].0 ==> cached_text(cache.update(ti, (cache[ti].0, Some(t))), name) == t,
        name != cache[ti].0 ==> cached_text(cache.update(ti, (cache[ti].0, Some(t))), name) == cached_text(
            cache,
            name,
        ),
{
    let c2 = cache.update(ti, (cache[ti].0, Some(t)));
    assert forall|i: int, j: int| 0 <= i < c2.len() && 0 <= j < c2.len() && c2[i].0 == c2[j].0 implies i == j by {
        assert(c2[i].0 == cache[i].0);
        assert(c2[j].0 == cache[j].0);
    }
    if exists|i: int| 0 <= i < cache.len() && cache[i].0 == name {
        let i = choose|i: int| 0 <= i < cache.len() && cache[i].0 == name;
        lemma_lookup_found(cache, name, i);
        assert(c2[i].0 == name);
        lemma_lookup_found(c2, name, i);
        if name == cache[ti].0 {
            assert(i == ti);
        } else {
            assert(i != ti);
        }
    } else {
        assert forall|i: int| 0 <= i < c2.len() implies c2[i].0 != name by {
            assert(c2[i].0 == cache[i].0);
        }
    }
}

/// Adding an entry for a path not yet cached changes no other lookup.
proof fn lemma_cache_push(cache: Seq<(Seq<char>, Option<Seq<char>>)>, name0: Seq<char>, name: Seq<char>)
    requires
        keys_unique(cache),
        lookup(cache, name0) is None,
    ensures
        keys_unique(cache.push((name0, None))),
        lookup(cache.push((name0, None)), name0) == Some(cache.len() as int),
        name != name0 ==> lookup(cache.push((name0, None)), name) == lookup(cache, name),
        name != name0 ==> cached_text(cache.push((name0, None)), name) == cached_text(cache, name),
{
    let c2 = cache.push((name0, None));
    assert forall|i: int, j: int| 0 <= i < c2.len() && 0 <= j < c2.len() && c2[i].0 == c2[j].0 implies i == j by {
        if i < cache.len() && j == cache.len() {
            assert(cache[i].0 == name0);
        }
        if j < cache.len() && i == cache.len() {
            assert(cache[j].0 == name0);
        }
    }
    lemma_lookup_found(c2, name0, cache.len() as int);
    if name != name0 {
        if exists|i: int| 0 <= i < cache.len() && cache[i].0 == name {
            let i = choose|i: int| 0 <= i < cache.len() && cache[i].0 == name;
            lemma_lookup_found(cache, name, i);
            lemma_lookup_found(c2, name, i);
        } else {
            assert forall|i: int| 0 <= i < c2.len() implies c2[i].0 != name by {
                if i < cache.len() {
                    assert(c2[i].0 == cache[i].0);
                }
            }
        }
    }
}

/// Looking up a path that no entry has finds nothing.
proof fn lemma_lookup_none(cache: Seq<(Seq<char>, Option<Seq<char>>)>, name: Seq<char>)
    requires
        lookup(cache, name) is None,
    ensures
        forall|i: int| 0 <= i < cache.len() ==> cache[i].0 != name,
{
}

/// Every step keeps the loader sound.
pub proof fn lemma_step_sound(v: LoaderView)
    requires
        loader_sound(v),
        v.frames.len() > 0,
        v.frames.last().lines is Some,
    ensures
        loader_sound(step(v).0),
{
    lemma_step_wf(v);
    let top = v.frames.last();
    let ls = top.lines->Some_0;
    if top.pos >= ls.len() {
        lemma_cache_set(v.cache, top.index as int, top.out, top.path);
        if v.frames.len() > 1 {
            lemma_sound_pop(v);
        }
    } else {
        let line = ls[top.pos as int];
        match line_kind(line) {
            LineKind::Include(name) => {
                match lookup(v.cache, name) {
                    Some(i) => {
                        if v.cache[i].1 is Some {
                            lemma_sound_advance(v);
                        }
                    },
                    None => {
                        lemma_sound_fetch(v, name);
                    },
                }
            },
            LineKind::BadInclude => {},
            _ => {
                lemma_sound_advance(v);
            },
        }
    }
}

/// A sound frame that adds the expansion of its next line stays sound.
proof fn lemma_frame_step(f: FrameView, cache: Seq<(Seq<char>, Option<Seq<char>>)>, piece: Seq<char>, needs2: bool)
    requires
        frame_sound(f, cache),
        f.lines matches Some(ls) && f.pos < ls.len(),
        piece == expand_line(f.lines->Some_0, f.pos as int, f.index, cache),
        needs2 == owes_directive(f.lines->Some_0[f.pos as int]),
        line_kind(f.lines->Some_0[f.pos as int]) matches LineKind::Include(name) ==> (lookup(cache, name) matches Some(
            j,
        ) && cache[j].1 is Some),
    ensures
        frame_sound(FrameView { out: f.out + piece, needs: needs2, pos: f.pos + 1, ..f }, cache),
{
    let ls = f.lines->Some_0;
    let pos = f.pos as int;
    assert(expansion(ls, pos + 1, f.index, cache) == expansion(ls, pos, f.index, cache) + expand_line(
        ls,
        pos,
        f.index,
        cache,
    ));
    assert(includes_cached(ls, pos + 1, cache)) by {
        assert forall|q: int| 0 <= q < pos + 1 implies (#[trigger] line_kind(ls[q]) matches LineKind::Include(name)
            ==> (lookup(cache, name) matches Some(j) && cache[j].1 is Some)) by {
            if q < pos {
            }
        }
    }
}

/// The frame that handling the next line of the sound frame `top` makes.
pub open spec fn advanced(top: FrameView, cache: Seq<(Seq<char>, Option<Seq<char>>)>) -> FrameView {
    let ls = top.lines->Some_0;
    FrameView {
        out: top.out + expand_line(ls, top.pos as int, top.index, cache),
        needs: owes_directive(ls[top.pos as int]),
        pos: top.pos + 1,
        ..top
    }
}

/// A step that neither stops nor finishes a file advances the last frame
/// by one line.
proof fn lemma_step_advances(v: LoaderView)
    requires
        v.frames.len() > 0,
        v.frames.last().lines matches Some(ls) && v.frames.last().pos < ls.len(),
        step(v).1 is None,
        frame_sound(v.frames.last(), v.cache),
    ensures
        step(v).0 == with_top(v, advanced(v.frames.last(), v.cache)),
{
    let top = v.frames.last();
    let ls = top.lines->Some_0;
    let pos = top.pos as int;
    let line = ls[pos];
    let a = advanced(top, v.cache);
    let n = step(v).0;
    match line_kind(line) {
        LineKind::Include(name) => {
            let i = lookup(v.cache, name)->Some_0;
            assert(cached_text(v.cache, name) == v.cache[i].1->Some_0);
            assert(n == with_top(v, a));
        },
        LineKind::Version => {
            let f = FrameView { out: top.out + line + "\n"@, needs: true, pos: top.pos + 1, ..top };
            assert(n == with_top(v, f));
            assert(f.out =~= a.out);
            assert(f == a);
        },
        LineKind::Plain => {
            let d = if top.needs {
                line_directive(top.pos, top.index)
            } else {
                Seq::empty()
            };
            let f = FrameView { out: top.out + d + line + "\n"@, needs: false, pos: top.pos + 1, ..top };
            assert(n == with_top(v, f));
            assert(f.out =~= a.out);
            assert(f == a);
        },
        LineKind::BadInclude => {},
    }
}

/// Handling an include of a cached file, a `#version` line or a plain line
/// keeps the loader sound.
proof fn lemma_sound_advance(v: LoaderView)
    requires
        loader_sound(v),
        v.frames.len() > 0,
        v.frames.last().lines matches Some(ls) && v.frames.last().pos < ls.len(),
        step(v).1 is None,
    ensures
        loader_sound(step(v).0),
{
    lemma_step_wf(v);
    let last = v.frames.len() - 1;
    let top = v.frames[last];
    assert(top == v.frames.last());
    assert(frame_sound(top, v.cache));
    lemma_step_advances(v);
    let ls = top.lines->Some_0;
    let line = ls[top.pos as int];
    if let LineKind::Include(name) = line_kind(line) {
        assert(lookup(v.cache, name) is Some);
    }
    lemma_frame_step(top, v.cache, expand_line(ls, top.pos as int, top.index, v.cache), owes_directive(line));
    lemma_sound_with_top(v, advanced(top, v.cache));
}

/// Finishing the last file, which another file includes, keeps the loader
/// sound.
#[verifier::spinoff_prover]
#[verifier::rlimit(30)]
proof fn lemma_sound_pop(v: LoaderView)
    requires
        loader_sound(v),
        v.frames.len() > 1,
        v.frames.last().lines matches Some(ls) && v.frames.last().pos >= ls.len(),
    ensures
        loader_sound(step(v).0),
{
    lemma_step_wf(v);
    let n = step(v).0;
    let last = v.frames.len() - 1;
    let top = v.frames[last];
    assert(top == v.frames.last());
    let ti = top.index as int;
    lemma_cache_set(v.cache, ti, top.out, top.path);
    let pk = last - 1;
    let p = v.frames[pk];
    let pls = p.lines->Some_0;
    assert(line_kind(pls[p.pos as int]) == LineKind::Include(top.path));
    assert(v.cache[ti].0 == top.path);
    assert(n.cache == v.cache.update(ti, (v.cache[ti].0, Some(top.out))));
    assert(n.frames.len() == last);
    assert forall|k: int| 0 <= k < n.frames.len() implies n.cache[(#[trigger] n.frames[k]).index as int].1 is None
        && n.cache[n.frames[k].index as int].0 == n.frames[k].path by {
        assert(n.frames[k].index == v.frames[k].index);
        assert(n.frames[k].path == v.frames[k].path);
        assert(v.frames[k].index != v.frames[last].index);
    }
    assert forall|k1: int, k2: int|
        0 <= k1 < n.frames.len() && 0 <= k2 < n.frames.len() && #[trigger] n.frames[k1].index
            == #[trigger] n.frames[k2].index implies k1 == k2 by {
        assert(n.frames[k1].index == v.frames[k1].index);
        assert(n.frames[k2].index == v.frames[k2].index);
    }
    assert forall|k: int| 0 <= k < n.frames.len() - 1 implies line_kind(
        (#[trigger] n.frames[k]).lines->Some_0[n.frames[k].pos as int],
    ) == LineKind::Include(n.frames[k + 1].path) by {
        assert(n.frames[k] == v.frames[k]);
        assert(n.frames[k + 1].path == v.frames[k + 1].path);
    }
    assert forall|k: int| 0 <= k < n.frames.len() implies frame_sound(#[trigger] n.frames[k], n.cache) by {
        lemma_frame_after_set(v, k);
        if k < pk {
            assert(n.frames[k] == v.frames[k]);
        } else {
            assert(k == pk);
            let p1 = n.frames[k];
            assert(p1.out == p.out + top.out);
            assert(cached_text(n.cache, top.path) == top.out);
            lemma_lookup_found(n.cache, top.path, ti);
            assert(expansion(pls, (p.pos + 1) as int, p.index, n.cache) == expansion(pls, p.pos as int, p.index, n.cache)
                + expand_line(pls, p.pos as int, p.index, n.cache));
            assert(includes_cached(pls, (p.pos + 1) as int, n.cache)) by {
                assert forall|i: int| 0 <= i < p.pos + 1 implies (#[trigger] line_kind(pls[i]) matches LineKind::Include(
                    name,
                ) ==> (lookup(n.cache, name) matches Some(j) && n.cache[j].1 is Some)) by {
                    if i < p.pos {
                    }
                }
            }
        }
    }
}

/// When the last file is finished, the work of each frame below it is
/// unchanged in the new cache.
proof fn lemma_frame_after_set(v: LoaderView, k: int)
    requires
        loader_sound(v),
        v.frames.len() > 1,
        0 <= k < v.frames.len() - 1,
    ensures
        ({
            let top = v.frames.last();
            let c2 = v.cache.update(top.index as int, (v.cache[top.index as int].0, Some(top.out)));
            let f = v.frames[k];
            &&& expansion(f.lines->Some_0, f.pos as int, f.index, c2) == expansion(
                f.lines->Some_0,
                f.pos as int,
                f.index,
                v.cache,
            )
            &&& includes_cached(f.lines->Some_0, f.pos as int, c2)
        }),
{
    let last = v.frames.len() - 1;
    let top = v.frames[last];
    assert(top == v.frames.last());
    let ti = top.index as int;
    let c2 = v.cache.update(ti, (v.cache[ti].0, Some(top.out)));
    let f = v.frames[k];
    assert(frame_sound(f, v.cache));
    let fls = f.lines->Some_0;
    assert forall|i: int| 0 <= i < f.pos implies (#[trigger] line_kind(fls[i]) matches LineKind::Include(name)
        ==> cached_text(c2, name) == cached_text(v.cache, name) && (lookup(c2, name) matches Some(j) && c2[j].1 is Some)) by {
        if let LineKind::Include(name) = line_kind(fls[i]) {
            lemma_cache_set(v.cache, ti, top.out, name);
            if name == v.cache[ti].0 {
                lemma_lookup_found(v.cache, name, ti);
            }
        }
    }
    lemma_expansion_same(fls, f.pos as int, f.index, c2, v.cache);
}

/// Asking for a file not yet cached keeps the loader sound.
#[verifier::spinoff_prover]
#[verifier::rlimit(30)]
proof fn lemma_sound_fetch(v: LoaderView, name: Seq<char>)
    requires
        loader_sound(v),
        v.frames.len() > 0,
        v.frames.last().lines matches Some(ls) && v.frames.last().pos < ls.len(),
        line_kind(v.frames.last().lines->Some_0[v.frames.last().pos as int]) == LineKind::Include(name),
        lookup(v.cache, name) is None,
    ensures
        loader_sound(step(v).0),
{
    lemma_step_wf(v);
    let n = step(v).0;
    lemma_lookup_none(v.cache, name);
    lemma_cache_push(v.cache, name, name);
    assert(n.cache == v.cache.push((name, None)));
    assert(n.frames.len() == v.frames.len() + 1);
    assert forall|k: int| 0 <= k < n.frames.len() implies n.cache[(#[trigger] n.frames[k]).index as int].1 is None
        && n.cache[n.frames[k].index as int].0 == n.frames[k].path by {
        if k < v.frames.len() {
            assert(n.frames[k] == v.frames[k]);
        }
    }
    assert forall|k1: int, k2: int|
        0 <= k1 < n.frames.len() && 0 <= k2 < n.frames.len() && #[trigger] n.frames[k1].index
            == #[trigger] n.frames[k2].index implies k1 == k2 by {
        if k1 < v.frames.len() {
            assert(n.frames[k1] == v.frames[k1]);
        }
        if k2 < v.frames.len() {
            assert(n.frames[k2] == v.frames[k2]);
        }
    }
    assert forall|k: int| 0 <= k < n.frames.len() - 1 implies line_kind(
        (#[trigger] n.frames[k]).lines->Some_0[n.frames[k].pos as int],
    ) == LineKind::Include(n.frames[k + 1].path) by {
        assert(n.frames[k] == v.frames[k]);
        if k + 1 < v.frames.len() {
            assert(n.frames[k + 1] == v.frames[k + 1]);
        }
    }
    assert forall|k: int| 0 <= k < n.frames.len() implies frame_sound(#[trigger] n.frames[k], n.cache) by {
        if k < v.frames.len() {
            let f = v.frames[k];
            assert(n.frames[k] == f);
            assert(frame_sound(f, v.cache));
            if f.lines is Some {
                let fls = f.lines->Some_0;
                assert forall|q: int| 0 <= q < f.pos implies (#[trigger] line_kind(fls[q]) matches LineKind::Include(nm)
                    ==> cached_text(n.cache, nm) == cached_text(v.cache, nm) && (lookup(n.cache, nm) matches Some(j)
                    && n.cache[j].1 is Some)) by {
                    if let LineKind::Include(nm) = line_kind(fls[q]) {
                        let j = lookup(v.cache, nm)->Some_0;
                        lemma_cache_push(v.cache, name, nm);
                    }
                }
                lemma_expansion_same(fls, f.pos as int, f.index, n.cache, v.cache);
            }
        }
    }
}

/// Replacing the last frame by a frame with the same path and position in
/// the cache, whose work is sound, keeps the loader sound.
proof fn lemma_sound_with_top(v: LoaderView, f: FrameView)
    requires
        loader_sound(v),
        v.frames.len() > 0,
        frames_wf(with_top(v, f)),
        f.path == v.frames.last().path,
        f.index == v.frames.last().index,
        frame_sound(f, v.cache),
    ensures
        loader_sound(with_top(v, f)),
{
    let n = with_top(v, f);
    let last = v.frames.len() - 1;
    assert(n.frames[last] == f);
    assert forall|k: int| 0 <= k < n.frames.len() implies n.cache[(#[trigger] n.frames[k]).index as int].1 is None
        && n.cache[n.frames[k].index as int].0 == n.frames[k].path by {
        if k < last {
            assert(n.frames[k] == v.frames[k]);
        }
    }
    assert forall|k1: int, k2: int|
        0 <= k1 < n.frames.len() && 0 <= k2 < n.frames.len() && #[trigger] n.frames[k1].index == #[trigger] n.frames[k2].index
            implies k1 == k2 by {
        assert(n.frames[k1].index == v.frames[k1].index);
        assert(n.frames[k2].index == v.frames[k2].index);
    }
    assert forall|k: int| 0 <= k < n.frames.len() - 1 implies line_kind(
        (#[trigger] n.frames[k]).lines->Some_0[n.frames[k].pos as int],
    ) == LineKind::Include(n.frames[k + 1].path) by {
        assert(n.frames[k] == v.frames[k]);
        assert(n.frames[k + 1].path == v.frames[k + 1].path);
    }
    assert forall|k: int| 0 <= k < n.frames.len() implies frame_sound(#[trigger] n.frames[k], n.cache) by {
        if k < last {
            assert(n.frames[k] == v.frames[k]);
        }
    }
}

/// Expanding keeps the loader sound.
pub proof fn lemma_drive_sound(v: LoaderView)
    requires
        loader_sound(v),
        v.frames.len() > 0,
        v.frames.last().lines is Some,
    ensures
        loader_sound(drive(v).0),
    decreases work(v.frames),
{
    lemma_step_wf(v);
    lemma_step_sound(v);
    if step(v).1 is None {
        lemma_step_decreases(v);
        lemma_drive_sound(step(v).0);
    }
}

/// When a file is finished, the text cached for it is the expansion of all
/// its lines: each include replaced by the included file's cached text,
/// each `#version` line kept, and each plain line kept, after a `#line`
/// directive where it follows an include or a `#version` line.
pub proof fn lemma_finished_file_is_expanded(v: LoaderView)
    requires
        loader_sound(v),
        v.frames.len() > 0,
        v.frames.last().lines matches Some(ls) && v.frames.last().pos >= ls.len(),
    ensures
        ({
            let top = v.frames.last();
            let ls = top.lines->Some_0;
            step(v).0.cache[top.index as int] == (top.path, Some(expansion(ls, ls.len() as int, top.index, v.cache)))
        }),
{
    let last = v.frames.len() - 1;
    let top = v.frames[last];
    assert(top == v.frames.last());
    assert(frame_sound(top, v.cache));
    assert(v.cache[top.index as int].0 == top.path);
}

/// A file's cached text, once there, is never changed by a step.
pub proof fn lemma_cached_text_stays(v: LoaderView, i: int)
    requires
        loader_sound(v),
        v.frames.len() > 0,
        v.frames.last().lines is Some,
        0 <= i < v.cache.len(),
        v.cache[i].1 is Some,
    ensures
        step(v).0.cache[i] == v.cache[i],
{
    let last = v.frames.len() - 1;
    assert(v.frames[last] == v.frames.last());
}

/// Starting a load keeps the loader sound.
proof fn lemma_start_sound(v: LoaderView, path: Seq<char>)
    requires
        loader_sound(v),
        v.frames.len() == 0,
    ensures
        loader_sound(start_spec(v, path).0),
{
    if lookup(v.cache, path) is None {
        let n = start_spec(v, path).0;
        lemma_lookup_none(v.cache, path);
        lemma_cache_push(v.cache, path, path);
        assert(n.frames[0].index == v.cache.len());
    }
}

/// Handing over a fetched text keeps the loader sound.
proof fn lemma_resume_sound(v: LoaderView, t: Seq<char>)
    requires
        loader_sound(v),
        v.frames.len() > 0,
        v.frames.last().lines is None,
    ensures
        loader_sound(with_top(v, FrameView { lines: Some(split_lines(t)), ..v.frames.last() })),
        frames_wf(with_top(v, FrameView { lines: Some(split_lines(t)), ..v.frames.last() })),
{
    let last = v.frames.len() - 1;
    let top = v.frames[last];
    assert(top == v.frames.last());
    assert(frame_sound(top, v.cache));
    assert(top.pos == 0);
    let f = FrameView { lines: Some(split_lines(t)), ..top };
    let w = with_top(v, f);
    assert(w.frames[last] == f);
    assert(f.out =~= expansion(split_lines(t), 0, f.index, v.cache));
    assert(frame_sound(f, v.cache));
    assert forall|k: int| 0 <= k < w.frames.len() implies (#[trigger] w.frames[k]).index < w.cache.len() by {
        if k < last {
            assert(w.frames[k] == v.frames[k]);
        }
    }
    assert forall|k: int| 0 <= k < w.frames.len() implies ((#[trigger] w.frames[k]).lines matches Some(ls) ==> w.frames[k].pos
        <= ls.len()) by {
        if k < last {
            assert(w.frames[k] == v.frames[k]);
        }
    }
    assert forall|k: int| 0 <= k < w.frames.len() - 1 implies ((#[trigger] w.frames[k]).lines matches Some(ls)
        && w.frames[k].pos < ls.len()) by {
        assert(w.frames[k] == v.frames[k]);
    }
    assert forall|k: int| 0 <= k < w.frames.len() implies ((#[trigger] w.frames[k]).lines is None ==> w.frames[k].pos == 0) by {
        if k < last {
            assert(w.frames[k] == v.frames[k]);
        }
    }
    assert(frames_wf(w));
    lemma_sound_with_top(v, f);
}

impl ShaderLoader {
    /// A loader with an empty cache.
    pub fn new() -> (r: ShaderLoader)
        ensures
            r@.cache == Seq::<(Seq<char>, Option<Seq<char>>)>::empty(),
            r@.frames == Seq::<FrameView>::empty(),
            loader_sound(r@),
    {
        let r = ShaderLoader { cache: cache_new(), frames: Vec::new() };
        assert(r@.frames =~= Seq::<FrameView>::empty());
        r
    }

    /// The expanded source of `path`, if it was loaded; a path whose
    /// loading has not finished must not be asked for.
    pub fn get(&self, path: &str) -> (r: Option<&str>)
        requires
            keys_unique(self@.cache),
            lookup(self@.cache, path@) matches Some(i) ==> self@.cache[i].1 is Some,
        ensures
            match r {
                Some(t) => lookup(self@.cache, path@) matches Some(i) && self@.cache[i].1 == Some(t@),
                None => lookup(self@.cache, path@) is None,
            },
    {
        match cache_get(&self.cache, path) {
            Some(entry) => {
                proof {
                    let i = choose|i: int|
                        0 <= i < self@.cache.len() && self@.cache[i].0 == path@ && self@.cache[i].1 == opt_text(*entry);
                    lemma_lookup_found(self@.cache, path@, i);
                }
                match entry {
                    Some(t) => Some(t.as_str()),
                    None => vstd::pervasive::unreached(),
                }
            },
            None => None,
        }
    }

    /// The path of the source with the given position in the cache, the
    /// number that `#line` directives give it.
    pub fn get_path(&self, source_index: usize) -> (r: Option<&str>)
        ensures
            match r {
                Some(p) => source_index < self@.cache.len() && p@ == self@.cache[source_index as int].0,
                None => source_index >= self@.cache.len(),
            },
    {
        match cache_get_index(&self.cache, source_index) {
            Some((p, _)) => Some(p.as_str()),
            None => None,
        }
    }

    /// Starts loading `path`: reports at once if it is loaded or being
    /// loaded, and otherwise asks for its text.
    pub fn start_load(&mut self, path: &str) -> (r: LoadStep)
        requires
            loader_sound(old(self)@),
            old(self)@.frames.len() == 0,
        ensures
            (final(self)@, step_view(r)) == start_spec(old(self)@, path@),
            loader_sound(final(self)@),
            step_view(r) matches StepView::Fetch(_) ==> final(self)@.frames.len() > 0
                && final(self)@.frames.last().lines is None,
            !(step_view(r) is Fetch) ==> final(self)@.frames.len() == 0,
    {
        let ghost v = self@;
        match cache_get(&self.cache, path) {
            Some(entry) => {
                proof {
                    let i = choose|i: int| 0 <= i < v.cache.len() && v.cache[i].0 == path@ && v.cache[i].1 == opt_text(*entry);
                    lemma_lookup_found(v.cache, path@, i);
                }
                match entry {
                    Some(_) => LoadStep::Done(Ok(())),
                    None => LoadStep::Done(Err(ShaderLoaderError::IncludeCycle(String::from_str(path)))),
                }
            },
            None => {
                let (index, _) = cache_insert_full(&mut self.cache, String::from_str(path), None);
                self.frames.push(
                    Frame { path: String::from_str(path), index, lines: None, pos: 0, out: String::new(), needs: false },
                );
                proof {
                    let nv = start_spec(v, path@).0;
                    assert(self@.frames =~= nv.frames);
                    assert(self@.cache =~= nv.cache);
                    lemma_start_sound(v, path@);
                }
                LoadStep::Fetch(String::from_str(path))
            },
        }
    }

    /// Hands over the text of the file last asked for, or `Err` if it could
    /// not be fetched, and goes on expanding.
    pub fn resume_load(&mut self, text: Result<String, ()>) -> (r: LoadStep)
        requires
            loader_sound(old(self)@),
            old(self)@.frames.len() > 0,
            old(self)@.frames.last().lines is None,
        ensures
            (final(self)@, step_view(r)) == resume_spec(
                old(self)@,
                match text {
                    Ok(t) => Some(t@),
                    Err(_) => None,
                },
            ),
            loader_sound(final(self)@),
            step_view(r) matches StepView::Fetch(_) ==> final(self)@.frames.len() > 0
                && final(self)@.frames.last().lines is None,
            !(step_view(r) is Fetch) ==> final(self)@.frames.len() == 0,
    {
        let ghost v = self@;
        let mut top = self.frames.pop().unwrap();
        match text {
            Err(_) => {
                self.frames = Vec::new();
                proof {
                    assert(self@.frames =~= Seq::<FrameView>::empty());
                    assert(frame_view(top) == v.frames.last());
                }
                LoadStep::Done(Err(ShaderLoaderError::RequestFailed(top.path)))
            },
            Ok(t) => {
                let lines = split_lines_of(t.as_str());
                top.lines = Some(lines);
                self.frames.push(top);
                proof {
                    let w = with_top(v, FrameView { lines: Some(split_lines(t@)), ..v.frames.last() });
                    assert(self@.frames =~= w.frames);
                    lemma_resume_sound(v, t@);
                    lemma_drive_sound(w);
                    lemma_drive_wf(w);
                }
                self.drive()
            },
        }
    }

    /// Expands the last file until it needs another file's text, fails, or
    /// all files being loaded are done.
    fn drive(&mut self) -> (r: LoadStep)
        requires
            frames_wf(old(self)@),
            old(self)@.frames.len() > 0,
            old(self)@.frames.last().lines is Some,
        ensures
            (final(self)@, step_view(r)) == drive(old(self)@),
    {
        loop
            invariant
                frames_wf(self@),
                self@.frames.len() > 0,
                self@.frames.last().lines is Some,
                drive(self@) == drive(old(self)@),
            decreases work(self@.frames),
        {
            let ghost v = self@;
            proof {
                lemma_step_wf(v);
            }
            let mut top = self.frames.pop().unwrap();
            let ghost rest = self@;
            assert(v.frames =~= rest.frames.push(frame_view(top)));
            let n_lines = match &top.lines {
                Some(ls) => ls.len(),
                None => vstd::pervasive::unreached(),
            };
            if top.pos >= n_lines {
                let text = top.out.clone();
                cache_set_index(&mut self.cache, top.index, Some(top.out));
                if self.frames.len() == 0 {
                    proof {
                        assert(self@.frames =~= step(v).0.frames);
                        assert(self@.cache == step(v).0.cache);
                    }
                    return LoadStep::Done(Ok(()));
                }
                let mut parent = self.frames.pop().unwrap();
                proof {
                    assert(v.frames[v.frames.len() - 2] == frame_view(parent));
                }
                let parent_len = match &parent.lines {
                    Some(ls) => ls.len(),
                    None => vstd::pervasive::unreached(),
                };
                assert(parent.pos < parent_len);
                parent.out.append(text.as_str());
                parent.needs = true;
                parent.pos = parent.pos + 1;
                self.frames.push(parent);
                proof {
                    assert(self@.frames =~= step(v).0.frames);
                    assert(self@ == step(v).0);
                    lemma_step_decreases(v);
                }
            } else {
                let kind = match &top.lines {
                    Some(ls) => classify_line(ls[top.pos].as_str()),
                    None => vstd::pervasive::unreached(),
                };
                let ghost line = top.lines->Some_0@[top.pos as int]@;
                assert(frame_view(top).lines->Some_0[top.pos as int] == line);
                match kind {
                    ShaderLine::BadInclude => {
                        self.frames = Vec::new();
                        proof {
                            assert(self@.frames =~= Seq::<FrameView>::empty());
                        }
                        return LoadStep::Done(Err(ShaderLoaderError::IncludeSyntaxError(top.path)));
                    },
                    ShaderLine::Include(name) => {
                        match cache_get(&self.cache, name.as_str()) {
                            Some(Some(t)) => {
                                proof {
                                    let i = choose|i: int|
                                        0 <= i < v.cache.len() && v.cache[i].0 == name@ && v.cache[i].1 == Some(t@);
                                    lemma_lookup_found(v.cache, name@, i);
                                }
                                top.out.append(t.as_str());
                                top.needs = true;
                                top.pos = top.pos + 1;
                                self.frames.push(top);
                                proof {
                                    assert(self@.frames =~= step(v).0.frames);
                                    lemma_step_decreases(v);
                                }
                            },
                            Some(None) => {
                                proof {
                                    let i = choose|i: int|
                                        0 <= i < v.cache.len() && v.cache[i].0 == name@ && v.cache[i].1 == opt_text(None);
                                    lemma_lookup_found(v.cache, name@, i);
                                }
                                self.frames = Vec::new();
                                proof {
                                    assert(self@.frames =~= Seq::<FrameView>::empty());
                                }
                                return LoadStep::Done(Err(ShaderLoaderError::IncludeCycle(name)));
                            },
                            None => {
                                let (index, _) = cache_insert_full(&mut self.cache, name.clone(), None);
                                let path = name.clone();
                                self.frames.push(top);
                                self.frames.push(
                                    Frame { path, index, lines: None, pos: 0, out: String::new(), needs: false },
                                );
                                proof {
                                    assert(self@.frames =~= step(v).0.frames);
                                }
                                return LoadStep::Fetch(name);
                            },
                        }
                    },
                    ShaderLine::Version => {
                        match &top.lines {
                            Some(ls) => {
                                top.out.append(ls[top.pos].as_str());
                            },
                            None => vstd::pervasive::unreached(),
                        }
                        top.out.append("\n");
                        top.needs = true;
                        top.pos = top.pos + 1;
                        self.frames.push(top);
                        proof {
                            assert(self@.frames =~= step(v).0.frames);
                            lemma_step_decreases(v);
                        }
                    },
                    ShaderLine::Plain => {
                        let ghost start = top.out@;
                        let ghost directive = if top.needs {
                            line_directive(top.pos as nat, top.index as nat)
                        } else {
                            Seq::<char>::empty()
                        };
                        if top.needs {
                            top.out.append("#line ");
                            top.out.append(usize_to_string(top.pos).as_str());
                            top.out.append(" ");
                            top.out.append(usize_to_string(top.index).as_str());
                            top.out.append("\n");
                        }
                        match &top.lines {
                            Some(ls) => {
                                top.out.append(ls[top.pos].as_str());
                            },
                            None => vstd::pervasive::unreached(),
                        }
                        top.out.append("\n");
                        assert(top.out@ =~= start + directive + line + "\n"@);
                        top.needs = false;
                        top.pos = top.pos + 1;
                        self.frames.push(top);
                        proof {
                            assert(self@.frames =~= step(v).0.frames);
                            lemma_step_decreases(v);
                        }
                    },
                }
            }
        }
    }
}

} // verus!
