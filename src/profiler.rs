//! The hierarchical profiler: labelled spans opened and closed in strict LIFO
//! order, each charging its run time to its parent, and the per-label report
//! of hit counts and inclusive and exclusive ticks.

use vstd::prelude::*;

verus! {

/// One timed execution of a labelled region.
pub struct ProfilerEntryData {
    pub identifier: String,
    pub start: u64,
    pub end: Option<u64>,
    /// Position in the profiler's log.
    pub index: usize,
    pub parent_index: Option<usize>,
    /// Number of spans that were open when this one was pushed.
    pub ancestors: usize,
    /// Ticks of the closed direct children.
    pub children_elapsed: u64,
}

/// A span, as a function or as a block of code; both behave alike.
pub enum ProfilerEntry {
    Function(ProfilerEntryData),
    CodeBlock(ProfilerEntryData),
}

impl ProfilerEntry {
    pub open spec fn data(self) -> ProfilerEntryData {
        match self {
            ProfilerEntry::Function(d) => d,
            ProfilerEntry::CodeBlock(d) => d,
        }
    }

    /// The same kind of entry holding `d`.
    pub open spec fn with_data(self, d: ProfilerEntryData) -> ProfilerEntry {
        match self {
            ProfilerEntry::Function(_) => ProfilerEntry::Function(d),
            ProfilerEntry::CodeBlock(_) => ProfilerEntry::CodeBlock(d),
        }
    }

    pub fn identifier(&self) -> (r: &str)
        ensures
            r@ == self.data().identifier@,
    {
        self.inner().identifier.as_str()
    }

    pub fn index(&self) -> (r: usize)
        ensures
            r == self.data().index,
    {
        self.inner().index
    }

    pub fn inner(&self) -> (r: &ProfilerEntryData)
        ensures
            *r == self.data(),
    {
        match self {
            ProfilerEntry::Function(d) => d,
            ProfilerEntry::CodeBlock(d) => d,
        }
    }

    pub fn inner_mut(&mut self) -> (r: &mut ProfilerEntryData)
        ensures
            *r == old(self).data(),
            *final(self) == old(self).with_data(*final(r)),
    {
        match self {
            ProfilerEntry::Function(d) => d,
            ProfilerEntry::CodeBlock(d) => d,
        }
    }

    pub fn parent(&self) -> (r: Option<usize>)
        ensures
            r == self.data().parent_index,
    {
        self.inner().parent_index
    }

    /// Charges `elapsed` ticks of a closed child to this span.
    pub fn add_child_elapsed(&mut self, elapsed: u64)
        requires
            old(self).data().children_elapsed + elapsed <= u64::MAX,
        ensures
            *final(self) == old(self).with_data(
                ProfilerEntryData {
                    children_elapsed: (old(self).data().children_elapsed + elapsed) as u64,
                    ..old(self).data()
                },
            ),
    {
        let data = self.inner_mut();
        data.children_elapsed = data.children_elapsed + elapsed;
    }

    pub fn get_child_elapsed(&self) -> (r: u64)
        ensures
            r == self.data().children_elapsed,
    {
        self.inner().children_elapsed
    }

    /// Ticks from the span's start to its end.
    pub fn compute_runtime(&self) -> (r: u64)
        requires
            self.data().end matches Some(e) && self.data().start <= e,
        ensures
            r == runtime(self.data()),
    {
        let data = self.inner();
        match data.end {
            Some(e) => e - data.start,
            None => 0,
        }
    }
}

impl ProfilerEntryData {
    /// An open span labelled `identifier` that starts at tick `start`,
    /// created while `profiler` has the spans of its stack open: its parent is
    /// the innermost open span (none at the root), its depth the number of
    /// open spans, and its place the next position of the log.
    pub fn init(profiler: &GlobalProfilerWrapper, identifier: &str, start: u64) -> (r: ProfilerEntryData)
        ensures
            r.identifier@ == identifier@,
            r.start == start,
            r.end is None,
            r.index == profiler@.log.len(),
            r.parent_index == if profiler@.stack.len() == 0 {
                None
            } else {
                Some(profiler@.stack.last())
            },
            r.ancestors == profiler@.stack.len(),
            r.children_elapsed == 0,
    {
        ProfilerEntryData {
            identifier: identifier.to_owned(),
            start,
            end: None,
            index: profiler.entry_count(),
            parent_index: profiler.innermost(),
            ancestors: profiler.0.stack.len(),
            children_elapsed: 0,
        }
    }
}

/// Ticks from a span's start to its end; zero while it is open.
pub open spec fn runtime(d: ProfilerEntryData) -> int {
    match d.end {
        Some(e) => e - d.start,
        None => 0,
    }
}

/// Ticks of the closed spans that were pushed with no span open.
pub open spec fn root_ticks(log: Seq<ProfilerEntryData>) -> int
    decreases log.len(),
{
    if log.len() == 0 {
        0
    } else {
        root_ticks(log.drop_last()) + if log.last().ancestors == 0 {
            runtime(log.last())
        } else {
            0
        }
    }
}

/// The abstract state of a profiler.
pub ghost struct ProfilerModel {
    /// Tick at which profiling started.
    pub start: u64,
    /// Tick at which profiling ended, once it has.
    pub end: Option<u64>,
    /// Every span pushed so far, in the order of pushing.
    pub log: Seq<ProfilerEntryData>,
    /// Log positions of the open spans, outermost first.
    pub stack: Seq<usize>,
    /// The latest tick recorded.
    pub clock: u64,
}

impl ProfilerModel {
    /// Start tick of the span above stack position `k`, or the clock for the
    /// innermost one.
    pub open spec fn next_start(self, k: int) -> int {
        if k + 1 < self.stack.len() {
            self.log[self.stack[k + 1] as int].start as int
        } else {
            self.clock as int
        }
    }

    /// Log position `i` holds a span that knows its place, lies within the
    /// recorded ticks, and is either closed with its children's ticks within
    /// its own, or open and on the stack at its depth.
    pub open spec fn entry_ok(self, i: int) -> bool {
        let d = self.log[i];
        &&& d.index == i
        &&& self.start <= d.start <= self.clock
        &&& match d.end {
            Some(e) => d.start <= e <= self.clock && d.children_elapsed <= e - d.start,
            None => d.ancestors < self.stack.len() && self.stack[d.ancestors as int] == i,
        }
    }

    /// Stack position `k` holds an open span of depth `k` whose parent is the
    /// span below it, and whose children's ticks end before the span above
    /// it started.
    pub open spec fn stack_ok(self, k: int) -> bool {
        let i = self.stack[k] as int;
        &&& i < self.log.len()
        &&& self.log[i].end is None
        &&& self.log[i].ancestors == k
        &&& self.log[i].parent_index == if k == 0 {
            None
        } else {
            Some(self.stack[k - 1])
        }
        &&& self.log[i].children_elapsed <= self.next_start(k) - self.log[i].start
    }

    /// The closed root spans fit between the start and the first open span
    /// (or the clock).
    pub open spec fn roots_ok(self) -> bool {
        root_ticks(self.log) <= if self.stack.len() > 0 {
            self.log[self.stack[0] as int].start - self.start
        } else {
            self.clock - self.start
        }
    }

    pub open spec fn wf(self) -> bool {
        &&& self.log.len() < usize::MAX
        &&& self.stack.len() <= self.log.len()
        &&& self.start <= self.clock
        &&& forall|i: int| 0 <= i < self.log.len() ==> #[trigger] self.entry_ok(i)
        &&& forall|k: int| 0 <= k < self.stack.len() ==> #[trigger] self.stack_ok(k)
        &&& self.roots_ok()
        &&& self.end matches Some(e) ==> self.stack.len() == 0 && e == self.clock
    }

    /// The span that `push` appends for an entry starting at `start`.
    pub open spec fn pushed(self, identifier: String, start: u64) -> ProfilerEntryData {
        ProfilerEntryData {
            identifier,
            start,
            end: None,
            index: self.log.len() as usize,
            parent_index: if self.stack.len() == 0 {
                None
            } else {
                Some(self.stack.last())
            },
            ancestors: self.stack.len() as usize,
            children_elapsed: 0,
        }
    }

    /// The log after the innermost span closes at tick `now`: it gets its end
    /// tick, and its parent, if any, is charged its run time.
    pub open spec fn closed_log(self, now: u64) -> Seq<ProfilerEntryData> {
        let t = self.stack.last() as int;
        let closed = ProfilerEntryData { end: Some(now), ..self.log[t] };
        let log = self.log.update(t, closed);
        if self.stack.len() > 1 {
            let p = self.stack[self.stack.len() - 2] as int;
            log.update(
                p,
                ProfilerEntryData {
                    children_elapsed: (self.log[p].children_elapsed + (now
                        - self.log[t].start)) as u64,
                    ..self.log[p]
                },
            )
        } else {
            log
        }
    }
}

/// One line of the report: everything measured under one label.
pub struct ProfilerMetricEntry {
    pub identifier: String,
    pub elapsed_inclusive: u128,
    pub elapsed_exclusive: u128,
    pub hit_count: u64,
    /// Depth of the label's first span.
    pub ancestors_count: usize,
    /// Rank of the label in the order of first appearance.
    pub insert_index: usize,
}

/// Number of spans labelled `l`.
pub open spec fn label_count(log: Seq<ProfilerEntryData>, l: Seq<char>) -> nat
    decreases log.len(),
{
    if log.len() == 0 {
        0
    } else {
        label_count(log.drop_last(), l) + if log.last().identifier@ == l {
            1nat
        } else {
            0nat
        }
    }
}

/// Ticks of the spans labelled `l`, children included.
pub open spec fn label_inclusive(log: Seq<ProfilerEntryData>, l: Seq<char>) -> int
    decreases log.len(),
{
    if log.len() == 0 {
        0
    } else {
        label_inclusive(log.drop_last(), l) + if log.last().identifier@ == l {
            runtime(log.last())
        } else {
            0
        }
    }
}

/// Ticks charged to the spans labelled `l` by their direct children.
pub open spec fn label_child_ticks(log: Seq<ProfilerEntryData>, l: Seq<char>) -> int
    decreases log.len(),
{
    if log.len() == 0 {
        0
    } else {
        label_child_ticks(log.drop_last(), l) + if log.last().identifier@ == l {
            log.last().children_elapsed as int
        } else {
            0
        }
    }
}

/// Ticks of the spans labelled `l`, less the ticks of their direct children.
pub open spec fn label_exclusive(log: Seq<ProfilerEntryData>, l: Seq<char>) -> int {
    label_inclusive(log, l) - label_child_ticks(log, l)
}

/// Depth of the first span labelled `l`.
pub open spec fn first_depth(log: Seq<ProfilerEntryData>, l: Seq<char>) -> nat
    decreases log.len(),
{
    if log.len() == 0 {
        0
    } else if label_count(log.drop_last(), l) > 0 {
        first_depth(log.drop_last(), l)
    } else {
        log.last().ancestors as nat
    }
}

/// The labels of the log, each once, in the order of first appearance.
pub open spec fn distinct_labels(log: Seq<ProfilerEntryData>) -> Seq<Seq<char>>
    decreases log.len(),
{
    if log.len() == 0 {
        Seq::empty()
    } else if label_count(log.drop_last(), log.last().identifier@) > 0 {
        distinct_labels(log.drop_last())
    } else {
        distinct_labels(log.drop_last()).push(log.last().identifier@)
    }
}

/// Report line `k` for `log`: the `k`-th label in order of first appearance,
/// with its hit count, inclusive and exclusive ticks and first depth.
pub open spec fn metric_ok(m: ProfilerMetricEntry, log: Seq<ProfilerEntryData>, k: int) -> bool {
    let l = distinct_labels(log)[k];
    &&& m.identifier@ == l
    &&& m.hit_count == label_count(log, l)
    &&& m.elapsed_inclusive == label_inclusive(log, l)
    &&& m.elapsed_exclusive == label_exclusive(log, l)
    &&& m.ancestors_count == first_depth(log, l)
    &&& m.insert_index == k
}

/// `ms` is the report of `log`: one line per distinct label, in the order of
/// first appearance.
pub open spec fn is_report(ms: Seq<ProfilerMetricEntry>, log: Seq<ProfilerEntryData>) -> bool {
    &&& ms.len() == distinct_labels(log).len()
    &&& forall|k: int| 0 <= k < ms.len() ==> #[trigger] metric_ok(ms[k], log, k)
}

/// Every span of the log is closed, with its children's ticks within its own.
pub open spec fn all_closed(log: Seq<ProfilerEntryData>) -> bool {
    forall|i: int|
        0 <= i < log.len() ==> ((#[trigger] log[i]).end matches Some(e) && log[i].start <= e
            && log[i].children_elapsed <= e - log[i].start)
}

proof fn lemma_distinct_labels(log: Seq<ProfilerEntryData>)
    ensures
        forall|k: int|
            0 <= k < distinct_labels(log).len() ==> label_count(log, #[trigger] distinct_labels(log)[k])
                > 0,
        forall|a: int, b: int|
            0 <= a < b < distinct_labels(log).len() ==> #[trigger] distinct_labels(log)[a]
                != #[trigger] distinct_labels(log)[b],
        forall|l: Seq<char>| #[trigger]
            label_count(log, l) > 0 ==> distinct_labels(log).contains(l),
    decreases log.len(),
{
    if log.len() > 0 {
        let prev = log.drop_last();
        lemma_distinct_labels(prev);
        let d = distinct_labels(log);
        let dp = distinct_labels(prev);
        assert forall|k: int| 0 <= k < d.len() implies label_count(log, #[trigger] d[k]) > 0 by {
            if k < dp.len() {
                assert(d[k] == dp[k]);
            }
        }
        assert forall|a: int, b: int| 0 <= a < b < d.len() implies #[trigger] d[a] != #[trigger] d[b] by {
            if b < dp.len() {
                assert(d[a] == dp[a] && d[b] == dp[b]);
            } else {
                assert(d[a] == dp[a]);
            }
        }
        assert forall|l: Seq<char>| #[trigger] label_count(log, l) > 0 implies d.contains(l) by {
            if label_count(prev, l) > 0 {
                let k = choose|k: int| 0 <= k < dp.len() && dp[k] == l;
                assert(d[k] == l);
            } else {
                assert(d[d.len() - 1] == l);
            }
        }
    }
}

proof fn lemma_label_bounds(log: Seq<ProfilerEntryData>, l: Seq<char>)
    requires
        all_closed(log),
    ensures
        0 <= label_child_ticks(log, l) <= label_inclusive(log, l),
        label_inclusive(log, l) <= label_count(log, l) * u64::MAX,
        label_count(log, l) <= log.len(),
    decreases log.len(),
{
    if log.len() > 0 {
        let prev = log.drop_last();
        assert forall|i: int| 0 <= i < prev.len() implies ((#[trigger] prev[i]).end matches Some(e)
            && prev[i].start <= e && prev[i].children_elapsed <= e - prev[i].start) by {
            assert(prev[i] == log[i]);
        }
        lemma_label_bounds(prev, l);
        assert(log[log.len() - 1] == log.last());
        let c = label_count(prev, l) as int;
        assert(c * u64::MAX + u64::MAX == (c + 1) * u64::MAX) by (nonlinear_arith);
    }
}

/// Profiling state: the span log and the stack of open spans.
pub struct GlobalProfiler {
    start: u64,
    end: Option<u64>,
    children: Vec<ProfilerEntry>,
    stack: Vec<usize>,
    clock: u64,
}

impl View for GlobalProfiler {
    type V = ProfilerModel;

    closed spec fn view(&self) -> ProfilerModel {
        ProfilerModel {
            start: self.start,
            end: self.end,
            log: self.children@.map_values(|e: ProfilerEntry| e.data()),
            stack: self.stack@,
            clock: self.clock,
        }
    }
}

/// The profiling context handed to instrumented code.
pub struct GlobalProfilerWrapper(pub GlobalProfiler);

impl View for GlobalProfilerWrapper {
    type V = ProfilerModel;

    open spec fn view(&self) -> ProfilerModel {
        self.0@
    }
}

proof fn lemma_root_ticks_update(log: Seq<ProfilerEntryData>, i: int, d: ProfilerEntryData)
    requires
        0 <= i < log.len(),
    ensures
        root_ticks(log.update(i, d)) == root_ticks(log) - (if log[i].ancestors == 0 {
            runtime(log[i])
        } else {
            0
        }) + (if d.ancestors == 0 {
            runtime(d)
        } else {
            0
        }),
    decreases log.len(),
{
    let updated = log.update(i, d);
    if i == log.len() - 1 {
        assert(updated.drop_last() =~= log.drop_last());
    } else {
        assert(updated.drop_last() =~= log.drop_last().update(i, d));
        lemma_root_ticks_update(log.drop_last(), i, d);
    }
}

proof fn lemma_push_preserves_wf(m: ProfilerModel, identifier: String, start: u64)
    requires
        m.wf(),
        m.end is None,
        m.log.len() + 1 < usize::MAX,
        m.clock <= start,
    ensures
        (ProfilerModel {
            log: m.log.push(m.pushed(identifier, start)),
            stack: m.stack.push(m.log.len() as usize),
            clock: start,
            ..m
        }).wf(),
{
    let d = m.pushed(identifier, start);
    let m2 = ProfilerModel {
        log: m.log.push(d),
        stack: m.stack.push(m.log.len() as usize),
        clock: start,
        ..m
    };
    let n = m.stack.len();
    assert forall|i: int| 0 <= i < m2.log.len() implies #[trigger] m2.entry_ok(i) by {
        if i < m.log.len() {
            assert(m.entry_ok(i));
            assert(m2.log[i] == m.log[i]);
            if m.log[i].end is None {
                assert(m2.stack[m.log[i].ancestors as int] == m.stack[m.log[i].ancestors as int]);
            }
        } else {
            assert(m2.log[i] == d);
            assert(m2.stack[n as int] == m.log.len() as usize);
        }
    }
    assert forall|k: int| 0 <= k < m2.stack.len() implies #[trigger] m2.stack_ok(k) by {
        if k < n {
            let i = m.stack[k];
            assert(m.stack_ok(k));
            assert(m2.stack[k] == i);
            assert(m2.log[i as int] == m.log[i as int]);
            if k > 0 {
                assert(m2.stack[k - 1] == m.stack[k - 1]);
            }
            if k + 1 < n {
                assert(m.stack_ok(k + 1));
                assert(m2.stack[k + 1] == m.stack[k + 1]);
                assert(m2.log[m.stack[k + 1] as int] == m.log[m.stack[k + 1] as int]);
            }
        }
    }
    assert(m2.log.drop_last() =~= m.log);
    if n > 0 {
        assert(m.stack_ok(0));
        assert(m2.stack[0] == m.stack[0]);
        assert(m2.log[m.stack[0] as int] == m.log[m.stack[0] as int]);
    }
}

/// Facts about the innermost span and its parent that closing it relies on.
proof fn lemma_close_facts(m: ProfilerModel, now: u64)
    requires
        m.wf(),
        m.stack.len() > 0,
        m.clock <= now,
    ensures
        ({
            let n = m.stack.len();
            let t = m.stack[n - 1] as int;
            &&& 0 <= t < m.log.len()
            &&& m.log[t].end is None
            &&& m.log[t].ancestors == n - 1
            &&& m.log[t].start <= now
            &&& m.log[t].children_elapsed <= now - m.log[t].start
            &&& m.end is None
            &&& n == 1 ==> m.log[t].parent_index is None
            &&& n > 1 ==> {
                let p = m.stack[n - 2] as int;
                &&& m.log[t].parent_index == Some(p as usize)
                &&& 0 <= p < m.log.len()
                &&& p != t
                &&& m.log[p].end is None
                &&& m.log[p].children_elapsed + (now - m.log[t].start) <= now - m.log[p].start
            }
        }),
{
    let n = m.stack.len();
    let t = m.stack[n - 1] as int;
    assert(m.stack_ok(n - 1));
    if n > 1 {
        let p = m.stack[n - 2] as int;
        assert(m.stack_ok(n - 2));
        assert(m.next_start(n - 2) == m.log[t].start);
    }
}

proof fn lemma_close_preserves_wf(m: ProfilerModel, now: u64)
    requires
        m.wf(),
        m.stack.len() > 0,
        m.clock <= now,
    ensures
        (ProfilerModel {
            log: m.closed_log(now),
            stack: m.stack.drop_last(),
            clock: now,
            ..m
        }).wf(),
{
    lemma_close_facts(m, now);
    let n = m.stack.len();
    let t = m.stack[n - 1] as int;
    let m2 = ProfilerModel { log: m.closed_log(now), stack: m.stack.drop_last(), clock: now, ..m };
    let closed = ProfilerEntryData { end: Some(now), ..m.log[t] };
    let mid = m.log.update(t, closed);
    assert forall|i: int| 0 <= i < m2.log.len() implies #[trigger] m2.entry_ok(i) by {
        assert(m.entry_ok(i));
        assert(m.stack_ok(n - 1));
    }
    assert forall|k: int| 0 <= k < m2.stack.len() implies #[trigger] m2.stack_ok(k) by {
        let i = m.stack[k] as int;
        assert(m.stack_ok(k));
        assert(m.stack_ok(n - 1));
        assert(i != t);
        assert(m2.stack[k] == m.stack[k]);
        if k > 0 {
            assert(m2.stack[k - 1] == m.stack[k - 1]);
        }
        if k == n - 2 {
            assert(m2.next_start(k) == now);
            assert(m2.log[i] == ProfilerEntryData {
                children_elapsed: (m.log[i].children_elapsed + (now - m.log[t].start)) as u64,
                ..m.log[i]
            });
        } else {
            assert(m.stack_ok(n - 2));
            assert(i != m.stack[n - 2] as int);
            assert(m2.log[i] == m.log[i]);
            let j = m.stack[k + 1] as int;
            assert(m.stack_ok(k + 1));
            assert(m2.stack[k + 1] == m.stack[k + 1]);
            assert(j != t);
            if k + 1 == n - 2 {
                assert(m2.log[j].start == m.log[j].start);
            } else {
                assert(m.stack_ok(n - 2));
                assert(j != m.stack[n - 2] as int);
                assert(m2.log[j] == m.log[j]);
            }
        }
    }
    assert(m.stack_ok(n - 1));
    lemma_root_ticks_update(m.log, t, closed);
    if n > 1 {
        let p = m.stack[n - 2] as int;
        lemma_root_ticks_update(
            mid,
            p,
            ProfilerEntryData {
                children_elapsed: (m.log[p].children_elapsed + (now - m.log[t].start)) as u64,
                ..m.log[p]
            },
        );
        assert(m.stack_ok(0));
        assert(m2.stack[0] == m.stack[0]);
    }
}

proof fn lemma_end_preserves_wf(m: ProfilerModel, now: u64)
    requires
        m.wf(),
        m.stack.len() == 0,
        m.clock <= now,
    ensures
        (ProfilerModel { end: Some(now), clock: now, ..m }).wf(),
{
    let m2 = ProfilerModel { end: Some(now), clock: now, ..m };
    assert forall|i: int| 0 <= i < m2.log.len() implies #[trigger] m2.entry_ok(i) by {
        assert(m.entry_ok(i));
    }
}

proof fn lemma_ended_all_closed(m: ProfilerModel)
    requires
        m.wf(),
        m.stack.len() == 0,
    ensures
        all_closed(m.log),
{
    assert forall|i: int| 0 <= i < m.log.len() implies ((#[trigger] m.log[i]).end matches Some(e)
        && m.log[i].start <= e && m.log[i].children_elapsed <= e - m.log[i].start) by {
        assert(m.entry_ok(i));
    }
}

/// Position of the report line for `label`, if there is one.
fn find_label(metrics: &Vec<ProfilerMetricEntry>, label: &String) -> (r: Option<usize>)
    ensures
        r matches Some(k) ==> k < metrics.len() && metrics@[k as int].identifier@ == label@,
        r is None ==> forall|k: int| 0 <= k < metrics.len() ==> metrics@[k].identifier@ != label@,
{
    let mut k: usize = 0;
    while k < metrics.len()
        invariant
            k <= metrics.len(),
            forall|j: int| 0 <= j < k ==> metrics@[j].identifier@ != label@,
        decreases metrics.len() - k,
    {
        if metrics[k].identifier == *label {
            return Some(k);
        }
        k = k + 1;
    }
    None
}

impl GlobalProfilerWrapper {
    /// A profiler with an empty log, started at tick `now`.
    pub fn start(now: u64) -> (r: GlobalProfilerWrapper)
        ensures
            r@.wf(),
            r@ == (ProfilerModel {
                start: now,
                end: None,
                log: Seq::empty(),
                stack: Seq::empty(),
                clock: now,
            }),
    {
        let r = GlobalProfilerWrapper(
            GlobalProfiler { start: now, end: None, children: Vec::new(), stack: Vec::new(), clock: now },
        );
        assert(r@.log =~= Seq::empty());
        r
    }

    /// The latest tick recorded; the next one handed in must not be earlier.
    pub fn clock(&self) -> (r: u64)
        ensures
            r == self@.clock,
    {
        self.0.clock
    }

    /// Whether profiling has ended.
    pub fn has_ended(&self) -> (r: bool)
        ensures
            r == (self@.end is Some),
    {
        self.0.end.is_some()
    }

    /// Ticks from the start to the end of profiling, once it has ended.
    pub fn total_ticks(&self) -> (r: Option<u64>)
        requires
            self@.wf(),
        ensures
            r == match self@.end {
                Some(e) => Some((e - self@.start) as u64),
                None => None,
            },
    {
        match self.0.end {
            Some(e) => Some(e - self.0.start),
            None => None,
        }
    }

    /// Number of spans pushed so far.
    pub fn entry_count(&self) -> (r: usize)
        ensures
            r == self@.log.len(),
    {
        self.0.children.len()
    }

    /// Log position of the innermost open span, if any.
    pub fn innermost(&self) -> (r: Option<usize>)
        ensures
            r == if self@.stack.len() == 0 {
                None
            } else {
                Some(self@.stack.last())
            },
    {
        let n = self.0.stack.len();
        if n == 0 {
            None
        } else {
            Some(self.0.stack[n - 1])
        }
    }

    /// Opens `entry` as a child of the innermost open span (or as a root),
    /// appends it to the log and makes it the innermost span. The entry is
    /// given its log position, parent and depth.
    pub fn push(&mut self, entry: &mut ProfilerEntry)
        requires
            old(self)@.wf(),
            old(self)@.end is None,
            old(self)@.log.len() + 1 < usize::MAX,
            old(self)@.clock <= old(entry).data().start,
        ensures
            final(self)@.wf(),
            *final(entry) == old(entry).with_data(
                old(self)@.pushed(old(entry).data().identifier, old(entry).data().start),
            ),
            final(self)@ == (ProfilerModel {
                log: old(self)@.log.push(
                    old(self)@.pushed(old(entry).data().identifier, old(entry).data().start),
                ),
                stack: old(self)@.stack.push(old(self)@.log.len() as usize),
                clock: old(entry).data().start,
                ..old(self)@
            }),
    {
        let ghost m = self@;
        let index = self.0.children.len();
        let depth = self.0.stack.len();
        let parent = if depth == 0 {
            None
        } else {
            Some(self.0.stack[depth - 1])
        };
        let start = entry.inner().start;
        let data = entry.inner_mut();
        data.end = None;
        data.index = index;
        data.parent_index = parent;
        data.ancestors = depth;
        data.children_elapsed = 0;
        let stored = ProfilerEntryData {
            identifier: entry.inner().identifier.clone(),
            start,
            end: None,
            index,
            parent_index: parent,
            ancestors: depth,
            children_elapsed: 0,
        };
        let ghost identifier = stored.identifier;
        let logged = match entry {
            ProfilerEntry::Function(_) => ProfilerEntry::Function(stored),
            ProfilerEntry::CodeBlock(_) => ProfilerEntry::CodeBlock(stored),
        };
        self.0.children.push(logged);
        self.0.stack.push(index);
        self.0.clock = start;
        proof {
            assert(self@.log =~= m.log.push(m.pushed(identifier, start)));
            lemma_push_preserves_wf(m, identifier, start);
        }
    }

    /// The report of a finished run: one line per distinct label, in the
    /// order of first appearance, with its hit count, its ticks with and
    /// without its direct children, and the depth of its first span.
    pub fn results(&self) -> (r: Vec<ProfilerMetricEntry>)
        requires
            self@.wf(),
            self@.end is Some,
        ensures
            is_report(r@, self@.log),
    {
        let ghost log = self@.log;
        proof {
            lemma_ended_all_closed(self@);
        }
        let n = self.0.children.len();
        let mut metrics: Vec<ProfilerMetricEntry> = Vec::new();
        let mut i: usize = 0;
        proof {
            assert(log.take(0) =~= Seq::<ProfilerEntryData>::empty());
        }
        while i < n
            invariant
                self@.wf(),
                log == self@.log,
                all_closed(log),
                n == log.len(),
                i <= n,
                is_report(metrics@, log.take(i as int)),
            decreases n - i,
        {
            let entry = &self.0.children[i];
            let ghost e = log[i as int];
            let ghost prev = log.take(i as int);
            let ghost next = log.take(i + 1);
            proof {
                assert(e == entry.data());
                assert(next.drop_last() =~= prev);
                assert(next.last() == e);
                lemma_distinct_labels(prev);
                lemma_label_bounds(prev, e.identifier@);
                assert(prev.len() == i);
            }
            let runtime = entry.compute_runtime();
            let own = runtime - entry.get_child_elapsed();
            let ghost before = metrics@;
            let ghost d = distinct_labels(prev);
            match find_label(&metrics, &entry.inner().identifier) {
                Some(k) => {
                    proof {
                        let c = label_count(prev, e.identifier@) as int;
                        assert(metric_ok(before[k as int], prev, k as int));
                        assert(c + 1 <= usize::MAX);
                        assert((c + 1) * u64::MAX <= usize::MAX * u64::MAX) by (nonlinear_arith)
                            requires
                                c + 1 <= usize::MAX,
                        ;
                        assert(usize::MAX * u64::MAX < u128::MAX) by (nonlinear_arith)
                            requires
                                usize::MAX <= u64::MAX,
                        ;
                    }
                    metrics[k].hit_count = metrics[k].hit_count + 1;
                    metrics[k].elapsed_inclusive = metrics[k].elapsed_inclusive + runtime as u128;
                    metrics[k].elapsed_exclusive = metrics[k].elapsed_exclusive + own as u128;
                    proof {
                        assert(distinct_labels(next) == d);
                        assert forall|j: int| 0 <= j < metrics@.len() implies #[trigger] metric_ok(
                            metrics@[j],
                            next,
                            j,
                        ) by {
                            assert(metric_ok(before[j], prev, j));
                            if j != k {
                                assert(d[j] != d[k as int]);
                                assert(metrics@[j] == before[j]);
                            }
                        }
                    }
                },
                None => {
                    let line = ProfilerMetricEntry {
                        identifier: entry.inner().identifier.clone(),
                        elapsed_inclusive: runtime as u128,
                        elapsed_exclusive: own as u128,
                        hit_count: 1,
                        ancestors_count: entry.inner().ancestors,
                        insert_index: metrics.len(),
                    };
                    metrics.push(line);
                    proof {
                        assert forall|j: int| 0 <= j < d.len() implies d[j] != e.identifier@ by {
                            assert(metric_ok(before[j], prev, j));
                        }
                        assert(!d.contains(e.identifier@));
                        assert(label_count(prev, e.identifier@) == 0);
                        assert(distinct_labels(next) == d.push(e.identifier@));
                        assert forall|j: int| 0 <= j < metrics@.len() implies #[trigger] metric_ok(
                            metrics@[j],
                            next,
                            j,
                        ) by {
                            if j < d.len() {
                                assert(metric_ok(before[j], prev, j));
                                assert(metrics@[j] == before[j]);
                            }
                        }
                    }
                },
            }
            i = i + 1;
        }
        proof {
            assert(log.take(n as int) =~= log);
        }
        metrics
    }

    /// Ends profiling at tick `now`; every span must be closed.
    pub fn end(&mut self, now: u64)
        requires
            old(self)@.wf(),
            old(self)@.end is None,
            old(self)@.stack.len() == 0,
            old(self)@.clock <= now,
        ensures
            final(self)@.wf(),
            final(self)@ == (ProfilerModel { end: Some(now), clock: now, ..old(self)@ }),
    {
        proof {
            lemma_end_preserves_wf(self@, now);
        }
        self.0.end = Some(now);
        self.0.clock = now;
    }
}

impl ProfilerEntry {
    /// Closes this span, which must be the innermost open one, at tick `now`,
    /// and charges its run time to its parent.
    pub fn end(self, profiler: &mut GlobalProfilerWrapper, now: u64)
        requires
            old(profiler)@.wf(),
            old(profiler)@.stack.len() > 0,
            old(profiler)@.stack.last() == self.data().index,
            old(profiler)@.clock <= now,
        ensures
            final(profiler)@.wf(),
            final(profiler)@ == (ProfilerModel {
                log: old(profiler)@.closed_log(now),
                stack: old(profiler)@.stack.drop_last(),
                clock: now,
                ..old(profiler)@
            }),
    {
        let ghost m = profiler@;
        proof {
            lemma_close_facts(m, now);
        }
        let t = self.index();
        let start = profiler.0.children[t].inner().start;
        let parent = profiler.0.children[t].parent();
        profiler.0.children[t].inner_mut().end = Some(now);
        let elapsed = now - start;
        profiler.0.stack.pop();
        profiler.0.clock = now;
        match parent {
            Some(p) => {
                profiler.0.children[p].add_child_elapsed(elapsed);
            },
            None => {},
        }
        proof {
            let m2 = profiler@;
            assert(m2.log =~= m.closed_log(now));
            assert(m2.stack =~= m.stack.drop_last());
            lemma_close_preserves_wf(m, now);
        }
    }
}


/// In a report, each label of the log has exactly one line, no label has two,
/// and a line's hit count is the number of spans pushed under its label.
pub proof fn lemma_one_line_per_label(log: Seq<ProfilerEntryData>, ms: Seq<ProfilerMetricEntry>)
    requires
        is_report(ms, log),
    ensures
        forall|l: Seq<char>|
            label_count(log, l) > 0 <==> exists|k: int|
                0 <= k < ms.len() && (#[trigger] ms[k]).identifier@ == l,
        forall|a: int, b: int|
            0 <= a < ms.len() && 0 <= b < ms.len() && (#[trigger] ms[a]).identifier@ == (
            #[trigger] ms[b]).identifier@ ==> a == b,
        forall|k: int|
            0 <= k < ms.len() ==> (#[trigger] ms[k]).hit_count == label_count(
                log,
                ms[k].identifier@,
            ),
{
    lemma_distinct_labels(log);
    let d = distinct_labels(log);
    assert forall|l: Seq<char>|
        (exists|k: int| 0 <= k < ms.len() && (#[trigger] ms[k]).identifier@ == l) implies label_count(
        log,
        l,
    ) > 0 by {
        let k = choose|k: int| 0 <= k < ms.len() && (#[trigger] ms[k]).identifier@ == l;
        assert(metric_ok(ms[k], log, k));
    }
    assert forall|l: Seq<char>|
        label_count(log, l) > 0 implies exists|k: int|
            0 <= k < ms.len() && (#[trigger] ms[k]).identifier@ == l by {
        assert(d.contains(l));
        let k = choose|k: int| 0 <= k < d.len() && d[k] == l;
        assert(metric_ok(ms[k], log, k));
    }
    assert forall|a: int, b: int|
        0 <= a < ms.len() && 0 <= b < ms.len() && (#[trigger] ms[a]).identifier@ == (
        #[trigger] ms[b]).identifier@ implies a == b by {
        assert(metric_ok(ms[a], log, a));
        assert(metric_ok(ms[b], log, b));
        if a < b {
            assert(d[a] != d[b]);
        } else if b < a {
            assert(d[b] != d[a]);
        }
    }
    assert forall|k: int| 0 <= k < ms.len() implies (#[trigger] ms[k]).hit_count == label_count(
        log,
        ms[k].identifier@,
    ) by {
        assert(metric_ok(ms[k], log, k));
    }
}

proof fn lemma_child_ticks_nonnegative(log: Seq<ProfilerEntryData>, l: Seq<char>)
    ensures
        label_child_ticks(log, l) >= 0,
    decreases log.len(),
{
    if log.len() > 0 {
        lemma_child_ticks_nonnegative(log.drop_last(), l);
    }
}

/// In a report, a label's exclusive ticks never exceed its inclusive ticks,
/// and the two are equal exactly when no child time was charged to it.
pub proof fn lemma_exclusive_within_inclusive(
    log: Seq<ProfilerEntryData>,
    ms: Seq<ProfilerMetricEntry>,
)
    requires
        is_report(ms, log),
    ensures
        forall|k: int|
            0 <= k < ms.len() ==> (#[trigger] ms[k]).elapsed_exclusive <= ms[k].elapsed_inclusive,
        forall|k: int|
            0 <= k < ms.len() ==> ((#[trigger] ms[k]).elapsed_exclusive == ms[k].elapsed_inclusive
                <==> label_child_ticks(log, ms[k].identifier@) == 0),
{
    assert forall|k: int| 0 <= k < ms.len() implies (#[trigger] ms[k]).elapsed_exclusive
        <= ms[k].elapsed_inclusive && (ms[k].elapsed_exclusive == ms[k].elapsed_inclusive
        <==> label_child_ticks(log, ms[k].identifier@) == 0) by {
        assert(metric_ok(ms[k], log, k));
        lemma_child_ticks_nonnegative(log, ms[k].identifier@);
    }
}

/// Ticks of the spans labelled `l` that were pushed with no span open.
pub open spec fn label_root_ticks(log: Seq<ProfilerEntryData>, l: Seq<char>) -> int
    decreases log.len(),
{
    if log.len() == 0 {
        0
    } else {
        label_root_ticks(log.drop_last(), l) + if log.last().identifier@ == l
            && log.last().ancestors == 0 {
            runtime(log.last())
        } else {
            0
        }
    }
}

/// Sum of `label_root_ticks` over `labels`.
pub open spec fn root_ticks_by_label(log: Seq<ProfilerEntryData>, labels: Seq<Seq<char>>) -> int
    decreases labels.len(),
{
    if labels.len() == 0 {
        0
    } else {
        root_ticks_by_label(log, labels.drop_last()) + label_root_ticks(log, labels.last())
    }
}

/// Inclusive ticks of the report lines whose label first appeared at depth
/// zero.
pub open spec fn root_line_ticks(ms: Seq<ProfilerMetricEntry>) -> int
    decreases ms.len(),
{
    if ms.len() == 0 {
        0
    } else {
        root_line_ticks(ms.drop_last()) + if ms.last().ancestors_count == 0 {
            ms.last().elapsed_inclusive as int
        } else {
            0
        }
    }
}

/// Every label that heads a root line of `ms` only ever labels root spans.
pub open spec fn root_labels_stay_at_root(
    log: Seq<ProfilerEntryData>,
    ms: Seq<ProfilerMetricEntry>,
) -> bool {
    forall|k: int, i: int|
        0 <= k < ms.len() && 0 <= i < log.len() && (#[trigger] ms[k]).ancestors_count == 0 && (
        #[trigger] log[i]).identifier@ == ms[k].identifier@ ==> log[i].ancestors == 0
}

proof fn lemma_root_ticks_by_label_push(
    log: Seq<ProfilerEntryData>,
    e: ProfilerEntryData,
    labels: Seq<Seq<char>>,
)
    requires
        forall|a: int, b: int|
            0 <= a < b < labels.len() ==> #[trigger] labels[a] != #[trigger] labels[b],
    ensures
        root_ticks_by_label(log.push(e), labels) == root_ticks_by_label(log, labels) + if labels.contains(
            e.identifier@,
        ) && e.ancestors == 0 {
            runtime(e)
        } else {
            0
        },
    decreases labels.len(),
{
    let next = log.push(e);
    assert(next.drop_last() =~= log);
    if labels.len() > 0 {
        let prev = labels.drop_last();
        lemma_root_ticks_by_label_push(log, e, prev);
        let y = labels.last();
        if labels.contains(e.identifier@) && y != e.identifier@ {
            let k = choose|k: int| 0 <= k < labels.len() && labels[k] == e.identifier@;
            assert(prev[k] == e.identifier@);
        }
        if prev.contains(e.identifier@) {
            let k = choose|k: int| 0 <= k < prev.len() && prev[k] == e.identifier@;
            assert(labels[k] == prev[k]);
            assert(labels.contains(e.identifier@));
            assert(labels[k] != labels[labels.len() - 1]);
        }
        if y == e.identifier@ {
            assert(labels[labels.len() - 1] == y);
        }
    }
}

proof fn lemma_label_root_ticks_of_absent(log: Seq<ProfilerEntryData>, l: Seq<char>)
    requires
        label_count(log, l) == 0,
    ensures
        label_root_ticks(log, l) == 0,
    decreases log.len(),
{
    if log.len() > 0 {
        lemma_label_root_ticks_of_absent(log.drop_last(), l);
    }
}

proof fn lemma_root_ticks_partition(log: Seq<ProfilerEntryData>)
    ensures
        root_ticks_by_label(log, distinct_labels(log)) == root_ticks(log),
    decreases log.len(),
{
    if log.len() > 0 {
        let prev = log.drop_last();
        let e = log.last();
        lemma_root_ticks_partition(prev);
        lemma_distinct_labels(prev);
        assert(prev.push(e) =~= log);
        let d = distinct_labels(prev);
        lemma_root_ticks_by_label_push(prev, e, d);
        if label_count(prev, e.identifier@) > 0 {
            assert(d.contains(e.identifier@));
        } else {
            assert(!d.contains(e.identifier@));
            lemma_label_root_ticks_of_absent(prev, e.identifier@);
            let d2 = d.push(e.identifier@);
            assert(d2.drop_last() =~= d);
        }
    }
}

proof fn lemma_label_root_ticks_bounds(log: Seq<ProfilerEntryData>, l: Seq<char>)
    requires
        all_closed(log),
    ensures
        label_root_ticks(log, l) >= 0,
        (forall|i: int|
            0 <= i < log.len() && (#[trigger] log[i]).identifier@ == l ==> log[i].ancestors == 0)
            ==> label_root_ticks(log, l) == label_inclusive(log, l),
    decreases log.len(),
{
    if log.len() > 0 {
        let prev = log.drop_last();
        assert forall|i: int| 0 <= i < prev.len() implies ((#[trigger] prev[i]).end matches Some(e)
            && prev[i].start <= e && prev[i].children_elapsed <= e - prev[i].start) by {
            assert(prev[i] == log[i]);
        }
        lemma_label_root_ticks_bounds(prev, l);
        assert(log[log.len() - 1] == log.last());
        if forall|i: int|
            0 <= i < log.len() && (#[trigger] log[i]).identifier@ == l ==> log[i].ancestors == 0 {
            assert forall|i: int|
                0 <= i < prev.len() && (#[trigger] prev[i]).identifier@ == l implies prev[i].ancestors
                == 0 by {
                assert(prev[i] == log[i]);
            }
        }
    }
}

proof fn lemma_root_lines_within_label_ticks(
    log: Seq<ProfilerEntryData>,
    ms: Seq<ProfilerMetricEntry>,
    j: int,
)
    requires
        is_report(ms, log),
        all_closed(log),
        root_labels_stay_at_root(log, ms),
        0 <= j <= ms.len(),
    ensures
        root_line_ticks(ms.take(j)) <= root_ticks_by_label(log, distinct_labels(log).take(j)),
    decreases j,
{
    if j > 0 {
        lemma_root_lines_within_label_ticks(log, ms, j - 1);
        let d = distinct_labels(log);
        assert(ms.take(j).drop_last() =~= ms.take(j - 1));
        assert(d.take(j).drop_last() =~= d.take(j - 1));
        let k = j - 1;
        assert(metric_ok(ms[k], log, k));
        let l = d[k];
        lemma_label_root_ticks_bounds(log, l);
        if ms[k].ancestors_count == 0 {
            assert forall|i: int| 0 <= i < log.len() && (#[trigger] log[i]).identifier@ == l implies log[i].ancestors
                == 0 by {
                assert(ms[k].identifier@ == l);
            }
        }
    }
}

/// When every label whose first span was a root span only labels root spans,
/// the inclusive ticks of the report's root lines add up to no more than the
/// ticks of the whole run.
pub proof fn lemma_root_lines_within_run(m: ProfilerModel, ms: Seq<ProfilerMetricEntry>)
    requires
        m.wf(),
        m.end is Some,
        is_report(ms, m.log),
        root_labels_stay_at_root(m.log, ms),
    ensures
        root_line_ticks(ms) <= m.end.unwrap() - m.start,
{
    lemma_ended_all_closed(m);
    lemma_root_lines_within_label_ticks(m.log, ms, ms.len() as int);
    assert(ms.take(ms.len() as int) =~= ms);
    assert(distinct_labels(m.log).take(ms.len() as int) =~= distinct_labels(m.log));
    lemma_root_ticks_partition(m.log);
}

} // verus!
