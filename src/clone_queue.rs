//! The clone task queue: pending work, tasks in flight, and what became of
//! each path, with discovery and progress counters.
use crate::manifest::{join_path, joined};
use crate::text::string_views;
use vstd::prelude::*;

verus! {

/// One repository to clone. Its identity is `target_path`.
pub struct CloneTask {
    /// Name shown in progress output.
    pub name: String,
    pub url: String,
    pub target_path: String,
    /// Nesting depth: 0 for the projects of the top manifest.
    pub depth_level: usize,
}

pub struct TaskModel {
    pub name: Seq<char>,
    pub url: Seq<char>,
    pub target_path: Seq<char>,
    pub depth_level: nat,
}

impl View for CloneTask {
    type V = TaskModel;

    open spec fn view(&self) -> TaskModel {
        TaskModel {
            name: self.name@,
            url: self.url@,
            target_path: self.target_path@,
            depth_level: self.depth_level as nat,
        }
    }
}

/// A project that a manifest lists, and whether its target directory is
/// already on disk.
pub struct ManifestChild {
    pub name: String,
    pub path: String,
    pub repo: Option<String>,
    pub exists: bool,
}

/// What a manifest added to the queue: the number of new tasks, and the
/// existing directories (in manifest order) whose own manifests are to be
/// read one level deeper.
pub struct PushOutcome {
    pub added: usize,
    pub descend: Vec<String>,
}

/// The state of a queue, as the contracts speak of it.
pub struct QueueModel {
    pub pending: Seq<TaskModel>,
    /// Paths taken and not yet marked, in the order they were taken (a path
    /// pushed again while in flight can be taken twice).
    pub in_flight: Seq<Seq<char>>,
    pub completed: Set<Seq<char>>,
    pub failed: Set<Seq<char>>,
    /// Tasks taken out by `drain_all` without being run.
    pub drained: nat,
    pub discovered: nat,
    pub done: nat,
    pub meta_depth: Option<usize>,
}

/// Position of the first `p` in `s`, or `s.len()`.
pub open spec fn first_pos(s: Seq<Seq<char>>, p: Seq<char>) -> int
    decreases s.len(),
{
    if s.len() == 0 {
        0
    } else if s[0] == p {
        0
    } else {
        1 + first_pos(s.drop_first(), p)
    }
}

proof fn lemma_first_pos(s: Seq<Seq<char>>, p: Seq<char>, k: int)
    requires
        0 <= k <= s.len(),
        forall|j: int| 0 <= j < k ==> s[j] != p,
        k == s.len() || s[k] == p,
    ensures
        first_pos(s, p) == k,
    decreases k,
{
    if k > 0 {
        lemma_first_pos(s.drop_first(), p, k - 1);
    }
}

impl QueueModel {
    pub open spec fn pending_paths(self) -> Seq<Seq<char>> {
        self.pending.map_values(|t: TaskModel| t.target_path)
    }

    /// The counting identity behind the progress counters, and distinct
    /// pending paths.
    pub open spec fn inv(self) -> bool {
        &&& self.pending_paths().no_duplicates()
        &&& self.completed.finite()
        &&& self.failed.finite()
        &&& self.discovered == self.pending.len() + self.in_flight.len() + self.done + self.drained
        &&& self.discovered <= usize::MAX
    }

    /// No path is both pending and completed.
    pub open spec fn apart(self) -> bool {
        forall|p: Seq<char>| #[trigger] self.pending_paths().contains(p) ==> !self.completed.contains(p)
    }

    /// The done counter counts the completed and the failed paths.
    pub open spec fn balanced(self) -> bool {
        self.done == self.completed.len() + self.failed.len()
    }

    /// `push` takes a task unless its path is completed or already pending
    /// (or the discovery counter is at its limit).
    pub open spec fn accepts(self, t: TaskModel) -> bool {
        !self.completed.contains(t.target_path) && !self.pending_paths().contains(t.target_path)
            && self.discovered < usize::MAX
    }

    pub open spec fn after_push(self, t: TaskModel) -> QueueModel {
        if self.accepts(t) {
            QueueModel { pending: self.pending.push(t), discovered: self.discovered + 1, ..self }
        } else {
            self
        }
    }

    pub open spec fn over_budget(self, depth: nat) -> bool {
        self.meta_depth is Some && depth > self.meta_depth->0
    }

    pub open spec fn after_child(self, base: Seq<char>, depth: nat, c: ManifestChild) -> QueueModel {
        if c.exists || c.repo is None {
            self
        } else {
            self.after_push(
                TaskModel {
                    name: c.name@,
                    url: c.repo->0@,
                    target_path: joined(base, c.path@),
                    depth_level: depth,
                },
            )
        }
    }

    /// The queue after each child of a manifest at `base` has been offered, in order.
    pub open spec fn after_children(self, base: Seq<char>, depth: nat, cs: Seq<ManifestChild>) -> QueueModel
        decreases cs.len(),
    {
        if cs.len() == 0 {
            self
        } else {
            self.after_child(base, depth, cs[0]).after_children(base, depth, cs.drop_first())
        }
    }

    pub open spec fn after_manifest(self, base: Seq<char>, depth: nat, cs: Seq<ManifestChild>) -> QueueModel {
        if self.over_budget(depth) {
            self
        } else {
            self.after_children(base, depth, cs)
        }
    }

    pub open spec fn after_take(self) -> QueueModel {
        QueueModel {
            pending: self.pending.drop_last(),
            in_flight: self.in_flight.push(self.pending.last().target_path),
            ..self
        }
    }

    pub open spec fn after_complete(self, p: Seq<char>) -> QueueModel {
        QueueModel {
            in_flight: self.in_flight.remove(first_pos(self.in_flight, p)),
            completed: self.completed.insert(p),
            done: self.done + 1,
            ..self
        }
    }

    pub open spec fn after_fail(self, p: Seq<char>) -> QueueModel {
        QueueModel {
            in_flight: self.in_flight.remove(first_pos(self.in_flight, p)),
            failed: self.failed.insert(p),
            done: self.done + 1,
            ..self
        }
    }

    pub open spec fn is_finished(self) -> bool {
        self.pending.len() == 0 && self.in_flight.len() == 0
    }
}

/// The targets of the children that already exist, in order.
pub open spec fn descend_paths(base: Seq<char>, cs: Seq<ManifestChild>) -> Seq<Seq<char>>
    decreases cs.len(),
{
    if cs.len() == 0 {
        Seq::empty()
    } else {
        let rest = descend_paths(base, cs.drop_first());
        if cs[0].exists {
            seq![joined(base, cs[0].path@)] + rest
        } else {
            rest
        }
    }
}

/// A push keeps the queue's invariant, keeps pending paths distinct, and
/// adds no completed path to the pending ones.
pub proof fn lemma_after_push(q: QueueModel, t: TaskModel)
    ensures
        q.inv() ==> q.after_push(t).inv(),
        q.pending_paths().no_duplicates() ==> q.after_push(t).pending_paths().no_duplicates(),
        q.apart() ==> q.after_push(t).apart(),
        q.balanced() ==> q.after_push(t).balanced(),
{
    if q.accepts(t) {
        let r = q.after_push(t);
        assert(r.pending_paths() =~= q.pending_paths().push(t.target_path));
        assert forall|a: int, b: int| 0 <= a < b < r.pending_paths().len() && q.pending_paths().no_duplicates()
            implies r.pending_paths()[a] != r.pending_paths()[b] by {
            if b == q.pending.len() {
                assert(q.pending_paths().contains(q.pending_paths()[a]));
            } else {
                assert(r.pending_paths()[a] == q.pending_paths()[a]);
                assert(r.pending_paths()[b] == q.pending_paths()[b]);
            }
        }
        assert forall|p: Seq<char>| q.apart() && #[trigger] r.pending_paths().contains(p) implies !r.completed.contains(p) by {
            if p != t.target_path {
                let i = choose|i: int| 0 <= i < r.pending_paths().len() && r.pending_paths()[i] == p;
                assert(i < q.pending_paths().len());
                assert(q.pending_paths()[i] == p);
                assert(q.pending_paths().contains(p));
            }
        }
    }
}

/// Offering a manifest's children adds only tasks of the given depth, after
/// the ones already pending, and keeps what a push keeps.
pub proof fn lemma_after_children(q: QueueModel, base: Seq<char>, depth: nat, cs: Seq<ManifestChild>)
    ensures
        q.inv() ==> q.after_children(base, depth, cs).inv(),
        q.pending_paths().no_duplicates() ==> q.after_children(base, depth, cs).pending_paths().no_duplicates(),
        q.apart() ==> q.after_children(base, depth, cs).apart(),
        q.balanced() ==> q.after_children(base, depth, cs).balanced(),
        q.pending.is_prefix_of(q.after_children(base, depth, cs).pending),
        forall|i: int|
            q.pending.len() <= i < q.after_children(base, depth, cs).pending.len()
                ==> #[trigger] q.after_children(base, depth, cs).pending[i].depth_level == depth,
        q.after_children(base, depth, cs).discovered - q.discovered == q.after_children(
            base,
            depth,
            cs,
        ).pending.len() - q.pending.len(),
        q.after_children(base, depth, cs).in_flight == q.in_flight,
        q.after_children(base, depth, cs).completed == q.completed,
        q.after_children(base, depth, cs).failed == q.failed,
        q.after_children(base, depth, cs).done == q.done,
        q.after_children(base, depth, cs).drained == q.drained,
        q.after_children(base, depth, cs).meta_depth == q.meta_depth,
    decreases cs.len(),
{
    if cs.len() > 0 {
        let q1 = q.after_child(base, depth, cs[0]);
        if !(cs[0].exists || cs[0].repo is None) {
            lemma_after_push(
                q,
                TaskModel {
                    name: cs[0].name@,
                    url: cs[0].repo->0@,
                    target_path: joined(base, cs[0].path@),
                    depth_level: depth,
                },
            );
        }
        lemma_after_children(q1, base, depth, cs.drop_first());
        let r = q.after_children(base, depth, cs);
        assert forall|i: int| q.pending.len() <= i < r.pending.len() implies #[trigger] r.pending[i].depth_level
            == depth by {
            if i < q1.pending.len() {
                assert(q1.pending.is_prefix_of(r.pending));
                assert(r.pending[i] == q1.pending[i]);
            }
        }
        assert(q.pending.is_prefix_of(r.pending)) by {
            assert(q.pending.is_prefix_of(q1.pending));
            assert(q1.pending.is_prefix_of(r.pending));
            assert forall|i: int| 0 <= i < q.pending.len() implies q.pending[i] == r.pending[i] by {
                assert(q.pending[i] == q1.pending[i]);
                assert(q1.pending[i] == r.pending[i]);
            }
        }
    }
}

/// Taking a task keeps what a push keeps.
pub proof fn lemma_after_take(q: QueueModel)
    requires
        q.pending.len() > 0,
    ensures
        q.inv() ==> q.after_take().inv(),
        q.pending_paths().no_duplicates() ==> q.after_take().pending_paths().no_duplicates(),
        q.apart() ==> q.after_take().apart(),
        q.balanced() ==> q.after_take().balanced(),
{
    let r = q.after_take();
    let p = q.pending.last().target_path;
    assert(q.pending_paths() =~= r.pending_paths().push(p));
    assert forall|a: int, b: int| 0 <= a < b < r.pending_paths().len() && q.pending_paths().no_duplicates()
        implies r.pending_paths()[a] != r.pending_paths()[b] by {
        assert(r.pending_paths()[a] == q.pending_paths()[a]);
        assert(r.pending_paths()[b] == q.pending_paths()[b]);
    }
    assert forall|x: Seq<char>| q.apart() && #[trigger] r.pending_paths().contains(x) implies !r.completed.contains(x) by {
        let i = choose|i: int| 0 <= i < r.pending_paths().len() && r.pending_paths()[i] == x;
        assert(q.pending_paths()[i] == x);
        assert(q.pending_paths().contains(x));
    }
}

/// Marking a task in flight done keeps the invariant.
pub proof fn lemma_after_finish_inv(q: QueueModel, p: Seq<char>, ok: bool)
    requires
        q.inv(),
        q.in_flight.contains(p),
    ensures
        ok ==> q.after_complete(p).inv(),
        !ok ==> q.after_fail(p).inv(),
{
    let k = choose|k: int| 0 <= k < q.in_flight.len() && q.in_flight[k] == p;
    lemma_first_witness(q.in_flight, p, k);
}

proof fn lemma_first_witness(s: Seq<Seq<char>>, p: Seq<char>, k: int)
    requires
        0 <= k < s.len(),
        s[k] == p,
    ensures
        0 <= first_pos(s, p) <= k,
        s[first_pos(s, p)] == p,
    decreases k,
{
    if s[0] != p {
        lemma_first_witness(s.drop_first(), p, k - 1);
    }
}

/// Uniqueness: pushes, manifests, takes and failures never put a path
/// twice among the pending ones, nor a completed path among them; nor does
/// completing a task whose path is not pending again, with the manifest found
/// in its directory.
pub proof fn lemma_queue_uniqueness(q: QueueModel, p: Seq<char>, depth: nat, cs: Seq<ManifestChild>, t: TaskModel)
    requires
        q.pending_paths().no_duplicates(),
        q.apart(),
    ensures
        q.after_push(t).pending_paths().no_duplicates() && q.after_push(t).apart(),
        q.after_manifest(p, depth, cs).pending_paths().no_duplicates() && q.after_manifest(p, depth, cs).apart(),
        q.pending.len() > 0 ==> q.after_take().pending_paths().no_duplicates() && q.after_take().apart(),
        q.after_fail(p).pending_paths().no_duplicates() && q.after_fail(p).apart(),
        !q.pending_paths().contains(p) ==> q.after_complete(p).after_manifest(p, depth, cs).pending_paths().no_duplicates()
            && q.after_complete(p).after_manifest(p, depth, cs).apart(),
{
    lemma_after_push(q, t);
    lemma_after_children(q, p, depth, cs);
    if q.pending.len() > 0 {
        lemma_after_take(q);
    }
    let c = q.after_complete(p);
    assert(c.pending_paths() == q.pending_paths());
    if !q.pending_paths().contains(p) {
        assert(c.apart());
        lemma_after_children(c, p, depth, cs);
    }
}

/// Progress conservation: the done counter never exceeds the discovery
/// counter, and it stays the number of completed plus failed paths through
/// every operation, as long as a marked path was not marked before.
pub proof fn lemma_progress_conservation(q: QueueModel, p: Seq<char>, depth: nat, cs: Seq<ManifestChild>, t: TaskModel)
    requires
        q.inv(),
        q.balanced(),
    ensures
        q.discovered >= q.done,
        q.after_push(t).balanced(),
        q.after_manifest(p, depth, cs).balanced(),
        q.pending.len() > 0 ==> q.after_take().balanced(),
        !q.completed.contains(p) && !q.failed.contains(p) ==> q.after_complete(p).after_manifest(p, depth, cs).balanced()
            && q.after_fail(p).balanced(),
{
    lemma_after_push(q, t);
    lemma_after_children(q, p, depth, cs);
    if q.pending.len() > 0 {
        lemma_after_take(q);
    }
    if !q.completed.contains(p) && !q.failed.contains(p) {
        let c = q.after_complete(p);
        assert(c.balanced());
        lemma_after_children(c, p, depth, cs);
    }
}

/// A queue with nothing pending and nothing in flight, from which nothing was
/// drained, has finished every task it discovered.
pub proof fn lemma_finished_accounts_for_all(q: QueueModel)
    requires
        q.inv(),
        q.is_finished(),
        q.drained == 0,
    ensures
        q.done == q.discovered,
{
}

/// A measure that every worker step lowers: three for each task still to be
/// discovered (of at most `bound` in all), two for each pending task, one for
/// each task in flight.
pub open spec fn progress_measure(q: QueueModel, bound: nat) -> int {
    3 * (bound - q.discovered) + 2 * q.pending.len() + q.in_flight.len()
}

/// Taking a task lowers the measure.
pub proof fn lemma_take_progresses(q: QueueModel, bound: nat)
    requires
        q.pending.len() > 0,
    ensures
        progress_measure(q.after_take(), bound) < progress_measure(q, bound),
{
}

/// Finishing a task in flight lowers the measure, however many tasks the
/// manifest in its directory adds.
pub proof fn lemma_finish_progresses(q: QueueModel, p: Seq<char>, ok: bool, depth: nat, cs: Seq<ManifestChild>, bound: nat)
    requires
        q.inv(),
        q.in_flight.contains(p),
    ensures
        ok ==> progress_measure(q.after_complete(p).after_manifest(p, depth, cs), bound) < progress_measure(q, bound),
        !ok ==> progress_measure(q.after_fail(p), bound) < progress_measure(q, bound),
{
    lemma_after_finish_inv(q, p, ok);
    if ok {
        let q1 = q.after_complete(p);
        if !q1.over_budget(depth) {
            lemma_after_children(q1, p, depth, cs);
        }
    }
}

/// While at most `bound` tasks are discovered (a finite manifest closure),
/// the measure is not negative, so a run of workers takes finitely many
/// steps; when it stops (nothing pending, nothing in flight, nothing
/// drained) every discovered task is done.
pub proof fn lemma_measure_bounded(q: QueueModel, bound: nat)
    requires
        q.inv(),
        q.drained == 0,
        q.discovered <= bound,
    ensures
        progress_measure(q, bound) >= 0,
        q.is_finished() ==> q.done == q.discovered,
{
}

// ----- the executable queue -----

/// Work queue of clone tasks, taken last in, first out. A path is pending at
/// most once and never while completed; a path in flight or failed may be
/// pushed again, as nothing but a completed or pending copy stops a push.
pub struct CloneQueue {
    pending: Vec<CloneTask>,
    in_flight: Vec<String>,
    completed: Vec<String>,
    failed: Vec<String>,
    drained: usize,
    total_discovered: usize,
    total_completed: usize,
    git_depth: Option<String>,
    meta_depth: Option<usize>,
}

impl View for CloneQueue {
    type V = QueueModel;

    closed spec fn view(&self) -> QueueModel {
        QueueModel {
            pending: self.pending@.map_values(|t: CloneTask| t@),
            in_flight: string_views(self.in_flight@),
            completed: string_views(self.completed@).to_set(),
            failed: string_views(self.failed@).to_set(),
            drained: self.drained as nat,
            discovered: self.total_discovered as nat,
            done: self.total_completed as nat,
            meta_depth: self.meta_depth,
        }
    }
}

proof fn lemma_set_len(v: Seq<String>)
    requires
        string_views(v).no_duplicates(),
    ensures
        string_views(v).to_set().len() == v.len(),
        string_views(v).to_set().finite(),
{
    string_views(v).unique_seq_to_set();
    vstd::seq_lib::seq_to_set_is_finite(string_views(v));
}

fn find_path(v: &Vec<String>, p: &String) -> (r: Option<usize>)
    ensures
        r is Some <==> string_views(v@).contains(p@),
        r is Some ==> r->0 < v.len() && v@[r->0 as int]@ == p@ && forall|j: int| 0 <= j < r->0 ==> v@[j]@ != p@,
{
    let mut i: usize = 0;
    while i < v.len()
        invariant
            i <= v.len(),
            forall|j: int| 0 <= j < i ==> v@[j]@ != p@,
        decreases v.len() - i,
    {
        if v[i] == *p {
            assert(string_views(v@)[i as int] == p@);
            return Some(i);
        }
        i = i + 1;
    }
    assert forall|j: int| 0 <= j < string_views(v@).len() implies string_views(v@)[j] != p@ by {
        assert(v@[j]@ != p@);
    }
    None
}

fn find_pending(v: &Vec<CloneTask>, p: &String) -> (r: bool)
    ensures
        r == v@.map_values(|t: CloneTask| t@).map_values(|t: TaskModel| t.target_path).contains(p@),
{
    let ghost pp = v@.map_values(|t: CloneTask| t@).map_values(|t: TaskModel| t.target_path);
    let mut i: usize = 0;
    while i < v.len()
        invariant
            i <= v.len(),
            pp == v@.map_values(|t: CloneTask| t@).map_values(|t: TaskModel| t.target_path),
            forall|j: int| 0 <= j < i ==> pp[j] != p@,
        decreases v.len() - i,
    {
        if v[i].target_path == *p {
            assert(pp[i as int] == p@);
            return true;
        }
        i = i + 1;
    }
    false
}

proof fn lemma_views_push(v: Seq<String>, s: String)
    ensures
        string_views(v.push(s)) == string_views(v).push(s@),
        string_views(v.push(s)).to_set() == string_views(v).to_set().insert(s@),
{
    assert(string_views(v.push(s)) =~= string_views(v).push(s@));
    string_views(v).lemma_push_to_set_commute(s@);
}

impl CloneQueue {
    pub closed spec fn wf(&self) -> bool {
        &&& string_views(self.completed@).no_duplicates()
        &&& string_views(self.failed@).no_duplicates()
        &&& self@.inv()
    }

    /// A well-formed queue's state meets the model's invariant.
    pub proof fn lemma_wf_inv(&self)
        requires
            self.wf(),
        ensures
            self@.inv(),
    {
    }

    pub closed spec fn git_depth_spec(&self) -> Option<String> {
        self.git_depth
    }

    pub fn new(git_depth: Option<String>, meta_depth: Option<usize>) -> (r: Self)
        ensures
            r.wf(),
            r@.pending.len() == 0,
            r@.in_flight.len() == 0,
            r@.completed.is_empty(),
            r@.failed.is_empty(),
            r@.drained == 0,
            r@.discovered == 0,
            r@.done == 0,
            r@.meta_depth == meta_depth,
            r.git_depth_spec() == git_depth,
    {
        let r = CloneQueue {
            pending: Vec::new(),
            in_flight: Vec::new(),
            completed: Vec::new(),
            failed: Vec::new(),
            drained: 0,
            total_discovered: 0,
            total_completed: 0,
            git_depth,
            meta_depth,
        };
        proof {
            assert(string_views(r.in_flight@) =~= Seq::<Seq<char>>::empty());
            assert(string_views(r.completed@).to_set() =~= Set::empty());
            assert(string_views(r.failed@).to_set() =~= Set::empty());
            assert(r@.pending_paths() =~= Seq::empty());
        }
        r
    }

    /// The shallow-clone depth handed to every `git clone`.
    pub fn git_depth(&self) -> (r: Option<String>)
        ensures
            r == self.git_depth_spec(),
    {
        match &self.git_depth {
            Some(d) => Some(d.clone()),
            None => None,
        }
    }

    pub fn meta_depth(&self) -> (r: Option<usize>)
        ensures
            r == self@.meta_depth,
    {
        self.meta_depth
    }

    /// Adds `task` unless its path is completed or already pending (or the
    /// discovery counter is at its limit). Returns whether it was added.
    pub fn push(&mut self, task: CloneTask) -> (r: bool)
        requires
            old(self).wf(),
        ensures
            final(self).wf(),
            r == old(self)@.accepts(task@),
            final(self)@ == old(self)@.after_push(task@),
            final(self).git_depth_spec() == old(self).git_depth_spec(),
    {
        let ghost q = self@;
        if self.total_discovered == usize::MAX {
            return false;
        }
        let known = find_pending(&self.pending, &task.target_path) || find_path(&self.completed, &task.target_path).is_some();
        proof {
            lemma_set_len(self.completed@);
        }
        if known {
            return false;
        }
        let ghost t = task@;
        self.pending.push(task);
        self.total_discovered = self.total_discovered + 1;
        proof {
            assert(self@.pending =~= q.pending.push(t));
            assert(self@ == q.after_push(t));
            lemma_after_push(q, t);
        }
        true
    }

    /// Offers each project of the manifest at `base_dir` (found `depth_level`
    /// manifests deep): a project whose directory exists is not queued but
    /// handed back for discovery one level down; one without a URL is
    /// skipped. Nothing happens beyond the depth budget.
    pub fn push_from_meta(
        &mut self,
        base_dir: &str,
        depth_level: usize,
        children: &Vec<ManifestChild>,
    ) -> (r: PushOutcome)
        requires
            old(self).wf(),
        ensures
            final(self).wf(),
            final(self)@ == old(self)@.after_manifest(base_dir@, depth_level as nat, children@),
            r.added == final(self)@.discovered - old(self)@.discovered,
            old(self)@.over_budget(depth_level as nat) ==> r.descend@.len() == 0,
            !old(self)@.over_budget(depth_level as nat) ==> string_views(r.descend@)
                == descend_paths(base_dir@, children@),
            forall|i: int|
                old(self)@.pending.len() <= i < final(self)@.pending.len()
                    ==> #[trigger] final(self)@.pending[i].depth_level == depth_level && (
                old(self)@.meta_depth is Some ==> depth_level <= old(self)@.meta_depth->0),
            final(self).git_depth_spec() == old(self).git_depth_spec(),
    {
        let ghost q0 = self@;
        let mut descend: Vec<String> = Vec::new();
        if let Some(max_depth) = self.meta_depth {
            if depth_level > max_depth {
                return PushOutcome { added: 0, descend };
            }
        }
        let start = self.total_discovered;
        let mut i: usize = 0;
        proof {
            assert(children@.subrange(0, children@.len() as int) =~= children@);
            lemma_after_children(q0, base_dir@, depth_level as nat, children@);
        }
        while i < children.len()
            invariant
                i <= children.len(),
                self.wf(),
                self.git_depth_spec() == old(self).git_depth_spec(),
                q0.after_children(base_dir@, depth_level as nat, children@) == self@.after_children(
                    base_dir@,
                    depth_level as nat,
                    children@.subrange(i as int, children@.len() as int),
                ),
                descend_paths(base_dir@, children@) == string_views(descend@) + descend_paths(
                    base_dir@,
                    children@.subrange(i as int, children@.len() as int),
                ),
                q0.pending.is_prefix_of(self@.pending),
                forall|k: int|
                    q0.pending.len() <= k < self@.pending.len()
                        ==> #[trigger] self@.pending[k].depth_level == depth_level,
                self@.discovered - q0.discovered == self@.pending.len() - q0.pending.len(),
                self@.meta_depth == q0.meta_depth,
                start == q0.discovered,
            decreases children.len() - i,
        {
            let ghost rest = children@.subrange(i as int, children@.len() as int);
            let ghost before = self@;
            proof {
                assert(rest.drop_first() =~= children@.subrange(i + 1, children@.len() as int));
                assert(rest[0] == children@[i as int]);
            }
            let c = &children[i];
            let target = join_path(base_dir, c.path.as_str());
            if c.exists {
                proof {
                    lemma_views_push(descend@, target);
                    assert(string_views(descend@) + descend_paths(base_dir@, rest) =~= string_views(
                        descend@.push(target),
                    ) + descend_paths(base_dir@, rest.drop_first()));
                }
                descend.push(target);
            } else {
                match &c.repo {
                    Some(url) => {
                        let task = CloneTask {
                            name: c.name.clone(),
                            url: url.clone(),
                            target_path: target,
                            depth_level,
                        };
                        self.push(task);
                    },
                    None => {},
                }
            }
            proof {
                assert(self@ == before.after_child(base_dir@, depth_level as nat, rest[0]));
                lemma_after_children(before, base_dir@, depth_level as nat, rest.subrange(0, 1));
                assert(rest.subrange(0, 1).drop_first() =~= Seq::<ManifestChild>::empty());
                assert forall|k: int| q0.pending.len() <= k < self@.pending.len() implies #[trigger] self@.pending[k].depth_level
                    == depth_level by {
                    if k < before.pending.len() {
                        assert(self@.pending[k] == before.pending[k]);
                    }
                }
                assert(q0.pending.is_prefix_of(self@.pending)) by {
                    assert forall|k: int| 0 <= k < q0.pending.len() implies q0.pending[k]
                        == self@.pending[k] by {
                        assert(q0.pending[k] == before.pending[k]);
                        assert(before.pending[k] == self@.pending[k]);
                    }
                }
            }
            i = i + 1;
        }
        proof {
            assert(children@.subrange(i as int, children@.len() as int) =~= Seq::<
                ManifestChild,
            >::empty());
            assert(string_views(descend@) + Seq::<Seq<char>>::empty() =~= string_views(descend@));
        }
        PushOutcome { added: self.total_discovered - start, descend }
    }

    /// Pops the most recently pushed task (last in, first out) and marks it
    /// in flight.
    pub fn take_one(&mut self) -> (r: Option<CloneTask>)
        requires
            old(self).wf(),
        ensures
            final(self).wf(),
            r is None <==> old(self)@.pending.len() == 0,
            r is None ==> final(self)@ == old(self)@,
            r is Some ==> r->0@ == old(self)@.pending.last() && final(self)@
                == old(self)@.after_take(),
            final(self).git_depth_spec() == old(self).git_depth_spec(),
    {
        let ghost q = self@;
        match self.pending.pop() {
            None => None,
            Some(t) => {
                proof {
                    lemma_after_take(q);
                    assert(self.pending@.map_values(|t: CloneTask| t@) =~= q.pending.drop_last());
                    assert(string_views(self.in_flight@.push(t.target_path)) =~= string_views(
                        self.in_flight@,
                    ).push(t.target_path@));
                }
                self.in_flight.push(t.target_path.clone());
                proof {
                    assert(self@ == q.after_take());
                }
                Some(t)
            },
        }
    }

    /// No task is pending and none is in flight.
    pub fn is_finished(&self) -> (r: bool)
        requires
            self.wf(),
        ensures
            r == self@.is_finished(),
    {
        self.pending.len() == 0 && self.in_flight.len() == 0
    }

    /// Whether `path` is in flight (taken and not yet marked).
    pub fn is_in_flight(&self, path: &String) -> (r: bool)
        ensures
            r == self@.in_flight.contains(path@),
    {
        proof {
            assert(self@.in_flight == string_views(self.in_flight@));
        }
        find_path(&self.in_flight, path).is_some()
    }

    /// Removes every pending task and hands them back, oldest first.
    pub fn drain_all(&mut self) -> (r: Vec<CloneTask>)
        requires
            old(self).wf(),
        ensures
            final(self).wf(),
            r@.map_values(|t: CloneTask| t@) == old(self)@.pending,
            final(self)@ == (QueueModel {
                pending: Seq::empty(),
                drained: old(self)@.drained + old(self)@.pending.len(),
                ..old(self)@
            }),
            final(self).git_depth_spec() == old(self).git_depth_spec(),
    {
        let ghost q = self@;
        let mut r: Vec<CloneTask> = Vec::new();
        std::mem::swap(&mut r, &mut self.pending);
        self.drained = self.drained + r.len();
        proof {
            assert(self@.pending =~= Seq::<TaskModel>::empty());
            assert(self@.pending_paths() =~= Seq::<Seq<char>>::empty());
        }
        r
    }

    /// `(done, discovered)`.
    pub fn get_counts(&self) -> (r: (usize, usize))
        ensures
            r.0 == self@.done,
            r.1 == self@.discovered,
    {
        (self.total_completed, self.total_discovered)
    }

    /// Records a task in flight as completed, then offers the children of
    /// the manifest found in its directory, one level deeper.
    pub fn mark_completed(&mut self, task: &CloneTask, children: &Vec<ManifestChild>) -> (r:
        PushOutcome)
        requires
            old(self).wf(),
            old(self)@.in_flight.contains(task.target_path@),
            task.depth_level < usize::MAX,
        ensures
            final(self).wf(),
            final(self)@ == old(self)@.after_complete(task.target_path@).after_manifest(
                task.target_path@,
                (task.depth_level + 1) as nat,
                children@,
            ),
            r.added == final(self)@.discovered - old(self)@.discovered,
            !old(self)@.over_budget((task.depth_level + 1) as nat) ==> string_views(r.descend@)
                == descend_paths(task.target_path@, children@),
            old(self)@.over_budget((task.depth_level + 1) as nat) ==> r.added == 0 && final(self)@.pending == old(self)@.pending,
            forall|i: int|
                old(self)@.pending.len() <= i < final(self)@.pending.len()
                    ==> #[trigger] final(self)@.pending[i].depth_level == task.depth_level + 1 && (
                old(self)@.meta_depth is Some ==> task.depth_level + 1 <= old(self)@.meta_depth->0),
            old(self)@.pending.is_prefix_of(final(self)@.pending),
            final(self).git_depth_spec() == old(self).git_depth_spec(),
    {
        self.finish(&task.target_path, true);
        let ghost mid = self@;
        let r = self.push_from_meta(task.target_path.as_str(), task.depth_level + 1, children);
        proof {
            lemma_after_children(mid, task.target_path@, (task.depth_level + 1) as nat, children@);
        }
        r
    }

    /// Records a task in flight as failed.
    pub fn mark_failed(&mut self, task: &CloneTask)
        requires
            old(self).wf(),
            old(self)@.in_flight.contains(task.target_path@),
        ensures
            final(self).wf(),
            final(self)@ == old(self)@.after_fail(task.target_path@),
            final(self).git_depth_spec() == old(self).git_depth_spec(),
    {
        self.finish(&task.target_path, false);
    }

    fn finish(&mut self, path: &String, ok: bool)
        requires
            old(self).wf(),
            old(self)@.in_flight.contains(path@),
        ensures
            final(self).wf(),
            ok ==> final(self)@ == old(self)@.after_complete(path@),
            !ok ==> final(self)@ == old(self)@.after_fail(path@),
            final(self).git_depth_spec() == old(self).git_depth_spec(),
    {
        let ghost q = self@;
        proof {
            lemma_after_finish_inv(q, path@, ok);
            lemma_set_len(self.completed@);
            lemma_set_len(self.failed@);
        }
        let i = match find_path(&self.in_flight, path) {
            Some(i) => i,
            None => {
                return;
            },
        };
        proof {
            lemma_first_pos(q.in_flight, path@, i as int);
            assert(string_views(self.in_flight@.remove(i as int)) =~= q.in_flight.remove(i as int));
        }
        let s = self.in_flight.remove(i);
        if ok {
            if find_path(&self.completed, &s).is_none() {
                proof {
                    lemma_views_push(self.completed@, s);
                    lemma_push_distinct(self.completed@, s);
                }
                self.completed.push(s);
            } else {
                proof {
                    assert(q.completed.insert(path@) =~= q.completed);
                }
            }
        } else {
            if find_path(&self.failed, &s).is_none() {
                proof {
                    lemma_views_push(self.failed@, s);
                    lemma_push_distinct(self.failed@, s);
                }
                self.failed.push(s);
            } else {
                proof {
                    assert(q.failed.insert(path@) =~= q.failed);
                }
            }
        }
        self.total_completed = self.total_completed + 1;
        proof {
            if ok {
                assert(self@ == q.after_complete(path@));
            } else {
                assert(self@ == q.after_fail(path@));
            }
        }
    }
}

proof fn lemma_push_distinct(v: Seq<String>, s: String)
    requires
        string_views(v).no_duplicates(),
        !string_views(v).contains(s@),
    ensures
        string_views(v.push(s)).no_duplicates(),
{
    let a = string_views(v.push(s));
    assert(a =~= string_views(v).push(s@));
    assert forall|x: int, y: int| 0 <= x < y < a.len() implies a[x] != a[y] by {
        if y == v.len() {
            assert(a[x] == string_views(v)[x]);
        } else {
            assert(a[x] == string_views(v)[x] && a[y] == string_views(v)[y]);
        }
    }
}

} // verus!
