//! The file-change side: which filesystem events call for a reload, and the
//! debounce queue that collapses a burst of changes into one reload.

use vstd::prelude::*;

use crate::ReloadType;
use crate::path::{path_extension, path_extension_chars, same_path, same_path_exec};
use crate::text::{chars_eq, chars_of};

verus! {

broadcast use vstd::seq_lib::group_seq_properties;

/// What happened to the files of a filesystem event.
#[derive(Clone, Copy, PartialEq, Eq, Debug, Structural)]
pub enum ChangeKind {
    /// an event of unknown kind
    Any,
    /// a file was read, opened or closed
    Access,
    /// a file or directory was created
    Create,
    /// a file's data or metadata changed, or it was renamed
    Modify,
    /// a file or directory was removed
    Remove,
    /// an event that is none of the above
    Other,
}

/// A filesystem event: its kind and the paths it concerns.
pub struct FsEvent {
    /// what happened
    pub kind: ChangeKind,
    /// the paths that it happened to
    pub paths: Vec<String>,
}

/// The texts of a sequence of paths.
pub open spec fn paths_view(paths: Seq<String>) -> Seq<Seq<char>> {
    paths.map_values(|p: String| p@)
}

/// The kinds of event that change a file's content: writes, creations and
/// removals.
pub open spec fn content_change(kind: ChangeKind) -> bool {
    kind is Create || kind is Modify || kind is Remove
}

/// Whether an event of this kind changes content.
pub fn event_kind_check(kind: &ChangeKind) -> (res: bool)
    ensures
        res == content_change(*kind),
{
    match kind {
        ChangeKind::Modify | ChangeKind::Create | ChangeKind::Remove => true,
        _ => false,
    }
}

/// The extensions of the files that a page is made of.
pub open spec fn reload_extension(ext: Seq<char>) -> bool {
    ||| ext == "html"@
    ||| ext == "css"@
    ||| ext == "js"@
    ||| ext == "jsx"@
    ||| ext == "ts"@
    ||| ext == "tsx"@
}

/// A path whose change calls for a reload: one with a page extension.
pub open spec fn reload_worthy(path: Seq<char>) -> bool {
    match path_extension(path) {
        Some(ext) => reload_extension(ext),
        None => false,
    }
}

/// Whether the extension `ext` is one of a page's files.
fn reload_extension_check(ext: &[char]) -> (res: bool)
    ensures
        res == reload_extension(ext@),
{
    chars_eq(ext, &chars_of("html")) || chars_eq(ext, &chars_of("css")) || chars_eq(
        ext,
        &chars_of("js"),
    ) || chars_eq(ext, &chars_of("jsx")) || chars_eq(ext, &chars_of("ts")) || chars_eq(
        ext,
        &chars_of("tsx"),
    )
}

/// Whether a change of `path` calls for a reload.
pub fn file_extension_check(path: &str) -> (res: bool)
    ensures
        res == reload_worthy(path@),
        res == (path_extension(path@) == Some("html"@) || path_extension(path@) == Some("css"@)
            || path_extension(path@) == Some("js"@) || path_extension(path@) == Some("jsx"@)
            || path_extension(path@) == Some("ts"@) || path_extension(path@) == Some("tsx"@)),
{
    match path_extension_chars(&chars_of(path)) {
        Some(ext) => reload_extension_check(&ext),
        None => false,
    }
}

/// Whether a change of `path` calls for a reload (the check that the
/// simple `FileWatcher` makes).
pub fn should_reload_for_path(path: &String) -> (res: bool)
    ensures
        res == reload_worthy(path@),
        res == (path_extension(path@) == Some("html"@) || path_extension(path@) == Some("css"@)
            || path_extension(path@) == Some("js"@) || path_extension(path@) == Some("jsx"@)
            || path_extension(path@) == Some("ts"@) || path_extension(path@) == Some("tsx"@)),
{
    file_extension_check(path.as_str())
}

/// `reload_worthy` as a predicate value.
pub open spec fn worthy_pred() -> spec_fn(Seq<char>) -> bool {
    |p: Seq<char>| reload_worthy(p)
}

/// A change that the simple file watcher reloads on at once: it changes
/// content, and one of its paths calls for a reload.
pub open spec fn reloads_at_once(kind: ChangeKind, paths: Seq<Seq<char>>) -> bool {
    content_change(kind) && exists|i: int| 0 <= i < paths.len() && reload_worthy(#[trigger] paths[i])
}

/// Whether the simple file watcher reloads on `event`.
pub fn event_reloads(event: &FsEvent) -> (res: bool)
    ensures
        res == reloads_at_once(event.kind, paths_view(event.paths@)),
{
    if !event_kind_check(&event.kind) {
        return false;
    }
    let mut i: usize = 0;
    while i < event.paths.len()
        invariant
            i <= event.paths@.len(),
            content_change(event.kind),
            forall|j: int| 0 <= j < i ==> !reload_worthy(#[trigger] event.paths@[j]@),
        decreases event.paths@.len() - i,
    {
        if should_reload_for_path(&event.paths[i]) {
            assert(paths_view(event.paths@)[i as int] == event.paths@[i as int]@);
            assert(reload_worthy(paths_view(event.paths@)[i as int]));
            return true;
        }
        i += 1;
    }
    assert forall|j: int| 0 <= j < paths_view(event.paths@).len() implies !reload_worthy(
        #[trigger] paths_view(event.paths@)[j],
    ) by {
        assert(paths_view(event.paths@)[j] == event.paths@[j]@);
    }
    false
}

/// The paths of `paths` that call for a reload, in order.
pub open spec fn worthy_paths(paths: Seq<Seq<char>>) -> Seq<Seq<char>> {
    paths.filter(worthy_pred())
}

/// Keeps an event only if it changes content, and then only its paths that
/// call for a reload, and only if one is left.
pub fn event_filter(event: FsEvent) -> (res: Option<FsEvent>)
    ensures
        match res {
            Some(kept) => {
                &&& content_change(event.kind)
                &&& kept.kind == event.kind
                &&& paths_view(kept.paths@) == worthy_paths(paths_view(event.paths@))
                &&& kept.paths@.len() > 0
            },
            None => !content_change(event.kind) || worthy_paths(paths_view(event.paths@)).len()
                == 0,
        },
{
    if !event_kind_check(&event.kind) {
        return None;
    }
    let ghost pred = worthy_pred();
    let mut kept: Vec<String> = Vec::new();
    let mut i: usize = 0;
    while i < event.paths.len()
        invariant
            i <= event.paths@.len(),
            pred == worthy_pred(),
            paths_view(kept@) == paths_view(event.paths@.take(i as int)).filter(pred),
        decreases event.paths@.len() - i,
    {
        let ghost before = paths_view(event.paths@.take(i as int));
        assert(paths_view(event.paths@.take(i + 1)) =~= before.push(event.paths@[i as int]@));
        proof {
            before.lemma_filter_push(event.paths@[i as int]@, pred);
        }
        if file_extension_check(event.paths[i].as_str()) {
            let ghost k0 = kept@;
            kept.push(event.paths[i].clone());
            assert(paths_view(kept@) =~= paths_view(k0).push(event.paths@[i as int]@));
        }
        i += 1;
    }
    assert(event.paths@.take(event.paths@.len() as int) =~= event.paths@);
    if kept.len() == 0 {
        return None;
    }
    Some(FsEvent { kind: event.kind, paths: kept })
}

/// Filtering kept paths again keeps them all.
pub proof fn lemma_worthy_paths_idempotent(paths: Seq<Seq<char>>)
    ensures
        worthy_paths(worthy_paths(paths)) == worthy_paths(paths),
    decreases paths.len(),
{
    reveal(Seq::filter);
    if paths.len() > 0 {
        let pred = worthy_pred();
        lemma_worthy_paths_idempotent(paths.drop_last());
        let rest = worthy_paths(paths.drop_last());
        if reload_worthy(paths.last()) {
            rest.lemma_filter_push(paths.last(), pred);
        }
    }
}

/// How long the queue stays quiet after a change before it is emitted, so a
/// burst of rapid changes collapses into one reload (200ms, in nanoseconds).
pub const DEBOUNCE_NANOS: u64 = 200_000_000;

/// How long to sleep while nothing is queued (an hour, in nanoseconds); a
/// new event wakes the watcher at once.
pub const IDLE_NANOS: u64 = 3_600_000_000_000;

/// The time passed from `since` to `now`, both read from a monotonic clock;
/// zero where `now` comes first (as `Instant::elapsed` saturates).
pub open spec fn elapsed(since: u64, now: u64) -> nat {
    if now >= since {
        (now - since) as nat
    } else {
        0
    }
}

/// `paths` holds one that is the same path as `p` (compared by components,
/// as `Path` compares).
pub open spec fn holds_path(paths: Seq<Seq<char>>, p: Seq<char>) -> bool {
    exists|i: int| 0 <= i < paths.len() && #[trigger] same_path(paths[i], p)
}

/// No two paths of `paths` are the same path.
pub open spec fn distinct_paths(paths: Seq<Seq<char>>) -> bool {
    forall|i: int, j: int|
        0 <= i < paths.len() && 0 <= j < paths.len() && i != j ==> !same_path(
            #[trigger] paths[i],
            #[trigger] paths[j],
        )
}

/// The queue of changed paths: the paths in the order they were first
/// seen, and the time of the last change that added one.
pub struct ChangesModel {
    /// the queued paths
    pub queued: Seq<Seq<char>>,
    /// when the last path was queued, if any is
    pub last_change: Option<u64>,
}

impl ChangesModel {
    /// The empty queue.
    pub open spec fn empty() -> ChangesModel {
        ChangesModel { queued: Seq::empty(), last_change: None }
    }

    /// A queue holds paths exactly when it has a time of last change.
    pub open spec fn wf(self) -> bool {
        self.queued.len() > 0 <==> self.last_change is Some
    }

    /// The paths of `paths` that are not queued yet, in order.
    pub open spec fn fresh(self, paths: Seq<Seq<char>>) -> Seq<Seq<char>> {
        paths.filter(|p: Seq<char>| !holds_path(self.queued, p))
    }

    /// The queue after `paths` arrive at `now`: the fresh ones are appended,
    /// and if there was one the quiet period starts again.
    pub open spec fn enqueued(self, paths: Seq<Seq<char>>, now: u64) -> ChangesModel {
        let fresh = self.fresh(paths);
        if fresh.len() > 0 {
            ChangesModel { queued: self.queued + fresh, last_change: Some(now) }
        } else {
            self
        }
    }

    /// The queue is due at `now`: it holds paths and has been quiet for the
    /// debounce time.
    pub open spec fn due(self, now: u64) -> bool {
        &&& self.queued.len() > 0
        &&& self.last_change matches Some(t)
        &&& elapsed(t, now) >= DEBOUNCE_NANOS
    }

    /// The queue after an emission at `now`: emptied if it was due.
    pub open spec fn emitted(self, now: u64) -> ChangesModel {
        if self.due(now) {
            ChangesModel::empty()
        } else {
            self
        }
    }

    /// How long to block at `now`: the rest of the quiet period, or the idle
    /// time while nothing changed.
    pub open spec fn wait(self, now: u64) -> nat {
        match self.last_change {
            Some(t) => if elapsed(t, now) < DEBOUNCE_NANOS {
                (DEBOUNCE_NANOS - elapsed(t, now)) as nat
            } else {
                0
            },
            None => IDLE_NANOS as nat,
        }
    }
}

/// Paths being queued while the debounce time is open; `last_change` marks
/// when a path was last queued and starts the debounce.
pub struct Changes {
    paths: Vec<String>,
    last_change: Option<u64>,
}

impl View for Changes {
    type V = ChangesModel;

    closed spec fn view(&self) -> ChangesModel {
        ChangesModel { queued: paths_view(self.paths@), last_change: self.last_change }
    }
}

impl Default for Changes {
    fn default() -> (res: Self)
        ensures
            res@ == ChangesModel::empty(),
    {
        let res = Changes { paths: Vec::new(), last_change: None };
        assert(res@.queued =~= Seq::<Seq<char>>::empty());
        res
    }
}

/// Whether `paths` holds the same path as `p`.
fn paths_contain(paths: &[String], p: &String) -> (res: bool)
    ensures
        res == holds_path(paths_view(paths@), p@),
{
    let mut i: usize = 0;
    while i < paths.len()
        invariant
            i <= paths@.len(),
            forall|j: int| 0 <= j < i ==> !same_path(#[trigger] paths@[j]@, p@),
        decreases paths@.len() - i,
    {
        if same_path_exec(paths[i].as_str(), p.as_str()) {
            assert(paths_view(paths@)[i as int] == paths@[i as int]@);
            return true;
        }
        i += 1;
    }
    assert forall|j: int| 0 <= j < paths_view(paths@).len() implies !same_path(
        #[trigger] paths_view(paths@)[j],
        p@,
    ) by {
        assert(paths_view(paths@)[j] == paths@[j]@);
    }
    false
}

/// The paths of `event_paths` that are not the same path as one of `paths`,
/// in order.
pub fn paths_filter(paths: &[String], event_paths: &[String]) -> (res: Vec<String>)
    ensures
        paths_view(res@) == paths_view(event_paths@).filter(
            |p: Seq<char>| !holds_path(paths_view(paths@), p),
        ),
{
    let ghost queued = paths_view(paths@);
    let ghost pred = |p: Seq<char>| !holds_path(queued, p);
    let mut out: Vec<String> = Vec::new();
    let mut i: usize = 0;
    while i < event_paths.len()
        invariant
            i <= event_paths@.len(),
            queued == paths_view(paths@),
            pred == (|p: Seq<char>| !holds_path(queued, p)),
            paths_view(out@) == paths_view(event_paths@.take(i as int)).filter(pred),
        decreases event_paths@.len() - i,
    {
        let ghost before = paths_view(event_paths@.take(i as int));
        let p: &String = &event_paths[i];
        assert(paths_view(event_paths@.take(i + 1)) =~= before.push(p@));
        proof {
            before.lemma_filter_push(p@, pred);
        }
        if !paths_contain(paths, p) {
            let ghost o0 = out@;
            out.push(p.clone());
            assert(paths_view(out@) =~= paths_view(o0).push(p@));
        }
        i += 1;
    }
    assert(event_paths@.take(event_paths@.len() as int) =~= event_paths@);
    out
}

/// What a wait for filesystem events brought.
pub enum Received {
    /// a filtered event with these paths
    Changed(Vec<String>),
    /// the watcher reported an error
    WatcherError,
    /// nothing arrived in time
    Timeout,
    /// the watcher is gone
    Disconnected,
}

/// What a wait brought, with paths as their texts.
pub enum ReceivedModel {
    /// a filtered event with these paths
    Changed(Seq<Seq<char>>),
    /// the watcher reported an error
    WatcherError,
    /// nothing arrived in time
    Timeout,
    /// the watcher is gone
    Disconnected,
}

impl View for Received {
    type V = ReceivedModel;

    open spec fn view(&self) -> ReceivedModel {
        match self {
            Received::Changed(paths) => ReceivedModel::Changed(paths_view(paths@)),
            Received::WatcherError => ReceivedModel::WatcherError,
            Received::Timeout => ReceivedModel::Timeout,
            Received::Disconnected => ReceivedModel::Disconnected,
        }
    }
}

impl ChangesModel {
    /// The queue after a wait brought `received` at `now`: the paths of an
    /// event are queued; an error, a timeout or the end of the watcher leave
    /// the queue as it is.
    pub open spec fn received(self, received: ReceivedModel, now: u64) -> ChangesModel {
        match received {
            ReceivedModel::Changed(paths) => self.enqueued(paths, now),
            _ => self,
        }
    }
}

impl Changes {
    /// Takes in what a wait brought: the paths of an event are queued, an
    /// error or a timeout leaves the queue as it is. Returns whether to go on
    /// waiting, which is so until the watcher is gone.
    pub fn receive(&mut self, received: Received, now: u64) -> (res: bool)
        ensures
            final(self)@ == old(self)@.received(received@, now),
            res == !(received@ is Disconnected),
    {
        match received {
            Received::Changed(paths) => {
                self.enqueue(&paths, now);
                true
            },
            Received::Disconnected => false,
            _ => true,
        }
    }

    /// Adds the paths not queued yet; restarts the debounce time when one
    /// is added.
    pub fn enqueue(&mut self, paths: &[String], now: u64)
        ensures
            final(self)@ == old(self)@.enqueued(paths_view(paths@), now),
    {
        let new_paths = paths_filter(&self.paths, paths);
        assert(paths_view(new_paths@) == old(self)@.fresh(paths_view(paths@)));
        if new_paths.len() > 0 {
            let ghost p0 = self.paths@;
            let mut k: usize = 0;
            while k < new_paths.len()
                invariant
                    k <= new_paths@.len(),
                    self.paths@ == p0 + new_paths@.take(k as int),
                decreases new_paths@.len() - k,
            {
                self.paths.push(new_paths[k].clone());
                k += 1;
                assert(self.paths@ =~= p0 + new_paths@.take(k as int));
            }
            assert(new_paths@.take(new_paths@.len() as int) =~= new_paths@);
            assert(paths_view(self.paths@) =~= paths_view(p0) + paths_view(new_paths@));
            self.last_change = Some(now);
        }
    }

    /// The time to block at `now` until the debounce time elapses, or a
    /// long idle sleep.
    pub fn wait(&self, now: u64) -> (res: u64)
        ensures
            res == self@.wait(now),
    {
        match self.last_change {
            Some(t) => {
                let elapsed = if now >= t {
                    now - t
                } else {
                    0
                };
                if elapsed < DEBOUNCE_NANOS {
                    DEBOUNCE_NANOS - elapsed
                } else {
                    0
                }
            },
            None => IDLE_NANOS,
        }
    }

    /// When the debounce time has elapsed, hands out the queued paths and
    /// empties the queue.
    pub fn emit(&mut self, now: u64) -> (res: Option<Vec<String>>)
        ensures
            final(self)@ == old(self)@.emitted(now),
            match res {
                Some(paths) => old(self)@.due(now) && paths_view(paths@) == old(self)@.queued,
                None => !old(self)@.due(now),
            },
    {
        let elapsed_enough = match self.last_change {
            Some(t) => now >= t && now - t >= DEBOUNCE_NANOS,
            None => false,
        };
        if self.paths.len() == 0 || !elapsed_enough {
            return None;
        }
        self.last_change = None;
        let mut paths: Vec<String> = Vec::new();
        std::mem::swap(&mut paths, &mut self.paths);
        assert(paths_view(self.paths@) =~= Seq::<Seq<char>>::empty());
        Some(paths)
    }

    /// When the debounce time has elapsed, hands out the batch of queued
    /// paths with the reload it calls for, and empties the queue: one reload
    /// message per batch.
    pub fn emit_reload(&mut self, now: u64) -> (res: Option<(ReloadType, Vec<String>)>)
        ensures
            final(self)@ == old(self)@.emitted(now),
            match res {
                Some((reload_type, paths)) => {
                    &&& old(self)@.due(now)
                    &&& paths_view(paths@) == old(self)@.queued
                    &&& reload_type == (if css_only(old(self)@.queued) {
                        ReloadType::Css
                    } else {
                        ReloadType::Page
                    })
                    &&& reload_type == ReloadType::Css <==> forall|i: int|
                        0 <= i < paths@.len() ==> path_extension(#[trigger] paths@[i]@) == Some(
                            "css"@,
                        )
                },
                None => !old(self)@.due(now),
            },
    {
        match self.emit(now) {
            Some(paths) => {
                let reload_type = reload_type_for(&paths);
                Some((reload_type, paths))
            },
            None => None,
        }
    }
}

/// Every queue operation keeps a queue well formed: it holds paths exactly
/// when it has a time of last change.
pub proof fn lemma_changes_wf_preserved(m: ChangesModel, paths: Seq<Seq<char>>, now: u64)
    requires
        m.wf(),
    ensures
        m.enqueued(paths, now).wf(),
        m.emitted(now).wf(),
{
}

/// Once a change adds a path, nothing is emitted until the queue has been
/// quiet for the debounce time.
pub proof fn lemma_quiet_after_change(m: ChangesModel, paths: Seq<Seq<char>>, at: u64, now: u64)
    requires
        m.fresh(paths).len() > 0,
        at <= now,
        now - at < DEBOUNCE_NANOS,
    ensures
        !m.enqueued(paths, at).due(now),
{
}

/// Blocking for the time that `wait` gives is enough: a queue that holds
/// paths is due once that time has passed on a clock that does not go back.
pub proof fn lemma_due_after_wait(m: ChangesModel, now: u64)
    requires
        m.wf(),
        m.queued.len() > 0,
        m.last_change matches Some(t) && t <= now,
        now + m.wait(now) <= u64::MAX,
    ensures
        m.due((now + m.wait(now)) as u64),
{
}

/// An emission hands out the whole queue once: afterwards the queue is empty
/// and is not due again until a new change arrives.
pub proof fn lemma_emission_drains(m: ChangesModel, now: u64, later: u64)
    requires
        m.due(now),
    ensures
        m.emitted(now) == ChangesModel::empty(),
        !m.emitted(now).due(later),
{
}

/// A path is queued after a change exactly when it was queued before or
/// arrived with the change: a burst of changes is collected whole.
pub proof fn lemma_enqueue_collects(m: ChangesModel, paths: Seq<Seq<char>>, now: u64, p: Seq<char>)
    ensures
        holds_path(m.enqueued(paths, now).queued, p) <==> (holds_path(m.queued, p) || holds_path(
            paths,
            p,
        )),
{
    let pred = |q: Seq<char>| !holds_path(m.queued, q);
    let fresh = m.fresh(paths);
    let q = m.enqueued(paths, now).queued;
    if holds_path(paths, p) && !holds_path(m.queued, p) {
        let i = choose|i: int| 0 <= i < paths.len() && #[trigger] same_path(paths[i], p);
        if holds_path(m.queued, paths[i]) {
            let k = choose|k: int| 0 <= k < m.queued.len() && #[trigger] same_path(m.queued[k], paths[i]);
            assert(same_path(m.queued[k], p));
        }
        paths.lemma_filter_contains(pred, i);
        let j = choose|j: int| 0 <= j < fresh.len() && fresh[j] == paths[i];
        assert(fresh.len() > 0);
        assert(q[m.queued.len() + j] == fresh[j]);
        assert(same_path(q[m.queued.len() + j], p));
    }
    if holds_path(m.queued, p) && fresh.len() > 0 {
        let k = choose|k: int| 0 <= k < m.queued.len() && #[trigger] same_path(m.queued[k], p);
        assert(q[k] == m.queued[k]);
    }
    if holds_path(q, p) && fresh.len() > 0 {
        let i = choose|i: int| 0 <= i < q.len() && #[trigger] same_path(q[i], p);
        if i < m.queued.len() {
            assert(q[i] == m.queued[i]);
        } else {
            let f = fresh[i - m.queued.len()];
            assert(q[i] == f);
            assert(fresh.contains(f));
            paths.lemma_filter_contains_rev(pred, f);
            let k = choose|k: int| 0 <= k < paths.len() && paths[k] == f;
            assert(same_path(paths[k], p));
        }
    }
}

/// Filtering keeps distinct paths distinct.
pub proof fn lemma_filter_distinct(s: Seq<Seq<char>>, pred: spec_fn(Seq<char>) -> bool)
    requires
        distinct_paths(s),
    ensures
        distinct_paths(s.filter(pred)),
    decreases s.len(),
{
    reveal(Seq::filter);
    if s.len() > 0 {
        let rest = s.drop_last();
        assert(distinct_paths(rest)) by {
            assert forall|i: int, j: int|
                0 <= i < rest.len() && 0 <= j < rest.len() && i != j implies !same_path(
                #[trigger] rest[i],
                #[trigger] rest[j],
            ) by {
                assert(rest[i] == s[i] && rest[j] == s[j]);
            }
        }
        lemma_filter_distinct(rest, pred);
        if pred(s.last()) {
            let f = rest.filter(pred);
            let g = f.push(s.last());
            assert forall|i: int| 0 <= i < f.len() implies !same_path(
                #[trigger] f[i],
                s.last(),
            ) by {
                assert(f.contains(f[i]));
                rest.lemma_filter_contains_rev(pred, f[i]);
                let k = choose|k: int| 0 <= k < rest.len() && rest[k] == f[i];
                assert(s[k] == rest[k]);
                assert(!same_path(s[k], s[s.len() - 1]));
            }
            assert forall|i: int, j: int|
                0 <= i < g.len() && 0 <= j < g.len() && i != j implies !same_path(
                #[trigger] g[i],
                #[trigger] g[j],
            ) by {
                if i < f.len() && j < f.len() {
                    assert(g[i] == f[i] && g[j] == f[j]);
                } else if i < f.len() {
                    assert(g[i] == f[i]);
                    assert(!same_path(f[i], s.last()));
                } else if j < f.len() {
                    assert(g[j] == f[j]);
                    assert(!same_path(f[j], s.last()));
                }
            }
        }
    }
}

/// A queue never holds the same path twice, as long as no single change
/// names a path twice.
pub proof fn lemma_enqueue_distinct(m: ChangesModel, paths: Seq<Seq<char>>, now: u64)
    requires
        distinct_paths(m.queued),
        distinct_paths(paths),
    ensures
        distinct_paths(m.enqueued(paths, now).queued),
{
    let pred = |q: Seq<char>| !holds_path(m.queued, q);
    let fresh = m.fresh(paths);
    lemma_filter_distinct(paths, pred);
    if fresh.len() > 0 {
        let q = m.queued + fresh;
        assert forall|i: int, j: int|
            0 <= i < q.len() && 0 <= j < q.len() && i != j implies !same_path(
            #[trigger] q[i],
            #[trigger] q[j],
        ) by {
            let n = m.queued.len();
            if i < n && j < n {
                assert(q[i] == m.queued[i] && q[j] == m.queued[j]);
            } else if i >= n && j >= n {
                assert(q[i] == fresh[i - n] && q[j] == fresh[j - n]);
            } else if i < n {
                assert(q[i] == m.queued[i]);
                assert(q[j] == fresh[j - n]);
                paths.lemma_filter_pred(pred, j - n);
                if same_path(m.queued[i], fresh[j - n]) {
                    assert(same_path(m.queued[i], fresh[j - n]));
                }
            } else {
                assert(q[j] == m.queued[j]);
                assert(q[i] == fresh[i - n]);
                paths.lemma_filter_pred(pred, i - n);
                if same_path(fresh[i - n], m.queued[j]) {
                    assert(same_path(m.queued[j], fresh[i - n]));
                }
            }
        }
    }
}

/// Changes that bring only paths already queued change nothing: in
/// particular they do not restart the debounce time.
pub proof fn lemma_requeue_changes_nothing(m: ChangesModel, paths: Seq<Seq<char>>, now: u64)
    requires
        forall|i: int| 0 <= i < paths.len() ==> holds_path(m.queued, #[trigger] paths[i]),
    ensures
        m.enqueued(paths, now) == m,
{
    let pred = |q: Seq<char>| !holds_path(m.queued, q);
    let fresh = m.fresh(paths);
    if fresh.len() > 0 {
        paths.lemma_filter_pred(pred, 0);
        assert(fresh.contains(fresh[0]));
        paths.lemma_filter_contains_rev(pred, fresh[0]);
    }
}

/// A change of only stylesheets: at least one path, and each with the
/// extension `css`.
pub open spec fn css_only(paths: Seq<Seq<char>>) -> bool {
    &&& paths.len() > 0
    &&& forall|i: int| 0 <= i < paths.len() ==> path_extension(#[trigger] paths[i]) == Some("css"@)
}

/// How browsers reload after the changed `paths`: stylesheets alone are
/// hot-swapped, anything else reloads the page.
pub fn reload_type_for(paths: &[String]) -> (res: ReloadType)
    ensures
        res == (if css_only(paths_view(paths@)) {
            ReloadType::Css
        } else {
            ReloadType::Page
        }),
        res == ReloadType::Css <==> (paths@.len() > 0 && forall|i: int|
            0 <= i < paths@.len() ==> path_extension(#[trigger] paths@[i]@) == Some("css"@)),
{
    if paths.len() == 0 {
        return ReloadType::Page;
    }
    let css = chars_of("css");
    let mut i: usize = 0;
    while i < paths.len()
        invariant
            i <= paths@.len(),
            css@ == "css"@,
            forall|j: int| 0 <= j < i ==> path_extension(#[trigger] paths@[j]@) == Some("css"@),
        decreases paths@.len() - i,
    {
        let is_css = match path_extension_chars(&chars_of(paths[i].as_str())) {
            Some(ext) => chars_eq(&ext, &css),
            None => false,
        };
        if !is_css {
            assert(paths_view(paths@)[i as int] == paths@[i as int]@);
            return ReloadType::Page;
        }
        i += 1;
    }
    assert forall|j: int| 0 <= j < paths_view(paths@).len() implies path_extension(
        #[trigger] paths_view(paths@)[j],
    ) == Some("css"@) by {
        assert(paths_view(paths@)[j] == paths@[j]@);
    }
    assert forall|j: int| 0 <= j < paths@.len() implies path_extension(#[trigger] paths@[j]@)
        == Some("css"@) by {
        assert(paths_view(paths@)[j] == paths@[j]@);
    }
    ReloadType::Css
}

/// Only page files are ever queued: a queue of reload-worthy paths that
/// receives reload-worthy paths (as `event_filter` leaves them) holds only
/// reload-worthy paths.
pub proof fn lemma_queue_stays_worthy(m: ChangesModel, paths: Seq<Seq<char>>, now: u64)
    requires
        forall|i: int| 0 <= i < m.queued.len() ==> reload_worthy(#[trigger] m.queued[i]),
        forall|i: int| 0 <= i < paths.len() ==> reload_worthy(#[trigger] paths[i]),
    ensures
        forall|i: int|
            0 <= i < m.enqueued(paths, now).queued.len() ==> reload_worthy(
                #[trigger] m.enqueued(paths, now).queued[i],
            ),
{
    let pred = |q: Seq<char>| !holds_path(m.queued, q);
    let fresh = m.fresh(paths);
    assert forall|j: int| 0 <= j < fresh.len() implies reload_worthy(#[trigger] fresh[j]) by {
        assert(fresh.contains(fresh[j]));
        paths.lemma_filter_contains_rev(pred, fresh[j]);
        let k = choose|k: int| 0 <= k < paths.len() && paths[k] == fresh[j];
        assert(reload_worthy(paths[k]));
    }
    if fresh.len() > 0 {
        let q = m.queued + fresh;
        assert forall|i: int| 0 <= i < q.len() implies reload_worthy(#[trigger] q[i]) by {
            if i < m.queued.len() {
                assert(q[i] == m.queued[i]);
            } else {
                assert(q[i] == fresh[i - m.queued.len()]);
            }
        }
    }
}

/// A change calls for a reload exactly when the changed file's extension
/// (as `Path::extension` gives it) is html, css, js, jsx, ts or tsx.
pub proof fn lemma_reload_worthy_by_extension(p: Seq<char>)
    ensures
        reload_worthy(p) <==> (path_extension(p) == Some("html"@) || path_extension(p) == Some(
            "css"@,
        ) || path_extension(p) == Some("js"@) || path_extension(p) == Some("jsx"@)
            || path_extension(p) == Some("ts"@) || path_extension(p) == Some("tsx"@)),
{
}

/// A file `dir/stem.ext` (or `stem.ext`) calls for a reload exactly when
/// `ext` is a page extension, however many dots the stem and the directory
/// hold.
pub proof fn lemma_page_file_reloads(dir: Seq<char>, stem: Seq<char>, ext: Seq<char>)
    requires
        stem.len() > 0,
        ext.len() > 0,
        !stem.contains('/'),
        !ext.contains('/'),
        !ext.contains('.'),
    ensures
        reload_worthy(dir + "/"@ + stem + "."@ + ext) <==> (ext == "html"@ || ext == "css"@ || ext
            == "js"@ || ext == "jsx"@ || ext == "ts"@ || ext == "tsx"@),
        reload_worthy(stem + "."@ + ext) <==> (ext == "html"@ || ext == "css"@ || ext == "js"@
            || ext == "jsx"@ || ext == "ts"@ || ext == "tsx"@),
{
    crate::path::lemma_file_extension(dir, stem, ext);
    lemma_reload_worthy_by_extension(dir + "/"@ + stem + "."@ + ext);
    lemma_reload_worthy_by_extension(stem + "."@ + ext);
}

/// A batch is hot-swapped as stylesheets exactly when it is not empty and
/// every one of its paths has the extension `css`.
pub proof fn lemma_css_only_all_paths(paths: Seq<Seq<char>>)
    ensures
        css_only(paths) <==> (paths.len() > 0 && forall|i: int|
            0 <= i < paths.len() ==> path_extension(#[trigger] paths[i]) == Some("css"@)),
{
}

/// One path in a batch that is not a stylesheet makes the whole batch a
/// page reload, wherever in the batch it stands.
pub proof fn lemma_non_css_path_reloads_page(paths: Seq<Seq<char>>, i: int)
    requires
        0 <= i < paths.len(),
        path_extension(paths[i]) != Some("css"@),
    ensures
        !css_only(paths),
{
}

/// Two non-empty batches merged are hot-swapped exactly when each of them
/// would be: the order in which the changes came does not matter.
pub proof fn lemma_css_only_merge(a: Seq<Seq<char>>, b: Seq<Seq<char>>)
    requires
        a.len() > 0,
        b.len() > 0,
    ensures
        css_only(a + b) <==> (css_only(a) && css_only(b)),
        css_only(a + b) == css_only(b + a),
{
    if css_only(a + b) {
        assert forall|i: int| 0 <= i < a.len() implies path_extension(#[trigger] a[i]) == Some(
            "css"@,
        ) by {
            assert((a + b)[i] == a[i]);
        }
        assert forall|i: int| 0 <= i < b.len() implies path_extension(#[trigger] b[i]) == Some(
            "css"@,
        ) by {
            assert((a + b)[a.len() + i] == b[i]);
        }
    }
    if css_only(b + a) {
        assert forall|i: int| 0 <= i < a.len() implies path_extension(#[trigger] a[i]) == Some(
            "css"@,
        ) by {
            assert((b + a)[b.len() + i] == a[i]);
        }
        assert forall|i: int| 0 <= i < b.len() implies path_extension(#[trigger] b[i]) == Some(
            "css"@,
        ) by {
            assert((b + a)[i] == b[i]);
        }
    }
    if css_only(a) && css_only(b) {
        assert forall|i: int| 0 <= i < (a + b).len() implies path_extension(
            #[trigger] (a + b)[i],
        ) == Some("css"@) by {
            if i < a.len() {
                assert((a + b)[i] == a[i]);
            } else {
                assert((a + b)[i] == b[i - a.len()]);
            }
        }
        assert forall|i: int| 0 <= i < (b + a).len() implies path_extension(
            #[trigger] (b + a)[i],
        ) == Some("css"@) by {
            if i < b.len() {
                assert((b + a)[i] == b[i]);
            } else {
                assert((b + a)[i] == a[i - b.len()]);
            }
        }
    }
}

} // verus!
