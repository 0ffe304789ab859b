//! Finding a working identity for a remote without asking: the cached key
//! first, then the default key, then every other loaded key in turn.
//!
//! The search is a state machine. Each step names the outside work to do next
//! (read the cache, probe a key, ...); the caller does it and reports back.

use vstd::prelude::*;
use crate::agent::{key_views, AgentKey, KeyView};
use crate::ssh::texts;
use crate::text::{chars_equal, trim, trimmed_chars};

verus! {

broadcast use vstd::string::group_string_axioms;

/// Why no key was chosen.
#[derive(Debug, Clone, Copy, PartialEq, Eq, Structural)]
pub enum DetectFailure {
    /// The agent holds no identity.
    NoIdentities,
    /// Every identity was probed and none was accepted.
    NoWorkingKey,
}

/// Where a search stands.
#[derive(Debug, Clone, Copy, PartialEq, Eq, Structural)]
pub enum DetectPhase {
    /// Waiting for the cached key line of the remote.
    ReadingCache,
    /// Waiting for the probe of the cached key (a position in the key list).
    ProbingCached(usize),
    /// Waiting for the stale cache entry to be removed.
    ClearingCache,
    /// Waiting for the configured default identifier.
    ReadingDefault,
    /// Waiting for the probe of the default key.
    ProbingDefault(usize),
    /// Waiting for the probe of a key found by scanning the list.
    Probing(usize),
    /// Waiting for the working key to be written to the cache.
    Storing(usize),
    /// The key at this position works.
    Finished(usize),
    /// No key was chosen.
    Failed(DetectFailure),
}

/// The outside work a search asks for next.
#[derive(Debug, Clone, Copy, PartialEq, Eq, Structural)]
pub enum DetectAction {
    /// Read the cache entry of the remote; answer with `Cache`.
    ReadCache,
    /// Probe the remote with the key at this position; answer with `Probed`.
    Probe(usize),
    /// Remove the cache entry of the remote; answer with `Done`.
    ClearCache,
    /// Read the configured default key; answer with `DefaultKey`.
    ReadDefault,
    /// Record the key at this position in the cache entry; answer with `Done`.
    StoreCache(usize),
    /// The search is over: the key at this position works.
    Finish(usize),
    /// The search is over without a key.
    Fail(DetectFailure),
}

/// What the caller reports after doing the work asked for.
#[derive(Debug)]
pub enum DetectEvent {
    /// The cached key line, if the remote has a cache entry.
    Cache(Option<String>),
    /// The position of the loaded key that the configured default names, if any.
    DefaultKey(Option<usize>),
    /// Whether the probed key was accepted.
    Probed(bool),
    /// The cache entry was written or removed.
    Done,
}

/// A report, as texts.
pub enum EventView {
    Cache(Option<Seq<char>>),
    DefaultKey(Option<usize>),
    Probed(bool),
    Done,
}

impl View for DetectEvent {
    type V = EventView;

    open spec fn view(&self) -> EventView {
        match self {
            DetectEvent::Cache(c) => EventView::Cache(
                match c {
                    Some(l) => Some(l@),
                    None => None,
                },
            ),
            DetectEvent::DefaultKey(k) => EventView::DefaultKey(*k),
            DetectEvent::Probed(ok) => EventView::Probed(*ok),
            DetectEvent::Done => EventView::Done,
        }
    }
}

/// A search: the loaded keys, the key lines probed so far, and the stand.
pub struct DetectView {
    pub keys: Seq<KeyView>,
    pub tried: Seq<Seq<char>>,
    pub phase: DetectPhase,
}

/// The report that the stand `phase` waits for.
pub open spec fn expects(phase: DetectPhase, e: EventView) -> bool {
    match phase {
        DetectPhase::ReadingCache => e is Cache,
        DetectPhase::ProbingCached(_) => e is Probed,
        DetectPhase::ClearingCache => e is Done,
        DetectPhase::ReadingDefault => e is DefaultKey,
        DetectPhase::ProbingDefault(_) => e is Probed,
        DetectPhase::Probing(_) => e is Probed,
        DetectPhase::Storing(_) => e is Done,
        DetectPhase::Finished(_) => false,
        DetectPhase::Failed(_) => false,
    }
}

/// The search is over.
pub open spec fn is_over(phase: DetectPhase) -> bool {
    phase is Finished || phase is Failed
}

/// The first key that the cached line names: the same line once both are trimmed.
pub open spec fn cached_key_from(keys: Seq<KeyView>, cached: Seq<char>, i: int) -> Option<int>
    decreases keys.len() - i,
{
    if i < 0 || i >= keys.len() {
        None
    } else if trim(keys[i].line) == trim(cached) {
        Some(i)
    } else {
        cached_key_from(keys, cached, i + 1)
    }
}

/// The first key at or after `i` whose line was not probed yet.
pub open spec fn untried_from(keys: Seq<KeyView>, tried: Seq<Seq<char>>, i: int) -> Option<int>
    decreases keys.len() - i,
{
    if i < 0 || i >= keys.len() {
        None
    } else if !tried.contains(keys[i].line) {
        Some(i)
    } else {
        untried_from(keys, tried, i + 1)
    }
}

/// Probing the key at `k`: its line counts as tried from now on.
pub open spec fn probe_key_at(keys: Seq<KeyView>, tried: Seq<Seq<char>>, k: int, phase: DetectPhase) -> (
    DetectView,
    DetectAction,
) {
    (DetectView { keys, tried: tried.push(keys[k].line), phase }, DetectAction::Probe(k as usize))
}

/// Scanning the list from position `i` for a key not yet probed.
pub open spec fn scan_from(keys: Seq<KeyView>, tried: Seq<Seq<char>>, i: int) -> (
    DetectView,
    DetectAction,
) {
    match untried_from(keys, tried, i) {
        Some(k) => probe_key_at(keys, tried, k, DetectPhase::Probing(k as usize)),
        None => (
            DetectView { keys, tried, phase: DetectPhase::Failed(DetectFailure::NoWorkingKey) },
            DetectAction::Fail(DetectFailure::NoWorkingKey),
        ),
    }
}

/// Moving to the stand `phase` and asking for `action`, with nothing else changed.
pub open spec fn go(s: DetectView, phase: DetectPhase, action: DetectAction) -> (
    DetectView,
    DetectAction,
) {
    (DetectView { keys: s.keys, tried: s.tried, phase }, action)
}

/// How a search starts: over at once when no key is loaded, else by reading
/// the cache.
pub open spec fn detect_start(keys: Seq<KeyView>) -> (DetectView, DetectAction) {
    if keys.len() == 0 {
        (
            DetectView { keys, tried: seq![], phase: DetectPhase::Failed(DetectFailure::NoIdentities) },
            DetectAction::Fail(DetectFailure::NoIdentities),
        )
    } else {
        (DetectView { keys, tried: seq![], phase: DetectPhase::ReadingCache }, DetectAction::ReadCache)
    }
}

/// One step of a search:
/// - a cached line that names a loaded key gets that key probed; a key that
///   works then is the answer, one that fails has its cache entry removed;
/// - then the key that the configured default names, when it is loaded and
///   not probed yet, gets probed; a key that works is cached and is the answer;
/// - otherwise every key not probed yet is probed in list order; the first that
///   works is cached and is the answer, and when none does the search fails.
pub open spec fn detect_step(s: DetectView, e: EventView) -> (DetectView, DetectAction) {
    match s.phase {
        DetectPhase::ReadingCache => match e {
            EventView::Cache(Some(cached)) => match cached_key_from(s.keys, cached, 0) {
                Some(k) => probe_key_at(s.keys, s.tried, k, DetectPhase::ProbingCached(k as usize)),
                None => go(s, DetectPhase::ReadingDefault, DetectAction::ReadDefault),
            },
            _ => go(s, DetectPhase::ReadingDefault, DetectAction::ReadDefault),
        },
        DetectPhase::ProbingCached(k) => if e == EventView::Probed(true) {
            go(s, DetectPhase::Finished(k), DetectAction::Finish(k))
        } else {
            go(s, DetectPhase::ClearingCache, DetectAction::ClearCache)
        },
        DetectPhase::ClearingCache => go(s, DetectPhase::ReadingDefault, DetectAction::ReadDefault),
        DetectPhase::ReadingDefault => match e {
            EventView::DefaultKey(Some(k)) => if k < s.keys.len() && !s.tried.contains(
                s.keys[k as int].line,
            ) {
                probe_key_at(s.keys, s.tried, k as int, DetectPhase::ProbingDefault(k))
            } else {
                scan_from(s.keys, s.tried, 0)
            },
            _ => scan_from(s.keys, s.tried, 0),
        },
        DetectPhase::ProbingDefault(k) => if e == EventView::Probed(true) {
            go(s, DetectPhase::Storing(k), DetectAction::StoreCache(k))
        } else {
            scan_from(s.keys, s.tried, 0)
        },
        DetectPhase::Probing(k) => if e == EventView::Probed(true) {
            go(s, DetectPhase::Storing(k), DetectAction::StoreCache(k))
        } else {
            scan_from(s.keys, s.tried, k + 1)
        },
        DetectPhase::Storing(k) => go(s, DetectPhase::Finished(k), DetectAction::Finish(k)),
        _ => (s, DetectAction::Fail(DetectFailure::NoWorkingKey)),
    }
}

/// The consistency of a search: positions lie in the key list, a key being
/// probed counts as tried, a scan at position `k` has tried every key up to
/// `k`, and a failed search has tried every key.
pub open spec fn detect_wf(s: DetectView) -> bool {
    &&& s.keys.len() <= usize::MAX
    &&& match s.phase {
        DetectPhase::ProbingCached(k) => k < s.keys.len() && s.tried.contains(s.keys[k as int].line),
        DetectPhase::ProbingDefault(k) => k < s.keys.len() && s.tried.contains(s.keys[k as int].line),
        DetectPhase::Probing(k) => k < s.keys.len() && forall|j: int|
            0 <= j <= k ==> s.tried.contains(#[trigger] s.keys[j].line),
        DetectPhase::Storing(k) => k < s.keys.len(),
        DetectPhase::Finished(k) => k < s.keys.len(),
        DetectPhase::Failed(DetectFailure::NoWorkingKey) => forall|j: int|
            0 <= j < s.keys.len() ==> s.tried.contains(#[trigger] s.keys[j].line),
        DetectPhase::Failed(DetectFailure::NoIdentities) => s.keys.len() == 0,
        DetectPhase::ReadingCache => s.keys.len() > 0 && s.tried.len() == 0,
        _ => s.keys.len() > 0,
    }
}

// ---------------------------------------------------------------------------
// Laws
// ---------------------------------------------------------------------------

proof fn lemma_push_contains(t: Seq<Seq<char>>, x: Seq<char>, y: Seq<char>)
    ensures
        t.push(y).contains(y),
        t.contains(x) ==> t.push(y).contains(x),
{
    assert(t.push(y)[t.len() as int] == y);
    if t.contains(x) {
        let i = choose|i: int| 0 <= i < t.len() && t[i] == x;
        assert(t.push(y)[i] == x);
    }
}

proof fn lemma_untried_from(keys: Seq<KeyView>, tried: Seq<Seq<char>>, i: int)
    requires
        0 <= i,
    ensures
        untried_from(keys, tried, i) matches Some(k) ==> i <= k < keys.len() && !tried.contains(
            keys[k].line,
        ) && forall|j: int| i <= j < k ==> tried.contains(#[trigger] keys[j].line),
        untried_from(keys, tried, i) is None ==> forall|j: int|
            i <= j < keys.len() ==> tried.contains(#[trigger] keys[j].line),
    decreases keys.len() - i,
{
    if i < keys.len() && tried.contains(keys[i].line) {
        lemma_untried_from(keys, tried, i + 1);
    }
}

proof fn lemma_cached_key_from(keys: Seq<KeyView>, cached: Seq<char>, i: int)
    requires
        0 <= i,
    ensures
        cached_key_from(keys, cached, i) matches Some(k) ==> i <= k < keys.len(),
    decreases keys.len() - i,
{
    if i < keys.len() && trim(keys[i].line) != trim(cached) {
        lemma_cached_key_from(keys, cached, i + 1);
    }
}

/// Scanning from `i`, when every key before `i` was tried, keeps the search consistent.
proof fn lemma_scan_wf(s: DetectView, i: int)
    requires
        0 <= i,
        s.keys.len() <= usize::MAX,
        forall|j: int| 0 <= j < i && j < s.keys.len() ==> s.tried.contains(#[trigger] s.keys[j].line),
    ensures
        detect_wf(scan_from(s.keys, s.tried, i).0),
        scan_from(s.keys, s.tried, i).0.keys == s.keys,
        scan_from(s.keys, s.tried, i).1 matches DetectAction::Probe(k) ==> !s.tried.contains(s.keys[k as int].line),
{
    lemma_untried_from(s.keys, s.tried, i);
    match untried_from(s.keys, s.tried, i) {
        Some(k) => {
            let t2 = s.tried.push(s.keys[k].line);
            lemma_push_contains(s.tried, s.keys[k].line, s.keys[k].line);
            assert forall|j: int| 0 <= j <= k implies t2.contains(#[trigger] s.keys[j].line) by {
                lemma_push_contains(s.tried, s.keys[j].line, s.keys[k].line);
            }
        },
        None => {},
    }
}

proof fn lemma_probe_at_wf(s: DetectView, k: int)
    requires
        0 <= k < s.keys.len() <= usize::MAX,
    ensures
        probe_key_at(s.keys, s.tried, k, DetectPhase::ProbingCached(k as usize)).0.tried.contains(s.keys[k].line),
        probe_key_at(s.keys, s.tried, k, DetectPhase::ProbingDefault(k as usize)).0.tried.contains(s.keys[k].line),
{
    lemma_push_contains(s.tried, s.keys[k].line, s.keys[k].line);
}

/// Every search starts consistent.
pub proof fn lemma_detect_start_wf(keys: Seq<KeyView>)
    requires
        keys.len() <= usize::MAX,
    ensures
        detect_wf(detect_start(keys).0),
{
}

/// Every step keeps a search consistent.
pub proof fn lemma_detect_step_wf(s: DetectView, e: EventView)
    requires
        detect_wf(s),
        expects(s.phase, e),
    ensures
        detect_wf(detect_step(s, e).0),
        detect_step(s, e).0.keys == s.keys,
{
    match s.phase {
        DetectPhase::ReadingCache => {
            if let EventView::Cache(Some(cached)) = e {
                lemma_cached_key_from(s.keys, cached, 0);
                if let Some(k) = cached_key_from(s.keys, cached, 0) {
                    lemma_probe_at_wf(s, k);
                }
            }
        },
        DetectPhase::ReadingDefault => {
            lemma_scan_wf(s, 0);
            if let EventView::DefaultKey(Some(k)) = e {
                if k < s.keys.len() {
                    lemma_probe_at_wf(s, k as int);
                }
            }
        },
        DetectPhase::ProbingDefault(k) => {
            lemma_scan_wf(s, 0);
        },
        DetectPhase::Probing(k) => {
            lemma_scan_wf(s, k + 1);
        },
        _ => {},
    }
}

/// No key line is probed twice: a step that asks for a probe names a key whose
/// line was not tried yet and records that line as tried; every other step
/// leaves the tried lines as they were.
pub proof fn lemma_probes_are_fresh(s: DetectView, e: EventView)
    requires
        detect_wf(s),
        expects(s.phase, e),
    ensures
        detect_step(s, e).1 matches DetectAction::Probe(k) ==> {
            &&& k < s.keys.len()
            &&& !s.tried.contains(s.keys[k as int].line)
            &&& detect_step(s, e).0.tried == s.tried.push(s.keys[k as int].line)
        },
        !(detect_step(s, e).1 is Probe) ==> detect_step(s, e).0.tried == s.tried,
{
    lemma_detect_step_wf(s, e);
    match s.phase {
        DetectPhase::ReadingCache => {
            match e {
                EventView::Cache(Some(cached)) => {
                    lemma_cached_key_from(s.keys, cached, 0);
                },
                _ => {},
            }
        },
        DetectPhase::ReadingDefault => {
            lemma_scan_wf(s, 0);
            lemma_untried_from(s.keys, s.tried, 0);
        },
        DetectPhase::ProbingDefault(k) => {
            lemma_scan_wf(s, 0);
            lemma_untried_from(s.keys, s.tried, 0);
        },
        DetectPhase::Probing(k) => {
            lemma_scan_wf(s, k + 1);
            lemma_untried_from(s.keys, s.tried, k + 1);
        },
        _ => {},
    }
}

/// A key is the answer only once the remote accepted it: right after its probe
/// succeeded (the cached key), or once it was cached after its probe succeeded.
/// It is cached only right after its probe succeeded, and a cache entry is
/// removed only right after the cached key was refused.
pub proof fn lemma_answers_are_accepted(s: DetectView, e: EventView)
    requires
        detect_wf(s),
        expects(s.phase, e),
    ensures
        detect_step(s, e).1 matches DetectAction::Finish(k) ==> (s.phase == DetectPhase::ProbingCached(
            k,
        ) && e == EventView::Probed(true)) || s.phase == DetectPhase::Storing(k),
        detect_step(s, e).1 matches DetectAction::StoreCache(k) ==> e == EventView::Probed(true) && (
        s.phase == DetectPhase::ProbingDefault(k) || s.phase == DetectPhase::Probing(k)),
        detect_step(s, e).1 is ClearCache ==> s.phase is ProbingCached && e == EventView::Probed(
            false,
        ),
{
}

/// A search fails for want of a working key only after every loaded key was probed.
pub proof fn lemma_failure_is_exhaustive(s: DetectView, e: EventView)
    requires
        detect_wf(s),
        expects(s.phase, e),
    ensures
        detect_step(s, e).1 == DetectAction::Fail(DetectFailure::NoWorkingKey) ==> forall|j: int|
            0 <= j < s.keys.len() ==> detect_step(s, e).0.tried.contains(#[trigger] s.keys[j].line),
{
    lemma_detect_step_wf(s, e);
}

/// How many of the first `n` keys have a line that was not probed yet.
pub open spec fn untried_count(keys: Seq<KeyView>, tried: Seq<Seq<char>>, n: int) -> nat
    decreases n,
{
    if n <= 0 {
        0
    } else {
        untried_count(keys, tried, n - 1) + if tried.contains(keys[n - 1].line) {
            0nat
        } else {
            1nat
        }
    }
}

/// How far a stand is from the end of a search, not counting probes to come.
pub open spec fn phase_rank(phase: DetectPhase) -> nat {
    match phase {
        DetectPhase::ReadingCache => 7,
        DetectPhase::ProbingCached(_) => 6,
        DetectPhase::ClearingCache => 5,
        DetectPhase::ReadingDefault => 4,
        DetectPhase::ProbingDefault(_) => 3,
        DetectPhase::Probing(_) => 2,
        DetectPhase::Storing(_) => 1,
        _ => 0,
    }
}

/// What is left of a search: eight for every key whose line was not probed
/// yet, and the rank of the stand.
pub open spec fn detect_measure(s: DetectView) -> nat {
    untried_count(s.keys, s.tried, s.keys.len() as int) * 8 + phase_rank(s.phase)
}

proof fn lemma_untried_count_push(keys: Seq<KeyView>, tried: Seq<Seq<char>>, x: Seq<char>, n: int)
    requires
        0 <= n <= keys.len(),
    ensures
        untried_count(keys, tried.push(x), n) <= untried_count(keys, tried, n),
    decreases n,
{
    if n > 0 {
        lemma_untried_count_push(keys, tried, x, n - 1);
        lemma_push_contains(tried, keys[n - 1].line, x);
    }
}

proof fn lemma_untried_count_probe(keys: Seq<KeyView>, tried: Seq<Seq<char>>, k: int, n: int)
    requires
        0 <= k < n <= keys.len(),
        !tried.contains(keys[k].line),
    ensures
        untried_count(keys, tried.push(keys[k].line), n) < untried_count(keys, tried, n),
    decreases n,
{
    let x = keys[k].line;
    lemma_push_contains(tried, keys[n - 1].line, x);
    if k == n - 1 {
        lemma_untried_count_push(keys, tried, x, n - 1);
    } else {
        lemma_untried_count_probe(keys, tried, k, n - 1);
    }
}

proof fn lemma_scan_shrinks(s: DetectView, i: int)
    requires
        0 <= i,
    ensures
        detect_measure(scan_from(s.keys, s.tried, i).0) < untried_count(s.keys, s.tried, s.keys.len() as int) * 8 + 2,
{
    lemma_untried_from(s.keys, s.tried, i);
    if let Some(k) = untried_from(s.keys, s.tried, i) {
        lemma_untried_count_probe(s.keys, s.tried, k, s.keys.len() as int);
    }
}

proof fn lemma_cached_key_from_first(keys: Seq<KeyView>, cached: Seq<char>, i: int)
    requires
        0 <= i,
    ensures
        cached_key_from(keys, cached, i) matches Some(k) ==> i <= k < keys.len() && trim(keys[k].line)
            == trim(cached) && forall|j: int| i <= j < k ==> trim(#[trigger] keys[j].line) != trim(cached),
        cached_key_from(keys, cached, i) is None ==> forall|j: int|
            i <= j < keys.len() ==> trim(#[trigger] keys[j].line) != trim(cached),
    decreases keys.len() - i,
{
    if i < keys.len() && trim(keys[i].line) != trim(cached) {
        lemma_cached_key_from_first(keys, cached, i + 1);
    }
}

/// Reading the cache: when the cached line, trimmed, is the trimmed line of a
/// loaded key, the first such key is probed next; otherwise (no cache entry, or
/// one that names no loaded key) nothing is probed and the configured default
/// key is asked for next.
pub proof fn lemma_cache_read(s: DetectView, e: EventView)
    requires
        detect_wf(s),
        s.phase == DetectPhase::ReadingCache,
        e is Cache,
    ensures
        (e matches EventView::Cache(Some(c)) && exists|j: int|
            0 <= j < s.keys.len() && trim(#[trigger] s.keys[j].line) == trim(c)) ==> {
            &&& detect_step(s, e).1 matches DetectAction::Probe(k)
            &&& k < s.keys.len()
            &&& e matches EventView::Cache(Some(c)) && trim(s.keys[k as int].line) == trim(c)
                && forall|j: int| 0 <= j < k ==> trim(#[trigger] s.keys[j].line) != trim(c)
            &&& detect_step(s, e).0.phase == DetectPhase::ProbingCached(k)
        },
        !(e matches EventView::Cache(Some(c)) && exists|j: int|
            0 <= j < s.keys.len() && trim(#[trigger] s.keys[j].line) == trim(c)) ==> {
            &&& detect_step(s, e).1 == DetectAction::ReadDefault
            &&& detect_step(s, e).0.phase == DetectPhase::ReadingDefault
            &&& detect_step(s, e).0.tried == s.tried
        },
{
    if let EventView::Cache(Some(c)) = e {
        lemma_cached_key_from_first(s.keys, c, 0);
    }
}

/// Reading the default: a default key that is loaded and not probed yet is
/// probed next; otherwise the scan of the list begins with the first key not
/// probed yet.
pub proof fn lemma_default_read(s: DetectView, e: EventView)
    requires
        detect_wf(s),
        s.phase == DetectPhase::ReadingDefault,
        e is DefaultKey,
    ensures
        (e matches EventView::DefaultKey(Some(k)) && k < s.keys.len() && !s.tried.contains(
            s.keys[k as int].line,
        )) ==> detect_step(s, e).1 == DetectAction::Probe(e->DefaultKey_0->0) && detect_step(s, e).0.phase
            == DetectPhase::ProbingDefault(e->DefaultKey_0->0),
        !(e matches EventView::DefaultKey(Some(k)) && k < s.keys.len() && !s.tried.contains(
            s.keys[k as int].line,
        )) ==> (detect_step(s, e).1 matches DetectAction::Probe(k) ==> k < s.keys.len()
            && !s.tried.contains(s.keys[k as int].line) && forall|j: int|
            0 <= j < k ==> s.tried.contains(#[trigger] s.keys[j].line)),
{
    lemma_untried_from(s.keys, s.tried, 0);
}

/// Before the configured default key is read, the list is never scanned: the
/// steps from reading the cache up to clearing it probe no key but the cached
/// one and store nothing.
pub proof fn lemma_no_scan_before_default(s: DetectView, e: EventView)
    requires
        s.phase == DetectPhase::ReadingCache || s.phase is ProbingCached || s.phase
            == DetectPhase::ClearingCache,
        expects(s.phase, e),
    ensures
        !(detect_step(s, e).0.phase is Probing),
        !(detect_step(s, e).0.phase is ProbingDefault),
        !(detect_step(s, e).1 is StoreCache),
        !(detect_step(s, e).1 is Fail),
{
}

/// Every search ends: each step takes a consistent search strictly closer to
/// its end, so one over `n` keys is over after at most `8 * n + 7` steps.
pub proof fn lemma_detect_step_shrinks(s: DetectView, e: EventView)
    requires
        detect_wf(s),
        expects(s.phase, e),
    ensures
        detect_measure(detect_step(s, e).0) < detect_measure(s),
        !is_over(s.phase),
{
    let n = s.keys.len() as int;
    match s.phase {
        DetectPhase::ReadingCache => {
            if let EventView::Cache(Some(cached)) = e {
                lemma_cached_key_from(s.keys, cached, 0);
                if let Some(k) = cached_key_from(s.keys, cached, 0) {
                    assert(!s.tried.contains(s.keys[k].line));
                    lemma_untried_count_probe(s.keys, s.tried, k, n);
                }
            }
        },
        DetectPhase::ReadingDefault => {
            lemma_scan_shrinks(s, 0);
            if let EventView::DefaultKey(Some(k)) = e {
                if k < s.keys.len() && !s.tried.contains(s.keys[k as int].line) {
                    lemma_untried_count_probe(s.keys, s.tried, k as int, n);
                }
            }
        },
        DetectPhase::ProbingDefault(_) => {
            lemma_scan_shrinks(s, 0);
        },
        DetectPhase::Probing(k) => {
            lemma_scan_shrinks(s, k + 1);
        },
        _ => {},
    }
}

/// A search starts with at most `8 * n + 7` steps to go, for `n` keys.
pub proof fn lemma_detect_start_measure(keys: Seq<KeyView>)
    ensures
        detect_measure(detect_start(keys).0) <= 8 * keys.len() + 7,
{
    lemma_untried_count_bound(keys, seq![], keys.len() as int);
}

proof fn lemma_untried_count_bound(keys: Seq<KeyView>, tried: Seq<Seq<char>>, n: int)
    requires
        0 <= n <= keys.len(),
    ensures
        untried_count(keys, tried, n) <= n,
    decreases n,
{
    if n > 0 {
        lemma_untried_count_bound(keys, tried, n - 1);
    }
}

// ---------------------------------------------------------------------------
// The executable search
// ---------------------------------------------------------------------------

/// A search for a working identity for one remote.
pub struct AutoDetect {
    keys: Vec<AgentKey>,
    tried: Vec<String>,
    phase: DetectPhase,
}

impl View for AutoDetect {
    type V = DetectView;

    closed spec fn view(&self) -> DetectView {
        DetectView { keys: key_views(self.keys@), tried: texts(self.tried@), phase: self.phase }
    }
}

fn tried_contains(tried: &Vec<String>, line: &String) -> (res: bool)
    ensures
        res == texts(tried@).contains(line@),
{
    let ghost t = texts(tried@);
    let mut i: usize = 0;
    while i < tried.len()
        invariant
            i <= tried.len() == t.len(),
            t == texts(tried@),
            forall|j: int| 0 <= j < i ==> t[j] != line@,
        decreases tried.len() - i,
    {
        assert(t[i as int] == tried@[i as int]@);
        if tried[i] == *line {
            return true;
        }
        i = i + 1;
    }
    false
}

fn cached_position(keys: &Vec<AgentKey>, cached: &String) -> (res: Option<usize>)
    ensures
        match res {
            Some(k) => cached_key_from(key_views(keys@), cached@, 0) == Some(k as int),
            None => cached_key_from(key_views(keys@), cached@, 0) is None,
        },
{
    let ghost kv = key_views(keys@);
    let target = trimmed_chars(cached.as_str());
    let mut i: usize = 0;
    while i < keys.len()
        invariant
            i <= keys.len() == kv.len(),
            kv == key_views(keys@),
            target@ == trim(cached@),
            cached_key_from(kv, cached@, 0) == cached_key_from(kv, cached@, i as int),
        decreases keys.len() - i,
    {
        assert(kv[i as int] == keys@[i as int]@);
        let line = trimmed_chars(keys[i].line.as_str());
        if chars_equal(&line, &target) {
            return Some(i);
        }
        i = i + 1;
    }
    None
}

fn untried_position(keys: &Vec<AgentKey>, tried: &Vec<String>, from: usize) -> (res: Option<usize>)
    ensures
        match res {
            Some(k) => untried_from(key_views(keys@), texts(tried@), from as int) == Some(k as int),
            None => untried_from(key_views(keys@), texts(tried@), from as int) is None,
        },
{
    let ghost kv = key_views(keys@);
    let mut i = from;
    while i < keys.len()
        invariant
            from <= i,
            keys.len() == kv.len(),
            kv == key_views(keys@),
            untried_from(kv, texts(tried@), from as int) == untried_from(kv, texts(tried@), i as int),
        decreases keys.len() - i,
    {
        assert(kv[i as int] == keys@[i as int]@);
        if !tried_contains(tried, &keys[i].line) {
            return Some(i);
        }
        i = i + 1;
    }
    None
}

impl AutoDetect {
    /// The consistency of this search (see `detect_wf`).
    pub closed spec fn wf(&self) -> bool {
        detect_wf(self@)
    }

    /// The stand of this search.
    pub fn phase(&self) -> (res: DetectPhase)
        ensures
            res == self@.phase,
    {
        self.phase
    }

    /// The loaded key at position `i`.
    pub fn key(&self, i: usize) -> (res: &AgentKey)
        requires
            i < self@.keys.len(),
        ensures
            res@ == self@.keys[i as int],
    {
        assert(key_views(self.keys@)[i as int] == self.keys@[i as int]@);
        &self.keys[i]
    }

    fn probe(keys: Vec<AgentKey>, tried: Vec<String>, k: usize, phase: DetectPhase) -> (res: (
        AutoDetect,
        DetectAction,
    ))
        requires
            k < keys.len(),
        ensures
            (res.0@, res.1) == probe_key_at(key_views(keys@), texts(tried@), k as int, phase),
    {
        let mut tried = tried;
        let ghost before = texts(tried@);
        tried.push(keys[k].line.clone());
        assert(key_views(keys@)[k as int] == keys@[k as int]@);
        assert(texts(tried@) =~= before.push(keys@[k as int]@.line));
        (AutoDetect { keys, tried, phase }, DetectAction::Probe(k))
    }

    fn scan(keys: Vec<AgentKey>, tried: Vec<String>, from: usize) -> (res: (AutoDetect, DetectAction))
        ensures
            (res.0@, res.1) == scan_from(key_views(keys@), texts(tried@), from as int),
    {
        proof { lemma_untried_from(key_views(keys@), texts(tried@), from as int); }
        match untried_position(&keys, &tried, from) {
            Some(k) => AutoDetect::probe(keys, tried, k, DetectPhase::Probing(k)),
            None => (
                AutoDetect { keys, tried, phase: DetectPhase::Failed(DetectFailure::NoWorkingKey) },
                DetectAction::Fail(DetectFailure::NoWorkingKey),
            ),
        }
    }

    /// Starts a search among `keys` (see `detect_start`).
    pub fn start(keys: Vec<AgentKey>) -> (res: (AutoDetect, DetectAction))
        ensures
            (res.0@, res.1) == detect_start(key_views(keys@)),
            res.0.wf(),
    {
        let tried: Vec<String> = Vec::new();
        assert(texts(tried@) =~= Seq::<Seq<char>>::empty());
        let r = if keys.len() == 0 {
            (
                AutoDetect { keys, tried, phase: DetectPhase::Failed(DetectFailure::NoIdentities) },
                DetectAction::Fail(DetectFailure::NoIdentities),
            )
        } else {
            (AutoDetect { keys, tried, phase: DetectPhase::ReadingCache }, DetectAction::ReadCache)
        };
        proof { lemma_detect_start_wf(r.0@.keys); }
        r
    }

    /// Takes one step of this search, given the report of the work it asked for
    /// (see `detect_step`).
    pub fn step(self, event: DetectEvent) -> (res: (AutoDetect, DetectAction))
        requires
            self.wf(),
            expects(self@.phase, event@),
        ensures
            (res.0@, res.1) == detect_step(self@, event@),
            res.0.wf(),
    {
        proof { lemma_detect_step_wf(self@, event@); }
        let ghost old_view = self@;
        let AutoDetect { keys, tried, phase } = self;
        let r = match phase {
            DetectPhase::ReadingCache => match event {
                DetectEvent::Cache(Some(cached)) => match cached_position(&keys, &cached) {
                    Some(k) => {
                        proof { lemma_cached_key_from(key_views(keys@), cached@, 0); }
                        AutoDetect::probe(keys, tried, k, DetectPhase::ProbingCached(k))
                    },
                    None => (
                        AutoDetect { keys, tried, phase: DetectPhase::ReadingDefault },
                        DetectAction::ReadDefault,
                    ),
                },
                _ => (
                    AutoDetect { keys, tried, phase: DetectPhase::ReadingDefault },
                    DetectAction::ReadDefault,
                ),
            },
            DetectPhase::ProbingCached(k) => match event {
                DetectEvent::Probed(true) => (
                    AutoDetect { keys, tried, phase: DetectPhase::Finished(k) },
                    DetectAction::Finish(k),
                ),
                _ => (
                    AutoDetect { keys, tried, phase: DetectPhase::ClearingCache },
                    DetectAction::ClearCache,
                ),
            },
            DetectPhase::ClearingCache => (
                AutoDetect { keys, tried, phase: DetectPhase::ReadingDefault },
                DetectAction::ReadDefault,
            ),
            DetectPhase::ReadingDefault => match event {
                DetectEvent::DefaultKey(Some(k)) => {
                    if k < keys.len() && !tried_contains(&tried, &keys[k].line) {
                        assert(key_views(keys@)[k as int] == keys@[k as int]@);
                        AutoDetect::probe(keys, tried, k, DetectPhase::ProbingDefault(k))
                    } else {
                        proof {
                            if k < keys.len() {
                                assert(key_views(keys@)[k as int] == keys@[k as int]@);
                            }
                        }
                        AutoDetect::scan(keys, tried, 0)
                    }
                },
                _ => AutoDetect::scan(keys, tried, 0),
            },
            DetectPhase::ProbingDefault(k) => match event {
                DetectEvent::Probed(true) => (
                    AutoDetect { keys, tried, phase: DetectPhase::Storing(k) },
                    DetectAction::StoreCache(k),
                ),
                _ => AutoDetect::scan(keys, tried, 0),
            },
            DetectPhase::Probing(k) => match event {
                DetectEvent::Probed(true) => (
                    AutoDetect { keys, tried, phase: DetectPhase::Storing(k) },
                    DetectAction::StoreCache(k),
                ),
                _ => AutoDetect::scan(keys, tried, k + 1),
            },
            DetectPhase::Storing(k) => (
                AutoDetect { keys, tried, phase: DetectPhase::Finished(k) },
                DetectAction::Finish(k),
            ),
            _ => (AutoDetect { keys, tried, phase }, DetectAction::Fail(DetectFailure::NoWorkingKey)),
        };
        r
    }
}

} // verus!
