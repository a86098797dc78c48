use vstd::prelude::*;

use crate::watch_set::WatchedFileSet;

verus! {

/// The category of a filesystem notification.
#[derive(Debug, Clone, Copy, PartialEq, Eq, Structural)]
pub enum EventKind {
    Create,
    Modify,
    Other,
}

/// One path named by an event, together with whether it referenced a regular
/// file at the moment it was checked.
#[derive(Debug)]
pub struct PathCandidate {
    pub path: String,
    pub is_file: bool,
}

/// A filesystem event: a kind and the affected paths.
#[derive(Debug)]
pub struct FsEvent {
    pub kind: EventKind,
    pub paths: Vec<PathCandidate>,
}

/// Only creations and modifications can lead to tailing.
pub open spec fn relevant(kind: EventKind) -> bool {
    kind is Create || kind is Modify
}

/// The candidates of an event, as plain values.
pub open spec fn candidates(e: FsEvent) -> Seq<(Seq<char>, bool)> {
    e.paths@.map_values(|c: PathCandidate| (c.path@, c.is_file))
}

/// The watch set after the candidates have been offered in order.
pub open spec fn set_after_candidates(
    s: Set<Seq<char>>,
    cands: Seq<(Seq<char>, bool)>,
) -> Set<Seq<char>>
    decreases cands.len(),
{
    if cands.len() == 0 {
        s
    } else {
        let prior = set_after_candidates(s, cands.drop_last());
        let last = cands.last();
        if last.1 && !prior.contains(last.0) {
            prior.insert(last.0)
        } else {
            prior
        }
    }
}

/// The paths admitted when the candidates are offered in order against a watch
/// set whose contents start as `s`: each regular file not yet a member, once.
pub open spec fn admitted_from(s: Set<Seq<char>>, cands: Seq<(Seq<char>, bool)>) -> Seq<Seq<char>>
    decreases cands.len(),
{
    if cands.len() == 0 {
        Seq::empty()
    } else {
        let prior = admitted_from(s, cands.drop_last());
        let prior_set = set_after_candidates(s, cands.drop_last());
        let last = cands.last();
        if last.1 && !prior_set.contains(last.0) {
            prior.push(last.0)
        } else {
            prior
        }
    }
}

/// The paths for which one event causes a tailing task to spawn.
pub open spec fn event_spawns(s: Set<Seq<char>>, e: FsEvent) -> Seq<Seq<char>> {
    if relevant(e.kind) {
        admitted_from(s, candidates(e))
    } else {
        Seq::empty()
    }
}

/// The watch set contents after one event has been processed.
pub open spec fn event_set_after(s: Set<Seq<char>>, e: FsEvent) -> Set<Seq<char>> {
    if relevant(e.kind) {
        set_after_candidates(s, candidates(e))
    } else {
        s
    }
}

/// Process one filesystem event: filter by kind, skip paths that are not
/// regular files, and admit each remaining path into the watch set at most
/// once. The returned paths are exactly those for which the caller must now
/// spawn a tailing task.
pub fn process_event(set: &mut WatchedFileSet, event: &FsEvent) -> (spawned: Vec<String>)
    ensures
        spawned@.len() == event_spawns(old(set)@, *event).len(),
        forall|i: int|
            0 <= i < spawned@.len() ==> (#[trigger] spawned@[i])@ == event_spawns(
                old(set)@,
                *event,
            )[i],
        final(set)@ == event_set_after(old(set)@, *event),
{
    match event.kind {
        EventKind::Other => {
            let spawned: Vec<String> = Vec::new();
            return spawned;
        },
        _ => {},
    }
    let ghost s0 = set@;
    let ghost cands = candidates(*event);
    let mut spawned: Vec<String> = Vec::new();
    let n = event.paths.len();
    let mut i: usize = 0;
    while i < n
        invariant
            i <= n,
            n == event.paths@.len(),
            cands == candidates(*event),
            set@ == set_after_candidates(s0, cands.subrange(0, i as int)),
            spawned@.map_values(|p: String| p@) == admitted_from(s0, cands.subrange(0, i as int)),
        decreases n - i,
    {
        let ghost pre = cands.subrange(0, i as int);
        let ghost ext = cands.subrange(0, i + 1 as int);
        proof {
            assert(ext.drop_last() =~= pre);
        }
        let cand = &event.paths[i];
        if cand.is_file {
            let admitted = set.try_admit(cand.path.clone());
            if admitted {
                let ghost prior = spawned@.map_values(|p: String| p@);
                spawned.push(cand.path.clone());
                proof {
                    assert(spawned@.map_values(|p: String| p@) =~= prior.push(
                        event.paths@[i as int].path@,
                    ));
                }
            } else {
                proof {
                    assert(set@ =~= set_after_candidates(s0, ext));
                }
            }
        }
        i = i + 1;
    }
    proof {
        assert(cands.subrange(0, n as int) =~= cands);
        assert forall|k: int| 0 <= k < spawned@.len() implies (#[trigger] spawned@[k])@
            == event_spawns(s0, *event)[k] by {
            assert(spawned@.map_values(|p: String| p@)[k] == spawned@[k]@);
        }
    }
    spawned
}

proof fn lemma_push_contains(s: Seq<Seq<char>>, x: Seq<char>, p: Seq<char>)
    ensures
        s.push(x).contains(p) <==> (s.contains(p) || p == x),
{
    if s.contains(p) {
        let i = choose|i: int| 0 <= i < s.len() && s[i] == p;
        assert(s.push(x)[i] == p);
    }
    assert(s.push(x)[s.len() as int] == x);
    if s.push(x).contains(p) && p != x {
        let i = choose|i: int| 0 <= i < s.push(x).len() && s.push(x)[i] == p;
        assert(s[i] == p);
    }
}

/// After the candidates are offered, the watch set holds exactly its prior
/// members and the newly admitted paths.
proof fn lemma_set_after_contains(s: Set<Seq<char>>, cands: Seq<(Seq<char>, bool)>, p: Seq<char>)
    ensures
        set_after_candidates(s, cands).contains(p) <==> (s.contains(p) || admitted_from(
            s,
            cands,
        ).contains(p)),
    decreases cands.len(),
{
    if cands.len() == 0 {
        assert(!Seq::<Seq<char>>::empty().contains(p));
    } else {
        let dl = cands.drop_last();
        lemma_set_after_contains(s, dl, p);
        let prior_set = set_after_candidates(s, dl);
        let prior_adm = admitted_from(s, dl);
        let last = cands.last();
        if last.1 && !prior_set.contains(last.0) {
            lemma_push_contains(prior_adm, last.0, p);
        }
    }
}

/// A candidate list admits `p` exactly when `p` was not yet a member and some
/// candidate offers `p` as a regular file.
proof fn lemma_admitted_iff(s: Set<Seq<char>>, cands: Seq<(Seq<char>, bool)>, p: Seq<char>)
    ensures
        admitted_from(s, cands).contains(p) <==> (!s.contains(p) && exists|j: int|
            0 <= j < cands.len() && (#[trigger] cands[j]) == (p, true)),
    decreases cands.len(),
{
    if cands.len() == 0 {
        assert(!Seq::<Seq<char>>::empty().contains(p));
    } else {
        let dl = cands.drop_last();
        lemma_admitted_iff(s, dl, p);
        lemma_set_after_contains(s, dl, p);
        let prior_set = set_after_candidates(s, dl);
        let prior_adm = admitted_from(s, dl);
        let last = cands.last();
        assert((exists|j: int| 0 <= j < cands.len() && (#[trigger] cands[j]) == (p, true)) <==> ((
        exists|j: int| 0 <= j < dl.len() && (#[trigger] dl[j]) == (p, true)) || last == (
        p,
        true,
        ))) by {
            if exists|j: int| 0 <= j < dl.len() && (#[trigger] dl[j]) == (p, true) {
                let j = choose|j: int| 0 <= j < dl.len() && (#[trigger] dl[j]) == (p, true);
                assert(cands[j] == (p, true));
            }
            if last == (p, true) {
                assert(cands[cands.len() - 1] == (p, true));
            }
            if exists|j: int| 0 <= j < cands.len() && (#[trigger] cands[j]) == (p, true) {
                let j = choose|j: int| 0 <= j < cands.len() && (#[trigger] cands[j]) == (p, true);
                if j < cands.len() - 1 {
                    assert(dl[j] == (p, true));
                }
            }
        }
        if last.1 && !prior_set.contains(last.0) {
            lemma_push_contains(prior_adm, last.0, p);
        }
    }
}

/// No candidate list admits the same path twice.
proof fn lemma_admitted_distinct(s: Set<Seq<char>>, cands: Seq<(Seq<char>, bool)>)
    ensures
        forall|i: int, j: int|
            0 <= i < j < admitted_from(s, cands).len() ==> admitted_from(s, cands)[i]
                != admitted_from(s, cands)[j],
    decreases cands.len(),
{
    if cands.len() > 0 {
        let dl = cands.drop_last();
        lemma_admitted_distinct(s, dl);
        let prior_set = set_after_candidates(s, dl);
        let prior_adm = admitted_from(s, dl);
        let last = cands.last();
        if last.1 && !prior_set.contains(last.0) {
            lemma_set_after_contains(s, dl, last.0);
            assert(!prior_adm.contains(last.0));
            let adm = admitted_from(s, cands);
            assert forall|i: int, j: int| 0 <= i < j < adm.len() implies adm[i] != adm[j] by {
                if j == adm.len() - 1 && adm[i] == adm[j] {
                    assert(prior_adm[i] == last.0);
                    assert(prior_adm.contains(last.0));
                }
            }
        }
    }
}

/// Whether an event carries `p` as a path that referenced a regular file at
/// check time.
pub open spec fn references_file(e: FsEvent, p: Seq<char>) -> bool {
    exists|j: int| 0 <= j < candidates(e).len() && (#[trigger] candidates(e)[j]) == (p, true)
}

/// One event spawns a tailing task for `p` exactly when the event is of a
/// relevant kind, references `p` as a regular file, and `p` has not yet been
/// admitted.
pub proof fn lemma_event_spawns_iff(s: Set<Seq<char>>, e: FsEvent, p: Seq<char>)
    ensures
        event_spawns(s, e).contains(p) <==> (relevant(e.kind) && !s.contains(p)
            && references_file(e, p)),
{
    if relevant(e.kind) {
        lemma_admitted_iff(s, candidates(e), p);
    } else {
        assert(!Seq::<Seq<char>>::empty().contains(p));
    }
}

/// Events of kinds other than create or modify never cause a task to spawn
/// and never change the watch set.
pub proof fn lemma_irrelevant_event_spawns_nothing(s: Set<Seq<char>>, e: FsEvent)
    requires
        !relevant(e.kind),
    ensures
        event_spawns(s, e) == Seq::<Seq<char>>::empty(),
        event_set_after(s, e) == s,
{
}

/// A path that no candidate of the event offers as a regular file — a
/// directory, or a path that vanished before the check — is never spawned.
pub proof fn lemma_non_file_never_spawns(s: Set<Seq<char>>, e: FsEvent, p: Seq<char>)
    requires
        !references_file(e, p),
    ensures
        !event_spawns(s, e).contains(p),
{
    lemma_event_spawns_iff(s, e, p);
}

/// A failure scoped to one admitted file does not affect another file's
/// admission: an identity `a` held in the watch set — for instance a file
/// whose reader failed to open, since admission is never reverted — has no
/// bearing on whether an event spawns a task for a different identity `b`.
pub proof fn lemma_failure_isolation(s: Set<Seq<char>>, e: FsEvent, a: Seq<char>, b: Seq<char>)
    requires
        a != b,
    ensures
        event_spawns(s.insert(a), e).contains(b) <==> event_spawns(s, e).contains(b),
{
    lemma_event_spawns_iff(s.insert(a), e, b);
    lemma_event_spawns_iff(s, e, b);
}

/// The paths spawned over a whole run of events, in order of admission.
pub open spec fn run_spawns(s: Set<Seq<char>>, events: Seq<FsEvent>) -> Seq<Seq<char>>
    decreases events.len(),
{
    if events.len() == 0 {
        Seq::empty()
    } else {
        run_spawns(s, events.drop_last()) + event_spawns(
            run_set_after(s, events.drop_last()),
            events.last(),
        )
    }
}

/// The watch set contents after a whole run of events.
pub open spec fn run_set_after(s: Set<Seq<char>>, events: Seq<FsEvent>) -> Set<Seq<char>>
    decreases events.len(),
{
    if events.len() == 0 {
        s
    } else {
        event_set_after(run_set_after(s, events.drop_last()), events.last())
    }
}

proof fn lemma_event_spawn_facts(s: Set<Seq<char>>, e: FsEvent)
    ensures
        forall|i: int, j: int|
            0 <= i < j < event_spawns(s, e).len() ==> event_spawns(s, e)[i] != event_spawns(s, e)[j],
        forall|i: int|
            0 <= i < event_spawns(s, e).len() ==> !s.contains(#[trigger] event_spawns(s, e)[i])
                && event_set_after(s, e).contains(event_spawns(s, e)[i]),
        forall|p: Seq<char>| #[trigger] s.contains(p) ==> event_set_after(s, e).contains(p),
{
    if relevant(e.kind) {
        lemma_admitted_distinct(s, candidates(e));
        let sp = event_spawns(s, e);
        assert forall|i: int| 0 <= i < sp.len() implies !s.contains(#[trigger] sp[i])
            && event_set_after(s, e).contains(sp[i]) by {
            assert(sp.contains(sp[i]));
            lemma_admitted_iff(s, candidates(e), sp[i]);
            lemma_set_after_contains(s, candidates(e), sp[i]);
        }
        assert forall|p: Seq<char>| #[trigger] s.contains(p) implies event_set_after(s, e).contains(
            p,
        ) by {
            lemma_set_after_contains(s, candidates(e), p);
        }
    }
}

proof fn lemma_run_facts(s: Set<Seq<char>>, events: Seq<FsEvent>)
    ensures
        forall|i: int, j: int|
            0 <= i < j < run_spawns(s, events).len() ==> run_spawns(s, events)[i] != run_spawns(
                s,
                events,
            )[j],
        forall|i: int|
            0 <= i < run_spawns(s, events).len() ==> !s.contains(
                #[trigger] run_spawns(s, events)[i],
            ) && run_set_after(s, events).contains(run_spawns(s, events)[i]),
        forall|p: Seq<char>| #[trigger] s.contains(p) ==> run_set_after(s, events).contains(p),
    decreases events.len(),
{
    if events.len() > 0 {
        let dl = events.drop_last();
        lemma_run_facts(s, dl);
        let base = run_set_after(s, dl);
        lemma_event_spawn_facts(base, events.last());
        let pre = run_spawns(s, dl);
        let ev = event_spawns(base, events.last());
        let all = run_spawns(s, events);
        assert(all == pre + ev);
        assert forall|i: int, j: int| 0 <= i < j < all.len() implies all[i] != all[j] by {
            if j < pre.len() {
                assert(all[i] == pre[i] && all[j] == pre[j]);
            } else if i >= pre.len() {
                assert(all[i] == ev[i - pre.len()] && all[j] == ev[j - pre.len()]);
            } else {
                assert(all[i] == pre[i] && all[j] == ev[j - pre.len()]);
                assert(base.contains(pre[i]));
                assert(!base.contains(ev[j - pre.len()]));
            }
        }
    }
}

/// At-most-once admission: over any run of events, a tailing task spawns at
/// most once per file identity — no identity appears twice among the spawned
/// paths, and nothing admitted before the run is ever spawned again.
pub proof fn lemma_at_most_once_admission(s: Set<Seq<char>>, events: Seq<FsEvent>)
    ensures
        forall|i: int, j: int|
            0 <= i < j < run_spawns(s, events).len() ==> run_spawns(s, events)[i] != run_spawns(
                s,
                events,
            )[j],
        forall|i: int|
            0 <= i < run_spawns(s, events).len() ==> !s.contains(
                #[trigger] run_spawns(s, events)[i],
            ),
{
    lemma_run_facts(s, events);
}

proof fn lemma_concat_contains(s1: Seq<Seq<char>>, s2: Seq<Seq<char>>, p: Seq<char>)
    ensures
        (s1 + s2).contains(p) <==> (s1.contains(p) || s2.contains(p)),
{
    if s1.contains(p) {
        let i = choose|i: int| 0 <= i < s1.len() && s1[i] == p;
        assert((s1 + s2)[i] == p);
    }
    if s2.contains(p) {
        let i = choose|i: int| 0 <= i < s2.len() && s2[i] == p;
        assert((s1 + s2)[s1.len() + i] == p);
    }
    if (s1 + s2).contains(p) {
        let i = choose|i: int| 0 <= i < (s1 + s2).len() && (s1 + s2)[i] == p;
        if i < s1.len() {
            assert(s1[i] == p);
        } else {
            assert(s2[i - s1.len()] == p);
        }
    }
}

proof fn lemma_event_set_after_contains(s: Set<Seq<char>>, e: FsEvent, p: Seq<char>)
    ensures
        event_set_after(s, e).contains(p) <==> (s.contains(p) || event_spawns(s, e).contains(p)),
{
    if relevant(e.kind) {
        lemma_set_after_contains(s, candidates(e), p);
    } else {
        assert(!Seq::<Seq<char>>::empty().contains(p));
    }
}

proof fn lemma_run_set_after_contains(s: Set<Seq<char>>, events: Seq<FsEvent>, p: Seq<char>)
    ensures
        run_set_after(s, events).contains(p) <==> (s.contains(p) || run_spawns(s, events).contains(
            p,
        )),
    decreases events.len(),
{
    if events.len() == 0 {
        assert(!Seq::<Seq<char>>::empty().contains(p));
    } else {
        let dl = events.drop_last();
        lemma_run_set_after_contains(s, dl, p);
        let base = run_set_after(s, dl);
        lemma_event_set_after_contains(base, events.last(), p);
        lemma_concat_contains(run_spawns(s, dl), event_spawns(base, events.last()), p);
    }
}

/// Exactly-once admission, the existence half: a run spawns a tailing task
/// for `p` precisely when `p` was not already admitted and some event of the
/// run is relevant and references `p` as a regular file. Together with
/// `lemma_at_most_once_admission`, exactly one task is ever spawned for such
/// an identity.
pub proof fn lemma_run_spawns_iff(s: Set<Seq<char>>, events: Seq<FsEvent>, p: Seq<char>)
    ensures
        run_spawns(s, events).contains(p) <==> (!s.contains(p) && exists|i: int|
            0 <= i < events.len() && relevant((#[trigger] events[i]).kind) && references_file(
                events[i],
                p,
            )),
    decreases events.len(),
{
    if events.len() == 0 {
        assert(!Seq::<Seq<char>>::empty().contains(p));
    } else {
        let dl = events.drop_last();
        lemma_run_spawns_iff(s, dl, p);
        let base = run_set_after(s, dl);
        let last = events.last();
        lemma_run_set_after_contains(s, dl, p);
        lemma_event_spawns_iff(base, last, p);
        lemma_concat_contains(run_spawns(s, dl), event_spawns(base, last), p);
        assert((exists|i: int|
            0 <= i < events.len() && relevant((#[trigger] events[i]).kind) && references_file(
                events[i],
                p,
            )) <==> ((exists|i: int|
            0 <= i < dl.len() && relevant((#[trigger] dl[i]).kind) && references_file(dl[i], p))
            || (relevant(last.kind) && references_file(last, p)))) by {
            if exists|i: int|
                0 <= i < dl.len() && relevant((#[trigger] dl[i]).kind) && references_file(
                    dl[i],
                    p,
                ) {
                let i = choose|i: int|
                    0 <= i < dl.len() && relevant((#[trigger] dl[i]).kind) && references_file(
                        dl[i],
                        p,
                    );
                assert(relevant(events[i].kind) && references_file(events[i], p));
            }
            if relevant(last.kind) && references_file(last, p) {
                assert(relevant(events[events.len() - 1].kind) && references_file(
                    events[events.len() - 1],
                    p,
                ));
            }
            if exists|i: int|
                0 <= i < events.len() && relevant((#[trigger] events[i]).kind) && references_file(
                    events[i],
                    p,
                ) {
                let i = choose|i: int|
                    0 <= i < events.len() && relevant((#[trigger] events[i]).kind)
                        && references_file(events[i], p);
                if i < events.len() - 1 {
                    assert(relevant(dl[i].kind) && references_file(dl[i], p));
                }
            }
        }
    }
}

} // verus!
