//! The orchestrator's decisions: the per-podcast ordered download loop as a
//! state machine (the caller performs the fetches and reports each outcome),
//! and the aggregation of per-podcast results. Failure of one episode stops
//! its podcast's loop; failure of one podcast never moves another's paths.
use crate::episode::ep_views;
use crate::episode::str_views;
use crate::episode::Episode;
use vstd::prelude::*;

verus! {

broadcast use vstd::seq::Seq::group_seq_flatten;

/// One podcast's ordered download loop. The caller asks for the current
/// episode, performs the fetch-enrich-finalize work outside, and records
/// the outcome; a failure ends the loop, and the paths collected so far
/// stay collected.
pub struct EpisodeRun {
    pub eligible: Vec<Episode>,
    pub next: usize,
    pub paths: Vec<String>,
    pub failed: bool,
}

impl EpisodeRun {
    /// The loop never runs past its episodes, and holds one path per
    /// episode completed.
    pub open spec fn wf(&self) -> bool {
        self.next <= self.eligible@.len() && self.paths@.len() == self.next
    }

    /// Starts the loop on the eligible episodes, in their download order.
    pub fn new(eligible: Vec<Episode>) -> (r: EpisodeRun)
        ensures
            r.wf(),
            r.next == 0,
            !r.failed,
            r.paths@.len() == 0,
            r.eligible@ == eligible@,
    {
        EpisodeRun { eligible, next: 0, paths: Vec::new(), failed: false }
    }

    /// The episode to download now: nothing once the loop failed or ran out.
    pub fn current<'a>(&'a self) -> (r: Option<&'a Episode>)
        requires
            self.wf(),
        ensures
            match r {
                Some(e) => !self.failed && self.next < self.eligible@.len() && e@
                    == ep_views(self.eligible@)[self.next as int],
                None => self.failed || self.next >= self.eligible@.len(),
            },
    {
        if self.failed || self.next >= self.eligible.len() {
            None
        } else {
            Some(&self.eligible[self.next])
        }
    }

    /// The current episode finished: its file path joins the results and
    /// the loop advances.
    pub fn record_success(&mut self, path: String)
        requires
            old(self).wf(),
            !old(self).failed,
            old(self).next < old(self).eligible@.len(),
        ensures
            final(self).wf(),
            !final(self).failed,
            final(self).next == old(self).next + 1,
            final(self).paths@ == old(self).paths@.push(path),
            final(self).eligible@ == old(self).eligible@,
    {
        let n = self.eligible.len();
        assert(self.next < n);
        self.paths.push(path);
        self.next = self.next + 1;
    }

    /// The current episode failed: the loop ends here; nothing collected
    /// so far is rolled back.
    pub fn record_failure(&mut self)
        requires
            old(self).wf(),
        ensures
            final(self).wf(),
            final(self).failed,
            final(self).next == old(self).next,
            final(self).paths@ == old(self).paths@,
            final(self).eligible@ == old(self).eligible@,
    {
        self.failed = true;
    }

    /// The paths of the episodes downloaded in this run, in download order.
    pub fn into_paths(self) -> (r: Vec<String>)
        ensures
            r@ == self.paths@,
    {
        self.paths
    }
}

/// The paths an ordered loop collects, one outcome per episode in order:
/// everything up to the first failure.
pub open spec fn run_paths(outcomes: Seq<Option<Seq<char>>>) -> Seq<Seq<char>>
    decreases outcomes.len(),
{
    if outcomes.len() == 0 {
        Seq::empty()
    } else {
        match outcomes[0] {
            Some(p) => seq![p] + run_paths(outcomes.skip(1)),
            None => Seq::empty(),
        }
    }
}

/// Drives one podcast's loop over recorded outcomes: one outcome per
/// eligible episode in order, a path for success, nothing for failure.
pub fn run_episodes(eligible: Vec<Episode>, outcomes: Vec<Option<String>>) -> (r: Vec<String>)
    requires
        outcomes@.len() == eligible@.len(),
    ensures
        r@.map_values(|p: String| p@) == run_paths(
            outcomes@.map_values(|o: Option<String>| crate::episode::opt_view(o)),
        ),
{
    let ghost ovs = outcomes@.map_values(|o: Option<String>| crate::episode::opt_view(o));
    let n = eligible.len();
    let mut run = EpisodeRun::new(eligible);
    let mut rest = outcomes;
    let mut i: usize = 0;
    while i < n
        invariant
            n == run.eligible@.len(),
            ovs.len() == n,
            i == n - rest.len(),
            i <= n,
            forall|k: int|
                0 <= k < rest@.len() ==> crate::episode::opt_view(#[trigger] rest@[k]) == ovs[i
                    + k],
            run.wf(),
            !run.failed ==> run.next == i && str_views(run.paths@) == run_paths(ovs.take(i as int)),
            run.failed ==> str_views(run.paths@) == run_paths(ovs),
        decreases n - i,
    {
        let outcome = rest.remove(0);
        let ghost paths_before = str_views(run.paths@);
        if run.current().is_some() {
            match outcome {
                Some(p) => {
                    run.record_success(p);
                },
                None => {
                    run.record_failure();
                    proof {
                        lemma_run_paths_stops(ovs, i as int);
                    }
                },
            }
        }
        proof {
            if !run.failed {
                assert(str_views(run.paths@) =~= paths_before.push(ovs[i as int]->Some_0));
                lemma_run_paths_step(ovs, i as int);
            }
        }
        i = i + 1;
    }
    proof {
        if !run.failed {
            assert(ovs.take(n as int) =~= ovs);
        }
    }
    run.into_paths()
}

/// One successful step extends the collected prefix by its path.
proof fn lemma_run_paths_step(ovs: Seq<Option<Seq<char>>>, i: int)
    requires
        0 <= i < ovs.len(),
        ovs[i] is Some,
        run_paths(ovs.take(i)).len() == i,
    ensures
        run_paths(ovs.take(i + 1)) == run_paths(ovs.take(i)).push(ovs[i]->Some_0),
{
    assert(ovs.take(i + 1).take(i) =~= ovs.take(i));
    lemma_run_paths_prefix(ovs.take(i + 1), i);
    assert(ovs.take(i + 1).take(i + 1) =~= ovs.take(i + 1));
    assert(ovs.take(i + 1)[i] == ovs[i]);
}

/// A failure at `i` ends the collection: outcomes past it change nothing.
proof fn lemma_run_paths_stops(ovs: Seq<Option<Seq<char>>>, i: int)
    requires
        0 <= i < ovs.len(),
        ovs[i] is None,
        run_paths(ovs.take(i)).len() == i,
    ensures
        run_paths(ovs) == run_paths(ovs.take(i)),
{
    lemma_run_paths_prefix(ovs, i);
}


/// On outcomes whose first `i` entries succeed, the collection agrees with
/// the prefix collection up to `i`, and ends there when entry `i` fails.
proof fn lemma_run_paths_prefix(ovs: Seq<Option<Seq<char>>>, i: int)
    requires
        0 <= i <= ovs.len(),
        run_paths(ovs.take(i)).len() == i,
    ensures
        forall|j: int| 0 <= j < i ==> (#[trigger] ovs[j]) is Some,
        run_paths(ovs).len() >= i,
        run_paths(ovs).take(i) == run_paths(ovs.take(i)),
        i < ovs.len() && ovs[i] is None ==> run_paths(ovs) == run_paths(ovs.take(i)),
        i < ovs.len() && ovs[i] is Some ==> run_paths(ovs.take(i + 1)) == run_paths(
            ovs.take(i),
        ).push(ovs[i]->Some_0),
    decreases i,
{
    if i == 0 {
        assert(ovs.take(0) =~= Seq::<Option<Seq<char>>>::empty());
        assert(run_paths(ovs.take(0)) == Seq::<Seq<char>>::empty());
        assert(run_paths(ovs).take(0) =~= run_paths(ovs.take(0)));
        if 0 < ovs.len() && ovs[0] is None {
            assert(run_paths(ovs) == Seq::<Seq<char>>::empty());
        }
        if 0 < ovs.len() && ovs[0] is Some {
            let t1 = ovs.take(1);
            assert(t1.len() == 1);
            assert(t1[0] == ovs[0]);
            assert(run_paths(t1) == seq![t1[0]->Some_0] + run_paths(t1.skip(1)));
            assert(t1.skip(1) =~= Seq::<Option<Seq<char>>>::empty());
            assert(run_paths(t1.skip(1)) == Seq::<Seq<char>>::empty());
            assert(run_paths(t1) =~= run_paths(ovs.take(0)).push(ovs[0]->Some_0));
        }
    } else {
        let ti = ovs.take(i);
        assert(ti.len() == i);
        assert(ti[0] == ovs[0]);
        if ovs[0] is None {
            assert(run_paths(ti) == Seq::<Seq<char>>::empty());
            assert(false);
        }
        let head = ovs[0]->Some_0;
        let tail = ovs.skip(1);
        assert(ti.skip(1) =~= tail.take(i - 1));
        assert(run_paths(ti) == seq![head] + run_paths(ti.skip(1)));
        assert(run_paths(tail.take(i - 1)) == run_paths(ti.skip(1)));
        assert(run_paths(tail.take(i - 1)).len() == i - 1);
        lemma_run_paths_prefix(tail, i - 1);
        assert forall|j: int| 0 <= j < i implies (#[trigger] ovs[j]) is Some by {
            if j > 0 {
                assert(tail[j - 1] == ovs[j]);
            }
        }
        assert(run_paths(ovs) == seq![head] + run_paths(tail));
        assert(run_paths(ovs).len() >= i);
        assert(run_paths(ovs).take(i) =~= seq![head] + run_paths(tail).take(i - 1));
        assert(run_paths(ovs).take(i) =~= run_paths(ti));
        if i < ovs.len() && ovs[i] is None {
            assert(tail[i - 1] == ovs[i]);
            assert(run_paths(tail) == run_paths(tail.take(i - 1)));
            assert(run_paths(ovs) =~= run_paths(ti));
        }
        if i < ovs.len() && ovs[i] is Some {
            assert(tail[i - 1] == ovs[i]);
            let t2 = ovs.take(i + 1);
            assert(t2.len() == i + 1);
            assert(t2[0] == ovs[0]);
            assert(t2.skip(1) =~= tail.take(i));
            assert(run_paths(t2) == seq![head] + run_paths(t2.skip(1)));
            assert(run_paths(tail.take(i)) == run_paths(t2.skip(1)));
            assert(run_paths(tail.take(i - 1 + 1)) == run_paths(tail.take(i - 1)).push(
                tail[i - 1]->Some_0,
            ));
            assert(run_paths(t2) =~= run_paths(ti).push(ovs[i]->Some_0));
        }
    }
}

/// Failure at position `i`, after `i` successes, yields exactly `i`
/// downloaded results, and they are the paths of the successes in order.
pub proof fn lemma_failure_prefix(ovs: Seq<Option<Seq<char>>>, i: int)
    requires
        0 <= i < ovs.len(),
        ovs[i] is None,
        forall|j: int| 0 <= j < i ==> (#[trigger] ovs[j]) is Some,
    ensures
        run_paths(ovs).len() == i,
        forall|j: int| 0 <= j < i ==> run_paths(ovs)[j] == (#[trigger] ovs[j])->Some_0,
    decreases i,
{
    assert(forall|j: int| 0 <= j < i ==> ovs.take(i)[j] == ovs[j]);
    lemma_run_paths_all(ovs.take(i));
    lemma_run_paths_prefix(ovs, i);
    assert(run_paths(ovs) == run_paths(ovs.take(i)));
    assert forall|j: int| 0 <= j < i implies run_paths(ovs)[j] == (#[trigger] ovs[j])->Some_0 by {
        assert(run_paths(ovs.take(i))[j] == ovs.take(i)[j]->Some_0);
    }
}

/// On all-successful outcomes the collection has every path, in order.
pub proof fn lemma_run_paths_all(ovs: Seq<Option<Seq<char>>>)
    requires
        forall|j: int| 0 <= j < ovs.len() ==> (#[trigger] ovs[j]) is Some,
    ensures
        run_paths(ovs).len() == ovs.len(),
        forall|j: int| 0 <= j < ovs.len() ==> run_paths(ovs)[j] == (#[trigger] ovs[j])->Some_0,
    decreases ovs.len(),
{
    if ovs.len() > 0 {
        let tail = ovs.skip(1);
        lemma_run_paths_all(tail);
        assert(run_paths(ovs) == seq![ovs[0]->Some_0] + run_paths(tail));
        assert forall|j: int|
            0 <= j < ovs.len() implies run_paths(ovs)[j] == (#[trigger] ovs[j])->Some_0 by {
            if j > 0 {
                assert(run_paths(ovs)[j] == run_paths(tail)[j - 1]);
                assert(tail[j - 1] == ovs[j]);
            }
        }
    }
}

/// Views of every podcast's path list.
pub open spec fn path_views(results: Seq<Vec<String>>) -> Seq<Seq<Seq<char>>> {
    results.map_values(|v: Vec<String>| str_views(v@))
}

/// Concatenates every podcast's paths, in task order.
pub fn aggregate_paths(results: Vec<Vec<String>>) -> (r: Vec<String>)
    ensures
        str_views(r@) == path_views(results@).flatten(),
{
    let ghost all = path_views(results@);
    let mut rest = results;
    let mut out: Vec<String> = Vec::new();
    let n = rest.len();
    let mut i: usize = 0;
    proof {
        assert(str_views(out@) =~= path_views(rest@).take(0).flatten());
    }
    while i < n
        invariant
            n == all.len(),
            i == n - rest.len(),
            i <= n,
            forall|k: int|
                0 <= k < rest@.len() ==> str_views((#[trigger] rest@[k])@) == all[i + k],
            str_views(out@) == all.take(i as int).flatten(),
        decreases n - i,
    {
        let ghost out_before = str_views(out@);
        let mut chunk = rest.remove(0);
        let ghost chunk_views = str_views(chunk@);
        let m = chunk.len();
        let mut j: usize = 0;
        proof {
            assert(str_views(out@) =~= out_before + chunk_views.take(0));
        }
        while j < m
            invariant
                m == chunk_views.len(),
                j == m - chunk@.len(),
                j <= m,
                forall|k: int| 0 <= k < chunk@.len() ==> (#[trigger] chunk@[k])@ == chunk_views[j
                    + k],
                str_views(out@) == out_before + chunk_views.take(j as int),
            decreases m - j,
        {
            let p = chunk.remove(0);
            let ghost out_pre = out@;
            out.push(p);
            proof {
                assert(p@ == chunk_views[j as int]);
                assert(out@ == out_pre.push(p));
                assert(str_views(out@) =~= str_views(out_pre).push(p@));
                assert(str_views(out@) =~= out_before + chunk_views.take(j + 1));
            }
            j = j + 1;
        }
        proof {
            assert(chunk_views.take(m as int) =~= chunk_views);
            assert(all.take(i + 1) =~= all.take(i as int).push(chunk_views));
            all.take(i as int).lemma_flatten_push(chunk_views);
            assert(all.take(i + 1).flatten() =~= all.take(i as int).flatten() + chunk_views);
        }
        i = i + 1;
    }
    proof {
        assert(all.take(n as int) =~= all);
    }
    out
}

/// Sibling isolation: in the aggregated result, podcast `i` contributes one
/// contiguous segment, and what the other podcasts contribute does not
/// depend on it: replacing podcast `i`'s paths moves no other segment.
pub proof fn lemma_sibling_isolation(results: Seq<Seq<Seq<char>>>, i: int, other: Seq<Seq<char>>)
    requires
        0 <= i < results.len(),
    ensures
        results.flatten() == results.take(i).flatten() + results[i] + results.skip(
            i + 1,
        ).flatten(),
        results.update(i, other).flatten() == results.take(i).flatten() + other + results.skip(
            i + 1,
        ).flatten(),
{
    lemma_split_flatten(results, i, results[i]);
    assert(results.update(i, results[i]) =~= results);
    lemma_split_flatten(results, i, other);
}

/// Flattening a sequence with entry `i` replaced splits at that entry.
proof fn lemma_split_flatten(results: Seq<Seq<Seq<char>>>, i: int, other: Seq<Seq<char>>)
    requires
        0 <= i < results.len(),
    ensures
        results.update(i, other).flatten() == results.take(i).flatten() + other + results.skip(
            i + 1,
        ).flatten(),
{
    let upd = results.update(i, other);
    assert(upd =~= results.take(i) + (seq![other] + results.skip(i + 1)));
    vstd::seq_lib::lemma_flatten_concat(results.take(i), seq![other] + results.skip(i + 1));
    vstd::seq_lib::lemma_flatten_concat(seq![other], results.skip(i + 1));
    assert(seq![other].flatten() == other + Seq::<Seq<Seq<char>>>::empty().flatten());
    assert(seq![other].flatten() =~= other);
    assert(upd.flatten() =~= results.take(i).flatten() + other + results.skip(i + 1).flatten());
}

} // verus!
