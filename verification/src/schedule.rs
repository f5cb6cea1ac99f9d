//! The scheduler: which batch is probed next, how many batches may be probed
//! at the same time, and what a scan returns once every batch is done.
//!
//! The scheduler decides and records; probing itself is left to the caller.
//! A caller asks [`ScanRun::next_action`] what to do, carries out the connection
//! attempts of a batch when told to, and reports their end with
//! [`ScanRun::complete_batch`], in whatever order batches happen to end.

use crate::aggregate::{
    ports_ascending, ports_distinct, ports_strictly_ascending, same_results, sort_by_port,
};
use crate::aggregate::lemma_ascending_unique;
use crate::batch::{
    batch_at, batch_count, batch_views, batches_of, lemma_batch_len, lemma_batch_ports,
    lemma_port_in_batch, partition, port_count, port_range,
};
use crate::scanner::{batch_results, open_results, probe_result, ScanConfig, Scanner};
use crate::types::{result_views, ProbeReport, ResultView, ScanResult};
use crate::ui::{ProgressCounts, ScanProgress};
use vstd::prelude::*;

verus! {

/// What the caller of a running scan has to do next.
#[derive(Debug)]
pub enum ScanAction {
    /// Probe every port of batch number `batch`, all at once, and report the
    /// end of the attempts with [`ScanRun::complete_batch`].
    Probe { batch: usize, ports: Vec<u16> },
    /// As many batches as allowed are being probed, or none is left to start:
    /// wait until one of them ends.
    Wait,
    /// Every batch is done: call [`ScanRun::finish`].
    Finish,
}

/// The state of a running scan as its contracts see it.
pub struct RunView {
    /// The settings of the scan.
    pub config: ScanConfig,
    /// The batches of the scan, in ascending order of port.
    pub batches: Seq<Seq<u16>>,
    /// Number of batches handed out for probing so far: the batches before
    /// this index have been started, the others have not.
    pub started: nat,
    /// The batches that have been started and whose end has not been reported.
    pub in_flight: Set<usize>,
    /// The open ports found so far, batch by batch in the order in which the
    /// batches ended.
    pub results: Seq<ResultView>,
    /// The progress counters.
    pub progress: ProgressCounts,
    /// How the attempt on each port ended, for the ports of the batches that
    /// have ended.
    pub observed: Map<u16, ProbeReport>,
}

/// The reports of a batch by port: the report at a position belongs to the
/// port at the same position.
pub open spec fn batch_reports(ports: Seq<u16>, reports: Seq<ProbeReport>) -> Map<
    u16,
    ProbeReport,
> {
    Map::new(|port: u16| ports.contains(port), |port: u16| reports[ports.index_of(port)])
}

impl RunView {
    /// Number of batches whose end has been reported.
    pub open spec fn completed(self) -> int {
        self.started - self.in_flight.len()
    }

    /// Every batch has been started and has ended.
    pub open spec fn is_complete(self) -> bool {
        self.started == self.batches.len() && self.in_flight.len() == 0
    }

    /// Index of the batch that `port` belongs to.
    pub open spec fn batch_of(self, port: u16) -> int {
        (port - self.config.port_start) / (self.config.batch_size as int)
    }

    /// `port` lies in the range of the scan and its batch has ended.
    pub open spec fn is_settled(self, port: u16) -> bool {
        &&& self.config.port_start <= port <= self.config.port_end
        &&& self.batch_of(port) < self.started
        &&& !self.in_flight.contains(self.batch_of(port) as usize)
    }

    /// `result` records an open port whose batch has ended, as the attempt
    /// on that port was reported.
    pub open spec fn is_recorded(self, result: ResultView) -> bool {
        &&& self.is_settled(result.port)
        &&& result.is_open
        &&& result == probe_result(result.port, self.observed[result.port])
    }

    /// The ports of the scan in ascending order.
    pub open spec fn ports(self) -> Seq<u16> {
        port_range(self.config.port_start, self.config.port_end)
    }

    /// The reports on the ports of the scan, in the order of the ports.
    pub open spec fn reports(self) -> Seq<ProbeReport> {
        Seq::new(self.ports().len(), |i: int| self.observed[self.ports()[i]])
    }

    /// What the scan returns once every batch has ended: the records of the
    /// open ports in ascending order of port, as if the whole range had been
    /// probed as one batch.
    pub open spec fn outcome(self) -> Seq<ResultView> {
        open_results(batch_results(self.ports(), self.reports()))
    }
}

/// Appending `x` to a sequence adds `x` to the set of its elements.
proof fn lemma_push_to_set(s: Seq<usize>, x: usize)
    ensures
        s.push(x).to_set() == s.to_set().insert(x),
{
    let t = s.push(x);
    assert forall|y: usize| t.contains(y) <==> s.contains(y) || y == x by {
        if s.contains(y) {
            let i = choose|i: int| 0 <= i < s.len() && s[i] == y;
            assert(t[i] == y);
        }
        if y == x {
            assert(t[s.len() as int] == y);
        }
        if t.contains(y) {
            let i = choose|i: int| 0 <= i < t.len() && t[i] == y;
            if i < s.len() {
                assert(s[i] == y);
            }
        }
    }
    assert(t.to_set() =~= s.to_set().insert(x));
}

/// Taking the element at `pos` out of a sequence without repetitions takes it
/// out of the set of its elements, and leaves a sequence without repetitions.
proof fn lemma_remove_to_set(s: Seq<usize>, pos: int)
    requires
        s.no_duplicates(),
        0 <= pos < s.len(),
    ensures
        s.remove(pos).no_duplicates(),
        s.remove(pos).len() == s.len() - 1,
        s.remove(pos).to_set() == s.to_set().remove(s[pos]),
        forall|i: int| 0 <= i < s.remove(pos).len() ==> s.contains(#[trigger] s.remove(pos)[i]),
{
    let t = s.remove(pos);
    s.remove_ensures(pos);
    assert forall|i: int| 0 <= i < t.len() implies s.contains(#[trigger] t[i]) by {
        if i < pos {
            assert(s[i] == t[i]);
        } else {
            assert(s[i + 1] == t[i]);
        }
    }
    assert forall|y: usize| t.contains(y) <==> s.contains(y) && y != s[pos] by {
        if t.contains(y) {
            let i = choose|i: int| 0 <= i < t.len() && t[i] == y;
            if i < pos {
                assert(s[i] == y);
            } else {
                assert(s[i + 1] == y);
            }
        }
        if s.contains(y) && y != s[pos] {
            let i = choose|i: int| 0 <= i < s.len() && s[i] == y;
            if i < pos {
                assert(t[i] == y);
            } else {
                assert(t[i - 1] == y);
            }
        }
    }
    assert(t.to_set() =~= s.to_set().remove(s[pos]));
}

/// The open ports of a batch are recorded in ascending order of port, and each
/// record is that of a port of the batch.
proof fn lemma_open_results_of_batch(ports: Seq<u16>, reports: Seq<ProbeReport>, n: int)
    requires
        0 <= n <= ports.len(),
        forall|i: int, j: int| 0 <= i < j < ports.len() ==> ports[i] < ports[j],
    ensures
        ports_strictly_ascending(open_results(batch_results(ports, reports).take(n))),
        forall|i: int|
            0 <= i < open_results(batch_results(ports, reports).take(n)).len() ==> {
                let r = #[trigger] open_results(batch_results(ports, reports).take(n))[i];
                r.is_open && exists|j: int| 0 <= j < n && r.port == ports[j]
            },
    decreases n,
{
    let all = batch_results(ports, reports);
    let is_open = |r: ResultView| r.is_open;
    if n == 0 {
        assert(all.take(0) =~= Seq::<ResultView>::empty());
        all.take(0).lemma_filter_len(is_open);
    } else {
        lemma_open_results_of_batch(ports, reports, n - 1);
        let before = all.take(n - 1);
        let last = all[n - 1];
        assert(all.take(n) =~= before.push(last));
        before.lemma_filter_push(last, is_open);
        let kept = before.filter(is_open);
        let now = all.take(n).filter(is_open);
        assert forall|i: int| 0 <= i < now.len() implies {
            let r = #[trigger] now[i];
            r.is_open && exists|j: int| 0 <= j < n && r.port == ports[j]
        } by {
            if i < kept.len() {
                let r = kept[i];
                let j = choose|j: int| 0 <= j < n - 1 && r.port == ports[j];
                assert(0 <= j < n && r.port == ports[j]);
            } else {
                assert(now[i] == last);
                assert(last.port == ports[n - 1]);
            }
        }
        assert forall|i: int, j: int| 0 <= i < j < now.len() implies now[i].port < now[j].port by {
            if j < kept.len() {
                assert(kept[i].port < kept[j].port);
            } else {
                let r = kept[i];
                let m = choose|m: int| 0 <= m < n - 1 && r.port == ports[m];
                assert(ports[m] < ports[n - 1]);
            }
        }
    }
}

/// Results with distinct ports, put into ascending order of port, are in
/// strictly ascending order, and they are the same results as before.
proof fn lemma_sorted_distinct(found: Seq<ScanResult>, sorted: Seq<ScanResult>)
    requires
        ports_distinct(result_views(found)),
        ports_ascending(result_views(sorted)),
        sorted.to_multiset() == found.to_multiset(),
    ensures
        sorted.len() == found.len(),
        ports_strictly_ascending(result_views(sorted)),
        same_results(result_views(sorted), result_views(found)),
{
    broadcast use {vstd::seq_lib::to_multiset_len, vstd::seq_lib::to_multiset_contains};

    let fv = result_views(found);
    let sv = result_views(sorted);
    assert(sorted.len() == found.len()) by {
        vstd::seq_lib::to_multiset_len(sorted);
        vstd::seq_lib::to_multiset_len(found);
    }
    assert(found.no_duplicates()) by {
        assert forall|i: int, j: int| 0 <= i < found.len() && 0 <= j < found.len() && i != j implies found[i]
            != found[j] by {
            if i < j {
                assert(fv[i].port != fv[j].port);
            } else {
                assert(fv[j].port != fv[i].port);
            }
        }
    }
    found.lemma_multiset_has_no_duplicates();
    sorted.lemma_multiset_has_no_duplicates_conv();
    assert forall|i: int, j: int| 0 <= i < j < sv.len() implies sv[i].port < sv[j].port by {
        assert(sorted[i] != sorted[j]);
        assert(sorted.contains(sorted[i]));
        assert(sorted.contains(sorted[j]));
        assert(found.to_multiset().count(sorted[i]) > 0);
        assert(found.to_multiset().count(sorted[j]) > 0);
        assert(found.contains(sorted[i]));
        assert(found.contains(sorted[j]));
        let a = choose|a: int| 0 <= a < found.len() && found[a] == sorted[i];
        let b = choose|b: int| 0 <= b < found.len() && found[b] == sorted[j];
        if a < b {
            assert(fv[a].port != fv[b].port);
        } else {
            assert(fv[b].port != fv[a].port);
        }
        assert(sv[i].port <= sv[j].port);
    }
    assert forall|r: ResultView| sv.contains(r) <==> fv.contains(r) by {
        if sv.contains(r) {
            let i = choose|i: int| 0 <= i < sv.len() && sv[i] == r;
            assert(sorted.contains(sorted[i]));
            assert(found.to_multiset().count(sorted[i]) > 0);
            assert(found.contains(sorted[i]));
            let a = choose|a: int| 0 <= a < found.len() && found[a] == sorted[i];
            assert(fv[a] == r);
        }
        if fv.contains(r) {
            let i = choose|i: int| 0 <= i < fv.len() && fv[i] == r;
            assert(found.contains(found[i]));
            assert(sorted.to_multiset().count(found[i]) > 0);
            assert(sorted.contains(found[i]));
            let a = choose|a: int| 0 <= a < sorted.len() && sorted[a] == found[i];
            assert(sv[a] == r);
        }
    }
}

/// The ports of a sequence of results, in the same order.
pub open spec fn open_ports(results: Seq<ResultView>) -> Seq<u16> {
    results.map_values(|r: ResultView| r.port)
}

/// Attempts that ended alike, port by port, give the same open ports.
proof fn lemma_open_ports_by_event(
    ports: Seq<u16>,
    first: Seq<ProbeReport>,
    second: Seq<ProbeReport>,
    n: int,
)
    requires
        0 <= n <= ports.len(),
        forall|i: int| 0 <= i < ports.len() ==> first[i].event == second[i].event,
    ensures
        open_ports(open_results(batch_results(ports, first).take(n))) == open_ports(
            open_results(batch_results(ports, second).take(n)),
        ),
    decreases n,
{
    let a = batch_results(ports, first);
    let b = batch_results(ports, second);
    let is_open = |r: ResultView| r.is_open;
    if n == 0 {
        assert(a.take(0) =~= Seq::<ResultView>::empty());
        assert(b.take(0) =~= Seq::<ResultView>::empty());
    } else {
        lemma_open_ports_by_event(ports, first, second, n - 1);
        assert(a.take(n) =~= a.take(n - 1).push(a[n - 1]));
        assert(b.take(n) =~= b.take(n - 1).push(b[n - 1]));
        a.take(n - 1).lemma_filter_push(a[n - 1], is_open);
        b.take(n - 1).lemma_filter_push(b[n - 1], is_open);
        let fa = a.take(n - 1).filter(is_open);
        let fb = b.take(n - 1).filter(is_open);
        assert(a[n - 1].is_open == b[n - 1].is_open);
        assert(open_ports(fa.push(a[n - 1])) =~= open_ports(fa).push(a[n - 1].port));
        assert(open_ports(fb.push(b[n - 1])) =~= open_ports(fb).push(b[n - 1].port));
    }
}

/// Two scans of the same range in which the attempt on each port ended alike
/// return the same ports, whatever the latencies were and however the range
/// was split into batches.
pub proof fn lemma_same_events_same_open_ports(first: RunView, second: RunView)
    requires
        first.config.port_start == second.config.port_start,
        first.config.port_end == second.config.port_end,
        forall|port: u16|
            first.config.port_start <= port <= first.config.port_end ==> first.observed[port].event
                == second.observed[port].event,
    ensures
        open_ports(first.outcome()) == open_ports(second.outcome()),
{
    let ports = first.ports();
    let a = batch_results(ports, first.reports());
    let b = batch_results(ports, second.reports());
    assert forall|i: int| 0 <= i < ports.len() implies first.reports()[i].event
        == second.reports()[i].event by {
        assert(first.config.port_start <= ports[i] <= first.config.port_end);
    }
    lemma_open_ports_by_event(ports, first.reports(), second.reports(), ports.len() as int);
    assert(a.take(ports.len() as int) =~= a);
    assert(b.take(ports.len() as int) =~= b);
}

/// A scan in progress.
pub struct ScanRun {
    scanner: Scanner,
    batches: Vec<Vec<u16>>,
    started: usize,
    in_flight: Vec<usize>,
    results: Vec<ScanResult>,
    progress: ScanProgress,
    observed: Ghost<Map<u16, ProbeReport>>,
}

impl View for ScanRun {
    type V = RunView;

    closed spec fn view(&self) -> RunView {
        RunView {
            config: self.scanner@,
            batches: batch_views(self.batches@),
            started: self.started as nat,
            in_flight: self.in_flight@.to_set(),
            results: result_views(self.results@),
            progress: self.progress@,
            observed: self.observed@,
        }
    }
}

impl ScanRun {
    /// The state is one that a scan can reach.
    pub closed spec fn wf(&self) -> bool {
        let v = self@;
        &&& v.config.port_start <= v.config.port_end
        &&& v.config.batch_size > 0
        &&& v.config.workers > 0
        &&& v.batches == batches_of(
            port_range(v.config.port_start, v.config.port_end),
            v.config.batch_size as nat,
        )
        &&& v.started <= v.batches.len()
        &&& self.in_flight@.no_duplicates()
        &&& forall|i: int| 0 <= i < self.in_flight@.len() ==> self.in_flight@[i] < self.started
        &&& self.in_flight@.len() <= v.config.workers
        &&& v.progress.total_batches == v.batches.len()
        &&& v.progress.scanned == self.started - self.in_flight@.len()
        &&& v.progress.found <= v.progress.scanned
        &&& !v.progress.finished
        &&& ports_distinct(v.results)
        &&& forall|port: u16| #[trigger] v.observed.dom().contains(port) <==> v.is_settled(port)
        &&& forall|r: ResultView| #[trigger] v.results.contains(r) <==> v.is_recorded(r)
    }

    /// What holds of every state that a scan can reach: no more batches are
    /// being probed than the settings allow and no batch holds more ports
    /// than the batch size, so that the connection attempts under way never
    /// exceed the product of the two; the counters agree with the batches
    /// that have ended; and the results so far are the open ports of the
    /// batches that have ended, each port once.
    pub proof fn lemma_invariants(&self)
        requires
            self.wf(),
        ensures
            self@.config.port_start <= self@.config.port_end,
            self@.config.batch_size > 0,
            self@.batches == batches_of(
                port_range(self@.config.port_start, self@.config.port_end),
                self@.config.batch_size as nat,
            ),
            forall|k: int|
                0 <= k < self@.batches.len() ==> 0 < (#[trigger] self@.batches[k]).len()
                    <= self@.config.batch_size,
            self@.started <= self@.batches.len(),
            self@.in_flight.finite(),
            self@.in_flight.len() <= self@.config.workers,
            forall|batch: usize| self@.in_flight.contains(batch) ==> batch < self@.started,
            self@.progress == (ProgressCounts {
                total_batches: self@.batches.len(),
                scanned: self@.completed() as nat,
                found: self@.progress.found,
                finished: false,
            }),
            self@.progress.found <= self@.progress.scanned,
            ports_distinct(self@.results),
            forall|port: u16| #[trigger] self@.observed.dom().contains(port) <==> self@.is_settled(port),
            forall|r: ResultView| #[trigger] self@.results.contains(r) <==> self@.is_recorded(r),
    {
        self.in_flight@.unique_seq_to_set();
        vstd::seq_lib::seq_to_set_is_finite(self.in_flight@);
        assert forall|k: int| 0 <= k < self@.batches.len() implies 0 < (#[trigger] self@.batches[k]).len()
            <= self@.config.batch_size by {
            lemma_batch_len(
                self@.config.port_start,
                self@.config.port_end,
                self@.config.batch_size as nat,
                k,
            );
        }
    }

    /// Decides what happens next. A batch is handed out for probing while one
    /// is left and fewer batches are being probed than the settings allow;
    /// batches are handed out in ascending order. Otherwise the caller waits
    /// for a batch to end, or, when all have ended, finishes the scan.
    pub fn next_action(&mut self) -> (action: ScanAction)
        requires
            old(self).wf(),
        ensures
            final(self).wf(),
            if old(self)@.started < old(self)@.batches.len() && old(self)@.in_flight.len() < old(
                self,
            )@.config.workers {
                &&& action matches ScanAction::Probe { batch, ports }
                &&& batch == old(self)@.started
                &&& ports@ == old(self)@.batches[batch as int]
                &&& final(self)@ == (RunView {
                    started: old(self)@.started + 1,
                    in_flight: old(self)@.in_flight.insert(batch),
                    ..old(self)@
                })
            } else if !old(self)@.is_complete() {
                &&& action is Wait
                &&& final(self)@ == old(self)@
                &&& old(self)@.in_flight.len() > 0
            } else {
                &&& action is Finish
                &&& final(self)@ == old(self)@
            },
    {
        proof {
            self.in_flight@.unique_seq_to_set();
        }
        if self.started < self.batches.len() && self.in_flight.len() < self.scanner.workers() {
            let batch = self.started;
            let ports = self.batches[batch].clone();
            proof {
                assert(ports@ =~= self.batches@[batch as int]@);
                assert(batch_views(self.batches@)[batch as int] == self.batches@[batch as int]@);
                lemma_push_to_set(self.in_flight@, batch);
            }
            self.in_flight.push(batch);
            self.started = self.started + 1;
            proof {
                let v = self@;
                let before = old(self)@;
                assert forall|port: u16| before.is_settled(port) == v.is_settled(port) by {
                    if before.batch_of(port) == batch {
                        assert(v.in_flight.contains(batch));
                    }
                }
                assert forall|port: u16| #[trigger]
                    v.observed.dom().contains(port) <==> v.is_settled(port) by {
                    assert(before.observed.dom().contains(port) <==> before.is_settled(port));
                }
                assert forall|r: ResultView| #[trigger] v.results.contains(r) <==> v.is_recorded(
                    r,
                ) by {
                    assert(before.results.contains(r) <==> before.is_recorded(r));
                    assert(before.is_settled(r.port) == v.is_settled(r.port));
                }
            }
            ScanAction::Probe { batch, ports }
        } else if self.started < self.batches.len() || self.in_flight.len() > 0 {
            ScanAction::Wait
        } else {
            ScanAction::Finish
        }
    }

    /// Whether batch number `batch` has been handed out for probing and its
    /// end has not been reported yet.
    pub fn is_in_flight(&self, batch: usize) -> (yes: bool)
        ensures
            yes == self@.in_flight.contains(batch),
    {
        let mut i: usize = 0;
        while i < self.in_flight.len()
            invariant
                i <= self.in_flight.len(),
                forall|j: int| 0 <= j < i ==> self.in_flight@[j] != batch,
            decreases self.in_flight.len() - i,
        {
            if self.in_flight[i] == batch {
                assert(self.in_flight@.contains(batch));
                return true;
            }
            i = i + 1;
        }
        false
    }

    /// Records the end of batch number `batch`: `reports[i]` tells how the
    /// attempt on the `i`-th port of the batch ended. The open ports of the
    /// batch join the results, in the order of the batch; the progress counts
    /// one more batch as scanned, and one more discovery if the batch held an
    /// open port. The batch no longer counts as being probed.
    pub fn complete_batch(&mut self, batch: usize, reports: &Vec<ProbeReport>)
        requires
            old(self).wf(),
            old(self)@.in_flight.contains(batch),
            reports.len() == old(self)@.batches[batch as int].len(),
        ensures
            final(self).wf(),
            final(self)@ == (RunView {
                in_flight: old(self)@.in_flight.remove(batch),
                results: old(self)@.results + open_results(
                    batch_results(old(self)@.batches[batch as int], reports@),
                ),
                progress: ProgressCounts {
                    scanned: old(self)@.progress.scanned + 1,
                    found: if open_results(
                        batch_results(old(self)@.batches[batch as int], reports@),
                    ).len() > 0 {
                        old(self)@.progress.found + 1
                    } else {
                        old(self)@.progress.found
                    },
                    ..old(self)@.progress
                },
                observed: old(self)@.observed.union_prefer_right(
                    batch_reports(old(self)@.batches[batch as int], reports@),
                ),
                ..old(self)@
            }),
    {
        let ghost before = self@;
        let ghost ports = before.batches[batch as int];
        let ghost added = open_results(batch_results(ports, reports@));
        let mut pos: usize = 0;
        while pos < self.in_flight.len() && self.in_flight[pos] != batch
            invariant
                pos <= self.in_flight.len(),
                self.in_flight@.contains(batch),
                forall|j: int| 0 <= j < pos ==> self.in_flight@[j] != batch,
            decreases self.in_flight.len() - pos,
        {
            pos = pos + 1;
        }
        proof {
            lemma_remove_to_set(self.in_flight@, pos as int);
            assert(batch_views(self.batches@)[batch as int] == self.batches@[batch as int]@);
        }
        self.in_flight.remove(pos);
        self.scanner.scan_port_batch(
            &self.batches[batch],
            reports,
            &mut self.results,
            &mut self.progress,
        );
        self.observed = Ghost(before.observed.union_prefer_right(batch_reports(ports, reports@)));
        proof {
            let v = self@;
            let ps = v.config.port_start;
            let pe = v.config.port_end;
            let bs = v.config.batch_size as nat;
            assert(ports == batch_at(port_range(ps, pe), bs, batch as int));
            assert forall|i: int, j: int| 0 <= i < j < ports.len() implies ports[i] < ports[j] by {
                lemma_batch_ports(ps, pe, bs, batch as int, i);
                lemma_batch_ports(ps, pe, bs, batch as int, j);
            }
            lemma_open_results_of_batch(ports, reports@, ports.len() as int);
            assert(batch_results(ports, reports@).take(ports.len() as int) =~= batch_results(
                ports,
                reports@,
            ));
            let all = batch_results(ports, reports@);
            let is_open = |r: ResultView| r.is_open;
            let fresh = batch_reports(ports, reports@);
            // The ports of the batch are the ports that `batch_of` sends to it.
            assert forall|j: int| 0 <= j < ports.len() implies ps <= #[trigger] ports[j] <= pe
                && before.batch_of(ports[j]) == batch && fresh.dom().contains(ports[j])
                && fresh[ports[j]] == reports@[j] by {
                lemma_batch_ports(ps, pe, bs, batch as int, j);
                assert(ports.contains(ports[j]));
                let m = ports.index_of(ports[j]);
                assert(0 <= m < ports.len() && ports[m] == ports[j]);
                if m < j {
                    assert(ports[m] < ports[j]);
                } else if j < m {
                    assert(ports[j] < ports[m]);
                }
            }
            assert forall|port: u16|
                ps <= port <= pe && before.batch_of(port) == batch implies ports.contains(port) by {
                lemma_port_in_batch(ps, pe, bs, port);
            }
            // Which ports are settled now, and what is known of them.
            assert forall|port: u16| #[trigger]
                v.observed.dom().contains(port) <==> v.is_settled(port) by {
                assert(before.observed.dom().contains(port) <==> before.is_settled(port));
                if ports.contains(port) {
                    let j = choose|j: int| 0 <= j < ports.len() && ports[j] == port;
                    assert(before.batch_of(ports[j]) == batch);
                }
            }
            // What the results hold now.
            assert forall|i: int| 0 <= i < added.len() implies v.is_recorded(#[trigger] added[i]) by {
                let r = added[i];
                all.lemma_filter_pred(is_open, i);
                assert(added.contains(r));
                all.lemma_filter_contains_rev(is_open, r);
                let j = choose|j: int| 0 <= j < all.len() && all[j] == r;
                assert(r == probe_result(ports[j], reports@[j]));
                assert(before.batch_of(ports[j]) == batch);
            }
            assert forall|r: ResultView| #[trigger] v.results.contains(r) <==> v.is_recorded(
                r,
            ) by {
                assert(before.results.contains(r) <==> before.is_recorded(r));
                if v.results.contains(r) {
                    let i = choose|i: int| 0 <= i < v.results.len() && v.results[i] == r;
                    if i < before.results.len() {
                        assert(before.results[i] == r);
                        assert(before.results.contains(r));
                        assert(before.batch_of(r.port) != batch);
                        assert(!ports.contains(r.port)) by {
                            if ports.contains(r.port) {
                                let j = choose|j: int| 0 <= j < ports.len() && ports[j] == r.port;
                                assert(before.batch_of(ports[j]) == batch);
                            }
                        }
                    } else {
                        assert(added[i - before.results.len()] == r);
                    }
                }
                if v.is_recorded(r) {
                    if before.batch_of(r.port) == batch {
                        assert(ports.contains(r.port));
                        let j = choose|j: int| 0 <= j < ports.len() && ports[j] == r.port;
                        assert(fresh[ports[j]] == reports@[j]);
                        assert(all[j] == r);
                        all.lemma_filter_contains(is_open, j);
                        let m = choose|m: int| 0 <= m < added.len() && added[m] == r;
                        assert(v.results[before.results.len() + m] == r);
                    } else {
                        assert(!ports.contains(r.port)) by {
                            if ports.contains(r.port) {
                                let j = choose|j: int| 0 <= j < ports.len() && ports[j] == r.port;
                                assert(before.batch_of(ports[j]) == batch);
                            }
                        }
                        assert(before.is_recorded(r));
                        let i = choose|i: int| 0 <= i < before.results.len() && before.results[i]
                            == r;
                        assert(v.results[i] == r);
                    }
                }
            }
            assert forall|i: int, j: int| 0 <= i < j < v.results.len() implies v.results[i].port
                != v.results[j].port by {
                let n = before.results.len() as int;
                if j < n {
                    assert(before.results[i].port != before.results[j].port);
                } else if i < n {
                    let r = before.results[i];
                    assert(before.results.contains(r));
                    assert(before.is_recorded(r));
                    let a = added[j - n];
                    assert(v.is_recorded(a));
                    all.lemma_filter_contains_rev(is_open, a);
                    assert(added.contains(a));
                    let m = choose|m: int| 0 <= m < all.len() && all[m] == a;
                    assert(before.batch_of(ports[m]) == batch);
                } else {
                    assert(added[i - n].port < added[j - n].port);
                }
            }
        }
    }

    /// The progress counters as they stand.
    pub fn progress(&self) -> (progress: ScanProgress)
        ensures
            progress@ == self@.progress,
    {
        self.progress
    }

    /// Ends a scan of which every batch is done: the progress is declared
    /// finished and the open ports are returned in ascending order of port.
    /// The order in which the batches ended has no influence on what is
    /// returned.
    pub fn finish(self) -> (done: (Vec<ScanResult>, ScanProgress))
        requires
            self.wf(),
            self@.is_complete(),
        ensures
            result_views(done.0@) == self@.outcome(),
            ports_strictly_ascending(result_views(done.0@)),
            same_results(result_views(done.0@), self@.results),
            done.0@.len() == self@.results.len(),
            done.1@ == (ProgressCounts { finished: true, ..self@.progress }),
    {
        let ghost v = self@;
        proof {
            self.lemma_outcome();
        }
        let mut progress = self.progress;
        let mut results = self.results;
        let ghost found = results@;
        progress.finish();
        sort_by_port(&mut results);
        proof {
            lemma_sorted_distinct(found, results@);
            lemma_ascending_unique(result_views(results@), v.outcome());
        }
        (results, progress)
    }

    /// Once every batch has ended, the results are the records of the open
    /// ports of the whole range, in whatever order the batches ended.
    pub proof fn lemma_outcome(&self)
        requires
            self.wf(),
            self@.is_complete(),
        ensures
            ports_strictly_ascending(self@.outcome()),
            same_results(self@.results, self@.outcome()),
    {
        let v = self@;
        let ps = v.config.port_start;
        let pe = v.config.port_end;
        let bs = v.config.batch_size as nat;
        let range = v.ports();
        let all = batch_results(range, v.reports());
        let is_open = |r: ResultView| r.is_open;
        lemma_open_results_of_batch(range, v.reports(), range.len() as int);
        assert(all.take(range.len() as int) =~= all);
        self.in_flight@.unique_seq_to_set();
        assert forall|port: u16| ps <= port <= pe implies v.is_settled(port) by {
            lemma_port_in_batch(ps, pe, bs, port);
            if v.in_flight.contains(v.batch_of(port) as usize) {
                let i = choose|i: int|
                    0 <= i < self.in_flight@.len() && self.in_flight@[i] == v.batch_of(
                        port,
                    ) as usize;
            }
        }
        assert forall|r: ResultView| v.results.contains(r) <==> v.outcome().contains(r) by {
            assert(v.results.contains(r) <==> v.is_recorded(r));
            if v.is_recorded(r) {
                let i = r.port - ps;
                assert(all[i] == r);
                all.lemma_filter_contains(is_open, i);
            }
            if v.outcome().contains(r) {
                all.lemma_filter_contains_rev(is_open, r);
                let m = choose|m: int| 0 <= m < v.outcome().len() && v.outcome()[m] == r;
                all.lemma_filter_pred(is_open, m);
                let i = choose|i: int| 0 <= i < all.len() && all[i] == r;
                assert(r.port == range[i]);
            }
        }
    }
}

impl Scanner {
    /// Begins a scan: the range is split into batches, and nothing has been
    /// probed yet.
    pub fn start(&self) -> (run: ScanRun)
        requires
            self@.batch_size > 0,
            self@.workers > 0,
        ensures
            run.wf(),
            run@ == (RunView {
                config: self@,
                batches: batches_of(
                    port_range(self@.port_start, self@.port_end),
                    self@.batch_size as nat,
                ),
                started: 0,
                in_flight: Set::empty(),
                results: Seq::empty(),
                progress: ProgressCounts {
                    total_batches: batch_count(
                        port_count(self@.port_start, self@.port_end),
                        self@.batch_size as nat,
                    ),
                    scanned: 0,
                    found: 0,
                    finished: false,
                },
                observed: Map::empty(),
            }),
    {
        let batches = partition(self.port_start(), self.port_end(), self.batch_size());
        let progress = ScanProgress::new(batches.len() as u64);
        let run = ScanRun {
            scanner: self.clone(),
            batches,
            started: 0,
            in_flight: Vec::new(),
            results: Vec::new(),
            progress,
            observed: Ghost(Map::empty()),
        };
        proof {
            assert(run.in_flight@.to_set() =~= Set::<usize>::empty());
            assert(result_views(run.results@) =~= Seq::<ResultView>::empty());
        }
        run
    }
}

} // verus!
