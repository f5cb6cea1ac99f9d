//! Ordering the collected results by port.

use crate::types::{result_views, ResultView, ScanResult};
use vstd::prelude::*;

verus! {

/// No port is reported later than a larger one.
pub open spec fn ports_ascending(results: Seq<ResultView>) -> bool {
    forall|i: int, j: int| 0 <= i < j < results.len() ==> results[i].port <= results[j].port
}

/// Every result reports a larger port than the one before it.
pub open spec fn ports_strictly_ascending(results: Seq<ResultView>) -> bool {
    forall|i: int, j: int| 0 <= i < j < results.len() ==> results[i].port < results[j].port
}

/// No two results report the same port.
pub open spec fn ports_distinct(results: Seq<ResultView>) -> bool {
    forall|i: int, j: int| 0 <= i < j < results.len() ==> results[i].port != results[j].port
}

/// The two sequences hold the same results, in whatever order.
pub open spec fn same_results(a: Seq<ResultView>, b: Seq<ResultView>) -> bool {
    forall|r: ResultView| a.contains(r) <==> b.contains(r)
}

/// The results for `port`, in the order in which `results` holds them.
pub open spec fn with_port(results: Seq<ScanResult>, port: u16) -> Seq<ScanResult> {
    results.filter(|r: ScanResult| r.port == port)
}

/// Two listings of the same results in strictly ascending order of port are
/// the same listing: the order in which results were collected leaves no
/// trace once they are sorted.
pub proof fn lemma_ascending_unique(a: Seq<ResultView>, b: Seq<ResultView>)
    requires
        ports_strictly_ascending(a),
        ports_strictly_ascending(b),
        same_results(a, b),
    ensures
        a == b,
    decreases a.len(),
{
    if a.len() == 0 {
        if b.len() > 0 {
            assert(b.contains(b[0]));
            assert(a.contains(b[0]));
        }
        assert(a =~= b);
    } else {
        assert(a.contains(a[0]));
        assert(b.contains(a[0]));
        let k = choose|k: int| 0 <= k < b.len() && b[k] == a[0];
        assert(b.contains(b[0]));
        assert(a.contains(b[0]));
        let m = choose|m: int| 0 <= m < a.len() && a[m] == b[0];
        assert(k == 0) by {
            if k > 0 {
                assert(b[0].port < b[k].port);
                if m > 0 {
                    assert(a[0].port < a[m].port);
                }
            }
        }
        let a1 = a.drop_first();
        let b1 = b.drop_first();
        assert forall|r: ResultView| a1.contains(r) <==> b1.contains(r) by {
            if a1.contains(r) {
                let i = choose|i: int| 0 <= i < a1.len() && a1[i] == r;
                assert(a[i + 1] == r);
                assert(a[0].port < a[i + 1].port);
                assert(a.contains(r));
                assert(b.contains(r));
                let j = choose|j: int| 0 <= j < b.len() && b[j] == r;
                assert(j > 0);
                assert(b1[j - 1] == r);
            }
            if b1.contains(r) {
                let i = choose|i: int| 0 <= i < b1.len() && b1[i] == r;
                assert(b[i + 1] == r);
                assert(b[0].port < b[i + 1].port);
                assert(b.contains(r));
                assert(a.contains(r));
                let j = choose|j: int| 0 <= j < a.len() && a[j] == r;
                assert(j > 0);
                assert(a1[j - 1] == r);
            }
        }
        assert(ports_strictly_ascending(a1)) by {
            assert forall|i: int, j: int| 0 <= i < j < a1.len() implies a1[i].port < a1[j].port by {
                assert(a[i + 1].port < a[j + 1].port);
            }
        }
        assert(ports_strictly_ascending(b1)) by {
            assert forall|i: int, j: int| 0 <= i < j < b1.len() implies b1[i].port < b1[j].port by {
                assert(b[i + 1].port < b[j + 1].port);
            }
        }
        lemma_ascending_unique(a1, b1);
        assert(a =~= seq![a[0]] + a1);
        assert(b =~= seq![b[0]] + b1);
    }
}

/// `Vec::sort_by_key` with the port as the key. The sort is stable: afterwards
/// the results are in ascending order of port, they are the results from
/// before in another order, and results for the same port have kept their
/// order.
#[verifier::external_body]
pub(crate) fn sort_by_port(results: &mut Vec<ScanResult>)
    ensures
        ports_ascending(result_views(final(results)@)),
        final(results)@.to_multiset() == old(results)@.to_multiset(),
        forall|port: u16| with_port(final(results)@, port) == with_port(old(results)@, port),
{
    results.sort_by_key(|r| r.port);
}

} // verus!
