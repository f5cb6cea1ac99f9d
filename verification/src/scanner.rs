//! The scanner: a checked configuration and the rules by which the outcome of
//! connection attempts becomes the result of a scan.

use crate::cli::Args;
use crate::ip::{ip_of_text, IpAddress};
use crate::services::{service_name, ServiceTable};
use crate::types::{
    result_views, ProbeEvent, ProbeReport, ResultView, ScanError, ScanResult, ScanType,
};
use crate::ui::{ProgressCounts, ScanProgress};
use vstd::prelude::*;

verus! {

/// The settings of a scan.
pub struct ScanConfig {
    /// Address of the host to scan.
    pub ip: IpAddress,
    /// First port of the range.
    pub port_start: u16,
    /// Last port of the range.
    pub port_end: u16,
    /// Time allowed for one connection attempt, in milliseconds.
    pub timeout_ms: u64,
    /// Upper bound on the number of batches probed at the same time.
    pub workers: usize,
    /// Number of ports per batch.
    pub batch_size: usize,
    /// Transport protocol.
    pub scan_type: ScanType,
}

/// A scan that is ready to run: its settings have been checked.
pub struct Scanner {
    ip: IpAddress,
    port_start: u16,
    port_end: u16,
    timeout_ms: u64,
    workers: usize,
    batch_size: usize,
    scan_type: ScanType,
    service_map: ServiceTable,
}

/// What a connection attempt on `port` that ended as `report` says is recorded
/// as: open exactly if the connection was established, with the latency as
/// measured and the service name of the port.
pub open spec fn probe_result(port: u16, report: ProbeReport) -> ResultView {
    ResultView {
        port,
        is_open: report.event == ProbeEvent::Connected,
        latency: report.latency,
        service: service_name(port),
    }
}

/// The records of a batch: one for each port with the report at the same
/// position.
pub open spec fn batch_results(ports: Seq<u16>, reports: Seq<ProbeReport>) -> Seq<ResultView> {
    Seq::new(ports.len(), |i: int| probe_result(ports[i], reports[i]))
}

/// The open ones among `results`, in the same order.
pub open spec fn open_results(results: Seq<ResultView>) -> Seq<ResultView> {
    results.filter(|r: ResultView| r.is_open)
}

impl View for Scanner {
    type V = ScanConfig;

    closed spec fn view(&self) -> ScanConfig {
        ScanConfig {
            ip: self.ip,
            port_start: self.port_start,
            port_end: self.port_end,
            timeout_ms: self.timeout_ms,
            workers: self.workers,
            batch_size: self.batch_size,
            scan_type: self.scan_type,
        }
    }
}

impl Clone for Scanner {
    fn clone(&self) -> (copy: Scanner)
        ensures
            copy@ == self@,
    {
        proof {
            use_type_invariant(self);
        }
        Scanner {
            ip: self.ip,
            port_start: self.port_start,
            port_end: self.port_end,
            timeout_ms: self.timeout_ms,
            workers: self.workers,
            batch_size: self.batch_size,
            scan_type: self.scan_type,
            service_map: ServiceTable::new(),
        }
    }
}

impl Scanner {
    #[verifier::type_invariant]
    spec fn ports_in_order(self) -> bool {
        self.port_start <= self.port_end
    }

    /// Checks the options of a scan. The target must be an IP address in its
    /// textual form, and the first port must not lie above the last one; the
    /// target is looked at first.
    pub fn new(args: &Args) -> (result: Result<Scanner, ScanError>)
        ensures
            match ip_of_text(args.target@) {
                None => {
                    &&& result matches Err(ScanError::InvalidIpAddress(text))
                    &&& text@ == args.target@
                },
                Some(ip) => if args.port_start > args.port_end {
                    &&& result matches Err(ScanError::InvalidPortRange(reason))
                    &&& reason@ == "Start port cannot be greater than end port"@
                } else {
                    &&& result matches Ok(scanner)
                    &&& scanner@ == (ScanConfig {
                        ip,
                        port_start: args.port_start,
                        port_end: args.port_end,
                        timeout_ms: args.timeout_ms,
                        workers: args.workers,
                        batch_size: args.batch_size,
                        scan_type: args.scan_type,
                    })
                },
            },
    {
        let ip = match IpAddress::parse(args.target.as_str()) {
            Some(ip) => ip,
            None => {
                return Err(ScanError::InvalidIpAddress(args.target.clone()));
            },
        };
        if args.port_start > args.port_end {
            return Err(
                ScanError::InvalidPortRange("Start port cannot be greater than end port".to_owned()),
            );
        }
        Ok(
            Scanner {
                ip,
                port_start: args.port_start,
                port_end: args.port_end,
                timeout_ms: args.timeout_ms,
                workers: args.workers,
                batch_size: args.batch_size,
                scan_type: args.scan_type,
                service_map: ServiceTable::new(),
            },
        )
    }

    /// Address of the host to scan.
    pub fn ip(&self) -> (ip: IpAddress)
        ensures
            ip == self@.ip,
    {
        self.ip
    }

    /// First port of the range; it does not lie above the last port.
    pub fn port_start(&self) -> (port: u16)
        ensures
            port == self@.port_start,
            port <= self@.port_end,
    {
        proof {
            use_type_invariant(self);
        }
        self.port_start
    }

    /// Last port of the range; it does not lie below the first port.
    pub fn port_end(&self) -> (port: u16)
        ensures
            port == self@.port_end,
            port >= self@.port_start,
    {
        proof {
            use_type_invariant(self);
        }
        self.port_end
    }

    /// Time allowed for one connection attempt, in milliseconds.
    pub fn timeout_ms(&self) -> (ms: u64)
        ensures
            ms == self@.timeout_ms,
    {
        self.timeout_ms
    }

    /// Upper bound on the number of batches probed at the same time.
    pub fn workers(&self) -> (workers: usize)
        ensures
            workers == self@.workers,
    {
        self.workers
    }

    /// Number of ports per batch.
    pub fn batch_size(&self) -> (size: usize)
        ensures
            size == self@.batch_size,
    {
        self.batch_size
    }

    /// Transport protocol.
    pub fn scan_type(&self) -> (scan_type: ScanType)
        ensures
            scan_type == self@.scan_type,
    {
        self.scan_type
    }

    /// Records the end of one connection attempt on `port`.
    pub fn scan_single_port(&self, port: u16, report: ProbeReport) -> (result: ScanResult)
        ensures
            result@ == probe_result(port, report),
    {
        let is_open = match report.event {
            ProbeEvent::Connected => true,
            ProbeEvent::Failed => false,
            ProbeEvent::TimedOut => false,
        };
        let service = self.service_map.name_for(port);
        ScanResult { port, is_open, latency: report.latency, service }
    }

    /// Records the end of a batch: `reports[i]` tells how the attempt on
    /// `ports[i]` ended. The open ports are added to `results` in the order of
    /// the batch; `progress` counts one more batch as scanned, and one more
    /// discovery if the batch held an open port.
    pub fn scan_port_batch(
        &self,
        ports: &Vec<u16>,
        reports: &Vec<ProbeReport>,
        results: &mut Vec<ScanResult>,
        progress: &mut ScanProgress,
    )
        requires
            ports.len() == reports.len(),
            old(progress)@.scanned < u64::MAX,
            old(progress)@.found < u64::MAX,
        ensures
            result_views(final(results)@) == result_views(old(results)@) + open_results(
                batch_results(ports@, reports@),
            ),
            final(progress)@ == (ProgressCounts {
                scanned: old(progress)@.scanned + 1,
                found: if open_results(batch_results(ports@, reports@)).len() > 0 {
                    old(progress)@.found + 1
                } else {
                    old(progress)@.found
                },
                ..old(progress)@
            }),
    {
        let ghost all = batch_results(ports@, reports@);
        let ghost is_open = |r: ResultView| r.is_open;
        let mut open_ports: Vec<ScanResult> = Vec::new();
        let mut i: usize = 0;
        proof {
            assert(all.take(0) =~= Seq::<ResultView>::empty());
            assert(result_views(open_ports@) =~= all.take(0).filter(is_open));
        }
        while i < ports.len()
            invariant
                i <= ports.len(),
                ports.len() == reports.len(),
                all == batch_results(ports@, reports@),
                is_open == (|r: ResultView| r.is_open),
                result_views(open_ports@) == all.take(i as int).filter(is_open),
            decreases ports.len() - i,
        {
            let result = self.scan_single_port(ports[i], reports[i]);
            proof {
                assert(all.take(i + 1) =~= all.take(i as int).push(all[i as int]));
                all.take(i as int).lemma_filter_push(all[i as int], is_open);
                assert(result_views(open_ports@.push(result)) =~= result_views(open_ports@).push(
                    result@,
                ));
            }
            if result.is_open {
                open_ports.push(result);
            }
            i = i + 1;
        }
        proof {
            assert(all.take(ports.len() as int) =~= all);
            assert(result_views(old(results)@ + open_ports@) =~= result_views(old(results)@)
                + result_views(open_ports@));
        }
        if open_ports.len() > 0 {
            results.append(&mut open_ports);
            progress.inc_found();
        }
        progress.inc_scanned();
    }
}

} // verus!
