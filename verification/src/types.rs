//! Plain data shared by every part of the scanner.

use std::time::Duration;
use vstd::prelude::*;

verus! {

/// The std error type carried by [`ScanError::NetworkError`]; its contents are
/// not inspected by this library.
#[verifier::external_type_specification]
#[verifier::external_body]
pub struct ExIoError(std::io::Error);

/// One open port as reported to the caller.
#[derive(Debug)]
pub struct ScanResult {
    /// The port that was probed.
    pub port: u16,
    /// Whether a connection to the port was established.
    pub is_open: bool,
    /// Time that the connection attempt took.
    pub latency: Duration,
    /// Name of the service that is usually found on the port, if it has one.
    pub service: Option<String>,
}

/// A [`ScanResult`] with its service name as a sequence of characters.
pub struct ResultView {
    /// The port that was probed.
    pub port: u16,
    /// Whether a connection to the port was established.
    pub is_open: bool,
    /// Time that the connection attempt took.
    pub latency: Duration,
    /// Name of the service that is usually found on the port, if it has one.
    pub service: Option<Seq<char>>,
}

impl View for ScanResult {
    type V = ResultView;

    open spec fn view(&self) -> ResultView {
        ResultView {
            port: self.port,
            is_open: self.is_open,
            latency: self.latency,
            service: match self.service {
                Some(name) => Some(name@),
                None => None,
            },
        }
    }
}

/// The views of a sequence of results, in the same order.
pub open spec fn result_views(results: Seq<ScanResult>) -> Seq<ResultView> {
    results.map_values(|r: ScanResult| r@)
}

/// How a single connection attempt ended.
#[derive(Copy, Clone, PartialEq, Eq, Debug, Structural)]
pub enum ProbeEvent {
    /// The connection was established before the timeout.
    Connected,
    /// The attempt ended with an error: refused, unreachable or another failure.
    Failed,
    /// The timeout elapsed first.
    TimedOut,
}

/// What is known about one connection attempt once it has ended.
#[derive(Copy, Clone, Debug)]
pub struct ProbeReport {
    /// How the attempt ended.
    pub event: ProbeEvent,
    /// Time from the start of the attempt to its end.
    pub latency: Duration,
}

impl ScanResult {
    /// The service name to show for this result: the name of the service, or
    /// `Unknown` where the port has none.
    pub fn service_label(&self) -> (label: String)
        ensures
            label@ == match self@.service {
                Some(name) => name,
                None => "Unknown"@,
            },
    {
        match &self.service {
            Some(name) => name.clone(),
            None => "Unknown".to_owned(),
        }
    }
}

impl Clone for ScanResult {
    fn clone(&self) -> (copy: ScanResult)
        ensures
            copy == *self,
    {
        let service = match &self.service {
            Some(name) => Some(name.clone()),
            None => None,
        };
        ScanResult { port: self.port, is_open: self.is_open, latency: self.latency, service }
    }
}

/// Transport protocol selected for the scan.
#[derive(Copy, Clone, PartialEq, Eq, PartialOrd, Ord, Debug, Structural)]
pub enum ScanType {
    Tcp,
    Udp,
}

/// Reasons a scan cannot be set up or carried out.
#[derive(Debug)]
pub enum ScanError {
    /// The target text is not an IP address; carries the offending text.
    InvalidIpAddress(String),
    /// The first port lies above the last port; carries an explanation.
    InvalidPortRange(String),
    /// An I/O failure outside of a single probe.
    NetworkError(std::io::Error),
    /// The scan as a whole ran out of time.
    Timeout,
}

} // verus!
