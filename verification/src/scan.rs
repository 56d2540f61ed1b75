//! The scan pipeline's decisions: enumerating the probe targets of a range,
//! deciding what each probe and fetch outcome contributes to the result
//! list, and accounting for progress across the whole range. The network
//! calls themselves — probe, reverse lookup, fetch — happen outside and
//! hand their outcomes in as plain values.

use crate::addresses::is_ipv4_text;
use crate::addresses::ipv4_value_of;
use crate::addresses::sequential_addresses;
use crate::addresses::AddressRange;
use crate::addresses::TraversalOrder;
use crate::links::anchor_hrefs_of;
use crate::links::classified_links;
use crate::links::filter_relative_paths;
use crate::links::find_anchor_tags;
use vstd::prelude::*;

verus! {

/// The error that aborts a scan before it starts: one of the range bounds
/// is not a dotted-quad IPv4 literal. Every later failure is confined to
/// the address it struck.
#[derive(Debug, Clone, Copy, PartialEq, Eq, Structural)]
pub enum ScanError {
    InvalidAddress,
}

/// One address-and-port pair to probe.
#[derive(Debug, Clone, Copy, PartialEq, Eq, Structural)]
pub struct ProbeTarget {
    pub addr: u32,
    pub port: u16,
}

/// What one reachable address contributed: the address itself, the names
/// its reverse lookup produced (possibly none), and its classified links.
#[derive(Debug)]
pub struct ScanResult {
    pub addr: u32,
    pub names: Vec<String>,
    pub links: Vec<String>,
}

/// The mathematical shape of one scan record.
#[verifier::ext_equal]
pub ghost struct ScanRecord {
    pub addr: u32,
    pub names: Seq<Seq<char>>,
    pub links: Seq<Seq<char>>,
}

impl ScanResult {
    /// The shape of this record.
    pub open spec fn view(self) -> ScanRecord {
        ScanRecord { addr: self.addr, names: self.names.deep_view(), links: self.links.deep_view() }
    }
}

/// The shapes of a sequence of scan records, in order.
pub open spec fn records_of(results: Seq<ScanResult>) -> Seq<ScanRecord>
    decreases results,
{
    if results.len() == 0 {
        Seq::empty()
    } else {
        records_of(results.subrange(0, results.len() - 1)).push(
            results[results.len() - 1].view(),
        )
    }
}

/// `records_of` keeps the length of the sequence it maps.
pub broadcast proof fn lemma_records_of_len(results: Seq<ScanResult>)
    ensures
        #[trigger] records_of(results).len() == results.len(),
    decreases results.len(),
{
    if results.len() > 0 {
        lemma_records_of_len(results.subrange(0, results.len() - 1));
    }
}

/// `records_of` maps each result to its shape, position by position.
pub broadcast proof fn lemma_records_of_index(results: Seq<ScanResult>, i: int)
    requires
        0 <= i < results.len(),
    ensures
        #[trigger] records_of(results)[i] == results[i].view(),
    decreases results.len(),
{
    lemma_records_of_len(results.subrange(0, results.len() - 1));
    if i < results.len() - 1 {
        lemma_records_of_index(results.subrange(0, results.len() - 1), i);
    }
}

/// The sentinel record for an address whose fetch failed: no website found.
pub open spec fn no_website_text() -> Seq<char> {
    "No website found"@
}

/// What one fetched page contributes to a record: the classified links of
/// the page when a page arrived, and the sentinel line when none did.
pub open spec fn spec_classify_page(page: Option<Seq<char>>) -> Seq<Seq<char>> {
    match page {
        Option::Some(h) => classified_links(anchor_hrefs_of(h)),
        Option::None => seq![no_website_text()],
    }
}

/// The link list recorded for one fetch outcome, as `spec_classify_page`
/// describes it: a fetched page yields its classified anchor targets, and a
/// failed fetch yields the sentinel line alone, never an error.
pub fn classify_page(page: Option<String>) -> (r: Vec<String>)
    ensures
        r.deep_view() == spec_classify_page(page.deep_view()),
{
    match page {
        Option::Some(html) => {
            let tags = find_anchor_tags(html.as_str());
            filter_relative_paths(tags)
        },
        Option::None => {
            let mut out: Vec<String> = Vec::new();
            out.push("No website found".to_owned());
            proof {
                assert(out.deep_view() =~= seq![no_website_text()]);
            }
            out
        },
    }
}

/// The mathematical state of a scan: the targets in visiting order, the
/// probed port, how many targets are already decided, and the records
/// gathered so far.
#[verifier::ext_equal]
pub ghost struct ScanState {
    pub targets: Seq<u32>,
    pub port: u16,
    pub next: int,
    pub results: Seq<ScanRecord>,
}

impl ScanState {
    /// Progress never leaves the range, and no address contributes more
    /// than one record, so the result list never outgrows the range.
    pub open spec fn wf(self) -> bool {
        0 <= self.next <= self.targets.len() && self.results.len() <= self.next
    }
}

/// Drives one scan across an address range: hands out the next target,
/// takes each verdict back, and gathers one record per reachable address.
#[derive(Debug)]
pub struct ScanOrchestrator {
    targets: Vec<u32>,
    port: u16,
    next: usize,
    results: Vec<ScanResult>,
}

impl ScanOrchestrator {
    /// The state of the scan.
    pub closed spec fn view(self) -> ScanState {
        ScanState {
            targets: self.targets@,
            port: self.port,
            next: self.next as int,
            results: records_of(self.results@),
        }
    }

    /// A scan over the inclusive range between two dotted-quad bounds,
    /// refused with `InvalidAddress` exactly when a bound is not a
    /// dotted-quad literal. The targets are every address of the range,
    /// ascending under `Sequential` and permuted under `Shuffled`; a range
    /// whose start lies above its end holds no target at all.
    pub fn new(start_text: &str, end_text: &str, port: u16, order: TraversalOrder) -> (r: Result<
        ScanOrchestrator,
        ScanError,
    >)
        ensures
            match r {
                Result::Ok(o) => is_ipv4_text(start_text@) && is_ipv4_text(end_text@) && o@.wf()
                    && o@.port == port && o@.next == 0 && o@.results == Seq::<ScanRecord>::empty()
                    && o@.targets.to_multiset() == sequential_addresses(
                    AddressRange {
                        start: ipv4_value_of(start_text@),
                        end: ipv4_value_of(end_text@),
                    },
                ).to_multiset() && (order is Sequential ==> o@.targets == sequential_addresses(
                    AddressRange {
                        start: ipv4_value_of(start_text@),
                        end: ipv4_value_of(end_text@),
                    },
                )),
                Result::Err(e) => e == ScanError::InvalidAddress && (!is_ipv4_text(start_text@)
                    || !is_ipv4_text(end_text@)),
            },
    {
        let start = match crate::addresses::parse_ipv4(start_text) {
            Option::Some(v) => v,
            Option::None => {
                return Result::Err(ScanError::InvalidAddress);
            },
        };
        let end = match crate::addresses::parse_ipv4(end_text) {
            Option::Some(v) => v,
            Option::None => {
                return Result::Err(ScanError::InvalidAddress);
            },
        };
        let range = AddressRange { start, end };
        let targets = range.addresses(order);
        let o = ScanOrchestrator { targets, port, next: 0, results: Vec::new() };
        proof {
            assert(records_of(o.results@) =~= Seq::<ScanRecord>::empty());
        }
        Result::Ok(o)
    }

    /// The target to probe next; `None` once every address is decided.
    pub fn current_target(&self) -> (r: Option<ProbeTarget>)
        ensures
            match r {
                Option::Some(t) => self@.next < self@.targets.len() && t.addr
                    == self@.targets[self@.next] && t.port == self@.port,
                Option::None => self@.next >= self@.targets.len(),
            },
    {
        if self.next < self.targets.len() {
            Option::Some(ProbeTarget { addr: self.targets[self.next], port: self.port })
        } else {
            Option::None
        }
    }

    /// Whether every address of the range is decided.
    pub fn is_finished(&self) -> (r: bool)
        ensures
            r == (self@.next == self@.targets.len()),
    {
        self.next == self.targets.len()
    }

    /// Decides the current address as unreachable: it contributes no
    /// record, and the scan moves on.
    pub fn record_closed(&mut self)
        requires
            old(self)@.wf(),
            old(self)@.next < old(self)@.targets.len(),
        ensures
            final(self)@.wf(),
            final(self)@.targets == old(self)@.targets,
            final(self)@.port == old(self)@.port,
            final(self)@.next == old(self)@.next + 1,
            final(self)@.results == old(self)@.results,
    {
        let n = self.targets.len();
        proof {
            assert(self@.wf());
            assert(self.next < n);
        }
        self.next = self.next + 1;
    }

    /// Decides the current address as reachable: the resolved names are
    /// advisory and recorded as handed in, the fetch outcome turns into the
    /// classified link list (or the sentinel line), and exactly one record
    /// is appended.
    pub fn record_open(&mut self, names: Vec<String>, page: Option<String>)
        requires
            old(self)@.wf(),
            old(self)@.next < old(self)@.targets.len(),
        ensures
            final(self)@.wf(),
            final(self)@.targets == old(self)@.targets,
            final(self)@.port == old(self)@.port,
            final(self)@.next == old(self)@.next + 1,
            final(self)@.results == old(self)@.results.push(
                ScanRecord {
                    addr: old(self)@.targets[old(self)@.next],
                    names: names.deep_view(),
                    links: spec_classify_page(page.deep_view()),
                },
            ),
    {
        broadcast use lemma_records_of_len, lemma_records_of_index;

        let n = self.targets.len();
        proof {
            assert(self@.wf());
            assert(self.next < n);
        }
        let addr = self.targets[self.next];
        let links = classify_page(page);
        let ghost before = self.results@;
        let result = ScanResult { addr, names, links };
        let ghost record = result.view();
        self.results.push(result);
        self.next = self.next + 1;
        proof {
            assert(self.results@.subrange(0, before.len() as int) =~= before);
            assert(records_of(self.results@) =~= records_of(before).push(record));
        }
    }

    /// The records gathered so far, one per reachable address, in the order
    /// the addresses were decided.
    pub fn results(&self) -> (r: &Vec<ScanResult>)
        ensures
            records_of(r@) == self@.results,
    {
        &self.results
    }

    /// Hands the gathered records over and ends the scan.
    pub fn into_results(self) -> (r: Vec<ScanResult>)
        ensures
            records_of(r@) == self@.results,
    {
        self.results
    }
}

} // verus!
