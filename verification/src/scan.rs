//! The scan: candidates are split into tasks, every attempt is recorded,
//! and once all are in, the hostnames found are handed back in ascending
//! order.

use vstd::prelude::*;
use vstd::string::*;
use crate::hostname::{
    answered, answers_all, check_subdomain, hostname, hostname_of, is_fixed,
    law_fixed_lookup_one_answer, outcome,
};
use crate::order::ascending;
use crate::partition::{is_partition, lemma_tasks_adjacent, partition, ScanTask};
use crate::progress::ProgressCounter;
use crate::results::{law_ascending_unique, texts, ResultSet};

verus! {

/// The hostnames of the first `upto` candidates that resolved.
pub open spec fn resolved_upto(
    domain: Seq<char>,
    labels: Seq<Seq<char>>,
    outcomes: Seq<bool>,
    upto: int,
) -> Set<Seq<char>> {
    Set::new(
        |host: Seq<char>|
            exists|i: int|
                0 <= i < upto && i < labels.len() && i < outcomes.len() && #[trigger] outcomes[i]
                    && host == hostname_of(labels[i], domain),
    )
}

/// The hostnames of the candidates that resolved.
pub open spec fn resolved_hosts(
    domain: Seq<char>,
    labels: Seq<Seq<char>>,
    outcomes: Seq<bool>,
) -> Set<Seq<char>> {
    resolved_upto(domain, labels, outcomes, labels.len() as int)
}

/// What a scan returns: the hostnames that resolved, each once, ascending.
pub open spec fn is_scan_result(
    hosts: Seq<Seq<char>>,
    domain: Seq<char>,
    labels: Seq<Seq<char>>,
    outcomes: Seq<bool>,
) -> bool {
    &&& ascending(hosts)
    &&& hosts.to_set() == resolved_hosts(domain, labels, outcomes)
}

/// Why a scan gave no result.
#[derive(Debug, Clone, Copy, PartialEq, Eq)]
pub enum ScanError {
    /// Not every candidate was recorded: a worker ended before its task did.
    Incomplete,
    /// The number of outcomes is not the number of candidates.
    OutcomeCount,
}

impl ScanError {
    /// What the error says to the user.
    pub open spec fn message_text(&self) -> Seq<char> {
        match self {
            ScanError::Incomplete => "Scan ended before every candidate was processed"@,
            ScanError::OutcomeCount => "The number of outcomes differs from the number of candidates"@,
        }
    }

    /// What the error says to the user.
    pub fn message(&self) -> (text: String)
        ensures
            text@ == self.message_text(),
    {
        match self {
            ScanError::Incomplete => String::from_str(
                "Scan ended before every candidate was processed",
            ),
            ScanError::OutcomeCount => String::from_str(
                "The number of outcomes differs from the number of candidates",
            ),
        }
    }
}

/// A finished scan.
#[derive(Debug)]
pub struct ScanReport {
    /// The hostnames that resolved, each once, in ascending order.
    pub hosts: Vec<String>,
    /// The number of candidates processed.
    pub processed: usize,
    /// The number of candidates.
    pub total: usize,
}

/// A running scan: what the workers share.
#[derive(Debug)]
pub struct Scan {
    /// The hostnames found so far.
    pub found: ResultSet,
    /// The number of candidates processed so far.
    pub progress: ProgressCounter,
}

impl Scan {
    /// Both parts are well formed.
    pub open spec fn wf(&self) -> bool {
        &&& self.found.wf()
        &&& self.progress.wf()
    }

    /// Starts a scan: splits the candidates into the tasks of the workers,
    /// with nothing found and nothing processed yet.
    pub fn start(candidates: &Vec<String>, workers: usize) -> (started: (Scan, Vec<ScanTask>))
        ensures
            started.0.wf(),
            started.0.found@ == Set::<Seq<char>>::empty(),
            started.0.progress.processed() == 0,
            started.0.progress.total() == candidates@.len(),
            is_partition(started.1@, candidates@, workers as int),
    {
        let tasks = partition(candidates, workers);
        let scan = Scan { found: ResultSet::new(), progress: ProgressCounter::new(candidates.len()) };
        (scan, tasks)
    }

    /// Records one attempt: a hostname that resolved joins the set, and in
    /// either case one more candidate counts as processed.
    pub fn record(&mut self, found: Option<String>)
        requires
            old(self).wf(),
            old(self).progress.processed() < old(self).progress.total(),
        ensures
            final(self).wf(),
            final(self).progress.processed() == old(self).progress.processed() + 1,
            final(self).progress.total() == old(self).progress.total(),
            found matches Some(host) ==> final(self).found@ == old(self).found@.insert(host@),
            found is None ==> final(self).found@ == old(self).found@,
            found is None ==> final(self).found.hosts() == old(self).found.hosts(),
    {
        match found {
            Some(host) => {
                self.found.insert(host);
            },
            None => {},
        }
        self.progress.increment();
    }

    /// Whether every candidate has been recorded.
    pub fn is_complete(&self) -> (complete: bool)
        ensures
            complete == (self.progress.processed() == self.progress.total()),
    {
        self.progress.is_complete()
    }

    /// Ends the scan. Once every candidate has been recorded, the hostnames
    /// found come back in ascending order; before that there is no result.
    pub fn finish(self) -> (result: Result<ScanReport, ScanError>)
        requires
            self.wf(),
        ensures
            self.progress.processed() == self.progress.total() <==> result is Ok,
            result matches Ok(report) ==> {
                &&& texts(report.hosts@) == self.found.hosts()
                &&& ascending(texts(report.hosts@))
                &&& texts(report.hosts@).to_set() == self.found@
                &&& report.processed == self.progress.total()
                &&& report.total == self.progress.total()
            },
            result matches Err(e) ==> e == ScanError::Incomplete,
    {
        if !self.progress.is_complete() {
            return Err(ScanError::Incomplete);
        }
        let processed: usize = self.progress.processed();
        let total: usize = self.progress.total();
        let hosts = self.found.into_sorted();
        Ok(ScanReport { hosts, processed, total })
    }
}

/// Recording the attempt on candidate `at` extends the hostnames resolved
/// among the first `at` candidates to those among the first `at + 1`.
pub proof fn lemma_resolved_step(
    domain: Seq<char>,
    labels: Seq<Seq<char>>,
    outcomes: Seq<bool>,
    at: int,
)
    requires
        0 <= at < labels.len(),
        labels.len() == outcomes.len(),
    ensures
        outcomes[at] ==> resolved_upto(domain, labels, outcomes, at + 1) == resolved_upto(
            domain,
            labels,
            outcomes,
            at,
        ).insert(hostname_of(labels[at], domain)),
        !outcomes[at] ==> resolved_upto(domain, labels, outcomes, at + 1) == resolved_upto(
            domain,
            labels,
            outcomes,
            at,
        ),
{
    let before = resolved_upto(domain, labels, outcomes, at);
    let after = resolved_upto(domain, labels, outcomes, at + 1);
    let host = hostname_of(labels[at], domain);
    assert forall|h: Seq<char>| before.contains(h) implies after.contains(h) by {
        let i = choose|i: int|
            0 <= i < at && i < labels.len() && i < outcomes.len() && #[trigger] outcomes[i] && h
                == hostname_of(labels[i], domain);
        assert(0 <= i < at + 1 && outcomes[i]);
    }
    assert forall|h: Seq<char>| after.contains(h) implies before.contains(h) || (outcomes[at] && h
        == host) by {
        let i = choose|i: int|
            0 <= i < at + 1 && i < labels.len() && i < outcomes.len() && #[trigger] outcomes[i] && h
                == hostname_of(labels[i], domain);
        if i < at {
            assert(0 <= i < at && outcomes[i]);
        }
    }
    if outcomes[at] {
        assert(after.contains(host));
        assert(after =~= before.insert(host));
    } else {
        assert(after =~= before);
    }
}

/// Runs a whole scan on attempts whose answers are known: `outcomes[i]`
/// tells whether candidate `i` resolved. The candidates are split among
/// `workers`, each task is worked off in turn, and the hostnames that
/// resolved come back, each once and in ascending order, whatever the
/// number of workers.
pub fn scan_outcomes(domain: &str, candidates: &Vec<String>, outcomes: &Vec<bool>, workers: usize) -> (result: Result<ScanReport, ScanError>)
    ensures
        candidates@.len() == outcomes@.len() <==> result is Ok,
        result matches Err(e) ==> e == ScanError::OutcomeCount,
        result matches Ok(report) ==> {
            &&& is_scan_result(texts(report.hosts@), domain@, texts(candidates@), outcomes@)
            &&& report.processed == candidates@.len()
            &&& report.total == candidates@.len()
            &&& candidates@.len() == 0 ==> report.hosts@.len() == 0
        },
{
    let n: usize = candidates.len();
    if outcomes.len() != n {
        return Err(ScanError::OutcomeCount);
    }
    let (mut scan, tasks) = Scan::start(candidates, workers);
    let ghost labels = texts(candidates@);
    proof {
        lemma_tasks_adjacent(tasks@, candidates@, workers as int);
        assert(scan.found@ =~= resolved_upto(domain@, labels, outcomes@, 0));
    }
    let mut t: usize = 0;
    while t < tasks.len()
        invariant
            t <= tasks@.len(),
            n == candidates@.len(),
            n == outcomes@.len(),
            labels == texts(candidates@),
            is_partition(tasks@, candidates@, workers as int),
            tasks@.len() == 0 <==> n == 0,
            tasks@.len() > 0 ==> tasks@[0].start == 0,
            tasks@.len() > 0 ==> tasks@.last().start + tasks@.last().labels@.len() == n,
            forall|s: int|
                0 <= s < tasks@.len() - 1 ==> (#[trigger] tasks@[s]).start + tasks@[s].labels@.len()
                    == tasks@[s + 1].start,
            forall|s: int|
                0 <= s < tasks@.len() ==> (#[trigger] tasks@[s]).start + tasks@[s].labels@.len()
                    <= n && tasks@[s].labels@ == candidates@.subrange(
                    tasks@[s].start as int,
                    tasks@[s].start + tasks@[s].labels@.len(),
                ),
            scan.wf(),
            scan.progress.total() == n,
            t < tasks@.len() ==> scan.progress.processed() == tasks@[t as int].start,
            t == tasks@.len() ==> scan.progress.processed() == n,
            scan.found@ == resolved_upto(
                domain@,
                labels,
                outcomes@,
                scan.progress.processed() as int,
            ),
        decreases tasks@.len() - t,
    {
        let task = &tasks[t];
        let len: usize = task.labels.len();
        let mut k: usize = 0;
        while k < len
            invariant
                k <= len,
                t < tasks@.len(),
                *task == tasks@[t as int],
                len == task.labels@.len(),
                n == candidates@.len(),
                n == outcomes@.len(),
                labels == texts(candidates@),
                task.start + len <= n,
                task.labels@ == candidates@.subrange(task.start as int, task.start + len),
                scan.wf(),
                scan.progress.total() == n,
                scan.progress.processed() == task.start + k,
                scan.found@ == resolved_upto(
                    domain@,
                    labels,
                    outcomes@,
                    scan.progress.processed() as int,
                ),
            decreases len - k,
        {
            let at: usize = task.start + k;
            let host = hostname(task.labels[k].as_str(), domain);
            proof {
                assert(task.labels@[k as int] == candidates@[at as int]);
                assert(labels[at as int] == candidates@[at as int]@);
                lemma_resolved_step(domain@, labels, outcomes@, at as int);
            }
            scan.record(outcome(host, outcomes[at]));
            k += 1;
        }
        t += 1;
    }
    let result = scan.finish();
    proof {
        if n == 0 {
            let report = result->Ok_0;
            let hosts = texts(report.hosts@);
            if hosts.len() > 0 {
                assert(hosts.contains(hosts[0]));
                assert(hosts.to_set().contains(hosts[0]));
            }
        }
    }
    result
}

/// An order in which the workers may record their attempts: every
/// candidate position occurs, and there are as many attempts as candidates.
pub open spec fn is_schedule(order: Seq<int>, n: int) -> bool {
    &&& order.len() == n
    &&& forall|k: int| 0 <= k < order.len() ==> 0 <= #[trigger] order[k] < n
    &&& forall|i: int| 0 <= i < n ==> order.contains(i)
}

/// The hostnames held after the attempts on the candidates at the
/// positions in `order` have been recorded one after the other, starting
/// from nothing.
pub open spec fn found_after(
    domain: Seq<char>,
    labels: Seq<Seq<char>>,
    outcomes: Seq<bool>,
    order: Seq<int>,
) -> Set<Seq<char>>
    decreases order.len(),
{
    if order.len() == 0 {
        Set::empty()
    } else {
        let before = found_after(domain, labels, outcomes, order.drop_last());
        if outcomes[order.last()] {
            before.insert(hostname_of(labels[order.last()], domain))
        } else {
            before
        }
    }
}

/// What is held after a run of attempts is the hostnames of those among
/// them that resolved.
pub proof fn lemma_found_after(
    domain: Seq<char>,
    labels: Seq<Seq<char>>,
    outcomes: Seq<bool>,
    order: Seq<int>,
)
    ensures
        forall|host: Seq<char>|
            found_after(domain, labels, outcomes, order).contains(host) <==> exists|k: int|
                0 <= k < order.len() && outcomes[#[trigger] order[k]] && host == hostname_of(
                    labels[order[k]],
                    domain,
                ),
    decreases order.len(),
{
    if order.len() > 0 {
        let shorter = order.drop_last();
        let last = order.len() - 1;
        lemma_found_after(domain, labels, outcomes, shorter);
        assert forall|host: Seq<char>|
            found_after(domain, labels, outcomes, order).contains(host) <==> exists|k: int|
                0 <= k < order.len() && outcomes[#[trigger] order[k]] && host == hostname_of(
                    labels[order[k]],
                    domain,
                ) by {
            if found_after(domain, labels, outcomes, shorter).contains(host) {
                let k = choose|k: int|
                    0 <= k < shorter.len() && outcomes[#[trigger] shorter[k]] && host
                        == hostname_of(labels[shorter[k]], domain);
                assert(order[k] == shorter[k]);
            }
            if exists|k: int|
                0 <= k < order.len() && outcomes[#[trigger] order[k]] && host == hostname_of(
                    labels[order[k]],
                    domain,
                ) {
                let k = choose|k: int|
                    0 <= k < order.len() && outcomes[#[trigger] order[k]] && host == hostname_of(
                        labels[order[k]],
                        domain,
                    );
                if k < last {
                    assert(shorter[k] == order[k]);
                }
            }
        }
    }
}

/// The order in which the workers record their attempts does not matter:
/// once every candidate has been recorded, in whatever interleaving, the
/// hostnames held are those of the candidates that resolved, and the number
/// of attempts recorded is the number of candidates.
pub proof fn law_interleaving_irrelevant(
    domain: Seq<char>,
    labels: Seq<Seq<char>>,
    outcomes: Seq<bool>,
    order: Seq<int>,
)
    requires
        outcomes.len() == labels.len(),
        is_schedule(order, labels.len() as int),
    ensures
        found_after(domain, labels, outcomes, order) == resolved_hosts(domain, labels, outcomes),
        order.len() == labels.len(),
{
    let held = found_after(domain, labels, outcomes, order);
    let wanted = resolved_hosts(domain, labels, outcomes);
    lemma_found_after(domain, labels, outcomes, order);
    assert forall|host: Seq<char>| held.contains(host) <==> wanted.contains(host) by {
        if held.contains(host) {
            let k = choose|k: int|
                0 <= k < order.len() && outcomes[#[trigger] order[k]] && host == hostname_of(
                    labels[order[k]],
                    domain,
                );
            let i = order[k];
            assert(0 <= i < labels.len() && outcomes[i] && host == hostname_of(labels[i], domain));
        }
        if wanted.contains(host) {
            let i = choose|i: int|
                0 <= i < labels.len() && i < labels.len() && i < outcomes.len()
                    && #[trigger] outcomes[i] && host == hostname_of(labels[i], domain);
            assert(order.contains(i));
            let k = choose|k: int| 0 <= k < order.len() && order[k] == i;
            assert(outcomes[order[k]]);
        }
    }
    assert(held =~= wanted);
}

/// `outcomes` holds, for each candidate, an answer that the lookup gave for
/// its hostname.
pub open spec fn answers_of<F: Fn(&str) -> bool>(
    lookup: &F,
    domain: Seq<char>,
    labels: Seq<Seq<char>>,
    outcomes: Seq<bool>,
) -> bool {
    &&& outcomes.len() == labels.len()
    &&& forall|i: int|
        0 <= i < labels.len() ==> answered(lookup, hostname_of(labels[i], domain), #[trigger] outcomes[i])
}

/// Scans `domain` for the labels of `wordlist`: every candidate is tested
/// with `lookup`, and the hostnames for which it succeeded come back, each
/// once and in ascending order. The candidates are split into the tasks of
/// `max_threads` workers and the tasks are worked off in turn; workers that
/// run side by side and record into one `Scan` arrive at the same result.
pub fn scan_subdomains<F: Fn(&str) -> bool>(
    domain: &str,
    wordlist: &Vec<String>,
    max_threads: usize,
    lookup: &F,
) -> (found: Vec<String>)
    requires
        answers_all(lookup),
    ensures
        exists|outcomes: Seq<bool>| #[trigger]
            answers_of(lookup, domain@, texts(wordlist@), outcomes) && is_scan_result(
                texts(found@),
                domain@,
                texts(wordlist@),
                outcomes,
            ),
        wordlist@.len() == 0 ==> found@.len() == 0,
{
    let n: usize = wordlist.len();
    let mut outcomes: Vec<bool> = Vec::new();
    let mut i: usize = 0;
    while i < n
        invariant
            i <= n,
            n == wordlist@.len(),
            outcomes@.len() == i,
            answers_all(lookup),
            forall|j: int|
                0 <= j < i ==> answered(
                    lookup,
                    hostname_of(wordlist@[j]@, domain@),
                    #[trigger] outcomes@[j],
                ),
        decreases n - i,
    {
        let found = check_subdomain(wordlist[i].as_str(), domain, lookup);
        outcomes.push(found.is_some());
        i += 1;
    }
    proof {
        assert(answers_of(lookup, domain@, texts(wordlist@), outcomes@));
    }
    match scan_outcomes(domain, wordlist, &outcomes, max_threads) {
        Ok(report) => report.hosts,
        Err(_) => Vec::new(),
    }
}

/// With a lookup that gives one answer for one text, a scan is determined
/// by the set of its candidates: whatever the number of workers, the order
/// of the candidates and the number of times each is listed, two scans
/// return the same sequence.
pub proof fn law_scan_fixed_lookup<F: Fn(&str) -> bool>(
    lookup: &F,
    domain: Seq<char>,
    first: Seq<Seq<char>>,
    first_labels: Seq<Seq<char>>,
    first_outcomes: Seq<bool>,
    second: Seq<Seq<char>>,
    second_labels: Seq<Seq<char>>,
    second_outcomes: Seq<bool>,
)
    requires
        is_fixed(lookup),
        first_labels.to_set() == second_labels.to_set(),
        answers_of(lookup, domain, first_labels, first_outcomes),
        answers_of(lookup, domain, second_labels, second_outcomes),
        is_scan_result(first, domain, first_labels, first_outcomes),
        is_scan_result(second, domain, second_labels, second_outcomes),
    ensures
        first == second,
{
    let resolves = |host: Seq<char>| answered(lookup, host, true);
    assert forall|i: int| 0 <= i < first_labels.len() implies #[trigger] first_outcomes[i]
        == resolves(hostname_of(first_labels[i], domain)) by {
        let host = hostname_of(first_labels[i], domain);
        assert(answered(lookup, host, first_outcomes[i]));
        if resolves(host) {
            law_fixed_lookup_one_answer(lookup, host, first_outcomes[i], true);
        }
    }
    assert forall|i: int| 0 <= i < second_labels.len() implies #[trigger] second_outcomes[i]
        == resolves(hostname_of(second_labels[i], domain)) by {
        let host = hostname_of(second_labels[i], domain);
        assert(answered(lookup, host, second_outcomes[i]));
        if resolves(host) {
            law_fixed_lookup_one_answer(lookup, host, second_outcomes[i], true);
        }
    }
    law_scan_order_determined(
        first,
        second,
        domain,
        first_labels,
        first_outcomes,
        second_labels,
        second_outcomes,
        resolves,
    );
}

/// There is one outcome for each candidate, and it is what `resolves` says
/// of the candidate's hostname.
pub open spec fn outcomes_follow(
    domain: Seq<char>,
    labels: Seq<Seq<char>>,
    outcomes: Seq<bool>,
    resolves: spec_fn(Seq<char>) -> bool,
) -> bool {
    &&& outcomes.len() == labels.len()
    &&& forall|i: int|
        0 <= i < labels.len() ==> #[trigger] outcomes[i] == resolves(hostname_of(labels[i], domain))
}

/// A scan has one result: whatever the number of workers and however the
/// attempts were interleaved, two results for the same candidates and the
/// same answers are the same sequence.
pub proof fn law_scan_result_unique(
    first: Seq<Seq<char>>,
    second: Seq<Seq<char>>,
    domain: Seq<char>,
    labels: Seq<Seq<char>>,
    outcomes: Seq<bool>,
)
    requires
        is_scan_result(first, domain, labels, outcomes),
        is_scan_result(second, domain, labels, outcomes),
    ensures
        first == second,
{
    law_ascending_unique(first, second);
}

/// Two scans of the same set of candidates, in whatever order and however
/// often each is listed, give the same sequence of hostnames if the answer
/// for a hostname is the same in both.
pub proof fn law_scan_order_determined(
    first: Seq<Seq<char>>,
    second: Seq<Seq<char>>,
    domain: Seq<char>,
    first_labels: Seq<Seq<char>>,
    first_outcomes: Seq<bool>,
    second_labels: Seq<Seq<char>>,
    second_outcomes: Seq<bool>,
    resolves: spec_fn(Seq<char>) -> bool,
)
    requires
        first_labels.to_set() == second_labels.to_set(),
        outcomes_follow(domain, first_labels, first_outcomes, resolves),
        outcomes_follow(domain, second_labels, second_outcomes, resolves),
        is_scan_result(first, domain, first_labels, first_outcomes),
        is_scan_result(second, domain, second_labels, second_outcomes),
    ensures
        first == second,
{
    lemma_resolved_by_set(domain, first_labels, first_outcomes, second_labels, second_outcomes, resolves);
    lemma_resolved_by_set(domain, second_labels, second_outcomes, first_labels, first_outcomes, resolves);
    assert(resolved_hosts(domain, first_labels, first_outcomes) =~= resolved_hosts(
        domain,
        second_labels,
        second_outcomes,
    ));
    law_ascending_unique(first, second);
}

/// Every hostname that resolved among one list of candidates resolved
/// among any other list with the same members and the same answers.
pub proof fn lemma_resolved_by_set(
    domain: Seq<char>,
    a_labels: Seq<Seq<char>>,
    a_outcomes: Seq<bool>,
    b_labels: Seq<Seq<char>>,
    b_outcomes: Seq<bool>,
    resolves: spec_fn(Seq<char>) -> bool,
)
    requires
        a_labels.to_set() == b_labels.to_set(),
        outcomes_follow(domain, a_labels, a_outcomes, resolves),
        outcomes_follow(domain, b_labels, b_outcomes, resolves),
    ensures
        resolved_hosts(domain, a_labels, a_outcomes).subset_of(
            resolved_hosts(domain, b_labels, b_outcomes),
        ),
{
    let a = resolved_hosts(domain, a_labels, a_outcomes);
    let b = resolved_hosts(domain, b_labels, b_outcomes);
    assert forall|h: Seq<char>| a.contains(h) implies b.contains(h) by {
        let i = choose|i: int|
            0 <= i < a_labels.len() && i < a_labels.len() && i < a_outcomes.len()
                && #[trigger] a_outcomes[i] && h == hostname_of(a_labels[i], domain);
        assert(a_labels.contains(a_labels[i]));
        assert(b_labels.to_set().contains(a_labels[i]));
        let j = choose|j: int| 0 <= j < b_labels.len() && b_labels[j] == a_labels[i];
        assert(b_outcomes[j] == resolves(hostname_of(b_labels[j], domain)));
        assert(0 <= j < b_labels.len() && b_outcomes[j] && h == hostname_of(b_labels[j], domain));
    }
}

} // verus!
