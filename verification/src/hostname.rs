//! Hostnames of candidates, and the answer of one resolution attempt.

use vstd::prelude::*;
use vstd::string::*;

verus! {

/// The hostname of a candidate under a domain: the label, one dot, the
/// domain.
pub open spec fn hostname_of(label: Seq<char>, domain: Seq<char>) -> Seq<char> {
    label + seq!['.'] + domain
}

/// What the resolver is asked for a hostname: the hostname with the web
/// port behind it.
pub open spec fn lookup_target_of(host: Seq<char>) -> Seq<char> {
    host + seq![':', '8', '0']
}

/// Builds the hostname of `label` under `domain`.
pub fn hostname(label: &str, domain: &str) -> (host: String)
    ensures
        host@ == hostname_of(label@, domain@),
{
    proof {
        reveal_strlit(".");
    }
    let mut host = String::from_str(label);
    host.append(".");
    assert("."@ =~= seq!['.']);
    host.append(domain);
    host
}

/// Builds the text that a socket-address lookup takes for `host`.
pub fn lookup_target(host: &str) -> (target: String)
    ensures
        target@ == lookup_target_of(host@),
{
    proof {
        reveal_strlit(":80");
    }
    let mut target = String::from_str(host);
    target.append(":80");
    assert(":80"@ =~= seq![':', '8', '0']);
    target
}

/// The answer of one attempt: the hostname where it resolved, nothing where
/// it did not.
pub fn outcome(host: String, resolved: bool) -> (found: Option<String>)
    ensures
        resolved ==> found == Some(host),
        !resolved ==> found is None,
{
    if resolved {
        Some(host)
    } else {
        None
    }
}

/// The lookup answers whatever it is asked.
pub open spec fn answers_all<F: Fn(&str) -> bool>(lookup: &F) -> bool {
    forall|target: &str| #[trigger] lookup.requires((target,))
}

/// `resolved` is an answer of the lookup for `host`: what it returned when
/// asked for the lookup target of `host`.
pub open spec fn answered<F: Fn(&str) -> bool>(lookup: &F, host: Seq<char>, resolved: bool) -> bool {
    exists|target: &str|
        target@ == lookup_target_of(host) && #[trigger] lookup.ensures((target,), resolved)
}

/// The lookup gives one answer for one text.
pub open spec fn is_fixed<F: Fn(&str) -> bool>(lookup: &F) -> bool {
    forall|a: &str, b: &str, x: bool, y: bool|
        a@ == b@ && #[trigger] lookup.ensures((a,), x) && #[trigger] lookup.ensures((b,), y) ==> x
            == y
}

/// Tests one candidate: builds its hostname, asks the lookup for it, and
/// hands the hostname back where the lookup succeeded. A lookup that fails
/// for whatever reason is a candidate not found.
pub fn check_subdomain<F: Fn(&str) -> bool>(subdomain: &str, domain: &str, lookup: &F) -> (found:
    Option<String>)
    requires
        answers_all(lookup),
    ensures
        answered(lookup, hostname_of(subdomain@, domain@), found is Some),
        found matches Some(host) ==> host@ == hostname_of(subdomain@, domain@),
{
    let host = hostname(subdomain, domain);
    let target = lookup_target(host.as_str());
    let resolved = lookup(target.as_str());
    outcome(host, resolved)
}

/// With a lookup that gives one answer for one text, a hostname has one
/// answer: testing it twice tells the same.
pub proof fn law_fixed_lookup_one_answer<F: Fn(&str) -> bool>(
    lookup: &F,
    host: Seq<char>,
    first: bool,
    second: bool,
)
    requires
        is_fixed(lookup),
        answered(lookup, host, first),
        answered(lookup, host, second),
    ensures
        first == second,
{
}

} // verus!
