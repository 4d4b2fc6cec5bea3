//! The second check of a proxy: whether it carries requests to one of a list of
//! hosts.

use vstd::prelude::*;

verus! {

/// How many hosts are tried.
pub const HOST_COUNT: usize = 2;

/// The host that is tried as number `i`, counted from zero.
pub open spec fn host_name(i: int) -> Seq<char> {
    if i == 0 {
        "ipv4.090227.xyz"@
    } else {
        "ipv6.090227.xyz"@
    }
}

/// What came of trying a host.
#[derive(Debug)]
pub enum HostOutcome {
    /// The connection could not be set up; holds the cause.
    ClientFailed(String),
    /// There was a reply.
    Reply {
        /// Its status code.
        status: u16,
        /// Its status as text.
        status_text: String,
        /// The milliseconds that it took.
        elapsed_ms: u128,
    },
    /// There was no reply; holds the cause.
    RequestFailed(String),
}

/// The milliseconds that an accepted reply took. A reply is accepted if its status
/// code is 200.
pub open spec fn accepted(outcome: HostOutcome) -> Option<u128> {
    match outcome {
        HostOutcome::Reply { status, elapsed_ms, .. } => if status == 200 {
            Some(elapsed_ms)
        } else {
            None
        },
        _ => None,
    }
}

/// What is said of an outcome that was not accepted, of the host with a name.
pub open spec fn outcome_text(host: Seq<char>, outcome: HostOutcome) -> Seq<char> {
    match outcome {
        HostOutcome::ClientFailed(cause) => "client build failed: "@ + cause@,
        HostOutcome::Reply { status_text, .. } => "non-200 response: HTTP "@ + status_text@,
        HostOutcome::RequestFailed(cause) => "request to "@ + host + " failed: "@ + cause@,
    }
}

/// What the outcomes of the hosts, tried in order, come to: the milliseconds of
/// the first accepted reply, or what is said of the last outcome.
pub open spec fn verdict(outcomes: Seq<HostOutcome>) -> Result<u128, Seq<char>>
    decreases outcomes.len(),
{
    if outcomes.len() == 0 {
        Err("All validation hosts failed"@)
    } else {
        match verdict(outcomes.drop_last()) {
            Ok(elapsed_ms) => Ok(elapsed_ms),
            Err(_) => match accepted(outcomes.last()) {
                Some(elapsed_ms) => Ok(elapsed_ms),
                None => Err(outcome_text(host_name(outcomes.len() - 1), outcomes.last())),
            },
        }
    }
}

/// A check under way: hosts were tried, and none accepted.
pub struct Validation {
    tried: usize,
    last_error: Option<String>,
    outcomes: Ghost<Seq<HostOutcome>>,
}

/// What follows when a host was tried.
pub enum ValidationStep {
    /// Its reply was accepted, and took so many milliseconds.
    Accepted(u128),
    /// The check goes on.
    Next(Validation),
}

impl Validation {
    /// What came of the hosts that were tried.
    pub closed spec fn history(&self) -> Seq<HostOutcome> {
        self.outcomes@
    }

    /// No host accepted so far, and what was said last is kept.
    pub closed spec fn wf(&self) -> bool {
        &&& self.tried == self.outcomes@.len()
        &&& self.tried <= HOST_COUNT
        &&& forall|i: int|
            0 <= i < self.outcomes@.len() ==> accepted(#[trigger] self.outcomes@[i]) is None
        &&& verdict(self.outcomes@) is Err
        &&& self.last_error is Some <==> self.tried > 0
        &&& self.last_error matches Some(text) ==> verdict(self.outcomes@) == Err::<
            u128,
            Seq<char>,
        >(text@)
    }

    /// The start of a check.
    pub fn new() -> (validation: Validation)
        ensures
            validation.wf(),
            validation.history() == Seq::<HostOutcome>::empty(),
    {
        Validation { tried: 0, last_error: None, outcomes: Ghost(Seq::empty()) }
    }

    /// The host that is to be tried next, if one is left.
    pub fn host(&self) -> (host: Option<&'static str>)
        requires
            self.wf(),
        ensures
            match host {
                Some(name) => self.history().len() < HOST_COUNT && name@ == host_name(
                    self.history().len() as int,
                ),
                None => self.history().len() == HOST_COUNT,
            },
    {
        if self.tried == 0 {
            Some("ipv4.090227.xyz")
        } else if self.tried == 1 {
            Some("ipv6.090227.xyz")
        } else {
            None
        }
    }

    /// Takes in what came of trying the next host.
    pub fn step(self, outcome: HostOutcome) -> (step: ValidationStep)
        requires
            self.wf(),
            self.history().len() < HOST_COUNT,
        ensures
            match step {
                ValidationStep::Accepted(elapsed_ms) => {
                    &&& accepted(outcome) == Some(elapsed_ms)
                    &&& verdict(self.history().push(outcome)) == Ok::<u128, Seq<char>>(elapsed_ms)
                },
                ValidationStep::Next(next) => {
                    &&& accepted(outcome) is None
                    &&& next.wf()
                    &&& next.history() == self.history().push(outcome)
                },
            },
    {
        let ghost before = self.outcomes@;
        let ghost after = before.push(outcome);
        assert(after.drop_last() =~= before);
        let ghost host = host_name(before.len() as int);
        let text: String = match &outcome {
            HostOutcome::ClientFailed(cause) => {
                let mut text: String = "client build failed: ".to_string();
                text.append(cause.as_str());
                text
            },
            HostOutcome::Reply { status, status_text, elapsed_ms } => {
                if *status == 200 {
                    return ValidationStep::Accepted(*elapsed_ms);
                }
                let mut text: String = "non-200 response: HTTP ".to_string();
                text.append(status_text.as_str());
                text
            },
            HostOutcome::RequestFailed(cause) => {
                let mut text: String = "request to ".to_string();
                match self.host() {
                    Some(name) => text.append(name),
                    None => {},
                }
                text.append(" failed: ");
                text.append(cause.as_str());
                text
            },
        };
        assert(text@ == outcome_text(host, outcome));
        let next: Validation = Validation {
            tried: self.tried + 1,
            last_error: Some(text),
            outcomes: Ghost(after),
        };
        assert forall|i: int| 0 <= i < after.len() implies accepted(#[trigger] after[i]) is None by {
            if i < before.len() {
                assert(after[i] == before[i]);
            }
        }
        ValidationStep::Next(next)
    }

    /// What is said of a proxy when no host is left.
    pub fn failure(self) -> (text: String)
        requires
            self.wf(),
        ensures
            verdict(self.history()) == Err::<u128, Seq<char>>(text@),
    {
        match self.last_error {
            Some(text) => text,
            None => {
                assert(self.outcomes@ =~= Seq::empty());
                "All validation hosts failed".to_string()
            },
        }
    }
}

/// The check accepts if and only if some host accepted, with the milliseconds of
/// the first that did; otherwise it says what was said of the last host.
pub proof fn law_verdict(outcomes: Seq<HostOutcome>)
    ensures
        forall|elapsed_ms: u128|
            verdict(outcomes) == Ok::<u128, Seq<char>>(elapsed_ms) <==> #[trigger] first_accepted(
                outcomes,
                elapsed_ms,
            ),
        outcomes.len() > 0 && verdict(outcomes) is Err ==> verdict(outcomes) == Err::<
            u128,
            Seq<char>,
        >(outcome_text(host_name(outcomes.len() - 1), outcomes.last())),
    decreases outcomes.len(),
{
    if outcomes.len() > 0 {
        let front = outcomes.drop_last();
        let last = outcomes.len() - 1;
        law_verdict(front);
        assert forall|elapsed_ms: u128|
            verdict(outcomes) == Ok::<u128, Seq<char>>(elapsed_ms) <==> #[trigger] first_accepted(
                outcomes,
                elapsed_ms,
            ) by {
            match verdict(front) {
                Ok(other) => {
                    assert(first_accepted(front, other));
                    let k = choose|k: int| accepts_first_at(front, other, k);
                    assert(accepts_first_at(front, other, k));
                    assert forall|j: int| 0 <= j < k implies accepted(
                        #[trigger] outcomes[j],
                    ) is None by {
                        assert(front[j] == outcomes[j]);
                    }
                    assert(accepts_first_at(outcomes, other, k));
                    if first_accepted(outcomes, elapsed_ms) {
                        let m = choose|m: int| accepts_first_at(outcomes, elapsed_ms, m);
                        assert(accepts_first_at(outcomes, elapsed_ms, m));
                        if m < k {
                            assert(accepted(outcomes[m]) is None);
                        } else if k < m {
                            assert(accepted(outcomes[k]) is None);
                        }
                    }
                },
                Err(_) => {
                    assert forall|j: int| 0 <= j < last implies accepted(
                        #[trigger] outcomes[j],
                    ) is None by {
                        lemma_none_accepted(front, j);
                        assert(front[j] == outcomes[j]);
                    }
                    if verdict(outcomes) == Ok::<u128, Seq<char>>(elapsed_ms) {
                        assert(accepts_first_at(outcomes, elapsed_ms, last));
                    }
                    if first_accepted(outcomes, elapsed_ms) {
                        let m = choose|m: int| accepts_first_at(outcomes, elapsed_ms, m);
                        assert(accepts_first_at(outcomes, elapsed_ms, m));
                    }
                },
            }
        }
    } else {
        assert forall|elapsed_ms: u128| !(#[trigger] first_accepted(outcomes, elapsed_ms)) by {
            if first_accepted(outcomes, elapsed_ms) {
                let m = choose|m: int| accepts_first_at(outcomes, elapsed_ms, m);
                assert(accepts_first_at(outcomes, elapsed_ms, m));
            }
        }
    }
}

/// Whether host `k` accepted in so many milliseconds, and none before it did.
pub open spec fn accepts_first_at(
    outcomes: Seq<HostOutcome>,
    elapsed_ms: u128,
    k: int,
) -> bool {
    &&& 0 <= k < outcomes.len()
    &&& accepted(outcomes[k]) == Some(elapsed_ms)
    &&& forall|j: int| 0 <= j < k ==> accepted(#[trigger] outcomes[j]) is None
}

/// Whether the first host that accepted did so in so many milliseconds.
pub open spec fn first_accepted(outcomes: Seq<HostOutcome>, elapsed_ms: u128) -> bool {
    exists|k: int| accepts_first_at(outcomes, elapsed_ms, k)
}

/// Where the check does not accept, no host did.
proof fn lemma_none_accepted(outcomes: Seq<HostOutcome>, j: int)
    requires
        verdict(outcomes) is Err,
        0 <= j < outcomes.len(),
    ensures
        accepted(outcomes[j]) is None,
    decreases outcomes.len(),
{
    if j < outcomes.len() - 1 {
        lemma_none_accepted(outcomes.drop_last(), j);
    }
}

/// A host accepts with a reply of status 200, and with nothing else; what is said of
/// another outcome tells its cause whole.
pub proof fn law_only_status_200_accepts(
    status: u16,
    status_text: String,
    elapsed_ms: u128,
    cause: String,
    host: Seq<char>,
)
    ensures
        accepted(HostOutcome::Reply { status, status_text, elapsed_ms }) == if status == 200 {
            Some(elapsed_ms)
        } else {
            None
        },
        accepted(HostOutcome::ClientFailed(cause)) is None,
        accepted(HostOutcome::RequestFailed(cause)) is None,
        outcome_text(host, HostOutcome::Reply { status, status_text, elapsed_ms })
            == "non-200 response: HTTP "@ + status_text@,
        outcome_text(host, HostOutcome::ClientFailed(cause)) == "client build failed: "@ + cause@,
        outcome_text(host, HostOutcome::RequestFailed(cause)) == "request to "@ + host
            + " failed: "@ + cause@,
{
}

/// A host that accepts ends the check; after another the check goes on until two
/// hosts were tried, the one for short addresses and then the one for long ones.
pub proof fn law_two_hosts_in_turn(
    validation: Validation,
    host: Option<&'static str>,
    outcome: HostOutcome,
    step: ValidationStep,
)
    requires
        validation.wf(),
        call_ensures(Validation::host, (&validation,), host),
        validation.history().len() < 2 ==> call_ensures(
            Validation::step,
            (validation, outcome),
            step,
        ),
    ensures
        validation.history().len() == 0 ==> (host matches Some(name) && name@
            == "ipv4.090227.xyz"@),
        validation.history().len() == 1 ==> (host matches Some(name) && name@
            == "ipv6.090227.xyz"@),
        host is None <==> validation.history().len() == 2,
        host is Some ==> match step {
            ValidationStep::Accepted(elapsed_ms) => outcome matches HostOutcome::Reply {
                status,
                elapsed_ms: taken,
                ..
            } && status == 200 && taken == elapsed_ms,
            ValidationStep::Next(next) => {
                &&& !(outcome matches HostOutcome::Reply { status, .. } && status == 200)
                &&& next.history() == validation.history().push(outcome)
            },
        },
{
}

} // verus!
