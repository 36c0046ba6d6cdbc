//! The update-decision engine: the per-run state of the client and the
//! decision taken on each polling cycle.
//!
//! The engine is a state machine driven from outside. Each cycle the
//! caller resolves the configured hostnames and fetches the public IP,
//! then asks [`Dyfi::decide`] whether an update call is needed; after the
//! call it hands the classified outcome back through [`Dyfi::apply`].
//! The network, the clock and the sleeps stay with the caller; the
//! engine sees only plain values, and every transition is specified on
//! [`EngineView`], the mathematical image of the state.

use vstd::prelude::*;

use crate::ip::IpAddress;
use crate::types::Config;
use crate::types::DyfiError;
use crate::types::DyfiResponse;
use crate::types::DyfiResponseCode;
use crate::types::ResponseView;
use crate::types::spec_code_of;

verus! {

/// What one polling cycle did: nothing, or an update call whose outcome
/// is a classified response or a transport error.
pub enum LoopStatus {
    Nop,
    Action(Result<DyfiResponse, DyfiError>),
}

/// The decision for one cycle: retry after the short backoff because the
/// public IP could not be fetched, issue an update call, or do nothing.
#[derive(Clone, Copy, PartialEq, Eq, Structural, Debug)]
pub enum Decision {
    FetchFailed,
    Update,
    NoOp,
}

/// The mathematical image of the engine state.
pub struct EngineView {
    pub hostnames: Seq<Seq<char>>,
    pub poll_interval: u64,
    pub force_update_interval: u64,
    pub previous_update_time: Option<u64>,
    pub previous_ips: Seq<Seq<IpAddress>>,
    pub my_ip: Option<IpAddress>,
    pub stopped: Option<DyfiResponseCode>,
}

/// Some configured hostname currently resolves to no address at all.
pub open spec fn some_hostname_unresolved(resolved: Seq<Seq<IpAddress>>) -> bool {
    exists|i: int| 0 <= i < resolved.len() && (#[trigger] resolved[i]).len() == 0
}

/// Some configured hostname resolves to an address other than `ip`.
pub open spec fn some_ip_differs(resolved: Seq<Seq<IpAddress>>, ip: IpAddress) -> bool {
    exists|i: int, j: int|
        0 <= i < resolved.len() && 0 <= j < resolved[i].len() && #[trigger] resolved[i][j] != ip
}

impl EngineView {
    /// The state is well formed: at least one hostname, and one resolved
    /// entry per hostname.
    pub open spec fn wf(self) -> bool {
        self.hostnames.len() > 0 && self.previous_ips.len() == self.hostnames.len()
    }

    /// The engine accepts further cycles.
    pub open spec fn running(self) -> bool {
        self.stopped is None
    }

    /// Whether a cycle at time `now`, seeing resolution `resolved` and
    /// public address `ip`, must issue an update call: always before the
    /// first update, when the force-update interval has elapsed, when a
    /// hostname has no address, and when a hostname's address differs
    /// from the public one.
    pub open spec fn update_required(
        self,
        resolved: Seq<Seq<IpAddress>>,
        ip: IpAddress,
        now: u64,
    ) -> bool {
        ||| self.previous_update_time is None
        ||| now >= self.previous_update_time->0 + self.force_update_interval
        ||| some_hostname_unresolved(resolved)
        ||| some_ip_differs(resolved, ip)
    }

    /// The state after taking a fresh resolution and public address in.
    pub open spec fn observed(self, resolved: Seq<Seq<IpAddress>>, ip: IpAddress) -> EngineView {
        EngineView { previous_ips: resolved, my_ip: Some(ip), ..self }
    }

    /// The state after applying a classified provider response at time
    /// `now`: an address-bearing `Good` rebinds every hostname to that
    /// address and refreshes the update time, `NoChg` refreshes the
    /// update time, and every other outcome stops the engine with its
    /// mapped exit code.
    pub open spec fn applied(self, res: ResponseView, now: u64) -> EngineView {
        match res {
            ResponseView::Good(Some(ip)) => EngineView {
                previous_ips: Seq::new(self.previous_ips.len(), |i: int| seq![ip]),
                previous_update_time: Some(now),
                ..self
            },
            ResponseView::NoChg => EngineView { previous_update_time: Some(now), ..self },
            _ => EngineView { stopped: Some(spec_code_of(res)), ..self },
        }
    }
}

/// The engine state: the run's configuration, the time of the last
/// update, the addresses last seen for each hostname (one entry per
/// configured hostname, in order), the last fetched public address, and
/// the terminal code once one was reached.
pub struct Dyfi {
    pub config: Config,
    pub previous_update_time: Option<u64>,
    pub previous_ips: Vec<Vec<IpAddress>>,
    pub my_ip: Option<IpAddress>,
    pub stopped: Option<DyfiResponseCode>,
}

impl View for Dyfi {
    type V = EngineView;

    open spec fn view(&self) -> EngineView {
        EngineView {
            hostnames: self.config.hostnames.deep_view(),
            poll_interval: self.config.poll_interval,
            force_update_interval: self.config.force_update_interval,
            previous_update_time: self.previous_update_time,
            previous_ips: self.previous_ips.deep_view(),
            my_ip: self.my_ip,
            stopped: self.stopped,
        }
    }
}

/// True when some entry is empty or holds an address other than `ip`.
fn resolution_requires_update(resolved: &Vec<Vec<IpAddress>>, ip: IpAddress) -> (r: bool)
    ensures
        r == (some_hostname_unresolved(resolved.deep_view()) || some_ip_differs(
            resolved.deep_view(),
            ip,
        )),
{
    let ghost dv = resolved.deep_view();
    let n = resolved.len();
    let mut i: usize = 0;
    while i < n
        invariant
            dv == resolved.deep_view(),
            n == resolved@.len(),
            dv.len() == n,
            i <= n,
            forall|k: int| 0 <= k < i ==> (#[trigger] dv[k]).len() > 0,
            forall|k: int, j: int| 0 <= k < i && 0 <= j < dv[k].len() ==> #[trigger] dv[k][j] == ip,
        decreases n - i,
    {
        proof {
            assert(dv[i as int] == resolved@[i as int]@);
        }
        let entry = &resolved[i];
        if entry.len() == 0 {
            proof {
                assert(some_hostname_unresolved(dv));
            }
            return true;
        }
        let m = entry.len();
        let mut j: usize = 0;
        while j < m
            invariant
                dv == resolved.deep_view(),
                entry@ == dv[i as int],
                m == entry@.len(),
                j <= m,
                0 <= i < dv.len(),
                forall|l: int| 0 <= l < j ==> #[trigger] entry@[l] == ip,
            decreases m - j,
        {
            if entry[j] != ip {
                proof {
                    assert(dv[i as int][j as int] != ip);
                    assert(some_ip_differs(dv, ip));
                }
                return true;
            }
            j += 1;
        }
        i += 1;
    }
    proof {
        assert(!some_hostname_unresolved(dv));
        assert(!some_ip_differs(dv, ip));
    }
    false
}

impl Dyfi {
    /// Build the engine for a run. The hostname list must not be empty;
    /// an empty list is the one configuration error and is rejected.
    pub fn from(config: Config) -> (r: Result<Dyfi, DyfiError>)
        ensures
            config.hostnames@.len() == 0 <==> r is Err,
            r is Err ==> r->Err_0.0@ == "No hostnames configured"@,
            r is Ok ==> ({
                let d = r->Ok_0;
                &&& d@.wf()
                &&& d@.running()
                &&& d.config == config
                &&& d@.hostnames == config.hostnames.deep_view()
                &&& d@.poll_interval == config.poll_interval
                &&& d@.force_update_interval == config.force_update_interval
                &&& d@.previous_update_time is None
                &&& d@.my_ip is None
                &&& forall|i: int|
                    0 <= i < d@.previous_ips.len() ==> (#[trigger] d@.previous_ips[i]).len() == 0
            }),
    {
        if config.hostnames.len() == 0 {
            return Err(DyfiError(String::from_str("No hostnames configured")));
        }
        let n = config.hostnames.len();
        let mut ips: Vec<Vec<IpAddress>> = Vec::new();
        let mut i: usize = 0;
        while i < n
            invariant
                i <= n,
                ips@.len() == i,
                forall|k: int| 0 <= k < i ==> (#[trigger] ips.deep_view()[k]).len() == 0,
            decreases n - i,
        {
            let empty: Vec<IpAddress> = Vec::new();
            let ghost prev = ips@;
            let ghost pred = ips.deep_view();
            ips.push(empty);
            proof {
                assert forall|k: int| 0 <= k < i + 1 implies (#[trigger] ips.deep_view()[k]).len()
                    == 0 by {
                    assert(ips.deep_view()[k] == ips@[k].deep_view());
                    if k < i {
                        assert(ips@[k] == prev[k]);
                        assert(prev[k].deep_view() == pred[k]);
                    } else {
                        assert(ips@[k]@.len() == 0);
                    }
                }
            }
            i += 1;
        }
        Ok(
            Dyfi {
                config,
                previous_update_time: None,
                previous_ips: ips,
                my_ip: None,
                stopped: None,
            },
        )
    }

    /// Take one cycle's observations and decide. A failed fetch changes
    /// nothing and asks the caller to retry after the short backoff;
    /// otherwise the fresh resolution and address are stored and the
    /// decision is exactly [`EngineView::update_required`].
    pub fn decide(&mut self, resolved: Vec<Vec<IpAddress>>, fetched: Option<IpAddress>, now: u64) -> (d:
        Decision)
        requires
            old(self)@.wf(),
            old(self)@.running(),
            resolved@.len() == old(self)@.hostnames.len(),
            old(self)@.previous_update_time is Some ==> old(self)@.previous_update_time->0 <= now,
        ensures
            fetched is None ==> final(self)@ == old(self)@ && d == Decision::FetchFailed,
            fetched is Some ==> final(self)@ == old(self)@.observed(
                resolved.deep_view(),
                fetched->0,
            ),
            fetched is Some ==> (d == Decision::Update <==> old(self)@.update_required(
                resolved.deep_view(),
                fetched->0,
                now,
            )),
            fetched is Some ==> (d == Decision::NoOp <==> !old(self)@.update_required(
                resolved.deep_view(),
                fetched->0,
                now,
            )),
            final(self)@.wf(),
            final(self)@.running(),
    {
        let ip = match fetched {
            Some(ip) => ip,
            None => {
                return Decision::FetchFailed;
            },
        };
        let mut required = false;
        match self.previous_update_time {
            None => {
                required = true;
            },
            Some(t) => {
                if now - t >= self.config.force_update_interval {
                    required = true;
                }
            },
        }
        if !required {
            required = resolution_requires_update(&resolved, ip);
        }
        self.previous_ips = resolved;
        self.my_ip = Some(ip);
        if required {
            Decision::Update
        } else {
            Decision::NoOp
        }
    }

    /// Record an update time.
    fn refresh_update_time(&mut self, now: u64)
        ensures
            final(self)@ == (EngineView { previous_update_time: Some(now), ..old(self)@ }),
    {
        self.previous_update_time = Some(now);
    }

    /// Apply a classified provider response: `Good` with an address
    /// rebinds every hostname to it and refreshes the update time,
    /// `NoChg` refreshes the update time, and every other outcome is
    /// terminal — the engine stops and the mapped exit code is returned.
    pub fn handle_ok_response(&mut self, res: DyfiResponse, now: u64) -> (r: Result<
        (),
        DyfiResponseCode,
    >)
        requires
            old(self)@.wf(),
            old(self)@.running(),
        ensures
            final(self)@ == old(self)@.applied(res@, now),
            r is Ok <==> (res@ matches ResponseView::Good(Some(_)) || res@ is NoChg),
            r is Err ==> r->Err_0 == spec_code_of(res@),
            r is Err ==> final(self)@.stopped == Some(spec_code_of(res@)),
            final(self)@.wf(),
            r is Ok ==> final(self)@.running(),
    {
        match res {
            DyfiResponse::Good(Some(new_ip)) => {
                let n = self.previous_ips.len();
                let mut fresh: Vec<Vec<IpAddress>> = Vec::new();
                let mut i: usize = 0;
                while i < n
                    invariant
                        i <= n,
                        fresh@.len() == i,
                        forall|k: int| 0 <= k < i ==> #[trigger] fresh.deep_view()[k] == seq![
                            new_ip,
                        ],
                    decreases n - i,
                {
                    let mut one: Vec<IpAddress> = Vec::new();
                    one.push(new_ip);
                    let ghost prev = fresh@;
                    let ghost pred = fresh.deep_view();
                    fresh.push(one);
                    proof {
                        assert forall|k: int| 0 <= k < i + 1 implies #[trigger] fresh.deep_view()[k]
                            == seq![new_ip] by {
                            assert(fresh.deep_view()[k] == fresh@[k].deep_view());
                            if k < i {
                                assert(fresh@[k] == prev[k]);
                                assert(prev[k].deep_view() == pred[k]);
                            } else {
                                assert(fresh@[k]@ =~= seq![new_ip]);
                                assert(fresh@[k].deep_view() =~= seq![new_ip]);
                            }
                        }
                    }
                    i += 1;
                }
                self.previous_ips = fresh;
                self.refresh_update_time(now);
                proof {
                    assert(self@.previous_ips =~= Seq::new(
                        old(self)@.previous_ips.len(),
                        |i: int| seq![new_ip],
                    ));
                }
                Ok(())
            },
            DyfiResponse::NoChg => {
                self.refresh_update_time(now);
                Ok(())
            },
            _ => {
                let code = DyfiResponseCode::from(res);
                self.stopped = Some(code);
                Err(code)
            },
        }
    }

    /// Apply what the cycle did. A no-op and a failed update call leave
    /// the state unchanged — a transport failure is transient; a
    /// classified response is applied, and the mapped exit code is
    /// returned exactly when the outcome is terminal.
    pub fn apply(&mut self, status: LoopStatus, now: u64) -> (r: Option<DyfiResponseCode>)
        requires
            old(self)@.wf(),
            old(self)@.running(),
        ensures
            match status {
                LoopStatus::Nop => final(self)@ == old(self)@ && r is None,
                LoopStatus::Action(outcome) => match outcome {
                    Result::Err(_) => final(self)@ == old(self)@ && r is None,
                    Result::Ok(res) => {
                        &&& final(self)@ == old(self)@.applied(res@, now)
                        &&& (r is None <==> (res@ matches ResponseView::Good(Some(_))
                            || res@ is NoChg))
                        &&& (r is Some ==> r->0 == spec_code_of(res@))
                    },
                },
            },
            final(self)@.wf(),
    {
        match status {
            LoopStatus::Nop => None,
            LoopStatus::Action(Err(_)) => None,
            LoopStatus::Action(Ok(res)) => match self.handle_ok_response(res, now) {
                Ok(()) => None,
                Err(code) => Some(code),
            },
        }
    }

    /// The sleep after a failed public-IP fetch: a quarter of the poll
    /// interval.
    pub fn retry_backoff(&self) -> (r: u64)
        ensures
            r == self@.poll_interval / 4,
    {
        self.config.poll_interval / 4
    }

    /// The sleep after an ordinary cycle: the full poll interval.
    pub fn poll_delay(&self) -> (r: u64)
        ensures
            r == self@.poll_interval,
    {
        self.config.poll_interval
    }
}

/// Before any update has been performed, a cycle always issues an update
/// call, whatever the hostnames resolve to and whatever the public
/// address is.
pub proof fn lemma_first_cycle_always_updates(
    v: EngineView,
    resolved: Seq<Seq<IpAddress>>,
    ip: IpAddress,
    now: u64,
)
    requires
        v.previous_update_time is None,
    ensures
        v.update_required(resolved, ip, now),
{
}

/// Once every hostname resolves to the current public address and the
/// force-update interval has not elapsed, a cycle is a no-op, and the
/// state it leaves behind makes the next such cycle a no-op again: no
/// update call is issued until the resolution drifts, the address
/// changes, or the interval elapses.
pub proof fn lemma_no_op_is_stable(
    v: EngineView,
    resolved: Seq<Seq<IpAddress>>,
    ip: IpAddress,
    now: u64,
    later: u64,
)
    requires
        v.previous_update_time is Some,
        now < v.previous_update_time->0 + v.force_update_interval,
        later < v.previous_update_time->0 + v.force_update_interval,
        forall|i: int| 0 <= i < resolved.len() ==> (#[trigger] resolved[i]).len() > 0,
        forall|i: int, j: int|
            0 <= i < resolved.len() && 0 <= j < resolved[i].len() ==> #[trigger] resolved[i][j]
                == ip,
    ensures
        !v.update_required(resolved, ip, now),
        !v.observed(resolved, ip).update_required(resolved, ip, later),
{
}

/// `NoChg` and an address-bearing `Good` refresh the update time to the
/// time of the outcome and leave the engine running.
pub proof fn lemma_benign_outcome_refreshes(v: EngineView, res: ResponseView, now: u64)
    requires
        res matches ResponseView::Good(Some(_)) || res is NoChg,
    ensures
        v.applied(res, now).previous_update_time == Some(now),
        v.running() ==> v.applied(res, now).running(),
{
}

/// Every other outcome is terminal: applying it stops the engine with
/// the outcome's mapped exit code, and a stopped engine admits no
/// further cycle.
pub proof fn lemma_terminal_outcome_stops(v: EngineView, res: ResponseView, now: u64)
    requires
        !(res matches ResponseView::Good(Some(_))),
        !(res is NoChg),
    ensures
        v.applied(res, now).stopped == Some(spec_code_of(res)),
        !v.applied(res, now).running(),
{
}

} // verus!
