//! The wireless network: what the worker does next, what a scan shows, and the
//! stored networks.
use vstd::prelude::*;

use crate::number::{decimal, numeral_injective, to_decimal};
use crate::nvs::{
    all_written, answer, answers, fits, get_str, get_u8, lemma_distinct_writes, put_str, put_u8,
    storable, AnswerView, Image, NvsAnswer, NvsRead, NvsWrite, ReadView, ValueView, WriteView,
};
use crate::text::{contains, has, join, lemma_views_push, opt_view, same, views};

verus! {

// ── Commands and events ─────────────────────────────────────────────────────

/// A network that a scan found.
#[derive(Debug)]
pub struct ScannedNetwork {
    pub ssid: String,
    pub rssi: i32,
    pub secured: bool,
}

/// The model of a network.
pub ghost struct NetworkView {
    pub ssid: Seq<char>,
    pub rssi: i32,
    pub secured: bool,
}

impl View for ScannedNetwork {
    type V = NetworkView;

    open spec fn view(&self) -> NetworkView {
        NetworkView { ssid: self.ssid@, rssi: self.rssi, secured: self.secured }
    }
}

impl Clone for ScannedNetwork {
    fn clone(&self) -> (r: Self)
        ensures
            r@ == self@,
    {
        ScannedNetwork { ssid: self.ssid.clone(), rssi: self.rssi, secured: self.secured }
    }
}

/// What the worker is asked to do.
pub enum WifiCmd {
    Scan,
    Connect { ssid: String, password: String },
    /// Leave the network. Its name, where given, is struck from the stored ones,
    /// so that it is not joined again after a restart.
    Disconnect { forget_ssid: Option<String> },
}

/// What the worker tells.
pub enum WifiEvent {
    Ready,
    ScanResult(Vec<ScannedNetwork>),
    ScanError(String),
    Connecting { ssid: String, attempt: u8, max: u8 },
    Connected { ssid: String, ip: String },
    ConnectError(String),
    Disconnected,
}

/// The model of what the worker tells.
pub ghost enum EventView {
    Ready,
    ScanResult(Seq<NetworkView>),
    ScanError(Seq<char>),
    Connecting { ssid: Seq<char>, attempt: u8, max: u8 },
    Connected { ssid: Seq<char>, ip: Seq<char> },
    ConnectError(Seq<char>),
    Disconnected,
}

impl View for WifiEvent {
    type V = EventView;

    open spec fn view(&self) -> EventView {
        match self {
            WifiEvent::Ready => EventView::Ready,
            WifiEvent::ScanResult(nets) => EventView::ScanResult(views(nets@)),
            WifiEvent::ScanError(e) => EventView::ScanError(e@),
            WifiEvent::Connecting { ssid, attempt, max } => EventView::Connecting {
                ssid: ssid@,
                attempt: *attempt,
                max: *max,
            },
            WifiEvent::Connected { ssid, ip } => EventView::Connected { ssid: ssid@, ip: ip@ },
            WifiEvent::ConnectError(e) => EventView::ConnectError(e@),
            WifiEvent::Disconnected => EventView::Disconnected,
        }
    }
}

// ── The worker ──────────────────────────────────────────────────────────────

/// How long a connected worker waits for a command before it looks at its
/// connection, in seconds. Without a connection it waits for as long as it takes.
pub const POLL_SECS: u64 = 10;

/// What the worker's wait came back with.
pub enum WorkerInput {
    Cmd(WifiCmd),
    /// No command came in time; whether the connection is up, where that can be told.
    Timeout { link_up: Option<bool> },
    /// Nobody can send a command any more.
    Closed,
}

/// What the worker does next.
pub enum WorkerStep {
    Scan,
    /// Connect; store the network if that succeeds.
    Connect { ssid: String, password: String },
    /// Leave the network, strike it from the stored ones, and tell of it.
    Disconnect { forget_ssid: Option<String> },
    /// Tell that the connection is gone, and try the stored networks.
    Reconnect,
    Wait,
    Exit,
}

/// The state of the worker.
pub struct Worker {
    /// The network is joined.
    pub connected: bool,
}

impl Worker {
    /// What the worker does about an input, and whether it is connected from then on.
    pub open spec fn reacts(self, input: WorkerInput) -> (WorkerStep, bool) {
        match input {
            WorkerInput::Cmd(WifiCmd::Scan) => (WorkerStep::Scan, self.connected),
            WorkerInput::Cmd(WifiCmd::Connect { ssid, password }) => (
                WorkerStep::Connect { ssid, password },
                self.connected,
            ),
            WorkerInput::Cmd(WifiCmd::Disconnect { forget_ssid }) => (
                WorkerStep::Disconnect { forget_ssid },
                false,
            ),
            WorkerInput::Timeout { link_up } => if self.connected && link_up == Some(false) {
                (WorkerStep::Reconnect, false)
            } else {
                (WorkerStep::Wait, self.connected)
            },
            WorkerInput::Closed => (WorkerStep::Exit, self.connected),
        }
    }

    pub fn new() -> (w: Self)
        ensures
            w == (Worker { connected: false }),
    {
        Worker { connected: false }
    }

    /// How long to wait for a command, in seconds; none for as long as it takes.
    pub fn wait_secs(&self) -> (r: Option<u64>)
        ensures
            r == (if self.connected {
                Some(POLL_SECS)
            } else {
                None
            }),
    {
        if self.connected {
            Some(POLL_SECS)
        } else {
            None
        }
    }

    /// Takes what the wait came back with.
    pub fn step(&mut self, input: WorkerInput) -> (r: WorkerStep)
        ensures
            match input {
                WorkerInput::Cmd(WifiCmd::Scan) => r is Scan && *final(self) == *old(self),
                WorkerInput::Cmd(WifiCmd::Connect { ssid, password }) => r == (
                WorkerStep::Connect { ssid, password }) && *final(self) == *old(self),
                WorkerInput::Cmd(WifiCmd::Disconnect { forget_ssid }) => r == (
                WorkerStep::Disconnect { forget_ssid }) && !final(self).connected,
                WorkerInput::Timeout { link_up } => if old(self).connected && link_up == Some(
                    false,
                ) {
                    r is Reconnect && !final(self).connected
                } else {
                    r is Wait && *final(self) == *old(self)
                },
                WorkerInput::Closed => r is Exit && *final(self) == *old(self),
            },
            r == old(self).reacts(input).0,
            final(self).connected == old(self).reacts(input).1,
    {
        match input {
            WorkerInput::Cmd(cmd) => match cmd {
                WifiCmd::Scan => WorkerStep::Scan,
                WifiCmd::Connect { ssid, password } => WorkerStep::Connect { ssid, password },
                WifiCmd::Disconnect { forget_ssid } => {
                    self.connected = false;
                    WorkerStep::Disconnect { forget_ssid }
                },
            },
            WorkerInput::Timeout { link_up } => {
                let up = match link_up {
                    Some(b) => b,
                    None => true,
                };
                if self.connected && !up {
                    self.connected = false;
                    WorkerStep::Reconnect
                } else {
                    WorkerStep::Wait
                }
            },
            WorkerInput::Closed => WorkerStep::Exit,
        }
    }

    /// Takes how a connection ended up. Returns whether the network is to be stored.
    pub fn connect_ended(&mut self, connected: bool) -> (store: bool)
        ensures
            final(self).connected == connected,
            store == connected,
    {
        self.connected = connected;
        connected
    }
}

/// The stored networks in turn, until one is joined.
pub struct AutoConnect {
    creds: Vec<Credential>,
    next: usize,
    connected: bool,
}

impl AutoConnect {
    /// The networks that have not been tried yet.
    pub closed spec fn untried(&self) -> Seq<CredView> {
        views(self.creds@).skip(self.next as int)
    }

    /// One was joined.
    pub closed spec fn joined(&self) -> bool {
        self.connected
    }

    pub closed spec fn wf(&self) -> bool {
        self.next <= self.creds@.len()
    }

    pub fn new(creds: Vec<Credential>) -> (a: Self)
        ensures
            a.wf(),
            a.untried() == views(creds@),
            !a.joined(),
    {
        assert(views(creds@).skip(0) =~= views(creds@));
        AutoConnect { creds, next: 0, connected: false }
    }

    /// The next network to try.
    pub fn next(&mut self) -> (r: Option<Credential>)
        requires
            old(self).wf(),
        ensures
            final(self).wf(),
            final(self).joined() == old(self).joined(),
            old(self).joined() || old(self).untried().len() == 0 ==> r is None
                && final(self).untried() == old(self).untried(),
            !old(self).joined() && old(self).untried().len() > 0 ==> r is Some && r->0@
                == old(self).untried()[0] && final(self).untried()
                == old(self).untried().drop_first(),
    {
        if self.connected || self.next >= self.creds.len() {
            return None;
        }
        let c = self.creds[self.next].clone();
        proof {
            let all = views(self.creds@);
            assert(all[self.next as int] == self.creds@[self.next as int]@);
            assert(all.skip(self.next as int).drop_first() =~= all.skip(self.next + 1));
        }
        self.next = self.next + 1;
        Some(c)
    }

    /// Takes how the last try ended.
    pub fn ended(&mut self, connected: bool)
        requires
            old(self).wf(),
        ensures
            final(self).wf(),
            final(self).untried() == old(self).untried(),
            final(self).joined() == (old(self).joined() || connected),
    {
        if connected {
            self.connected = true;
        }
    }

    /// Whether one was joined.
    pub fn is_joined(&self) -> (r: bool)
        ensures
            r == self.joined(),
    {
        self.connected
    }
}

/// What is told when the radio cannot be used; `stage` is `init` or `wrap`.
pub fn start_error(stage: &str, e: &str) -> (r: WifiEvent)
    ensures
        r@ == EventView::ScanError("WiFi "@ + stage@ + ": "@ + e@),
{
    let mut s = "WiFi ".to_owned();
    s.append(stage);
    s.append(": ");
    s.append(e);
    WifiEvent::ScanError(s)
}

// ── Scanning ────────────────────────────────────────────────────────────────

/// Whether an access point asks for a password.
#[derive(Debug, Clone, Copy, PartialEq, Eq, Structural)]
pub enum Auth {
    Open,
    Protected,
}

/// An access point that the radio heard.
pub struct AccessPoint {
    pub ssid: String,
    pub signal_strength: i8,
    /// None where the radio does not say.
    pub auth: Option<Auth>,
}

/// The network of an access point.
pub open spec fn network_of(ap: AccessPoint) -> NetworkView {
    NetworkView {
        ssid: ap.ssid@,
        rssi: ap.signal_strength as i32,
        secured: ap.auth == Some(Auth::Protected),
    }
}

/// Of the first `n` access points, the strongest of the network `ssid`; the
/// first one where several are equally strong.
pub open spec fn strongest(aps: Seq<AccessPoint>, ssid: Seq<char>, n: nat) -> Option<NetworkView>
    decreases n,
{
    if n == 0 {
        None
    } else {
        let before = strongest(aps, ssid, (n - 1) as nat);
        let ap = network_of(aps[n - 1]);
        if ap.ssid != ssid {
            before
        } else {
            match before {
                Some(b) if ap.rssi <= b.rssi => before,
                _ => Some(ap),
            }
        }
    }
}

/// The networks have different names.
pub open spec fn distinct_ssids(nets: Seq<NetworkView>) -> bool {
    forall|i: int, j: int|
        0 <= i < j < nets.len() ==> (#[trigger] nets[i]).ssid != (#[trigger] nets[j]).ssid
}

/// The networks are sorted, the strongest first.
pub open spec fn sorted_by_strength(nets: Seq<NetworkView>) -> bool {
    forall|i: int, j: int|
        0 <= i < j < nets.len() ==> (#[trigger] nets[i]).rssi >= (#[trigger] nets[j]).rssi
}

/// The networks have a name, and each is the strongest of its name among the
/// first `n` access points.
pub open spec fn all_strongest(nets: Seq<NetworkView>, aps: Seq<AccessPoint>, n: nat) -> bool {
    forall|i: int|
        0 <= i < nets.len() ==> (#[trigger] nets[i]).ssid.len() > 0 && strongest(
            aps,
            nets[i].ssid,
            n,
        ) == Some(nets[i])
}

/// Some network has this name.
pub open spec fn has_ssid(nets: Seq<NetworkView>, ssid: Seq<char>) -> bool {
    exists|i: int| 0 <= i < nets.len() && (#[trigger] nets[i]).ssid == ssid
}

/// Every access point with a name among the first `n` has its network.
pub open spec fn all_named(nets: Seq<NetworkView>, aps: Seq<AccessPoint>, n: nat) -> bool {
    forall|k: int|
        0 <= k < n && (#[trigger] aps[k]).ssid@.len() > 0 ==> has_ssid(nets, aps[k].ssid@)
}

proof fn lemma_strongest(aps: Seq<AccessPoint>, ssid: Seq<char>, n: nat)
    requires
        n <= aps.len(),
    ensures
        match strongest(aps, ssid, n) {
            Some(b) => {
                &&& b.ssid == ssid
                &&& exists|k: int| 0 <= k < n && #[trigger] network_of(aps[k]) == b
                &&& forall|k: int|
                    0 <= k < n && (#[trigger] aps[k]).ssid@ == ssid ==> aps[k].signal_strength
                        <= b.rssi
            },
            None => forall|k: int| 0 <= k < n ==> (#[trigger] aps[k]).ssid@ != ssid,
        },
    decreases n,
{
    if n > 0 {
        lemma_strongest(aps, ssid, (n - 1) as nat);
        if network_of(aps[n - 1]).ssid == ssid {
            assert(network_of(aps[n - 1]) == network_of(aps[n - 1]));
        }
    }
}

/// The network that stands for a name is one that was heard, and no access point
/// of that name is stronger.
pub proof fn scan_keeps_the_strongest(aps: Seq<AccessPoint>, ssid: Seq<char>)
    requires
        exists|k: int| 0 <= k < aps.len() && (#[trigger] aps[k]).ssid@ == ssid,
    ensures
        strongest(aps, ssid, aps.len()) is Some,
        exists|k: int|
            0 <= k < aps.len() && #[trigger] network_of(aps[k]) == strongest(
                aps,
                ssid,
                aps.len(),
            )->0,
        forall|k: int|
            0 <= k < aps.len() && (#[trigger] aps[k]).ssid@ == ssid ==> aps[k].signal_strength
                <= strongest(aps, ssid, aps.len())->0.rssi,
{
    lemma_strongest(aps, ssid, aps.len());
}

fn to_network(ap: &AccessPoint) -> (r: ScannedNetwork)
    ensures
        r@ == network_of(*ap),
{
    let secured = match ap.auth {
        Some(Auth::Protected) => true,
        _ => false,
    };
    ScannedNetwork { ssid: ap.ssid.clone(), rssi: ap.signal_strength as i32, secured }
}

/// One network for each name that was heard: its strongest access point.
fn by_name(aps: &Vec<AccessPoint>) -> (nets: Vec<ScannedNetwork>)
    ensures
        distinct_ssids(views(nets@)),
        all_strongest(views(nets@), aps@, aps@.len()),
        all_named(views(nets@), aps@, aps@.len()),
{
    let mut nets: Vec<ScannedNetwork> = Vec::new();
    let mut n: usize = 0;
    while n < aps.len()
        invariant
            n <= aps@.len(),
            distinct_ssids(views(nets@)),
            all_strongest(views(nets@), aps@, n as nat),
            all_named(views(nets@), aps@, n as nat),
        decreases aps@.len() - n,
    {
        let ghost before = views(nets@);
        let net = to_network(&aps[n]);
        if net.ssid.as_str().is_empty() {
            assert forall|i: int| 0 <= i < before.len() implies strongest(
                aps@,
                (#[trigger] before[i]).ssid,
                (n + 1) as nat,
            ) == Some(before[i]) by {}
            n = n + 1;
            continue ;
        }
        let mut k: usize = 0;
        while k < nets.len() && !same(nets[k].ssid.as_str(), net.ssid.as_str())
            invariant
                k <= nets@.len(),
                before == views(nets@),
                forall|j: int| 0 <= j < k ==> (#[trigger] before[j]).ssid != net@.ssid,
            decreases nets@.len() - k,
        {
            assert(before[k as int] == nets@[k as int]@);
            k = k + 1;
        }
        if k < nets.len() {
            assert(before[k as int] == nets@[k as int]@);
            assert(strongest(aps@, net@.ssid, n as nat) == Some(before[k as int]));
            if net.rssi > nets[k].rssi {
                nets.set(k, net);
            }
            proof {
                let after = views(nets@);
                assert(forall|i: int| 0 <= i < after.len() && i != k ==> after[i] == before[i]);
                assert(after[k as int].ssid == before[k as int].ssid);
                assert forall|i: int| 0 <= i < after.len() implies (#[trigger] after[i]).ssid.len()
                    > 0 && strongest(aps@, after[i].ssid, (n + 1) as nat) == Some(after[i]) by {
                    if i != k {
                        assert(before[i].ssid != before[k as int].ssid);
                    }
                }
                assert forall|j: int|
                    0 <= j < n + 1 && (#[trigger] aps@[j]).ssid@.len() > 0 implies has_ssid(
                    after,
                    aps@[j].ssid@,
                ) by {
                    if j < n {
                        let i = choose|i: int|
                            0 <= i < before.len() && (#[trigger] before[i]).ssid == aps@[j].ssid@;
                        assert(after[i].ssid == before[i].ssid);
                    } else {
                        assert(after[k as int].ssid == aps@[j].ssid@);
                    }
                }
            }
        } else {
            proof {
                lemma_views_push(nets@, net);
                lemma_strongest(aps@, net@.ssid, n as nat);
                let after = before.push(net@);
                assert(strongest(aps@, net@.ssid, n as nat) is None) by {
                    if strongest(aps@, net@.ssid, n as nat) is Some {
                        let j = choose|j: int|
                            0 <= j < n && #[trigger] network_of(aps@[j]) == strongest(
                                aps@,
                                net@.ssid,
                                n as nat,
                            )->0;
                        assert(aps@[j].ssid@ == net@.ssid);
                        assert(has_ssid(before, net@.ssid));
                    }
                }
                assert forall|i: int| 0 <= i < after.len() implies (#[trigger] after[i]).ssid.len()
                    > 0 && strongest(aps@, after[i].ssid, (n + 1) as nat) == Some(after[i]) by {
                    if i < before.len() {
                        assert(after[i] == before[i]);
                        assert(before[i].ssid != net@.ssid);
                    }
                }
                assert forall|j: int|
                    0 <= j < n + 1 && (#[trigger] aps@[j]).ssid@.len() > 0 implies has_ssid(
                    after,
                    aps@[j].ssid@,
                ) by {
                    if j < n {
                        let i = choose|i: int|
                            0 <= i < before.len() && (#[trigger] before[i]).ssid == aps@[j].ssid@;
                        assert(after[i].ssid == before[i].ssid);
                    } else {
                        assert(after[before.len() as int].ssid == aps@[j].ssid@);
                    }
                }
            }
            nets.push(net);
        }
        n = n + 1;
    }
    nets
}

/// What a scan shows: one network for each name that was heard, with its
/// strongest access point, the strongest network first. Access points without a
/// name are left out. In which order equally strong networks come is open.
pub fn scan_result(aps: &Vec<AccessPoint>) -> (r: Vec<ScannedNetwork>)
    ensures
        sorted_by_strength(views(r@)),
        distinct_ssids(views(r@)),
        all_strongest(views(r@), aps@, aps@.len()),
        all_named(views(r@), aps@, aps@.len()),
{
    let nets = by_name(aps);
    let ghost nv = views(nets@);
    let mut r: Vec<ScannedNetwork> = Vec::new();
    let mut i: usize = 0;
    while i < nets.len()
        invariant
            i <= nets@.len(),
            nv == views(nets@),
            distinct_ssids(nv),
            all_strongest(nv, aps@, aps@.len()),
            sorted_by_strength(views(r@)),
            distinct_ssids(views(r@)),
            forall|j: int|
                0 <= j < views(r@).len() ==> nv.take(i as int).contains(
                    #[trigger] views(r@)[j],
                ),
            forall|j: int| 0 <= j < i ==> views(r@).contains(#[trigger] nv[j]),
        decreases nets@.len() - i,
    {
        let net = nets[i].clone();
        assert(net@ == nv[i as int]);
        let ghost before = views(r@);
        let mut k: usize = 0;
        while k < r.len() && r[k].rssi >= net.rssi
            invariant
                k <= r@.len(),
                before == views(r@),
                forall|j: int| 0 <= j < k ==> (#[trigger] before[j]).rssi >= net@.rssi,
            decreases r@.len() - k,
        {
            assert(before[k as int] == r@[k as int]@);
            k = k + 1;
        }
        proof {
            if k < r@.len() {
                assert(before[k as int] == r@[k as int]@);
            }
        }
        r.insert(k, net);
        proof {
            let after = views(r@);
            assert(after =~= before.insert(k as int, net@));
            assert forall|j: int| 0 <= j < before.len() implies (#[trigger] before[j]).ssid
                != net@.ssid by {
                let m = choose|m: int|
                    0 <= m < nv.take(i as int).len() && nv.take(i as int)[m] == before[j];
                assert(nv[m].ssid != nv[i as int].ssid);
            }
            assert forall|a: int, b: int| 0 <= a < b < after.len() implies (
            #[trigger] after[a]).ssid != (#[trigger] after[b]).ssid by {
                let pa = if a < k { a } else { a - 1 };
                let pb = if b < k { b } else { b - 1 };
                if a == k {
                    assert(after[b] == before[pb]);
                } else if b == k {
                    assert(after[a] == before[pa]);
                } else {
                    assert(after[a] == before[pa] && after[b] == before[pb]);
                }
            }
            assert forall|a: int, b: int| 0 <= a < b < after.len() implies (
            #[trigger] after[a]).rssi >= (#[trigger] after[b]).rssi by {
                let pa = if a < k { a } else { a - 1 };
                let pb = if b < k { b } else { b - 1 };
                if a == k {
                    assert(after[b] == before[pb]);
                    assert(before[pb].rssi <= before[k as int].rssi);
                } else if b == k {
                    assert(after[a] == before[pa]);
                } else {
                    assert(after[a] == before[pa] && after[b] == before[pb]);
                }
            }
            assert forall|j: int| 0 <= j < after.len() implies nv.take(i + 1).contains(
                #[trigger] after[j],
            ) by {
                if j == k {
                    assert(nv.take(i + 1)[i as int] == net@);
                } else {
                    let pj = if j < k { j } else { j - 1 };
                    assert(after[j] == before[pj]);
                    let m = choose|m: int|
                        0 <= m < nv.take(i as int).len() && nv.take(i as int)[m] == before[pj];
                    assert(nv.take(i + 1)[m] == before[pj]);
                }
            }
            assert forall|j: int| 0 <= j < i + 1 implies after.contains(#[trigger] nv[j]) by {
                if j == i {
                    assert(after[k as int] == nv[j]);
                } else {
                    assert(before.contains(nv[j]));
                    let m = choose|m: int| 0 <= m < before.len() && before[m] == nv[j];
                    assert(after[if m < k { m } else { m + 1 }] == nv[j]);
                }
            }
        }
        i = i + 1;
    }
    proof {
        let out = views(r@);
        assert forall|j: int| 0 <= j < out.len() implies (#[trigger] out[j]).ssid.len() > 0
            && strongest(aps@, out[j].ssid, aps@.len()) == Some(out[j]) by {
            let m = choose|m: int|
                0 <= m < nv.take(i as int).len() && nv.take(i as int)[m] == out[j];
            assert(nv[m] == out[j]);
        }
        assert forall|k: int|
            0 <= k < aps@.len() && (#[trigger] aps@[k]).ssid@.len() > 0 implies has_ssid(
            out,
            aps@[k].ssid@,
        ) by {
            let m = choose|m: int| 0 <= m < nv.len() && (#[trigger] nv[m]).ssid == aps@[k].ssid@;
            assert(out.contains(nv[m]));
            let q = choose|q: int| 0 <= q < out.len() && out[q] == nv[m];
            assert(out[q].ssid == aps@[k].ssid@);
        }
    }
    r
}

// ── Connecting ──────────────────────────────────────────────────────────────

/// How often a network is tried.
pub const MAX_ATTEMPTS: u8 = 3;

/// What the user reads after a cancelled attempt.
pub const CANCELLED: &'static str = "Отменено пользователем";

/// What the radio's error says to the user.
pub open spec fn friendly(raw: Seq<char>) -> Seq<char> {
    if contains(raw, "WIFI_REASON_AUTH_FAIL"@) || contains(raw, "AUTH"@) {
        "Неверный пароль"@
    } else if contains(raw, "WIFI_REASON_NO_AP_FOUND"@) || contains(raw, "NO_AP"@) {
        "Сеть не найдена"@
    } else if contains(raw, "WIFI_REASON_ASSOC_TOOMANY"@) {
        "Слишком много подключений к точке доступа"@
    } else if contains(raw, "TIMEOUT"@) || contains(raw, "timeout"@) {
        "Таймаут подключения"@
    } else if raw == "netif did not come up"@ {
        "Не удалось получить IP-адрес"@
    } else if contains(raw, "WIFI_REASON_BEACON_TIMEOUT"@) {
        "Сеть недоступна"@
    } else {
        raw
    }
}

/// What the radio's error says to the user.
pub fn friendly_error(raw: &str) -> (r: String)
    ensures
        r@ == friendly(raw@),
{
    if has(raw, "WIFI_REASON_AUTH_FAIL") || has(raw, "AUTH") {
        "Неверный пароль".to_owned()
    } else if has(raw, "WIFI_REASON_NO_AP_FOUND") || has(raw, "NO_AP") {
        "Сеть не найдена".to_owned()
    } else if has(raw, "WIFI_REASON_ASSOC_TOOMANY") {
        "Слишком много подключений к точке доступа".to_owned()
    } else if has(raw, "TIMEOUT") || has(raw, "timeout") {
        "Таймаут подключения".to_owned()
    } else if same(raw, "netif did not come up") {
        "Не удалось получить IP-адрес".to_owned()
    } else if has(raw, "WIFI_REASON_BEACON_TIMEOUT") {
        "Сеть недоступна".to_owned()
    } else {
        raw.to_owned()
    }
}

/// What follows a step of an attempt.
#[derive(Debug, Clone, Copy, PartialEq, Eq, Structural)]
pub enum LinkStep {
    /// Wait for an address.
    AwaitAddress,
    /// Leave the network and see whether there is another attempt.
    Retry,
    /// Leave the network: the user has cancelled.
    GiveUp,
    /// The network is joined.
    Joined,
}

/// What follows once the radio tried to join.
pub open spec fn after_joining(failed: bool, cancelled: bool) -> LinkStep {
    if failed {
        LinkStep::Retry
    } else if cancelled {
        LinkStep::GiveUp
    } else {
        LinkStep::AwaitAddress
    }
}

/// What follows the wait for an address.
pub open spec fn after_waiting(up: bool, cancelled: bool) -> LinkStep {
    if !up {
        LinkStep::Retry
    } else if cancelled {
        LinkStep::GiveUp
    } else {
        LinkStep::Joined
    }
}

/// How a series of attempts stands.
pub ghost enum Standing {
    Open,
    Cancelled,
    Connected,
}

/// The model of a series of attempts.
pub ghost struct RunView {
    pub ssid: Seq<char>,
    /// How many attempts were begun.
    pub attempts: nat,
    pub standing: Standing,
    /// Why the last attempt failed, as the user is told; empty before the first failure.
    pub last_err: Seq<char>,
}

impl RunView {
    pub open spec fn start(ssid: Seq<char>) -> RunView {
        RunView { ssid, attempts: 0, standing: Standing::Open, last_err: Seq::empty() }
    }

    /// There may be another attempt.
    pub open spec fn open(self) -> bool {
        self.standing is Open && self.attempts < MAX_ATTEMPTS
    }

    /// The series when it comes to another attempt; whether the user has cancelled.
    pub open spec fn begun(self, cancelled: bool) -> RunView {
        if !self.open() {
            self
        } else if cancelled {
            RunView { standing: Standing::Cancelled, ..self }
        } else {
            RunView { attempts: self.attempts + 1, ..self }
        }
    }

    /// The series after the radio tried to join; the error is none where it did.
    pub open spec fn linked(self, error: Option<Seq<char>>, cancelled: bool) -> RunView {
        match error {
            Some(e) => RunView { last_err: friendly(e), ..self },
            None => if cancelled {
                RunView { standing: Standing::Cancelled, ..self }
            } else {
                self
            },
        }
    }

    /// The series after the wait for an address.
    pub open spec fn addressed(self, up: bool, cancelled: bool) -> RunView {
        if !up {
            RunView { last_err: friendly("netif did not come up"@), ..self }
        } else if cancelled {
            RunView { standing: Standing::Cancelled, ..self }
        } else {
            RunView { standing: Standing::Connected, ..self }
        }
    }

    /// What is told of the series at its end.
    pub open spec fn told_at_end(self, ip: Seq<char>) -> EventView {
        match self.standing {
            Standing::Cancelled => EventView::ConnectError(CANCELLED@),
            Standing::Connected => EventView::Connected {
                ssid: self.ssid,
                ip: if ip == "0.0.0.0"@ {
                    ""@
                } else {
                    ip
                },
            },
            Standing::Open => EventView::ConnectError(self.last_err),
        }
    }

    /// All that is told of a series of attempts.
    pub open spec fn told(self, rounds: Seq<Round>, ip: Seq<char>) -> Seq<EventView>
        decreases rounds.len(),
    {
        if rounds.len() == 0 || !self.open() {
            seq![self.told_at_end(ip)]
        } else {
            let r = rounds[0];
            let begun = self.begun(r.cancelled_before);
            if begun.standing is Cancelled {
                seq![begun.told_at_end(ip)]
            } else {
                let connecting = EventView::Connecting {
                    ssid: self.ssid,
                    attempt: begun.attempts as u8,
                    max: MAX_ATTEMPTS,
                };
                let linked = begun.linked(r.error, r.cancelled_linked);
                let after = if r.error is None && !(linked.standing is Cancelled) {
                    linked.addressed(r.address_up, r.cancelled_addressed)
                } else {
                    linked
                };
                seq![connecting] + after.told(rounds.drop_first(), ip)
            }
        }
    }
}

/// What happens in one attempt.
pub ghost struct Round {
    pub cancelled_before: bool,
    /// The error of the radio; none where it joined the network.
    pub error: Option<Seq<char>>,
    pub cancelled_linked: bool,
    pub address_up: bool,
    pub cancelled_addressed: bool,
}

/// A series of attempts to join a network.
pub struct Connector {
    ssid: String,
    attempts: u8,
    cancelled: bool,
    connected: bool,
    last_err: String,
}

impl View for Connector {
    type V = RunView;

    closed spec fn view(&self) -> RunView {
        RunView {
            ssid: self.ssid@,
            attempts: self.attempts as nat,
            standing: if self.cancelled {
                Standing::Cancelled
            } else if self.connected {
                Standing::Connected
            } else {
                Standing::Open
            },
            last_err: self.last_err@,
        }
    }
}

impl Connector {
    pub fn new(ssid: &str) -> (c: Self)
        ensures
            c@ == RunView::start(ssid@),
    {
        Connector {
            ssid: ssid.to_owned(),
            attempts: 0,
            cancelled: false,
            connected: false,
            last_err: String::new(),
        }
    }

    /// Begins another attempt, if there is to be one, and tells of it.
    pub fn next(&mut self, cancelled: bool) -> (r: Option<WifiEvent>)
        ensures
            final(self)@ == old(self)@.begun(cancelled),
            opt_view(r) == (if old(self)@.open() && !cancelled {
                Some(
                    EventView::Connecting {
                        ssid: old(self)@.ssid,
                        attempt: final(self)@.attempts as u8,
                        max: MAX_ATTEMPTS,
                    },
                )
            } else {
                None
            }),
    {
        if self.cancelled || self.connected || self.attempts >= MAX_ATTEMPTS {
            return None;
        }
        if cancelled {
            self.cancelled = true;
            return None;
        }
        self.attempts = self.attempts + 1;
        Some(
            WifiEvent::Connecting {
                ssid: self.ssid.clone(),
                attempt: self.attempts,
                max: MAX_ATTEMPTS,
            },
        )
    }

    /// Takes whether the radio joined the network.
    pub fn linked(&mut self, result: Result<(), String>, cancelled: bool) -> (r: LinkStep)
        requires
            old(self)@.standing is Open,
        ensures
            final(self)@ == old(self)@.linked(
                match result {
                    Ok(_) => None,
                    Err(e) => Some(e@),
                },
                cancelled,
            ),
            r == (if result is Err {
                LinkStep::Retry
            } else if cancelled {
                LinkStep::GiveUp
            } else {
                LinkStep::AwaitAddress
            }),
            r == after_joining(result is Err, cancelled),
    {
        match result {
            Ok(_) => {
                if cancelled {
                    self.cancelled = true;
                    LinkStep::GiveUp
                } else {
                    LinkStep::AwaitAddress
                }
            },
            Err(e) => {
                self.last_err = friendly_error(e.as_str());
                LinkStep::Retry
            },
        }
    }

    /// Takes whether an address came.
    pub fn addressed(&mut self, up: bool, cancelled: bool) -> (r: LinkStep)
        requires
            old(self)@.standing is Open,
        ensures
            final(self)@ == old(self)@.addressed(up, cancelled),
            r == (if !up {
                LinkStep::Retry
            } else if cancelled {
                LinkStep::GiveUp
            } else {
                LinkStep::Joined
            }),
            r == after_waiting(up, cancelled),
    {
        if !up {
            self.last_err = friendly_error("netif did not come up");
            LinkStep::Retry
        } else if cancelled {
            self.cancelled = true;
            LinkStep::GiveUp
        } else {
            self.connected = true;
            LinkStep::Joined
        }
    }

    /// Whether the network is joined.
    pub fn is_connected(&self) -> (r: bool)
        ensures
            r == self@.standing is Connected,
    {
        self.connected && !self.cancelled
    }

    /// Whether the user has cancelled: the network is to be left.
    pub fn is_cancelled(&self) -> (r: bool)
        ensures
            r == self@.standing is Cancelled,
    {
        self.cancelled
    }

    /// Tells of the series at its end. `ip` is the address, empty where there is none.
    pub fn finish(self, ip: String) -> (r: WifiEvent)
        ensures
            r@ == self@.told_at_end(ip@),
    {
        if self.cancelled {
            WifiEvent::ConnectError(CANCELLED.to_owned())
        } else if self.connected {
            let ip = if same(ip.as_str(), "0.0.0.0") {
                "".to_owned()
            } else {
                ip
            };
            WifiEvent::Connected { ssid: self.ssid, ip }
        } else {
            WifiEvent::ConnectError(self.last_err)
        }
    }
}

/// At most three attempts are made; each is told of with its number, in turn,
/// and then, once, how the series ended.
pub proof fn attempts_are_counted_and_end_once(run: RunView, rounds: Seq<Round>, ip: Seq<char>)
    requires
        run.attempts <= MAX_ATTEMPTS,
    ensures
        ({
            let told = run.told(rounds, ip);
            &&& 1 <= told.len() <= MAX_ATTEMPTS - run.attempts + 1
            &&& told.last() is Connected || told.last() is ConnectError
            &&& forall|i: int|
                0 <= i < told.len() - 1 ==> #[trigger] told[i] == (EventView::Connecting {
                    ssid: run.ssid,
                    attempt: (run.attempts + i + 1) as u8,
                    max: MAX_ATTEMPTS,
                })
        }),
    decreases rounds.len(),
{
    let told = run.told(rounds, ip);
    if rounds.len() > 0 && run.open() && !rounds[0].cancelled_before {
        let r = rounds[0];
        let linked = run.begun(false).linked(r.error, r.cancelled_linked);
        let after = if r.error is None && !(linked.standing is Cancelled) {
            linked.addressed(r.address_up, r.cancelled_addressed)
        } else {
            linked
        };
        attempts_are_counted_and_end_once(after, rounds.drop_first(), ip);
        let rest = after.told(rounds.drop_first(), ip);
        assert(told.last() == rest.last());
        assert forall|i: int| 0 <= i < told.len() - 1 implies #[trigger] told[i] == (
        EventView::Connecting {
            ssid: run.ssid,
            attempt: (run.attempts + i + 1) as u8,
            max: MAX_ATTEMPTS,
        }) by {
            if i > 0 {
                assert(told[i] == rest[i - 1]);
            }
        }
    }
}

// ── Stored networks ─────────────────────────────────────────────────────────

/// The namespace of the stored networks.
pub const NAMESPACE: &'static str = "wifi_cred";

/// How many networks are stored.
pub const MAX_STORED: usize = 5;

/// The buffer for a name, in bytes.
pub const SSID_CAP: usize = 64;

/// The buffer for a password, in bytes.
pub const PASSWORD_CAP: usize = 128;

/// A stored network.
pub struct Credential {
    pub ssid: String,
    pub password: String,
}

/// The model of a stored network.
pub ghost struct CredView {
    pub ssid: Seq<char>,
    pub password: Seq<char>,
}

impl View for Credential {
    type V = CredView;

    open spec fn view(&self) -> CredView {
        CredView { ssid: self.ssid@, password: self.password@ }
    }
}

impl Clone for Credential {
    fn clone(&self) -> (r: Self)
        ensures
            r@ == self@,
    {
        Credential { ssid: self.ssid.clone(), password: self.password.clone() }
    }
}

/// The key of the `i`-th stored name or password.
pub open spec fn cred_key(prefix: Seq<char>, i: nat) -> Seq<char> {
    prefix + decimal(i)
}

/// How many networks are stored, where the count is there.
pub open spec fn count_of(a: AnswerView) -> Option<u8> {
    match a {
        AnswerView::U8(n) => Some(n),
        _ => None,
    }
}

/// How many of the counted networks are looked at.
pub open spec fn capped(count: u8) -> nat {
    if count < MAX_STORED {
        count as nat
    } else {
        MAX_STORED as nat
    }
}

/// The reads of the first `n` stored networks.
pub open spec fn pair_reads(n: nat) -> Seq<ReadView>
    decreases n,
{
    if n == 0 {
        Seq::empty()
    } else {
        pair_reads((n - 1) as nat) + seq![
            ReadView::Str { key: cred_key("s"@, (n - 1) as nat), cap: SSID_CAP as nat },
            ReadView::Str { key: cred_key("p"@, (n - 1) as nat), cap: PASSWORD_CAP as nat },
        ]
    }
}

/// The reads of the stored networks. Without a count, a single network may be
/// stored under older keys.
pub open spec fn cred_read_views(count: Option<u8>) -> Seq<ReadView> {
    match count {
        Some(n) => pair_reads(capped(n)),
        None => seq![
            ReadView::Str { key: "ssid"@, cap: SSID_CAP as nat },
            ReadView::Str { key: "pwd"@, cap: PASSWORD_CAP as nat },
        ],
    }
}

/// The stored network of two answers, where both are there.
pub open spec fn pair_of(s: AnswerView, p: AnswerView) -> Option<CredView> {
    match (s, p) {
        (AnswerView::Str(ssid), AnswerView::Str(password)) => Some(CredView { ssid, password }),
        _ => None,
    }
}

/// The stored networks of the first `n` pairs of answers.
pub open spec fn pairs_of(a: Seq<AnswerView>, n: nat) -> Seq<CredView>
    decreases n,
{
    if n == 0 {
        Seq::empty()
    } else {
        let before = pairs_of(a, (n - 1) as nat);
        match pair_of(a[2 * (n - 1)], a[2 * (n - 1) + 1]) {
            Some(c) => before.push(c),
            None => before,
        }
    }
}

/// The stored networks that the answers give.
pub open spec fn creds_of(count: Option<u8>, a: Seq<AnswerView>) -> Seq<CredView> {
    match count {
        Some(n) => pairs_of(a, capped(n)),
        None => match pair_of(a[0], a[1]) {
            Some(c) if c.ssid.len() > 0 => seq![c],
            _ => Seq::empty(),
        },
    }
}

/// What storing the first `n` networks writes, but for the count.
pub open spec fn pair_writes(creds: Seq<CredView>, n: nat) -> Seq<WriteView>
    decreases n,
{
    if n == 0 {
        Seq::empty()
    } else {
        pair_writes(creds, (n - 1) as nat) + seq![
            WriteView {
                key: cred_key("s"@, (n - 1) as nat),
                value: ValueView::Str(creds[n - 1].ssid),
            },
            WriteView {
                key: cred_key("p"@, (n - 1) as nat),
                value: ValueView::Str(creds[n - 1].password),
            },
        ]
    }
}

/// What storing the networks writes.
pub open spec fn cred_writes(creds: Seq<CredView>) -> Seq<WriteView> {
    seq![WriteView { key: "count"@, value: ValueView::U8(creds.len() as u8) }] + pair_writes(
        creds,
        creds.len(),
    )
}

/// The networks but for one.
pub open spec fn without(creds: Seq<CredView>, ssid: Seq<char>) -> Seq<CredView> {
    creds.filter(|c: CredView| c.ssid != ssid)
}

/// The networks with one more, which comes first; the last ones are dropped
/// where there are too many.
pub open spec fn with_saved(creds: Seq<CredView>, ssid: Seq<char>, password: Seq<char>) -> Seq<
    CredView,
> {
    let all = seq![CredView { ssid, password }] + without(creds, ssid);
    if all.len() > MAX_STORED {
        all.take(MAX_STORED as int)
    } else {
        all
    }
}

fn numbered(prefix: &str, i: usize) -> (r: String)
    ensures
        r@ == cred_key(prefix@, i as nat),
{
    join(prefix, to_decimal(i as u64).as_str())
}

fn looked_at(count: u8) -> (r: usize)
    ensures
        r == capped(count),
{
    if (count as usize) < MAX_STORED {
        count as usize
    } else {
        MAX_STORED
    }
}

/// The read of the count.
pub fn count_read() -> (r: NvsRead)
    ensures
        r@ == (ReadView::U8 { key: "count"@ }),
{
    get_u8("count")
}

/// The count that an answer gives.
pub fn count_from(a: &NvsAnswer) -> (r: Option<u8>)
    ensures
        r == count_of(a@),
{
    match a {
        NvsAnswer::U8(n) => Some(*n),
        _ => None,
    }
}

/// The reads of the stored networks.
pub fn credential_reads(count: Option<u8>) -> (r: Vec<NvsRead>)
    ensures
        views(r@) == cred_read_views(count),
{
    let mut r: Vec<NvsRead> = Vec::new();
    match count {
        Some(c) => {
            let n = looked_at(c);
            let mut i: usize = 0;
            assert(views(r@) =~= pair_reads(0));
            while i < n
                invariant
                    i <= n,
                    views(r@) == pair_reads(i as nat),
                decreases n - i,
            {
                r.push(get_str(numbered("s", i).as_str(), SSID_CAP));
                r.push(get_str(numbered("p", i).as_str(), PASSWORD_CAP));
                assert(views(r@) =~= pair_reads((i + 1) as nat));
                i = i + 1;
            }
        },
        None => {
            r.push(get_str("ssid", SSID_CAP));
            r.push(get_str("pwd", PASSWORD_CAP));
            assert(views(r@) =~= cred_read_views(count));
        },
    }
    r
}

fn read_pair(s: &NvsAnswer, p: &NvsAnswer) -> (r: Option<Credential>)
    ensures
        opt_view(r) == pair_of(s@, p@),
{
    match (s, p) {
        (NvsAnswer::Str(ssid), NvsAnswer::Str(password)) => Some(
            Credential { ssid: ssid.clone(), password: password.clone() },
        ),
        _ => None,
    }
}

/// The stored networks that the answers give.
pub fn load_all_credentials(count: Option<u8>, a: &Vec<NvsAnswer>) -> (r: Vec<Credential>)
    requires
        a@.len() == cred_read_views(count).len(),
    ensures
        views(r@) == creds_of(count, views(a@)),
        r@.len() <= MAX_STORED,
{
    let ghost av = views(a@);
    let mut r: Vec<Credential> = Vec::new();
    assert(views(r@) =~= Seq::<CredView>::empty());
    match count {
        Some(c) => {
            let n = looked_at(c);
            let mut i: usize = 0;
            proof {
                lemma_pair_reads(n as nat);
            }
            while i < n
                invariant
                    i <= n <= MAX_STORED,
                    a@.len() == 2 * n,
                    av == views(a@),
                    views(r@) == pairs_of(av, i as nat),
                    r@.len() <= i,
                decreases n - i,
            {
                assert(av[2 * i] == a@[2 * i]@ && av[2 * i + 1] == a@[2 * i + 1]@);
                if let Some(c) = read_pair(&a[2 * i], &a[2 * i + 1]) {
                    proof {
                        lemma_views_push(r@, c);
                    }
                    r.push(c);
                }
                i = i + 1;
            }
        },
        None => {
            assert(av[0] == a@[0]@ && av[1] == a@[1]@);
            if let Some(c) = read_pair(&a[0], &a[1]) {
                if !c.ssid.as_str().is_empty() {
                    r.push(c);
                    assert(views(r@) =~= seq![c@]);
                }
            }
        },
    }
    r
}

fn strike(creds: &Vec<Credential>, ssid: &str) -> (r: Vec<Credential>)
    ensures
        views(r@) == without(views(creds@), ssid@),
        r@.len() <= creds@.len(),
{
    let mut r: Vec<Credential> = Vec::new();
    let mut i: usize = 0;
    let ghost cv = views(creds@);
    reveal(Seq::filter);
    assert(cv.take(0) =~= Seq::<CredView>::empty());
    assert(views(r@) =~= without(cv.take(0), ssid@));
    while i < creds.len()
        invariant
            i <= creds@.len(),
            cv == views(creds@),
            views(r@) == without(cv.take(i as int), ssid@),
            r@.len() <= i,
        decreases creds@.len() - i,
    {
        reveal(Seq::filter);
        assert(cv.take(i + 1).drop_last() =~= cv.take(i as int));
        assert(cv.take(i + 1).last() == creds@[i as int]@);
        if !same(creds[i].ssid.as_str(), ssid) {
            let c = creds[i].clone();
            proof {
                lemma_views_push(r@, c);
            }
            r.push(c);
        }
        i = i + 1;
    }
    assert(cv.take(i as int) =~= cv);
    r
}

fn store_all(creds: &Vec<Credential>) -> (r: Vec<NvsWrite>)
    requires
        creds@.len() <= 255,
    ensures
        views(r@) == cred_writes(views(creds@)),
{
    let ghost cv = views(creds@);
    let mut r: Vec<NvsWrite> = Vec::new();
    r.push(put_u8("count", creds.len() as u8));
    let ghost head = seq![WriteView { key: "count"@, value: ValueView::U8(cv.len() as u8) }];
    assert(views(r@) =~= head + pair_writes(cv, 0));
    let mut i: usize = 0;
    while i < creds.len()
        invariant
            i <= creds@.len(),
            cv == views(creds@),
            views(r@) == head + pair_writes(cv, i as nat),
        decreases creds@.len() - i,
    {
        assert(cv[i as int] == creds@[i as int]@);
        let s = put_str(numbered("s", i).as_str(), creds[i].ssid.as_str());
        let p = put_str(numbered("p", i).as_str(), creds[i].password.as_str());
        proof {
            lemma_views_push(r@, s);
            lemma_views_push(r@.push(s), p);
        }
        r.push(s);
        r.push(p);
        assert(views(r@) =~= head + pair_writes(cv, (i + 1) as nat));
        i = i + 1;
    }
    r
}

/// What storing a network writes: it comes first of the `existing` ones.
pub fn save_credentials(existing: &Vec<Credential>, ssid: &str, password: &str) -> (r: Vec<
    NvsWrite,
>)
    ensures
        views(r@) == cred_writes(with_saved(views(existing@), ssid@, password@)),
{
    let mut creds = strike(existing, ssid);
    let ghost kept = views(creds@);
    creds.insert(0, Credential { ssid: ssid.to_owned(), password: password.to_owned() });
    assert(views(creds@) =~= seq![CredView { ssid: ssid@, password: password@ }] + kept);
    creds.truncate(MAX_STORED);
    assert(views(creds@) =~= with_saved(views(existing@), ssid@, password@));
    store_all(&creds)
}

/// What striking a network from the `existing` ones writes; nothing where it is
/// not among them.
pub fn forget_credential(existing: &Vec<Credential>, ssid: &str) -> (r: Option<Vec<NvsWrite>>)
    requires
        existing@.len() <= MAX_STORED,
    ensures
        without(views(existing@), ssid@).len() == existing@.len() ==> r is None,
        without(views(existing@), ssid@).len() != existing@.len() ==> r is Some && views(r->0@)
            == cred_writes(without(views(existing@), ssid@)),
{
    let creds = strike(existing, ssid);
    assert(creds@.len() == views(creds@).len());
    if creds.len() == existing.len() {
        return None;
    }
    Some(store_all(&creds))
}

// ── Laws of the stored networks ─────────────────────────────────────────────

/// The networks that a restart loads.
pub open spec fn loaded(image: Image) -> Seq<CredView> {
    let count = count_of(answer(image, ReadView::U8 { key: "count"@ }));
    creds_of(count, answers(image, cred_read_views(count)))
}

/// The texts that a namespace holds are such as the flash takes.
pub open spec fn sound(image: Image) -> bool {
    forall|k: Seq<char>|
        image.dom().contains(k) ==> (#[trigger] image[k] matches ValueView::Str(s) ==> storable(s))
}

/// The networks can be stored and fit the buffers that they are read into.
pub open spec fn keepable(creds: Seq<CredView>) -> bool {
    &&& creds.len() <= MAX_STORED
    &&& forall|i: int|
        0 <= i < creds.len() ==> fits((#[trigger] creds[i]).ssid, SSID_CAP as nat) && fits(
            creds[i].password,
            PASSWORD_CAP as nat,
        )
}

proof fn lemma_pair_writes(creds: Seq<CredView>, n: nat)
    requires
        n <= creds.len(),
    ensures
        pair_writes(creds, n).len() == 2 * n,
        forall|i: int|
            #![trigger pair_writes(creds, n)[2 * i]]
            0 <= i < n ==> pair_writes(creds, n)[2 * i] == (WriteView {
                key: cred_key("s"@, i as nat),
                value: ValueView::Str(creds[i].ssid),
            }),
        forall|i: int|
            #![trigger pair_writes(creds, n)[2 * i + 1]]
            0 <= i < n ==> pair_writes(creds, n)[2 * i + 1] == (WriteView {
                key: cred_key("p"@, i as nat),
                value: ValueView::Str(creds[i].password),
            }),
    decreases n,
{
    if n > 0 {
        lemma_pair_writes(creds, (n - 1) as nat);
    }
}

proof fn lemma_pair_reads(n: nat)
    ensures
        pair_reads(n).len() == 2 * n,
        forall|i: int|
            #![trigger pair_reads(n)[2 * i]]
            0 <= i < n ==> pair_reads(n)[2 * i] == (ReadView::Str {
                key: cred_key("s"@, i as nat),
                cap: SSID_CAP as nat,
            }),
        forall|i: int|
            #![trigger pair_reads(n)[2 * i + 1]]
            0 <= i < n ==> pair_reads(n)[2 * i + 1] == (ReadView::Str {
                key: cred_key("p"@, i as nat),
                cap: PASSWORD_CAP as nat,
            }),
    decreases n,
{
    if n > 0 {
        lemma_pair_reads((n - 1) as nat);
    }
}

proof fn lemma_cred_keys(p: Seq<char>, i: nat, q: Seq<char>, j: nat)
    requires
        p.len() == 1,
        q.len() == 1,
        p != q || i != j,
    ensures
        cred_key(p, i) != cred_key(q, j),
{
    let a = cred_key(p, i);
    let b = cred_key(q, j);
    if a == b {
        assert(a.subrange(0, 1) =~= p);
        assert(b.subrange(0, 1) =~= q);
        assert(a.skip(1) =~= decimal(i));
        assert(b.skip(1) =~= decimal(j));
        numeral_injective(i, j, 10);
    }
}

proof fn lemma_pairs_back(a: Seq<AnswerView>, creds: Seq<CredView>, n: nat)
    requires
        n <= creds.len(),
        forall|i: int|
            0 <= i < creds.len() ==> a[2 * i] == AnswerView::Str((#[trigger] creds[i]).ssid)
                && a[2 * i + 1] == AnswerView::Str(creds[i].password),
    ensures
        pairs_of(a, n) == creds.take(n as int),
    decreases n,
{
    if n == 0 {
        assert(creds.take(0) =~= Seq::<CredView>::empty());
    } else {
        lemma_pairs_back(a, creds, (n - 1) as nat);
        let c = creds[n - 1];
        assert(pair_of(a[2 * (n - 1)], a[2 * (n - 1) + 1]) == Some(c));
        assert(creds.take(n as int) =~= creds.take(n - 1).push(c));
    }
}

proof fn lemma_creds_kept(image: Image, creds: Seq<CredView>, k: int)
    requires
        keepable(creds),
    ensures
        ({
            let after = all_written(image, cred_writes(creds));
            &&& after.dom().contains("count"@)
            &&& after["count"@] == ValueView::U8(creds.len() as u8)
            &&& 0 <= k < creds.len() ==> {
                &&& after.dom().contains(cred_key("s"@, k as nat))
                &&& after[cred_key("s"@, k as nat)] == ValueView::Str(creds[k].ssid)
                &&& after.dom().contains(cred_key("p"@, k as nat))
                &&& after[cred_key("p"@, k as nat)] == ValueView::Str(creds[k].password)
            }
        }),
{
    let n = creds.len();
    let ws = cred_writes(creds);
    let pw = pair_writes(creds, n);
    lemma_pair_writes(creds, n);
    reveal_strlit("s");
    reveal_strlit("p");
    reveal_strlit("count");
    assert("s"@[0] == 's' && "p"@[0] == 'p' && "count"@[0] == 'c');
    assert forall|i: int| 0 < i < ws.len() implies (#[trigger] ws[i]) == (if (i - 1) % 2 == 0 {
        WriteView {
            key: cred_key("s"@, ((i - 1) / 2) as nat),
            value: ValueView::Str(creds[(i - 1) / 2].ssid),
        }
    } else {
        WriteView {
            key: cred_key("p"@, ((i - 1) / 2) as nat),
            value: ValueView::Str(creds[(i - 1) / 2].password),
        }
    }) by {
        let h = (i - 1) / 2;
        assert(ws[i] == pw[i - 1]);
        if (i - 1) % 2 == 0 {
            assert(i - 1 == 2 * h);
            assert(pw[2 * h].key == cred_key("s"@, h as nat));
        } else {
            assert(i - 1 == 2 * h + 1);
            assert(pw[2 * h + 1].key == cred_key("p"@, h as nat));
        }
    }
    assert forall|i: int, j: int| 0 <= i < j < ws.len() implies (#[trigger] ws[i]).key != (
    #[trigger] ws[j]).key by {
        let pj = if (j - 1) % 2 == 0 { "s"@ } else { "p"@ };
        assert(ws[j].key == cred_key(pj, ((j - 1) / 2) as nat));
        if i == 0 {
            assert(ws[j].key[0] == pj[0]);
        } else {
            let pi = if (i - 1) % 2 == 0 { "s"@ } else { "p"@ };
            assert(ws[i].key == cred_key(pi, ((i - 1) / 2) as nat));
            lemma_cred_keys(pi, ((i - 1) / 2) as nat, pj, ((j - 1) / 2) as nat);
        }
    }
    assert forall|i: int| 0 <= i < ws.len() implies ((#[trigger] ws[i]).value matches ValueView::Str(
        t,
    ) ==> storable(t)) by {
        if i > 0 {
            let c = creds[(i - 1) / 2];
            assert(fits(c.ssid, SSID_CAP as nat));
        }
    }
    lemma_distinct_writes(image, ws);
    let after = all_written(image, ws);
    assert(ws[0].key == "count"@);
    if 0 <= k < creds.len() {
        let s = ws[2 * k + 1];
        let p = ws[2 * k + 2];
        assert(s.key == cred_key("s"@, k as nat) && s.value == ValueView::Str(creds[k].ssid));
        assert(p.key == cred_key("p"@, k as nat) && p.value == ValueView::Str(creds[k].password));
        assert(after[s.key] == s.value);
        assert(after[p.key] == p.value);
    }
}

/// Stored networks are read back as they were, in their order.
pub proof fn credentials_read_back(image: Image, creds: Seq<CredView>)
    requires
        keepable(creds),
    ensures
        loaded(all_written(image, cred_writes(creds))) == creds,
{
    let n = creds.len();
    let after = all_written(image, cred_writes(creds));
    lemma_creds_kept(image, creds, 0);
    lemma_pair_reads(n);
    let count = count_of(answer(after, ReadView::U8 { key: "count"@ }));
    assert(count == Some(n as u8));
    let rs = cred_read_views(count);
    let a = answers(after, rs);
    assert(rs == pair_reads(n));
    assert forall|i: int| 0 <= i < creds.len() implies a[2 * i] == AnswerView::Str(
        (#[trigger] creds[i]).ssid,
    ) && a[2 * i + 1] == AnswerView::Str(creds[i].password) by {
        assert(rs[2 * i] == (ReadView::Str { key: cred_key("s"@, i as nat), cap: SSID_CAP as nat }));
        assert(rs[2 * i + 1] == (ReadView::Str {
            key: cred_key("p"@, i as nat),
            cap: PASSWORD_CAP as nat,
        }));
        assert(a[2 * i] == answer(after, rs[2 * i]));
        assert(a[2 * i + 1] == answer(after, rs[2 * i + 1]));
        lemma_creds_kept(image, creds, i);
    }
    lemma_pairs_back(a, creds, n);
    assert(creds.take(n as int) =~= creds);
}

proof fn lemma_without(creds: Seq<CredView>, ssid: Seq<char>)
    ensures
        forall|i: int|
            0 <= i < without(creds, ssid).len() ==> (#[trigger] without(creds, ssid)[i]).ssid
                != ssid && creds.contains(without(creds, ssid)[i]),
        forall|c: CredView|
            creds.contains(c) && c.ssid != ssid ==> #[trigger] without(creds, ssid).contains(c),
        without(creds, ssid).len() <= creds.len(),
    decreases creds.len(),
{
    reveal(Seq::filter);
    if creds.len() > 0 {
        let init = creds.drop_last();
        lemma_without(init, ssid);
        let w = without(creds, ssid);
        let wi = without(init, ssid);
        assert forall|i: int| 0 <= i < w.len() implies (#[trigger] w[i]).ssid != ssid
            && creds.contains(w[i]) by {
            if i < wi.len() {
                assert(w[i] == wi[i]);
                let j = choose|j: int| 0 <= j < init.len() && init[j] == wi[i];
                assert(creds[j] == w[i]);
            } else {
                assert(creds[creds.len() - 1] == w[i]);
            }
        }
        assert forall|c: CredView| creds.contains(c) && c.ssid != ssid implies #[trigger] w.contains(
            c,
        ) by {
            let j = choose|j: int| 0 <= j < creds.len() && creds[j] == c;
            if j < init.len() {
                assert(init[j] == c);
                assert(wi.contains(c));
                let m = choose|m: int| 0 <= m < wi.len() && wi[m] == c;
                assert(w[m] == c);
            } else {
                assert(w.last() == c);
                assert(w[w.len() - 1] == c);
            }
        }
    }
}

/// A network that was struck is not among the rest, and every other one is.
pub proof fn forgotten_network_is_gone(creds: Seq<CredView>, ssid: Seq<char>)
    ensures
        forall|i: int|
            0 <= i < without(creds, ssid).len() ==> (#[trigger] without(creds, ssid)[i]).ssid
                != ssid,
        forall|c: CredView|
            #[trigger] without(creds, ssid).contains(c) <==> creds.contains(c) && c.ssid != ssid,
{
    lemma_without(creds, ssid);
    assert forall|c: CredView| #[trigger] without(creds, ssid).contains(c) implies creds.contains(
        c,
    ) && c.ssid != ssid by {
        let w = without(creds, ssid);
        let i = choose|i: int| 0 <= i < w.len() && w[i] == c;
        assert(w[i].ssid != ssid);
    }
}

/// A stored network comes first, is stored once, and no more than five are kept.
pub proof fn saved_network_comes_first(
    creds: Seq<CredView>,
    ssid: Seq<char>,
    password: Seq<char>,
)
    ensures
        with_saved(creds, ssid, password)[0] == (CredView { ssid, password }),
        1 <= with_saved(creds, ssid, password).len() <= MAX_STORED,
        forall|i: int|
            1 <= i < with_saved(creds, ssid, password).len() ==> (#[trigger] with_saved(
                creds,
                ssid,
                password,
            )[i]).ssid != ssid && with_saved(creds, ssid, password)[i] == without(creds, ssid)[i
                - 1],
{
    lemma_without(creds, ssid);
    let all = seq![CredView { ssid, password }] + without(creds, ssid);
    let w = with_saved(creds, ssid, password);
    assert forall|i: int| 1 <= i < w.len() implies (#[trigger] w[i]).ssid != ssid && w[i]
        == without(creds, ssid)[i - 1] by {
        assert(w[i] == all[i]);
        assert(all[i] == without(creds, ssid)[i - 1]);
    }
}

proof fn lemma_pairs_fit(image: Image, n: nat, total: nat)
    requires
        sound(image),
        n <= total <= MAX_STORED,
    ensures
        pairs_of(answers(image, pair_reads(total)), n).len() <= n,
        keepable(pairs_of(answers(image, pair_reads(total)), n)),
    decreases n,
{
    if n > 0 {
        lemma_pairs_fit(image, (n - 1) as nat, total);
        lemma_pair_reads(total);
        let rs = pair_reads(total);
        let a = answers(image, rs);
        let i = n - 1;
        assert(a[2 * i] == answer(image, rs[2 * i]));
        assert(a[2 * i + 1] == answer(image, rs[2 * i + 1]));
        let before = pairs_of(a, (n - 1) as nat);
        let after = pairs_of(a, n);
        if let Some(c) = pair_of(a[2 * i], a[2 * i + 1]) {
            let sk = cred_key("s"@, i as nat);
            let pk = cred_key("p"@, i as nat);
            assert(image[sk] == ValueView::Str(c.ssid));
            assert(image[pk] == ValueView::Str(c.password));
            assert forall|j: int| 0 <= j < after.len() implies fits(
                (#[trigger] after[j]).ssid,
                SSID_CAP as nat,
            ) && fits(after[j].password, PASSWORD_CAP as nat) by {
                if j < before.len() {
                    assert(after[j] == before[j]);
                }
            }
        }
    }
}

proof fn lemma_loaded_fits(image: Image)
    requires
        sound(image),
    ensures
        keepable(loaded(image)),
{
    let count = count_of(answer(image, ReadView::U8 { key: "count"@ }));
    match count {
        Some(n) => {
            lemma_pairs_fit(image, capped(n), capped(n));
        },
        None => {
            let rs = cred_read_views(count);
            let a = answers(image, rs);
            assert(a[0] == answer(image, rs[0]));
            assert(a[1] == answer(image, rs[1]));
            if let Some(c) = pair_of(a[0], a[1]) {
                assert(image["ssid"@] == ValueView::Str(c.ssid));
                assert(image["pwd"@] == ValueView::Str(c.password));
            }
        },
    }
}

/// A network that was stored is the first that a restart loads.
pub proof fn saved_network_is_loaded_first(image: Image, ssid: Seq<char>, password: Seq<char>)
    requires
        sound(image),
        fits(ssid, SSID_CAP as nat),
        fits(password, PASSWORD_CAP as nat),
    ensures
        ({
            let after = all_written(
                image,
                cred_writes(with_saved(loaded(image), ssid, password)),
            );
            &&& loaded(after) == with_saved(loaded(image), ssid, password)
            &&& loaded(after)[0] == (CredView { ssid, password })
        }),
{
    let before = loaded(image);
    let creds = with_saved(before, ssid, password);
    lemma_loaded_fits(image);
    saved_network_comes_first(before, ssid, password);
    lemma_without(before, ssid);
    assert forall|i: int| 0 <= i < creds.len() implies fits(
        (#[trigger] creds[i]).ssid,
        SSID_CAP as nat,
    ) && fits(creds[i].password, PASSWORD_CAP as nat) by {
        if i > 0 {
            let w = without(before, ssid);
            assert(creds[i] == w[i - 1]);
            assert(before.contains(w[i - 1]));
        }
    }
    credentials_read_back(image, creds);
}

/// A network that was struck is not loaded by a restart; every other one is.
pub proof fn forgotten_network_is_not_loaded(image: Image, ssid: Seq<char>)
    requires
        sound(image),
    ensures
        ({
            let rest = without(loaded(image), ssid);
            let after = if rest.len() == loaded(image).len() {
                image
            } else {
                all_written(image, cred_writes(rest))
            };
            &&& loaded(after) == rest
            &&& forall|i: int| 0 <= i < loaded(after).len() ==> (#[trigger] loaded(after)[i]).ssid
                != ssid
        }),
{
    let before = loaded(image);
    let rest = without(before, ssid);
    lemma_loaded_fits(image);
    lemma_without(before, ssid);
    if rest.len() == before.len() {
        lemma_nothing_struck(before, ssid);
    } else {
        assert forall|i: int| 0 <= i < rest.len() implies fits(
            (#[trigger] rest[i]).ssid,
            SSID_CAP as nat,
        ) && fits(rest[i].password, PASSWORD_CAP as nat) by {
            assert(before.contains(rest[i]));
        }
        credentials_read_back(image, rest);
    }
}

proof fn lemma_nothing_struck(creds: Seq<CredView>, ssid: Seq<char>)
    requires
        without(creds, ssid).len() == creds.len(),
    ensures
        without(creds, ssid) == creds,
    decreases creds.len(),
{
    reveal(Seq::filter);
    if creds.len() > 0 {
        let init = creds.drop_last();
        lemma_without(init, ssid);
        lemma_nothing_struck(init, ssid);
        assert(creds =~= init.push(creds.last()));
    }
}

// ── Laws of what is heard ───────────────────────────────────────────────────

/// A network is shown as it was heard: its name, its strength, and a lock just where
/// it is known to ask for a password.
pub proof fn a_network_is_shown_as_heard(ap: AccessPoint)
    ensures
        network_of(ap).ssid == ap.ssid@,
        network_of(ap).rssi == ap.signal_strength,
        network_of(ap).secured <==> (ap.auth matches Some(a) && a is Protected),
{
}

/// Of several access points with one name, the first of the strongest is shown.
pub proof fn the_first_of_the_strongest_is_shown(aps: Seq<AccessPoint>, ssid: Seq<char>, n: nat)
    requires
        n <= aps.len(),
    ensures
        strongest(aps, ssid, n) is Some <==> exists|k: int|
            0 <= k < n && (#[trigger] aps[k]).ssid@ == ssid,
        strongest(aps, ssid, n) matches Some(b) ==> exists|k: int|
            {
                &&& 0 <= k < n
                &&& (#[trigger] aps[k]).ssid@ == ssid
                &&& b == network_of(aps[k])
                &&& forall|j: int|
                    0 <= j < n && (#[trigger] aps[j]).ssid@ == ssid ==> aps[j].signal_strength
                        <= aps[k].signal_strength
                &&& forall|j: int|
                    0 <= j < k && (#[trigger] aps[j]).ssid@ == ssid ==> aps[j].signal_strength
                        < aps[k].signal_strength
            },
    decreases n,
{
    if n > 0 {
        let m = (n - 1) as nat;
        the_first_of_the_strongest_is_shown(aps, ssid, m);
        if aps[m as int].ssid@ == ssid {
            if strongest(aps, ssid, n) == strongest(aps, ssid, m) && strongest(aps, ssid, m)
                is Some {
                let b = strongest(aps, ssid, m)->0;
                let k = choose|k: int|
                    {
                        &&& 0 <= k < m
                        &&& (#[trigger] aps[k]).ssid@ == ssid
                        &&& b == network_of(aps[k])
                        &&& forall|j: int|
                            0 <= j < m && (#[trigger] aps[j]).ssid@ == ssid
                                ==> aps[j].signal_strength <= aps[k].signal_strength
                        &&& forall|j: int|
                            0 <= j < k && (#[trigger] aps[j]).ssid@ == ssid
                                ==> aps[j].signal_strength < aps[k].signal_strength
                    };
                assert(aps[k].ssid@ == ssid);
            } else {
                assert(aps[m as int].ssid@ == ssid);
            }
        } else if strongest(aps, ssid, m) is Some {
            let b = strongest(aps, ssid, m)->0;
            let k = choose|k: int|
                {
                    &&& 0 <= k < m
                    &&& (#[trigger] aps[k]).ssid@ == ssid
                    &&& b == network_of(aps[k])
                    &&& forall|j: int|
                        0 <= j < m && (#[trigger] aps[j]).ssid@ == ssid ==> aps[j].signal_strength
                            <= aps[k].signal_strength
                    &&& forall|j: int|
                        0 <= j < k && (#[trigger] aps[j]).ssid@ == ssid ==> aps[j].signal_strength
                            < aps[k].signal_strength
                };
            assert(aps[k].ssid@ == ssid);
        }
    }
}

// ── Laws of the attempts ────────────────────────────────────────────────────

proof fn lemma_part_of(raw: Seq<char>, long: Seq<char>, short: Seq<char>, at: int)
    requires
        0 <= at,
        at + short.len() <= long.len(),
        long.subrange(at, at + short.len()) == short,
        contains(raw, long),
    ensures
        contains(raw, short),
{
    let i = choose|i: int| crate::text::occurs_at(raw, long, i);
    assert(raw.subrange(i + at, i + at + short.len()) =~= raw.subrange(i, i + long.len()).subrange(
        at,
        at + short.len(),
    ));
    assert(crate::text::occurs_at(raw, short, i + at));
}

proof fn lemma_reasons(raw: Seq<char>)
    ensures
        contains(raw, "WIFI_REASON_AUTH_FAIL"@) ==> contains(raw, "AUTH"@),
        contains(raw, "WIFI_REASON_NO_AP_FOUND"@) ==> contains(raw, "NO_AP"@),
        contains(raw, "WIFI_REASON_BEACON_TIMEOUT"@) ==> contains(raw, "TIMEOUT"@),
{
    reveal_strlit("WIFI_REASON_AUTH_FAIL");
    reveal_strlit("WIFI_REASON_NO_AP_FOUND");
    reveal_strlit("WIFI_REASON_BEACON_TIMEOUT");
    reveal_strlit("AUTH");
    reveal_strlit("NO_AP");
    reveal_strlit("TIMEOUT");
    if contains(raw, "WIFI_REASON_AUTH_FAIL"@) {
        assert("WIFI_REASON_AUTH_FAIL"@.subrange(12, 16) =~= "AUTH"@);
        lemma_part_of(raw, "WIFI_REASON_AUTH_FAIL"@, "AUTH"@, 12);
    }
    if contains(raw, "WIFI_REASON_NO_AP_FOUND"@) {
        assert("WIFI_REASON_NO_AP_FOUND"@.subrange(12, 17) =~= "NO_AP"@);
        lemma_part_of(raw, "WIFI_REASON_NO_AP_FOUND"@, "NO_AP"@, 12);
    }
    if contains(raw, "WIFI_REASON_BEACON_TIMEOUT"@) {
        assert("WIFI_REASON_BEACON_TIMEOUT"@.subrange(19, 26) =~= "TIMEOUT"@);
        lemma_part_of(raw, "WIFI_REASON_BEACON_TIMEOUT"@, "TIMEOUT"@, 19);
    }
}

/// What the user reads about an error: a wrong password comes before a missing
/// network, that before a crowded access point, and that before a timeout. An error
/// that names none of these is shown as it is, but for the missing address.
pub proof fn errors_are_explained(raw: Seq<char>)
    ensures
        ({
            let password = contains(raw, "AUTH"@);
            let network = contains(raw, "NO_AP"@);
            let crowd = contains(raw, "WIFI_REASON_ASSOC_TOOMANY"@);
            let late = contains(raw, "TIMEOUT"@) || contains(raw, "timeout"@);
            &&& password ==> friendly(raw) == "Неверный пароль"@
            &&& !password && network ==> friendly(raw) == "Сеть не найдена"@
            &&& !password && !network && crowd ==> friendly(raw)
                == "Слишком много подключений к точке доступа"@
            &&& !password && !network && !crowd && late ==> friendly(raw)
                == "Таймаут подключения"@
            &&& !password && !network && !crowd && !late && raw != "netif did not come up"@
                ==> friendly(raw) == raw
        }),
{
    lemma_reasons(raw);
}

proof fn lemma_absent(s: Seq<char>, pat: Seq<char>, c: char, at: int)
    requires
        0 <= at < pat.len(),
        pat[at] == c,
        !s.contains(c),
    ensures
        !contains(s, pat),
{
    if contains(s, pat) {
        let i = choose|i: int| crate::text::occurs_at(s, pat, i);
        assert(s.subrange(i, i + pat.len())[at] == s[i + at]);
    }
}

/// A network that gives no address is told of as such.
pub proof fn a_missing_address_is_explained()
    ensures
        friendly("netif did not come up"@) == "Не удалось получить IP-адрес"@,
{
    let s = "netif did not come up"@;
    reveal_strlit("netif did not come up");
    reveal_strlit("AUTH");
    reveal_strlit("NO_AP");
    reveal_strlit("WIFI_REASON_ASSOC_TOOMANY");
    reveal_strlit("TIMEOUT");
    reveal_strlit("timeout");
    lemma_reasons(s);
    assert(!s.contains('A') && !s.contains('T')) by {
        assert(s.len() == 21);
        assert(s[0] == 'n' && s[1] == 'e' && s[2] == 't' && s[3] == 'i' && s[4] == 'f' && s[5]
            == ' ' && s[6] == 'd' && s[7] == 'i' && s[8] == 'd' && s[9] == ' ' && s[10] == 'n');
        assert(s[11] == 'o' && s[12] == 't' && s[13] == ' ' && s[14] == 'c' && s[15] == 'o' && s[16]
            == 'm' && s[17] == 'e' && s[18] == ' ' && s[19] == 'u' && s[20] == 'p');
        assert forall|i: int| 0 <= i < s.len() implies s[i] != 'A' && s[i] != 'T' by {}
    }
    lemma_absent(s, "AUTH"@, 'A', 0);
    lemma_absent(s, "NO_AP"@, 'A', 3);
    lemma_absent(s, "WIFI_REASON_ASSOC_TOOMANY"@, 'A', 7);
    lemma_absent(s, "TIMEOUT"@, 'T', 0);
    if contains(s, "timeout"@) {
        let i = choose|i: int| crate::text::occurs_at(s, "timeout"@, i);
        let sub = s.subrange(i, i + 7);
        assert(sub[0] == s[i] && sub[2] == s[i + 2]);
        assert("timeout"@[0] == 't' && "timeout"@[2] == 'm');
        assert(i == 2 || i == 12);
        assert(s[4] == 'f' && s[14] == 'c');
    }
}

/// How one attempt ends: why it failed, as the user is told, where it did.
pub open spec fn failure_of(r: Round) -> Option<Seq<char>> {
    match r.error {
        Some(e) => Some(friendly(e)),
        None => if !r.cancelled_linked && !r.address_up {
            Some("Не удалось получить IP-адрес"@)
        } else {
            None
        },
    }
}

/// What a series of attempts leads to. Attempts that fail, because the radio does not
/// join or no address comes, are followed by the next, up to the third. The first that
/// joins and gets an address ends the series as connected, with the name and the
/// address. The user ends it by cancelling, before an attempt or in it. The third
/// failure ends it, and is told of.
pub proof fn a_series_ends_with_its_outcome(
    run: RunView,
    rounds: Seq<Round>,
    ip: Seq<char>,
    k: int,
)
    requires
        run.standing is Open,
        0 <= k < rounds.len(),
        run.attempts + k < 3,
        forall|j: int|
            0 <= j < k ==> !(#[trigger] rounds[j]).cancelled_before && failure_of(rounds[j])
                is Some,
    ensures
        ({
            let told = run.told(rounds, ip);
            let r = rounds[k];
            let joined = !r.cancelled_before && r.error is None && !r.cancelled_linked
                && r.address_up;
            let gives_up = !r.cancelled_before && r.error is None && (r.cancelled_linked
                || r.address_up && r.cancelled_addressed);
            &&& r.cancelled_before ==> told.len() == k + 1 && told.last()
                == EventView::ConnectError("Отменено пользователем"@)
            &&& gives_up ==> told.len() == k + 2 && told.last() == EventView::ConnectError(
                "Отменено пользователем"@,
            )
            &&& joined && !r.cancelled_addressed ==> told.len() == k + 2 && told.last() == (
            EventView::Connected {
                ssid: run.ssid,
                ip: if ip == "0.0.0.0"@ {
                    ""@
                } else {
                    ip
                },
            })
            &&& !r.cancelled_before && failure_of(r) is Some && run.attempts + k == 2 ==> told.len()
                == k + 2 && told.last() == EventView::ConnectError(failure_of(r)->0)
        }),
    decreases k,
{
    a_missing_address_is_explained();
    let told = run.told(rounds, ip);
    let r = rounds[0];
    if !r.cancelled_before {
        let linked = run.begun(false).linked(r.error, r.cancelled_linked);
        let after = if r.error is None && !(linked.standing is Cancelled) {
            linked.addressed(r.address_up, r.cancelled_addressed)
        } else {
            linked
        };
        let rest = rounds.drop_first();
        assert(told.last() == after.told(rest, ip).last());
        if k > 0 {
            assert(failure_of(rounds[0]) is Some);
            assert forall|j: int| 0 <= j < k - 1 implies !(#[trigger] rest[j]).cancelled_before
                && failure_of(rest[j]) is Some by {
                assert(rest[j] == rounds[j + 1]);
            }
            assert(rest[k - 1] == rounds[k]);
            a_series_ends_with_its_outcome(after, rest, ip, k - 1);
        } else if !after.open() {
            assert(after.told(rest, ip) =~= seq![after.told_at_end(ip)]);
        }
    } else {
        if k > 0 {
            assert(!rounds[0].cancelled_before);
        }
    }
}

/// An attempt is told with the name of the network, its number and that there are
/// three.
pub proof fn an_attempt_is_told_with_its_number(run: RunView, rounds: Seq<Round>, ip: Seq<char>)
    requires
        rounds.len() > 0,
        run.standing is Open,
        run.attempts < 3,
    ensures
        !rounds[0].cancelled_before ==> run.told(rounds, ip)[0] == (EventView::Connecting {
            ssid: run.ssid,
            attempt: (run.attempts + 1) as u8,
            max: 3,
        }),
        RunView::start(run.ssid) == (RunView {
            ssid: run.ssid,
            attempts: 0,
            standing: Standing::Open,
            last_err: Seq::empty(),
        }),
{
}

// ── More laws of the stored networks ────────────────────────────────────────

/// Striking goes through the networks one by one and keeps their order.
pub proof fn striking_keeps_the_order(creds: Seq<CredView>, c: CredView, ssid: Seq<char>)
    ensures
        c.ssid != ssid ==> without(creds.push(c), ssid) == without(creds, ssid).push(c),
        c.ssid == ssid ==> without(creds.push(c), ssid) == without(creds, ssid),
        without(Seq::empty(), ssid).len() == 0,
{
    reveal(Seq::filter);
    assert(creds.push(c).drop_last() =~= creds);
}

/// Five networks are kept: the new one first, then the others in their order, as many
/// as there is room for.
pub proof fn five_networks_are_kept(creds: Seq<CredView>, ssid: Seq<char>, password: Seq<char>, i: int)
    ensures
        ({
            let after = with_saved(creds, ssid, password);
            let others = without(creds, ssid);
            &&& after[0].ssid == ssid && after[0].password == password
            &&& others.len() <= 4 ==> after.len() == others.len() + 1
            &&& others.len() > 4 ==> after.len() == 5
            &&& 0 < i < after.len() ==> after[i] == others[i - 1]
        }),
{
    saved_network_comes_first(creds, ssid, password);
}

/// The text can be kept and read in a buffer of `size` bytes.
pub open spec fn short(s: Seq<char>, size: int) -> bool {
    vstd::utf8::encode_utf8(s).len() < size && !s.contains('\0')
}

/// The networks are kept in the namespace `wifi_cred`, as their number under `count`, their names under `s0`, `s1`
/// and so on, of up to 63 bytes, and their passwords under `p0`, `p1` and so on, of up
/// to 127; a restart reads up to five of them back.
pub proof fn the_networks_are_kept(image: Image, creds: Seq<CredView>, i: int)
    requires
        creds.len() <= 5,
        forall|j: int|
            0 <= j < creds.len() ==> short((#[trigger] creds[j]).ssid, 64) && short(
                creds[j].password,
                128,
            ),
        0 <= i < creds.len(),
    ensures
        ({
            let after = all_written(image, cred_writes(creds));
            &&& NAMESPACE@ == "wifi_cred"@
            &&& after["count"@] == ValueView::U8(creds.len() as u8)
            &&& after["s"@ + decimal(i as nat)] == ValueView::Str(creds[i].ssid)
            &&& after["p"@ + decimal(i as nat)] == ValueView::Str(creds[i].password)
            &&& loaded(after) == creds
        }),
{
    assert forall|j: int| 0 <= j < creds.len() implies fits(
        (#[trigger] creds[j]).ssid,
        SSID_CAP as nat,
    ) && fits(creds[j].password, PASSWORD_CAP as nat) by {
        assert(short(creds[j].ssid, 64));
    }
    credentials_read_back(image, creds);
    lemma_creds_kept(image, creds, i);
}

/// Where no number of networks is kept, the one under the older keys `ssid` and `pwd`
/// is read, if it has a name.
pub proof fn an_older_network_is_read(image: Image, ssid: Seq<char>, password: Seq<char>)
    requires
        !image.dom().contains("count"@),
        image.dom().contains("ssid"@) && image["ssid"@] == ValueView::Str(ssid),
        image.dom().contains("pwd"@) && image["pwd"@] == ValueView::Str(password),
        short(ssid, 64),
        short(password, 128),
    ensures
        ssid.len() > 0 ==> loaded(image) == seq![CredView { ssid, password }],
        ssid.len() == 0 ==> loaded(image).len() == 0,
{
    let rs = cred_read_views(None);
    let a = answers(image, rs);
    assert(a[0] == answer(image, rs[0]));
    assert(a[1] == answer(image, rs[1]));
}

/// At most five networks are read, as many as the number says; one of which the name
/// or the password cannot be read is left out, the others keep their order.
pub proof fn at_most_five_networks_are_read(count: u8, a: Seq<AnswerView>, n: nat)
    requires
        n > 0,
    ensures
        capped(count) == (if count <= 5 {
            count as int
        } else {
            5
        }),
        pairs_of(a, 0).len() == 0,
        a[2 * n - 2] is Str && a[2 * n - 1] is Str ==> pairs_of(a, n) == pairs_of(
            a,
            (n - 1) as nat,
        ).push(CredView { ssid: a[2 * n - 2]->Str_0, password: a[2 * n - 1]->Str_0 }),
        !(a[2 * n - 2] is Str && a[2 * n - 1] is Str) ==> pairs_of(a, n) == pairs_of(
            a,
            (n - 1) as nat,
        ),
{
    assert(2 * (n - 1) == 2 * n - 2);
}

/// What a scan shows, access point by access point: each that has a name is there
/// under its name, at least as strong; each network that is shown was heard; no name
/// comes twice, and a stronger network never comes behind a weaker one.
pub proof fn a_scan_shows_all_networks(nets: Seq<NetworkView>, aps: Seq<AccessPoint>, k: int)
    requires
        sorted_by_strength(nets),
        distinct_ssids(nets),
        all_strongest(nets, aps, aps.len()),
        all_named(nets, aps, aps.len()),
        0 <= k < aps.len(),
    ensures
        aps[k].ssid@.len() > 0 ==> exists|i: int|
            0 <= i < nets.len() && (#[trigger] nets[i]).ssid == aps[k].ssid@ && nets[i].rssi
                >= aps[k].signal_strength,
        forall|i: int|
            0 <= i < nets.len() ==> (#[trigger] nets[i]).ssid.len() > 0 && exists|j: int|
                0 <= j < aps.len() && (#[trigger] aps[j]).ssid@ == nets[i].ssid
                    && aps[j].signal_strength == nets[i].rssi && (nets[i].secured <==> aps[j].auth
                    == Some(Auth::Protected)),
        forall|i: int, j: int|
            0 <= i < j < nets.len() ==> (#[trigger] nets[i]).rssi >= (#[trigger] nets[j]).rssi
                && nets[i].ssid != nets[j].ssid,
{
    assert forall|i: int| 0 <= i < nets.len() implies (#[trigger] nets[i]).ssid.len() > 0 && exists|
        j: int,
    |
        0 <= j < aps.len() && (#[trigger] aps[j]).ssid@ == nets[i].ssid && aps[j].signal_strength
            == nets[i].rssi && (nets[i].secured <==> aps[j].auth == Some(Auth::Protected)) by {
        lemma_strongest(aps, nets[i].ssid, aps.len());
        let j = choose|j: int| 0 <= j < aps.len() && #[trigger] network_of(aps[j]) == nets[i];
        assert(aps[j].ssid@ == nets[i].ssid);
    }
    if aps[k].ssid@.len() > 0 {
        assert(has_ssid(nets, aps[k].ssid@));
        let i = choose|i: int| 0 <= i < nets.len() && (#[trigger] nets[i]).ssid == aps[k].ssid@;
        lemma_strongest(aps, nets[i].ssid, aps.len());
        assert(nets[i].rssi >= aps[k].signal_strength);
    }
}

// ── Laws of the worker ──────────────────────────────────────────────────────

/// The worker does what it is asked to, with the very name and password; it tries the
/// stored networks again just where it is connected and the link is known to be down;
/// it ends where nobody can command it any more, and else waits.
pub proof fn the_worker_does_what_it_is_asked_to(w: Worker, input: WorkerInput)
    ensures
        ({
            let (step, connected) = w.reacts(input);
            &&& step is Scan <==> (input matches WorkerInput::Cmd(cmd) && cmd is Scan)
            &&& input matches WorkerInput::Cmd(cmd) ==> (cmd matches WifiCmd::Connect {
                ssid,
                password,
            } ==> (step matches WorkerStep::Connect { ssid: s, password: p } && s == ssid && p
                == password))
            &&& input matches WorkerInput::Cmd(cmd) ==> (cmd matches WifiCmd::Disconnect {
                forget_ssid,
            } ==> !connected && (step matches WorkerStep::Disconnect { forget_ssid: f } && f
                == forget_ssid))
            &&& step is Reconnect <==> w.connected && (input matches WorkerInput::Timeout {
                link_up,
            } && link_up == Some(false))
            &&& step is Reconnect ==> !connected
            &&& step is Exit <==> input is Closed
            &&& step is Wait ==> input is Timeout && connected == w.connected
            &&& connected ==> w.connected
            &&& w.connected && !connected ==> step is Reconnect || step is Disconnect
        }),
{
}

/// An attempt is followed by another where the radio did not join or no address came,
/// is given up where the user has cancelled, and else goes on to the address and ends
/// with the network joined. These steps fit how the series stands.
pub proof fn the_steps_of_an_attempt_fit(
    run: RunView,
    error: Option<Seq<char>>,
    up: bool,
    cancelled: bool,
)
    requires
        run.standing is Open,
    ensures
        ({
            let linked = run.linked(error, cancelled);
            let joined = after_joining(error is Some, cancelled);
            &&& joined is Retry <==> error is Some
            &&& joined is GiveUp <==> linked.standing is Cancelled
            &&& joined is AwaitAddress <==> error is None && !cancelled
            &&& linked.attempts == run.attempts && linked.ssid == run.ssid
            &&& error matches Some(e) ==> linked.last_err == friendly(e) && linked.standing is Open
            &&& error is None ==> linked.last_err == run.last_err
        }),
        ({
            let addressed = run.addressed(up, cancelled);
            let step = after_waiting(up, cancelled);
            &&& step is Joined <==> addressed.standing is Connected
            &&& step is Joined <==> up && !cancelled
            &&& step is GiveUp <==> addressed.standing is Cancelled
            &&& step is Retry <==> !up
            &&& addressed.attempts == run.attempts && addressed.ssid == run.ssid
            &&& !up ==> addressed.last_err == "Не удалось получить IP-адрес"@ && addressed.standing
                is Open
            &&& up ==> addressed.last_err == run.last_err
        }),
{
    a_missing_address_is_explained();
}

} // verus!
