//! The screen of the wireless network.
use vstd::prelude::*;

use super::{delete_last_char, without_last};
use crate::number::{decimal, to_decimal};
use crate::text::{begins_with, join, join3, starts, views};
use crate::wifi::{EventView, NetworkView, ScannedNetwork, WifiCmd, WifiEvent};

verus! {

/// The WiFi screen.
pub struct WifiScreenHandler {
    pub ready: bool,
    pub scanning: bool,
    pub connecting: bool,
    pub is_connected: bool,
    pub status: String,
    pub networks: Vec<ScannedNetwork>,
    pub connected_ssid: String,
    pub connected_ip: String,
    /// The password that is being typed.
    pub password: String,
}

/// The model of the screen.
pub ghost struct WifiScreenView {
    pub ready: bool,
    pub scanning: bool,
    pub connecting: bool,
    pub is_connected: bool,
    pub status: Seq<char>,
    pub networks: Seq<NetworkView>,
    pub connected_ssid: Seq<char>,
    pub connected_ip: Seq<char>,
    pub password: Seq<char>,
}

impl View for WifiScreenHandler {
    type V = WifiScreenView;

    open spec fn view(&self) -> WifiScreenView {
        WifiScreenView {
            ready: self.ready,
            scanning: self.scanning,
            connecting: self.connecting,
            is_connected: self.is_connected,
            status: self.status@,
            networks: views(self.networks@),
            connected_ssid: self.connected_ssid@,
            connected_ip: self.connected_ip@,
            password: self.password@,
        }
    }
}

/// How a joined network is told of.
pub open spec fn connected_status(ssid: Seq<char>, ip: Seq<char>) -> Seq<char> {
    if ip.len() == 0 {
        "Подключено: "@ + ssid
    } else {
        "Подключено: "@ + ssid + " • "@ + ip
    }
}

/// How a failed connection is told of.
pub open spec fn error_status(e: Seq<char>) -> Seq<char> {
    if begins_with(e, "Отменено"@) {
        "Подключение отменено"@
    } else {
        "Ошибка: "@ + e
    }
}

/// What the other workers are told: whether there is a network, where an event
/// says so.
pub open spec fn notice_of(event: EventView) -> Option<bool> {
    match event {
        EventView::Connected { .. } => Some(true),
        EventView::Disconnected => Some(false),
        EventView::ConnectError(_) => Some(false),
        _ => None,
    }
}

impl WifiScreenView {
    /// The screen after an event.
    pub open spec fn after(self, event: EventView) -> WifiScreenView {
        match event {
            EventView::Ready => WifiScreenView {
                ready: true,
                status: "Нажмите Сканировать"@,
                ..self
            },
            EventView::ScanResult(nets) => WifiScreenView {
                networks: nets,
                status: "Найдено сетей: "@ + decimal(nets.len()),
                scanning: false,
                ..self
            },
            EventView::ScanError(e) => WifiScreenView {
                status: "ERR: "@ + e,
                scanning: false,
                ..self
            },
            EventView::Connecting { ssid, attempt, max } => WifiScreenView {
                connecting: true,
                status: "Подключение к "@ + ssid + " ("@ + decimal(attempt as nat) + "/"@
                    + decimal(max as nat) + ")..."@,
                ..self
            },
            EventView::Connected { ssid, ip } => WifiScreenView {
                status: connected_status(ssid, ip),
                is_connected: true,
                connected_ssid: ssid,
                connected_ip: ip,
                connecting: false,
                ..self
            },
            EventView::ConnectError(e) => WifiScreenView {
                status: error_status(e),
                is_connected: false,
                connected_ip: Seq::empty(),
                connecting: false,
                ..self
            },
            EventView::Disconnected => WifiScreenView {
                is_connected: false,
                connected_ip: Seq::empty(),
                connecting: false,
                status: "Отключено"@,
                ..self
            },
        }
    }
}

impl WifiScreenHandler {
    /// The screen before the radio is ready.
    pub fn new() -> (s: Self)
        ensures
            s@ == (WifiScreenView {
                ready: false,
                scanning: false,
                connecting: false,
                is_connected: false,
                status: Seq::empty(),
                networks: Seq::empty(),
                connected_ssid: Seq::empty(),
                connected_ip: Seq::empty(),
                password: Seq::empty(),
            }),
    {
        let s = WifiScreenHandler {
            ready: false,
            scanning: false,
            connecting: false,
            is_connected: false,
            status: String::new(),
            networks: Vec::new(),
            connected_ssid: String::new(),
            connected_ip: String::new(),
            password: String::new(),
        };
        assert(s@.networks =~= Seq::<NetworkView>::empty());
        s
    }

    /// The key that scans. Returns what the worker is asked to do.
    pub fn scan_requested(&mut self) -> (cmd: WifiCmd)
        ensures
            final(self)@ == (WifiScreenView {
                scanning: true,
                status: "Сканирование..."@,
                ..old(self)@
            }),
            cmd is Scan,
    {
        self.scanning = true;
        self.status = "Сканирование...".to_owned();
        WifiCmd::Scan
    }

    /// The key that connects. Returns what the worker is asked to do.
    pub fn connect_requested(&mut self, ssid: &str, password: &str) -> (cmd: WifiCmd)
        ensures
            final(self)@ == (WifiScreenView {
                connecting: true,
                status: "Подключение к "@ + ssid@ + "..."@,
                ..old(self)@
            }),
            cmd matches WifiCmd::Connect { ssid: s, password: p } && s@ == ssid@ && p@
                == password@,
    {
        self.connecting = true;
        self.status = join3("Подключение к ", ssid, "...");
        WifiCmd::Connect { ssid: ssid.to_owned(), password: password.to_owned() }
    }

    /// The key that cancels.
    pub fn cancel_connect(&mut self)
        ensures
            final(self)@ == (WifiScreenView { status: "Отмена..."@, ..old(self)@ }),
    {
        self.status = "Отмена...".to_owned();
    }

    /// The key that leaves the network. Returns what the worker is asked to do:
    /// the network that was joined last is to be forgotten.
    pub fn disconnect(&mut self) -> (cmd: WifiCmd)
        ensures
            final(self)@ == (WifiScreenView { status: "Отключение..."@, ..old(self)@ }),
            cmd matches WifiCmd::Disconnect { forget_ssid: Some(s) } && s@
                == old(self)@.connected_ssid,
    {
        self.status = "Отключение...".to_owned();
        WifiCmd::Disconnect { forget_ssid: Some(self.connected_ssid.clone()) }
    }

    /// The DEL key.
    pub fn password_delete_last(&mut self)
        ensures
            final(self)@ == (WifiScreenView {
                password: without_last(old(self)@.password),
                ..old(self)@
            }),
    {
        self.password = delete_last_char(self.password.as_str());
    }

    /// Shows an event. Returns what the other workers are told.
    pub fn poll(&mut self, event: WifiEvent) -> (notice: Option<bool>)
        ensures
            final(self)@ == old(self)@.after(event@),
            notice == notice_of(event@),
    {
        let notice = match &event {
            WifiEvent::Connected { .. } => Some(true),
            WifiEvent::Disconnected => Some(false),
            WifiEvent::ConnectError(_) => Some(false),
            _ => None,
        };
        self.handle_event(event);
        notice
    }

    /// Shows an event.
    pub fn handle_event(&mut self, event: WifiEvent)
        ensures
            final(self)@ == old(self)@.after(event@),
    {
        match event {
            WifiEvent::Ready => self.handle_ready(),
            WifiEvent::ScanResult(nets) => self.handle_scan_result(nets),
            WifiEvent::ScanError(e) => self.handle_scan_error(e),
            WifiEvent::Connecting { ssid, attempt, max } => self.handle_connecting(
                ssid.as_str(),
                attempt,
                max,
            ),
            WifiEvent::Connected { ssid, ip } => self.handle_connected(ssid, ip),
            WifiEvent::ConnectError(e) => self.handle_connect_error(e.as_str()),
            WifiEvent::Disconnected => self.handle_disconnected(),
        }
    }

    fn handle_ready(&mut self)
        ensures
            final(self)@ == old(self)@.after(EventView::Ready),
    {
        self.ready = true;
        self.status = "Нажмите Сканировать".to_owned();
    }

    fn handle_scan_result(&mut self, nets: Vec<ScannedNetwork>)
        ensures
            final(self)@ == old(self)@.after(EventView::ScanResult(views(nets@))),
    {
        assert(nets@.len() == views(nets@).len());
        self.status = join("Найдено сетей: ", to_decimal(nets.len() as u64).as_str());
        self.networks = nets;
        self.scanning = false;
    }

    fn handle_scan_error(&mut self, e: String)
        ensures
            final(self)@ == old(self)@.after(EventView::ScanError(e@)),
    {
        self.status = join("ERR: ", e.as_str());
        self.scanning = false;
    }

    fn handle_connecting(&mut self, ssid: &str, attempt: u8, max: u8)
        ensures
            final(self)@ == old(self)@.after(EventView::Connecting { ssid: ssid@, attempt, max }),
    {
        self.connecting = true;
        let mut s = "Подключение к ".to_owned();
        s.append(ssid);
        s.append(" (");
        s.append(to_decimal(attempt as u64).as_str());
        s.append("/");
        s.append(to_decimal(max as u64).as_str());
        s.append(")...");
        self.status = s;
    }

    fn handle_connected(&mut self, ssid: String, ip: String)
        ensures
            final(self)@ == old(self)@.after(EventView::Connected { ssid: ssid@, ip: ip@ }),
    {
        let mut s = "Подключено: ".to_owned();
        s.append(ssid.as_str());
        if !ip.as_str().is_empty() {
            s.append(" • ");
            s.append(ip.as_str());
        }
        self.status = s;
        self.is_connected = true;
        self.connected_ssid = ssid;
        self.connected_ip = ip;
        self.connecting = false;
    }

    fn handle_connect_error(&mut self, e: &str)
        ensures
            final(self)@ == old(self)@.after(EventView::ConnectError(e@)),
    {
        self.status = if starts(e, "Отменено") {
            "Подключение отменено".to_owned()
        } else {
            join("Ошибка: ", e)
        };
        self.is_connected = false;
        self.connected_ip = String::new();
        self.connecting = false;
    }

    fn handle_disconnected(&mut self)
        ensures
            final(self)@ == old(self)@.after(EventView::Disconnected),
    {
        self.is_connected = false;
        self.connected_ip = String::new();
        self.connecting = false;
        self.status = "Отключено".to_owned();
    }
}

// ── Laws ────────────────────────────────────────────────────────────────────

/// After an event that says whether there is a network, the screen shows it as
/// the other workers are told it, and no attempt goes on.
pub proof fn screen_and_notice_agree(screen: WifiScreenView, event: EventView)
    ensures
        notice_of(event) matches Some(up) ==> screen.after(event).is_connected == up
            && !screen.after(event).connecting,
        notice_of(event) is None ==> screen.after(event).is_connected == screen.is_connected,
{
}

/// An address is shown only with a network.
pub proof fn no_address_without_a_network(screen: WifiScreenView, event: EventView)
    requires
        !screen.is_connected ==> screen.connected_ip.len() == 0,
    ensures
        !screen.after(event).is_connected ==> screen.after(event).connected_ip.len() == 0,
{
}

/// The other workers are told of each network that is joined, and of each that is
/// lost or not joined; of nothing else.
pub proof fn the_network_is_told_of(event: EventView)
    ensures
        notice_of(event) == Some(true) <==> event is Connected,
        notice_of(event) == Some(false) <==> event is Disconnected || event is ConnectError,
{
}

/// What the screen shows of each event.
pub proof fn events_are_shown(screen: WifiScreenView, event: EventView)
    ensures
        ({
            let after = screen.after(event);
            &&& after.password == screen.password
            &&& after.ready == (screen.ready || event is Ready)
            &&& after.scanning == (screen.scanning && !(event is ScanResult || event
                is ScanError))
            &&& after.connecting == (event is Connecting || screen.connecting && !(event
                is Connected || event is ConnectError || event is Disconnected))
            &&& after.is_connected == (event is Connected || screen.is_connected && !(event
                is ConnectError || event is Disconnected))
            &&& event is Ready ==> after.status == "Нажмите Сканировать"@
            &&& event matches EventView::ScanResult(nets) ==> after.networks == nets
                && after.status == "Найдено сетей: "@ + decimal(nets.len())
            &&& !(event is ScanResult) ==> after.networks == screen.networks
            &&& event matches EventView::ScanError(e) ==> after.status == "ERR: "@ + e
            &&& event matches EventView::Connecting { ssid, attempt, max } ==> after.status
                == "Подключение к "@ + ssid + " ("@ + decimal(attempt as nat) + "/"@ + decimal(
                max as nat,
            ) + ")..."@
            &&& event matches EventView::Connected { ssid, ip } ==> {
                &&& after.connected_ssid == ssid && after.connected_ip == ip
                &&& ip.len() == 0 ==> after.status == "Подключено: "@ + ssid
                &&& ip.len() > 0 ==> after.status == "Подключено: "@ + ssid + " • "@ + ip
            }
            &&& !(event is Connected) ==> after.connected_ssid == screen.connected_ssid
            &&& event is ConnectError || event is Disconnected ==> after.connected_ip.len() == 0
            &&& event matches EventView::ConnectError(e) ==> after.status == (if begins_with(
                e,
                "Отменено"@,
            ) {
                "Подключение отменено"@
            } else {
                "Ошибка: "@ + e
            })
            &&& event is Disconnected ==> after.status == "Отключено"@
            &&& event is Ready || event is ScanResult || event is ScanError || event is Connecting
                ==> after.connected_ip == screen.connected_ip
        }),
{
}

} // verus!
