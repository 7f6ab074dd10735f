//! The screen of the MQTT connection: its form, its state, and the commands that
//! come over it.
use vstd::prelude::*;

use super::{delete_last_char, without_last};
use crate::control::ControlCmd;
use crate::mqtt::{
    ConfigView, EventView, MqttCmd, MqttConfig, MqttEvent, MqttTopics, TopicsView, DEFAULT_PORT,
};
use crate::number::{decimal, decimal_parses_back, parse_u16, parsed, to_decimal};
use crate::text::{contains, has, join3};

verus! {

/// The number of each field of the form.
pub const FIELD_HOST: i32 = 1;

pub const FIELD_PORT: i32 = 2;

pub const FIELD_USERNAME: i32 = 3;

pub const FIELD_PASSWORD: i32 = 4;

pub const FIELD_CLIENT_ID: i32 = 5;

pub const FIELD_TOPIC_ARM: i32 = 6;

pub const FIELD_TOPIC_DISARM: i32 = 7;

pub const FIELD_TOPIC_SILENT: i32 = 8;

pub const FIELD_TOPIC_ALARM: i32 = 9;

// ── The form ────────────────────────────────────────────────────────────────

/// The fields of the form, as they are typed.
pub struct MqttForm {
    pub host: String,
    pub port: String,
    pub username: String,
    pub password: String,
    pub client_id: String,
    pub topic_arm: String,
    pub topic_disarm: String,
    pub topic_silent: String,
    pub topic_alarm: String,
}

/// The model of the form.
pub ghost struct FormView {
    pub host: Seq<char>,
    pub port: Seq<char>,
    pub username: Seq<char>,
    pub password: Seq<char>,
    pub client_id: Seq<char>,
    pub topic_arm: Seq<char>,
    pub topic_disarm: Seq<char>,
    pub topic_silent: Seq<char>,
    pub topic_alarm: Seq<char>,
}

impl View for MqttForm {
    type V = FormView;

    open spec fn view(&self) -> FormView {
        FormView {
            host: self.host@,
            port: self.port@,
            username: self.username@,
            password: self.password@,
            client_id: self.client_id@,
            topic_arm: self.topic_arm@,
            topic_disarm: self.topic_disarm@,
            topic_silent: self.topic_silent@,
            topic_alarm: self.topic_alarm@,
        }
    }
}

/// The form of a configuration.
pub open spec fn form_of(c: ConfigView) -> FormView {
    FormView {
        host: c.host,
        port: decimal(c.port as nat),
        username: c.username,
        password: c.password,
        client_id: c.client_id,
        topic_arm: c.topics.arm,
        topic_disarm: c.topics.disarm,
        topic_silent: c.topics.silent,
        topic_alarm: c.topics.alarm,
    }
}

/// The port that a text gives: the usual one where it gives none.
pub open spec fn port_of(s: Seq<char>) -> u16 {
    match parsed(s, u16::MAX as nat) {
        Some(p) => p as u16,
        None => DEFAULT_PORT,
    }
}

/// The configuration of a form.
pub open spec fn config_of_form(f: FormView) -> ConfigView {
    ConfigView {
        host: f.host,
        port: port_of(f.port),
        username: f.username,
        password: f.password,
        client_id: f.client_id,
        topics: TopicsView {
            arm: f.topic_arm,
            disarm: f.topic_disarm,
            silent: f.topic_silent,
            alarm: f.topic_alarm,
        },
    }
}

/// The configuration before anything was typed.
pub open spec fn default_config_view() -> ConfigView {
    ConfigView {
        host: Seq::empty(),
        port: DEFAULT_PORT,
        username: Seq::empty(),
        password: Seq::empty(),
        client_id: Seq::empty(),
        topics: TopicsView {
            arm: "security/arm"@,
            disarm: "security/disarm"@,
            silent: "security/silent"@,
            alarm: "security/alarm"@,
        },
    }
}

/// The form with one field replaced; a number that no field has changes nothing.
pub open spec fn with_field(f: FormView, field: i32, value: Seq<char>) -> FormView {
    match field {
        1 => FormView { host: value, ..f },
        2 => FormView { port: value, ..f },
        3 => FormView { username: value, ..f },
        4 => FormView { password: value, ..f },
        5 => FormView { client_id: value, ..f },
        6 => FormView { topic_arm: value, ..f },
        7 => FormView { topic_disarm: value, ..f },
        8 => FormView { topic_silent: value, ..f },
        9 => FormView { topic_alarm: value, ..f },
        _ => f,
    }
}

/// The configuration before anything was typed.
pub fn default_config() -> (r: MqttConfig)
    ensures
        r@ == default_config_view(),
{
    MqttConfig {
        host: String::new(),
        port: DEFAULT_PORT,
        username: String::new(),
        password: String::new(),
        client_id: String::new(),
        topics: MqttTopics {
            arm: "security/arm".to_owned(),
            disarm: "security/disarm".to_owned(),
            silent: "security/silent".to_owned(),
            alarm: "security/alarm".to_owned(),
        },
    }
}

/// The form of a configuration.
pub fn prefill_form(cfg: MqttConfig) -> (r: MqttForm)
    ensures
        r@ == form_of(cfg@),
{
    MqttForm {
        host: cfg.host,
        port: to_decimal(cfg.port as u64),
        username: cfg.username,
        password: cfg.password,
        client_id: cfg.client_id,
        topic_arm: cfg.topics.arm,
        topic_disarm: cfg.topics.disarm,
        topic_silent: cfg.topics.silent,
        topic_alarm: cfg.topics.alarm,
    }
}

/// The configuration of a form.
pub fn read_config(form: &MqttForm) -> (r: MqttConfig)
    ensures
        r@ == config_of_form(form@),
{
    let port = match parse_u16(form.port.as_str()) {
        Some(p) => p,
        None => DEFAULT_PORT,
    };
    MqttConfig {
        host: form.host.clone(),
        port,
        username: form.username.clone(),
        password: form.password.clone(),
        client_id: form.client_id.clone(),
        topics: MqttTopics {
            arm: form.topic_arm.clone(),
            disarm: form.topic_disarm.clone(),
            silent: form.topic_silent.clone(),
            alarm: form.topic_alarm.clone(),
        },
    }
}

/// Replaces one field.
pub fn set_field(form: &mut MqttForm, field: i32, value: String)
    ensures
        final(form)@ == with_field(old(form)@, field, value@),
{
    if field == FIELD_HOST {
        form.host = value;
    } else if field == FIELD_PORT {
        form.port = value;
    } else if field == FIELD_USERNAME {
        form.username = value;
    } else if field == FIELD_PASSWORD {
        form.password = value;
    } else if field == FIELD_CLIENT_ID {
        form.client_id = value;
    } else if field == FIELD_TOPIC_ARM {
        form.topic_arm = value;
    } else if field == FIELD_TOPIC_DISARM {
        form.topic_disarm = value;
    } else if field == FIELD_TOPIC_SILENT {
        form.topic_silent = value;
    } else if field == FIELD_TOPIC_ALARM {
        form.topic_alarm = value;
    }
}

// ── The screen ──────────────────────────────────────────────────────────────

/// The MQTT screen.
pub struct MqttScreenHandler {
    pub form: MqttForm,
    pub status: String,
    pub connecting: bool,
    pub is_connected: bool,
    /// The text that is being typed.
    pub editing_text: String,
}

/// The model of the screen.
pub ghost struct MqttScreenView {
    pub form: FormView,
    pub status: Seq<char>,
    pub connecting: bool,
    pub is_connected: bool,
    pub editing_text: Seq<char>,
}

impl View for MqttScreenHandler {
    type V = MqttScreenView;

    open spec fn view(&self) -> MqttScreenView {
        MqttScreenView {
            form: self.form@,
            status: self.status@,
            connecting: self.connecting,
            is_connected: self.is_connected,
            editing_text: self.editing_text@,
        }
    }
}

/// How a command is called on the screen.
pub open spec fn cmd_label(cmd: ControlCmd) -> Seq<char> {
    match cmd {
        ControlCmd::Arm => "Охрана"@,
        ControlCmd::Disarm => "Снять с охраны"@,
        ControlCmd::Silent => "Без звука"@,
        ControlCmd::Alarm => "Тревога"@,
    }
}

/// How a failed connection is told of.
pub open spec fn error_status(e: Seq<char>) -> Seq<char> {
    if contains(e, "Отменено"@) {
        "Подключение отменено"@
    } else {
        e
    }
}

impl MqttScreenView {
    /// The screen after an event.
    pub open spec fn after(self, event: EventView) -> MqttScreenView {
        match event {
            EventView::Connecting { attempt, max } => MqttScreenView {
                connecting: true,
                status: "Подключение ("@ + decimal(attempt as nat) + "/"@ + decimal(max as nat)
                    + ")..."@,
                ..self
            },
            EventView::Connected => MqttScreenView {
                is_connected: true,
                connecting: false,
                status: "Подключено: "@ + self.form.host + ":"@ + self.form.port,
                ..self
            },
            EventView::ConnectError(e) => MqttScreenView {
                connecting: false,
                is_connected: false,
                status: error_status(e),
                ..self
            },
            EventView::Disconnected => MqttScreenView {
                connecting: false,
                is_connected: false,
                status: "Отключено"@,
                ..self
            },
            EventView::Command(cmd) => MqttScreenView {
                status: "Команда: "@ + cmd_label(cmd),
                ..self
            },
        }
    }
}

impl MqttScreenHandler {
    /// The screen with the stored configuration.
    pub fn new(saved: Option<MqttConfig>) -> (s: Self)
        ensures
            s@ == (MqttScreenView {
                form: form_of(
                    match saved {
                        Some(cfg) => cfg@,
                        None => default_config_view(),
                    },
                ),
                status: "Не подключено"@,
                connecting: false,
                is_connected: false,
                editing_text: Seq::empty(),
            }),
    {
        let cfg = match saved {
            Some(cfg) => cfg,
            None => default_config(),
        };
        MqttScreenHandler {
            form: prefill_form(cfg),
            status: "Не подключено".to_owned(),
            connecting: false,
            is_connected: false,
            editing_text: String::new(),
        }
    }

    /// The key that connects. Returns what the worker is asked to do.
    pub fn connect_requested(&mut self) -> (cmd: MqttCmd)
        ensures
            final(self)@ == (MqttScreenView {
                connecting: true,
                status: "Подключение к "@ + old(self)@.form.host + "..."@,
                ..old(self)@
            }),
            cmd matches MqttCmd::Connect(cfg) && cfg@ == config_of_form(old(self)@.form),
    {
        let cfg = read_config(&self.form);
        self.connecting = true;
        self.status = join3("Подключение к ", cfg.host.as_str(), "...");
        MqttCmd::Connect(cfg)
    }

    /// The key that cancels.
    pub fn cancel_connect(&mut self)
        ensures
            final(self)@ == (MqttScreenView { status: "Отмена..."@, ..old(self)@ }),
    {
        self.status = "Отмена...".to_owned();
    }

    /// The DEL key.
    pub fn editing_delete_last(&mut self)
        ensures
            final(self)@ == (MqttScreenView {
                editing_text: without_last(old(self)@.editing_text),
                ..old(self)@
            }),
    {
        self.editing_text = delete_last_char(self.editing_text.as_str());
    }

    /// Shows an event. Returns the command that is to be passed on.
    pub fn handle_event(&mut self, event: MqttEvent) -> (cmd: Option<ControlCmd>)
        ensures
            final(self)@ == old(self)@.after(event@),
            cmd == (match event@ {
                EventView::Command(c) => Some(c),
                _ => None,
            }),
    {
        match event {
            MqttEvent::Connecting { attempt, max } => {
                self.handle_connecting(attempt, max);
                None
            },
            MqttEvent::Connected => {
                self.handle_connected();
                None
            },
            MqttEvent::ConnectError(e) => {
                self.handle_error(e);
                None
            },
            MqttEvent::Disconnected => {
                self.handle_disconnected();
                None
            },
            MqttEvent::Command(cmd) => {
                self.handle_command(cmd);
                Some(cmd)
            },
        }
    }

    fn handle_connecting(&mut self, attempt: u8, max: u8)
        ensures
            final(self)@ == old(self)@.after(EventView::Connecting { attempt, max }),
    {
        self.connecting = true;
        let mut s = "Подключение (".to_owned();
        s.append(to_decimal(attempt as u64).as_str());
        s.append("/");
        s.append(to_decimal(max as u64).as_str());
        s.append(")...");
        self.status = s;
    }

    fn handle_connected(&mut self)
        ensures
            final(self)@ == old(self)@.after(EventView::Connected),
    {
        self.is_connected = true;
        self.connecting = false;
        let mut s = "Подключено: ".to_owned();
        s.append(self.form.host.as_str());
        s.append(":");
        s.append(self.form.port.as_str());
        self.status = s;
    }

    fn handle_error(&mut self, e: String)
        ensures
            final(self)@ == old(self)@.after(EventView::ConnectError(e@)),
    {
        self.connecting = false;
        self.is_connected = false;
        self.status = if has(e.as_str(), "Отменено") {
            "Подключение отменено".to_owned()
        } else {
            e
        };
    }

    fn handle_disconnected(&mut self)
        ensures
            final(self)@ == old(self)@.after(EventView::Disconnected),
    {
        self.connecting = false;
        self.is_connected = false;
        self.status = "Отключено".to_owned();
    }

    fn handle_command(&mut self, cmd: ControlCmd)
        ensures
            final(self)@ == old(self)@.after(EventView::Command(cmd)),
    {
        let name = match cmd {
            ControlCmd::Arm => "Охрана",
            ControlCmd::Disarm => "Снять с охраны",
            ControlCmd::Silent => "Без звука",
            ControlCmd::Alarm => "Тревога",
        };
        let mut s = "Команда: ".to_owned();
        s.append(name);
        self.status = s;
    }
}

// ── Laws ────────────────────────────────────────────────────────────────────

/// A form that was filled with a configuration gives that configuration.
pub proof fn form_gives_the_configuration_back(c: ConfigView)
    ensures
        config_of_form(form_of(c)) == c,
{
    decimal_parses_back(c.port as nat, u16::MAX as nat);
}

/// An event that ends a series of attempts, or the connection, is shown as such;
/// no event touches the form.
pub proof fn a_series_of_attempts_ends(screen: MqttScreenView, event: EventView)
    ensures
        event is Connected || event is ConnectError || event is Disconnected ==> !screen.after(
            event,
        ).connecting,
        event is Connected ==> screen.after(event).is_connected,
        event is ConnectError || event is Disconnected ==> !screen.after(event).is_connected,
        screen.after(event).form == screen.form,
{
}

/// Each field of the form has its number, and setting it sets just that one: the
/// others stay as they are. Another number sets none.
pub proof fn a_field_is_set_alone(f: FormView, field: i32, value: Seq<char>)
    ensures
        ({
            let after = with_field(f, field, value);
            &&& after.host == (if field == 1 { value } else { f.host })
            &&& after.port == (if field == 2 { value } else { f.port })
            &&& after.username == (if field == 3 { value } else { f.username })
            &&& after.password == (if field == 4 { value } else { f.password })
            &&& after.client_id == (if field == 5 { value } else { f.client_id })
            &&& after.topic_arm == (if field == 6 { value } else { f.topic_arm })
            &&& after.topic_disarm == (if field == 7 { value } else { f.topic_disarm })
            &&& after.topic_silent == (if field == 8 { value } else { f.topic_silent })
            &&& after.topic_alarm == (if field == 9 { value } else { f.topic_alarm })
        }),
{
}

/// The form and the configuration hold the same texts; the port is the number that
/// was typed, where it is one up to 65535, and 1883 where it is not.
pub proof fn the_form_is_the_configuration(f: FormView, c: ConfigView)
    ensures
        ({
            let read = config_of_form(f);
            &&& read.host == f.host && read.username == f.username && read.password == f.password
                && read.client_id == f.client_id
            &&& read.topics.arm == f.topic_arm && read.topics.disarm == f.topic_disarm
                && read.topics.silent == f.topic_silent && read.topics.alarm == f.topic_alarm
            &&& parsed(f.port, 65535) matches Some(p) ==> read.port == p
            &&& parsed(f.port, 65535) is None ==> read.port == 1883
            &&& form_of(c).host == c.host && form_of(c).username == c.username && form_of(
                c,
            ).password == c.password && form_of(c).client_id == c.client_id
            &&& form_of(c).topic_arm == c.topics.arm && form_of(c).topic_disarm == c.topics.disarm
                && form_of(c).topic_silent == c.topics.silent && form_of(c).topic_alarm
                == c.topics.alarm
            &&& form_of(c).port == decimal(c.port as nat)
        }),
{
}

/// Before anything is stored, the port is 1883, the topics are those of the panel, and
/// the rest is empty.
pub proof fn nothing_is_filled_in_at_first()
    ensures
        ({
            let c = default_config_view();
            &&& c.port == 1883
            &&& c.host.len() == 0 && c.username.len() == 0 && c.password.len() == 0
                && c.client_id.len() == 0
            &&& c.topics.arm == "security/arm"@ && c.topics.disarm == "security/disarm"@
            &&& c.topics.silent == "security/silent"@ && c.topics.alarm == "security/alarm"@
        }),
{
}

/// What the screen shows of each event.
pub proof fn events_are_shown(screen: MqttScreenView, event: EventView)
    ensures
        ({
            let after = screen.after(event);
            &&& after.form == screen.form && after.editing_text == screen.editing_text
            &&& event matches EventView::Connecting { attempt, max } ==> after.connecting
                && after.is_connected == screen.is_connected && after.status == "Подключение ("@
                + decimal(attempt as nat) + "/"@ + decimal(max as nat) + ")..."@
            &&& event is Connected ==> after.is_connected && !after.connecting && after.status
                == "Подключено: "@ + screen.form.host + ":"@ + screen.form.port
            &&& event matches EventView::ConnectError(e) ==> !after.is_connected
                && !after.connecting && after.status == (if contains(e, "Отменено"@) {
                "Подключение отменено"@
            } else {
                e
            })
            &&& event is Disconnected ==> !after.is_connected && !after.connecting && after.status
                == "Отключено"@
            &&& event matches EventView::Command(cmd) ==> after.is_connected
                == screen.is_connected && after.connecting == screen.connecting && after.status
                == "Команда: "@ + match cmd {
                ControlCmd::Arm => "Охрана"@,
                ControlCmd::Disarm => "Снять с охраны"@,
                ControlCmd::Silent => "Без звука"@,
                ControlCmd::Alarm => "Тревога"@,
            }
        }),
{
}

} // verus!
