//! The connection to the MQTT broker: what to do next, and what to store.
use vstd::prelude::*;

use crate::control::ControlCmd;
use crate::number::{decimal, to_decimal};
use crate::nvs::{
    all_written, answer, answers, fits, get_str, get_u32, put_str, put_u32, stored_text_or,
    text_or, AnswerView, Image, NvsAnswer, NvsRead, NvsWrite, ReadView, ValueView, WriteView,
};
use crate::text::{lemma_views_push, same, views};

verus! {

// ── Configuration ───────────────────────────────────────────────────────────

/// The topic of each command; an empty one is not used.
#[derive(Debug)]
pub struct MqttTopics {
    pub arm: String,
    pub disarm: String,
    pub silent: String,
    pub alarm: String,
}

/// Where the broker is and how to log in.
#[derive(Debug)]
pub struct MqttConfig {
    pub host: String,
    pub port: u16,
    pub username: String,
    pub password: String,
    pub client_id: String,
    pub topics: MqttTopics,
}

/// The model of the topics.
pub ghost struct TopicsView {
    pub arm: Seq<char>,
    pub disarm: Seq<char>,
    pub silent: Seq<char>,
    pub alarm: Seq<char>,
}

/// The model of the configuration.
pub ghost struct ConfigView {
    pub host: Seq<char>,
    pub port: u16,
    pub username: Seq<char>,
    pub password: Seq<char>,
    pub client_id: Seq<char>,
    pub topics: TopicsView,
}

impl View for MqttTopics {
    type V = TopicsView;

    open spec fn view(&self) -> TopicsView {
        TopicsView {
            arm: self.arm@,
            disarm: self.disarm@,
            silent: self.silent@,
            alarm: self.alarm@,
        }
    }
}

impl View for MqttConfig {
    type V = ConfigView;

    open spec fn view(&self) -> ConfigView {
        ConfigView {
            host: self.host@,
            port: self.port,
            username: self.username@,
            password: self.password@,
            client_id: self.client_id@,
            topics: self.topics@,
        }
    }
}

impl Clone for MqttTopics {
    fn clone(&self) -> (r: Self)
        ensures
            r@ == self@,
    {
        MqttTopics {
            arm: self.arm.clone(),
            disarm: self.disarm.clone(),
            silent: self.silent.clone(),
            alarm: self.alarm.clone(),
        }
    }
}

impl Clone for MqttConfig {
    fn clone(&self) -> (r: Self)
        ensures
            r@ == self@,
    {
        MqttConfig {
            host: self.host.clone(),
            port: self.port,
            username: self.username.clone(),
            password: self.password.clone(),
            client_id: self.client_id.clone(),
            topics: self.topics.clone(),
        }
    }
}

/// What the worker is asked to do.
pub enum MqttCmd {
    Connect(MqttConfig),
    Disconnect,
}

/// What the worker tells.
pub enum MqttEvent {
    Connecting { attempt: u8, max: u8 },
    Connected,
    ConnectError(String),
    Disconnected,
    Command(ControlCmd),
}

/// The model of what the worker tells.
pub ghost enum EventView {
    Connecting { attempt: u8, max: u8 },
    Connected,
    ConnectError(Seq<char>),
    Disconnected,
    Command(ControlCmd),
}

impl View for MqttEvent {
    type V = EventView;

    open spec fn view(&self) -> EventView {
        match self {
            MqttEvent::Connecting { attempt, max } => EventView::Connecting {
                attempt: *attempt,
                max: *max,
            },
            MqttEvent::Connected => EventView::Connected,
            MqttEvent::ConnectError(e) => EventView::ConnectError(e@),
            MqttEvent::Disconnected => EventView::Disconnected,
            MqttEvent::Command(cmd) => EventView::Command(*cmd),
        }
    }
}

// ── The worker's two loops ──────────────────────────────────────────────────

/// What a wait for a command came back with.
pub enum CmdRecv {
    Cmd(MqttCmd),
    Timeout,
    /// Nobody can send a command any more.
    Closed,
}

/// What the worker does without a connection.
pub enum IdleStep {
    /// Store the configuration and connect with it.
    Connect(MqttConfig),
    Stay,
    Exit,
}

/// What the worker does with a connection.
#[derive(Debug, Clone, Copy, PartialEq, Eq, Structural)]
pub enum SessionStep {
    Stay,
    /// Tell that the connection is gone, and give it up.
    Leave,
    Exit,
}

/// Whether one of the notices says that the network came up. It is then time to
/// connect with the stored configuration.
pub fn wifi_came_up(notices: &Vec<bool>) -> (r: bool)
    ensures
        r == notices@.contains(true),
{
    let mut i: usize = 0;
    while i < notices.len()
        invariant
            i <= notices@.len(),
            forall|j: int| 0 <= j < i ==> notices@[j] != true,
        decreases notices@.len() - i,
    {
        if notices[i] {
            assert(notices@[i as int] == true);
            return true;
        }
        i = i + 1;
    }
    false
}

/// Whether one of the notices says that the network went down.
pub fn check_wifi_down(notices: &Vec<bool>) -> (r: bool)
    ensures
        r == notices@.contains(false),
{
    let mut i: usize = 0;
    while i < notices.len()
        invariant
            i <= notices@.len(),
            forall|j: int| 0 <= j < i ==> notices@[j] != false,
        decreases notices@.len() - i,
    {
        if !notices[i] {
            assert(notices@[i as int] == false);
            return true;
        }
        i = i + 1;
    }
    false
}

/// What the worker does about a command while it has no connection.
pub open spec fn idle_step(recv: CmdRecv) -> IdleStep {
    match recv {
        CmdRecv::Cmd(MqttCmd::Connect(cfg)) => IdleStep::Connect(cfg),
        CmdRecv::Cmd(MqttCmd::Disconnect) => IdleStep::Stay,
        CmdRecv::Timeout => IdleStep::Stay,
        CmdRecv::Closed => IdleStep::Exit,
    }
}

/// What the worker does about a command while it has a connection.
pub open spec fn session_step(recv: CmdRecv) -> SessionStep {
    match recv {
        CmdRecv::Cmd(MqttCmd::Disconnect) => SessionStep::Leave,
        CmdRecv::Cmd(MqttCmd::Connect(_)) => SessionStep::Stay,
        CmdRecv::Timeout => SessionStep::Stay,
        CmdRecv::Closed => SessionStep::Exit,
    }
}

/// Whether a connection is still there.
pub open spec fn link_step(dropped: bool, notices: Seq<bool>) -> SessionStep {
    if dropped || notices.contains(false) {
        SessionStep::Leave
    } else {
        SessionStep::Stay
    }
}

/// What the worker does about a command while it has no connection.
pub fn disconnected_step(recv: CmdRecv) -> (r: IdleStep)
    ensures
        match recv {
            CmdRecv::Cmd(MqttCmd::Connect(cfg)) => r == IdleStep::Connect(cfg),
            CmdRecv::Cmd(MqttCmd::Disconnect) => r is Stay,
            CmdRecv::Timeout => r is Stay,
            CmdRecv::Closed => r is Exit,
        },
        r == idle_step(recv),
{
    match recv {
        CmdRecv::Cmd(MqttCmd::Connect(cfg)) => IdleStep::Connect(cfg),
        CmdRecv::Cmd(MqttCmd::Disconnect) => IdleStep::Stay,
        CmdRecv::Timeout => IdleStep::Stay,
        CmdRecv::Closed => IdleStep::Exit,
    }
}

/// Whether a connection is still there: `dropped` is what the client noticed.
pub fn connected_check(dropped: bool, notices: &Vec<bool>) -> (r: SessionStep)
    ensures
        r == (if dropped || notices@.contains(false) {
            SessionStep::Leave
        } else {
            SessionStep::Stay
        }),
        r == link_step(dropped, notices@),
{
    if dropped || check_wifi_down(notices) {
        SessionStep::Leave
    } else {
        SessionStep::Stay
    }
}

/// What the worker does about a command while it has a connection.
pub fn connected_step(recv: &CmdRecv) -> (r: SessionStep)
    ensures
        r == (match recv {
            CmdRecv::Cmd(MqttCmd::Disconnect) => SessionStep::Leave,
            CmdRecv::Cmd(MqttCmd::Connect(_)) => SessionStep::Stay,
            CmdRecv::Timeout => SessionStep::Stay,
            CmdRecv::Closed => SessionStep::Exit,
        }),
        r == session_step(*recv),
{
    match recv {
        CmdRecv::Cmd(MqttCmd::Disconnect) => SessionStep::Leave,
        CmdRecv::Cmd(MqttCmd::Connect(_)) => SessionStep::Stay,
        CmdRecv::Timeout => SessionStep::Stay,
        CmdRecv::Closed => SessionStep::Exit,
    }
}

// ── Connecting ──────────────────────────────────────────────────────────────

/// How often a connection is tried.
pub const MAX_ATTEMPTS: u8 = 3;

/// What the user reads after a cancelled attempt.
pub const CANCELLED: &'static str = "Отменено";

/// How one attempt ended.
pub enum AttemptResult {
    Connected,
    Cancelled,
    Failed(String),
}

/// The model of how one attempt ended.
pub ghost enum AttemptView {
    Connected,
    Cancelled,
    Failed(Seq<char>),
}

impl View for AttemptResult {
    type V = AttemptView;

    open spec fn view(&self) -> AttemptView {
        match self {
            AttemptResult::Connected => AttemptView::Connected,
            AttemptResult::Cancelled => AttemptView::Cancelled,
            AttemptResult::Failed(e) => AttemptView::Failed(e@),
        }
    }
}

/// How far an attempt came.
pub enum AttemptReport {
    /// There is no client.
    NoClient(String),
    /// The broker did not answer; whether the user had cancelled by then.
    NoAnswer { cancelled: bool },
    /// The broker answered; whether all topics were subscribed to.
    Answered { subscribed: bool },
}

/// How an attempt that came so far ended.
pub open spec fn attempt_of(report: AttemptReport) -> AttemptView {
    match report {
        AttemptReport::NoClient(e) => AttemptView::Failed(e@),
        AttemptReport::NoAnswer { cancelled } => if cancelled {
            AttemptView::Cancelled
        } else {
            AttemptView::Failed("Таймаут подключения"@)
        },
        AttemptReport::Answered { subscribed } => if subscribed {
            AttemptView::Connected
        } else {
            AttemptView::Failed("Ошибка подписки на топики"@)
        },
    }
}

/// How an attempt that came so far ended.
pub fn attempt_once(report: AttemptReport) -> (r: AttemptResult)
    ensures
        r@ == (match report {
            AttemptReport::NoClient(e) => AttemptView::Failed(e@),
            AttemptReport::NoAnswer { cancelled: true } => AttemptView::Cancelled,
            AttemptReport::NoAnswer { cancelled: false } => AttemptView::Failed(
                "Таймаут подключения"@,
            ),
            AttemptReport::Answered { subscribed: true } => AttemptView::Connected,
            AttemptReport::Answered { subscribed: false } => AttemptView::Failed(
                "Ошибка подписки на топики"@,
            ),
        }),
        r@ == attempt_of(report),
{
    match report {
        AttemptReport::NoClient(e) => AttemptResult::Failed(e),
        AttemptReport::NoAnswer { cancelled } => if cancelled {
            AttemptResult::Cancelled
        } else {
            AttemptResult::Failed("Таймаут подключения".to_owned())
        },
        AttemptReport::Answered { subscribed } => if subscribed {
            AttemptResult::Connected
        } else {
            AttemptResult::Failed("Ошибка подписки на топики".to_owned())
        },
    }
}

/// The model of a series of attempts.
pub ghost struct RunView {
    /// How many attempts were begun.
    pub attempts: nat,
    /// The user has cancelled.
    pub stopped: bool,
    /// Why the last attempt failed; empty before the first failure.
    pub last_err: Seq<char>,
}

impl RunView {
    pub open spec fn start() -> RunView {
        RunView { attempts: 0, stopped: false, last_err: Seq::empty() }
    }

    /// Another attempt is to be made.
    pub open spec fn goes_on(self, cancelled: bool) -> bool {
        !self.stopped && self.attempts < MAX_ATTEMPTS && !cancelled
    }

    /// The series after another attempt is begun.
    pub open spec fn begun(self) -> RunView {
        RunView { attempts: self.attempts + 1, ..self }
    }

    /// The series after an attempt ended.
    pub open spec fn ended(self, result: AttemptView) -> RunView {
        match result {
            AttemptView::Connected => self,
            AttemptView::Cancelled => RunView { stopped: true, ..self },
            AttemptView::Failed(e) => RunView { last_err: e, ..self },
        }
    }

    /// What is told of a series that failed.
    pub open spec fn failure(self, cancelled: bool) -> EventView {
        EventView::ConnectError(
            if cancelled {
                CANCELLED@
            } else {
                self.last_err
            },
        )
    }

    /// All that is told of a series of attempts: whether the user had cancelled
    /// before each, how each ended, and whether the user had cancelled at the end.
    pub open spec fn told(self, rounds: Seq<(bool, AttemptView)>, cancelled: bool) -> Seq<
        EventView,
    >
        decreases rounds.len(),
    {
        if rounds.len() == 0 || !self.goes_on(rounds[0].0) {
            seq![self.failure(cancelled)]
        } else {
            let connecting = EventView::Connecting {
                attempt: (self.attempts + 1) as u8,
                max: MAX_ATTEMPTS,
            };
            seq![connecting] + (if rounds[0].1 is Connected {
                seq![EventView::Connected]
            } else {
                self.begun().ended(rounds[0].1).told(rounds.drop_first(), cancelled)
            })
        }
    }
}

/// A series of attempts to connect.
pub struct Connector {
    attempts: u8,
    stopped: bool,
    last_err: String,
}

impl View for Connector {
    type V = RunView;

    closed spec fn view(&self) -> RunView {
        RunView {
            attempts: self.attempts as nat,
            stopped: self.stopped,
            last_err: self.last_err@,
        }
    }
}

impl Connector {
    pub fn new() -> (c: Self)
        ensures
            c@ == RunView::start(),
    {
        Connector { attempts: 0, stopped: false, last_err: String::new() }
    }

    /// Begins another attempt, if there is to be one, and tells of it.
    pub fn next(&mut self, cancelled: bool) -> (r: Option<MqttEvent>)
        ensures
            old(self)@.goes_on(cancelled) ==> {
                &&& final(self)@ == old(self)@.begun()
                &&& r is Some
                &&& r->0@ == (EventView::Connecting {
                    attempt: final(self)@.attempts as u8,
                    max: MAX_ATTEMPTS,
                })
            },
            !old(self)@.goes_on(cancelled) ==> r is None && *final(self) == *old(self),
    {
        if self.stopped || self.attempts >= MAX_ATTEMPTS || cancelled {
            return None;
        }
        self.attempts = self.attempts + 1;
        Some(MqttEvent::Connecting { attempt: self.attempts, max: MAX_ATTEMPTS })
    }

    /// Takes how an attempt ended. Tells of a connection.
    pub fn ended(&mut self, result: AttemptResult) -> (r: Option<MqttEvent>)
        ensures
            final(self)@ == old(self)@.ended(result@),
            match r {
                Some(e) => result is Connected && e is Connected,
                None => !(result is Connected),
            },
    {
        match result {
            AttemptResult::Connected => Some(MqttEvent::Connected),
            AttemptResult::Cancelled => {
                self.stopped = true;
                None
            },
            AttemptResult::Failed(e) => {
                self.last_err = e;
                None
            },
        }
    }

    /// Tells of a series that did not lead to a connection.
    pub fn finish(self, cancelled: bool) -> (r: MqttEvent)
        ensures
            r@ == self@.failure(cancelled),
    {
        if cancelled {
            MqttEvent::ConnectError(CANCELLED.to_owned())
        } else {
            MqttEvent::ConnectError(self.last_err)
        }
    }
}

/// At most three attempts are made; each is told of with its number, in turn,
/// and then, once, how the series ended.
pub proof fn attempts_are_counted_and_end_once(
    run: RunView,
    rounds: Seq<(bool, AttemptView)>,
    cancelled: bool,
)
    requires
        run.attempts <= MAX_ATTEMPTS,
    ensures
        ({
            let told = run.told(rounds, cancelled);
            &&& 1 <= told.len() <= MAX_ATTEMPTS - run.attempts + 1
            &&& told.last() is Connected || told.last() is ConnectError
            &&& forall|i: int|
                0 <= i < told.len() - 1 ==> #[trigger] told[i] == (EventView::Connecting {
                    attempt: (run.attempts + i + 1) as u8,
                    max: MAX_ATTEMPTS,
                })
        }),
    decreases rounds.len(),
{
    let told = run.told(rounds, cancelled);
    if rounds.len() > 0 && run.goes_on(rounds[0].0) && !(rounds[0].1 is Connected) {
        let after = run.begun().ended(rounds[0].1);
        attempts_are_counted_and_end_once(after, rounds.drop_first(), cancelled);
        let rest = after.told(rounds.drop_first(), cancelled);
        assert(told.last() == rest.last());
        assert forall|i: int| 0 <= i < told.len() - 1 implies #[trigger] told[i] == (
        EventView::Connecting { attempt: (run.attempts + i + 1) as u8, max: MAX_ATTEMPTS }) by {
            if i > 0 {
                assert(told[i] == rest[i - 1]);
            }
        }
    }
}

/// How often the broker's answer is looked for, once every 100 ms.
pub const ANSWER_POLLS: u8 = 100;

/// What a look for the broker's answer came back with.
#[derive(Debug, Clone, Copy, PartialEq, Eq, Structural)]
pub enum AnswerRecv {
    Came,
    Timeout,
    Closed,
}

/// The wait for the broker's answer.
pub struct ConnWait {
    left: u8,
}

impl ConnWait {
    /// How often the answer may still be looked for.
    pub closed spec fn left(&self) -> nat {
        self.left as nat
    }

    pub fn new() -> (w: Self)
        ensures
            w.left() == ANSWER_POLLS,
    {
        ConnWait { left: ANSWER_POLLS }
    }

    /// Whether to look for the answer once more.
    pub fn goes_on(&self, cancelled: bool) -> (r: bool)
        ensures
            r == (self.left() > 0 && !cancelled),
    {
        self.left > 0 && !cancelled
    }

    /// Takes what a look came back with. Ends the wait where it is decided:
    /// whether the broker answered.
    pub fn looked(&mut self, recv: AnswerRecv) -> (r: Option<bool>)
        requires
            old(self).left() > 0,
        ensures
            r == (match recv {
                AnswerRecv::Came => Some(true),
                AnswerRecv::Timeout => None,
                AnswerRecv::Closed => Some(false),
            }),
            final(self).left() == (if recv is Timeout {
                old(self).left() - 1
            } else {
                old(self).left() as int
            }),
    {
        match recv {
            AnswerRecv::Came => Some(true),
            AnswerRecv::Timeout => {
                self.left = self.left - 1;
                None
            },
            AnswerRecv::Closed => Some(false),
        }
    }
}

/// What the client is set up with. An empty text is left out.
pub struct ClientSetup {
    pub url: String,
    pub username: Option<String>,
    pub password: Option<String>,
    pub client_id: Option<String>,
}

/// The text, where it is not empty.
pub open spec fn unless_empty(s: Seq<char>) -> Option<Seq<char>> {
    if s.len() == 0 {
        None
    } else {
        Some(s)
    }
}

fn given(s: &String) -> (r: Option<String>)
    ensures
        crate::text::opt_view(r) == unless_empty(s@),
{
    if s.as_str().is_empty() {
        None
    } else {
        Some(s.clone())
    }
}

/// What the client is set up with.
pub fn create_client(config: &MqttConfig) -> (r: ClientSetup)
    ensures
        r.url@ == "mqtt://"@ + config@.host + ":"@ + decimal(config@.port as nat),
        crate::text::opt_view(r.username) == unless_empty(config@.username),
        crate::text::opt_view(r.password) == unless_empty(config@.password),
        crate::text::opt_view(r.client_id) == unless_empty(config@.client_id),
{
    let mut url = "mqtt://".to_owned();
    url.append(config.host.as_str());
    url.append(":");
    url.append(to_decimal(config.port as u64).as_str());
    ClientSetup {
        url,
        username: given(&config.username),
        password: given(&config.password),
        client_id: given(&config.client_id),
    }
}

/// The four topics.
pub open spec fn all_topics(t: TopicsView) -> Seq<Seq<char>> {
    seq![t.arm, t.disarm, t.silent, t.alarm]
}

/// The topics to subscribe to: those that are not empty.
pub fn subscribe_topics(topics: &MqttTopics) -> (r: Vec<String>)
    ensures
        views(r@) == all_topics(topics@).filter(|t: Seq<char>| t.len() > 0),
{
    let mut r: Vec<String> = Vec::new();
    let ghost p = |t: Seq<char>| t.len() > 0;
    let ghost all = all_topics(topics@);
    proof {
        reveal(Seq::filter);
        assert(all.drop_last() =~= seq![all[0], all[1], all[2]]);
        assert(all.drop_last().drop_last() =~= seq![all[0], all[1]]);
        assert(all.drop_last().drop_last().drop_last() =~= seq![all[0]]);
        assert(seq![all[0]].drop_last() =~= Seq::<Seq<char>>::empty());
        assert(seq![all[0], all[1]].drop_last() =~= seq![all[0]]);
        assert(seq![all[0], all[1], all[2]].drop_last() =~= seq![all[0], all[1]]);
        assert(views(r@) =~= Seq::<Seq<char>>::empty().filter(p));
    }
    if !topics.arm.as_str().is_empty() {
        proof {
            lemma_views_push(r@, topics.arm);
        }
        r.push(topics.arm.clone());
    }
    assert(views(r@) =~= seq![all[0]].filter(p));
    if !topics.disarm.as_str().is_empty() {
        proof {
            lemma_views_push(r@, topics.disarm);
        }
        r.push(topics.disarm.clone());
    }
    assert(views(r@) =~= seq![all[0], all[1]].filter(p));
    if !topics.silent.as_str().is_empty() {
        proof {
            lemma_views_push(r@, topics.silent);
        }
        r.push(topics.silent.clone());
    }
    assert(views(r@) =~= seq![all[0], all[1], all[2]].filter(p));
    if !topics.alarm.as_str().is_empty() {
        proof {
            lemma_views_push(r@, topics.alarm);
        }
        r.push(topics.alarm.clone());
    }
    assert(views(r@) =~= all.filter(p));
    r
}

// ── Messages ────────────────────────────────────────────────────────────────

/// The command that a message on a topic gives.
pub open spec fn topic_cmd(topic: Seq<char>, t: TopicsView) -> Option<ControlCmd> {
    if t.arm.len() > 0 && topic == t.arm {
        Some(ControlCmd::Arm)
    } else if t.disarm.len() > 0 && topic == t.disarm {
        Some(ControlCmd::Disarm)
    } else if t.silent.len() > 0 && topic == t.silent {
        Some(ControlCmd::Silent)
    } else if t.alarm.len() > 0 && topic == t.alarm {
        Some(ControlCmd::Alarm)
    } else {
        None
    }
}

/// The command that a message on a topic gives.
pub fn cmd_from_topic(topic: &str, topics: &MqttTopics) -> (r: Option<ControlCmd>)
    ensures
        r == topic_cmd(topic@, topics@),
{
    if !topics.arm.as_str().is_empty() && same(topic, topics.arm.as_str()) {
        return Some(ControlCmd::Arm);
    }
    if !topics.disarm.as_str().is_empty() && same(topic, topics.disarm.as_str()) {
        return Some(ControlCmd::Disarm);
    }
    if !topics.silent.as_str().is_empty() && same(topic, topics.silent.as_str()) {
        return Some(ControlCmd::Silent);
    }
    if !topics.alarm.as_str().is_empty() && same(topic, topics.alarm.as_str()) {
        return Some(ControlCmd::Alarm);
    }
    None
}

/// What is told of a message on a topic.
pub fn handle_message(topic: &str, config: &MqttConfig) -> (r: Option<MqttEvent>)
    ensures
        match topic_cmd(topic@, config@.topics) {
            Some(cmd) => r is Some && r->0@ == EventView::Command(cmd),
            None => r is None,
        },
{
    match cmd_from_topic(topic, &config.topics) {
        Some(cmd) => Some(MqttEvent::Command(cmd)),
        None => None,
    }
}

/// With four topics that differ, each subscribed one gives its own command, and
/// no other topic gives any.
pub proof fn topics_and_commands_pair_up(topic: Seq<char>, t: TopicsView)
    requires
        t.arm != t.disarm && t.arm != t.silent && t.arm != t.alarm,
        t.disarm != t.silent && t.disarm != t.alarm && t.silent != t.alarm,
    ensures
        topic_cmd(topic, t) == Some(ControlCmd::Arm) <==> topic == t.arm && topic.len() > 0,
        topic_cmd(topic, t) == Some(ControlCmd::Disarm) <==> topic == t.disarm && topic.len() > 0,
        topic_cmd(topic, t) == Some(ControlCmd::Silent) <==> topic == t.silent && topic.len() > 0,
        topic_cmd(topic, t) == Some(ControlCmd::Alarm) <==> topic == t.alarm && topic.len() > 0,
{
}

// ── Storage ─────────────────────────────────────────────────────────────────

/// The namespace of the configuration.
pub const NAMESPACE: &'static str = "mqtt";

/// The buffer for a text of the configuration, in bytes.
pub const TEXT_CAP: usize = 256;

/// The buffer for a topic, in bytes.
pub const TOPIC_CAP: usize = 128;

/// The broker's port where none is stored.
pub const DEFAULT_PORT: u16 = 1883;

/// What storing a configuration writes.
pub open spec fn config_writes(c: ConfigView) -> Seq<WriteView> {
    seq![
        WriteView { key: "host"@, value: ValueView::Str(c.host) },
        WriteView { key: "port"@, value: ValueView::U32(c.port as u32) },
        WriteView { key: "user"@, value: ValueView::Str(c.username) },
        WriteView { key: "pass"@, value: ValueView::Str(c.password) },
        WriteView { key: "cid"@, value: ValueView::Str(c.client_id) },
        WriteView { key: "t_arm"@, value: ValueView::Str(c.topics.arm) },
        WriteView { key: "t_dis"@, value: ValueView::Str(c.topics.disarm) },
        WriteView { key: "t_sil"@, value: ValueView::Str(c.topics.silent) },
        WriteView { key: "t_alm"@, value: ValueView::Str(c.topics.alarm) },
    ]
}

/// The reads of a stored configuration.
pub open spec fn config_read_views() -> Seq<ReadView> {
    seq![
        ReadView::Str { key: "host"@, cap: TEXT_CAP as nat },
        ReadView::U32 { key: "port"@ },
        ReadView::Str { key: "user"@, cap: TEXT_CAP as nat },
        ReadView::Str { key: "pass"@, cap: TEXT_CAP as nat },
        ReadView::Str { key: "cid"@, cap: TEXT_CAP as nat },
        ReadView::Str { key: "t_arm"@, cap: TOPIC_CAP as nat },
        ReadView::Str { key: "t_dis"@, cap: TOPIC_CAP as nat },
        ReadView::Str { key: "t_sil"@, cap: TOPIC_CAP as nat },
        ReadView::Str { key: "t_alm"@, cap: TOPIC_CAP as nat },
    ]
}

/// The configuration that the answers give: none without a host; what else is
/// not there, or cannot be read, has its default.
pub open spec fn config_of(a: Seq<AnswerView>) -> Option<ConfigView> {
    match a[0] {
        AnswerView::Str(host) if host.len() > 0 => Some(
            ConfigView {
                host,
                port: match a[1] {
                    AnswerView::U32(v) => (v % 0x1_0000) as u16,
                    _ => DEFAULT_PORT,
                },
                username: text_or(a[2], ""@),
                password: text_or(a[3], ""@),
                client_id: text_or(a[4], ""@),
                topics: TopicsView {
                    arm: text_or(a[5], "security/arm"@),
                    disarm: text_or(a[6], "security/disarm"@),
                    silent: text_or(a[7], "security/silent"@),
                    alarm: text_or(a[8], "security/alarm"@),
                },
            },
        ),
        _ => None,
    }
}

/// What storing a configuration writes.
pub fn save_config(cfg: &MqttConfig) -> (r: Vec<NvsWrite>)
    ensures
        views(r@) == config_writes(cfg@),
{
    let mut r: Vec<NvsWrite> = Vec::new();
    r.push(put_str("host", cfg.host.as_str()));
    r.push(put_u32("port", cfg.port as u32));
    r.push(put_str("user", cfg.username.as_str()));
    r.push(put_str("pass", cfg.password.as_str()));
    r.push(put_str("cid", cfg.client_id.as_str()));
    r.push(put_str("t_arm", cfg.topics.arm.as_str()));
    r.push(put_str("t_dis", cfg.topics.disarm.as_str()));
    r.push(put_str("t_sil", cfg.topics.silent.as_str()));
    r.push(put_str("t_alm", cfg.topics.alarm.as_str()));
    assert(views(r@) =~= config_writes(cfg@));
    r
}

/// The reads of a stored configuration.
pub fn config_reads() -> (r: Vec<NvsRead>)
    ensures
        views(r@) == config_read_views(),
{
    let mut r: Vec<NvsRead> = Vec::new();
    r.push(get_str("host", TEXT_CAP));
    r.push(get_u32("port"));
    r.push(get_str("user", TEXT_CAP));
    r.push(get_str("pass", TEXT_CAP));
    r.push(get_str("cid", TEXT_CAP));
    r.push(get_str("t_arm", TOPIC_CAP));
    r.push(get_str("t_dis", TOPIC_CAP));
    r.push(get_str("t_sil", TOPIC_CAP));
    r.push(get_str("t_alm", TOPIC_CAP));
    assert(views(r@) =~= config_read_views());
    r
}

/// The topics that the answers give.
fn load_topics(a: &Vec<NvsAnswer>) -> (r: MqttTopics)
    requires
        a@.len() == 9,
    ensures
        r@ == (TopicsView {
            arm: text_or(a@[5]@, "security/arm"@),
            disarm: text_or(a@[6]@, "security/disarm"@),
            silent: text_or(a@[7]@, "security/silent"@),
            alarm: text_or(a@[8]@, "security/alarm"@),
        }),
{
    MqttTopics {
        arm: stored_text_or(&a[5], "security/arm"),
        disarm: stored_text_or(&a[6], "security/disarm"),
        silent: stored_text_or(&a[7], "security/silent"),
        alarm: stored_text_or(&a[8], "security/alarm"),
    }
}

fn low_half(v: u32) -> (r: u16)
    ensures
        r == v % 0x1_0000,
{
    assert(v as u16 == v % 0x1_0000) by (bit_vector);
    v as u16
}

/// The configuration that the answers give.
pub fn load_config(a: &Vec<NvsAnswer>) -> (r: Option<MqttConfig>)
    requires
        a@.len() == 9,
    ensures
        crate::text::opt_view(r) == config_of(views(a@)),
{
    let ghost av = views(a@);
    assert(forall|i: int| 0 <= i < 9 ==> av[i] == (#[trigger] a@[i])@);
    let host = match &a[0] {
        NvsAnswer::Str(s) => s.clone(),
        _ => return None,
    };
    if host.as_str().is_empty() {
        return None;
    }
    let port = match &a[1] {
        NvsAnswer::U32(v) => low_half(*v),
        _ => DEFAULT_PORT,
    };
    Some(
        MqttConfig {
            host,
            port,
            username: stored_text_or(&a[2], ""),
            password: stored_text_or(&a[3], ""),
            client_id: stored_text_or(&a[4], ""),
            topics: load_topics(a),
        },
    )
}

/// A configuration whose texts can be stored and fit their buffers.
pub open spec fn keepable(c: ConfigView) -> bool {
    &&& fits(c.host, TEXT_CAP as nat)
    &&& fits(c.username, TEXT_CAP as nat)
    &&& fits(c.password, TEXT_CAP as nat)
    &&& fits(c.client_id, TEXT_CAP as nat)
    &&& fits(c.topics.arm, TOPIC_CAP as nat)
    &&& fits(c.topics.disarm, TOPIC_CAP as nat)
    &&& fits(c.topics.silent, TOPIC_CAP as nat)
    &&& fits(c.topics.alarm, TOPIC_CAP as nat)
}

proof fn lemma_keys()
    ensures
        ({
            let keys = seq![
                "host"@,
                "port"@,
                "user"@,
                "pass"@,
                "cid"@,
                "t_arm"@,
                "t_dis"@,
                "t_sil"@,
                "t_alm"@,
            ];
            forall|i: int, j: int|
                0 <= i < 9 && 0 <= j < 9 && i != j ==> #[trigger] keys[i] != #[trigger] keys[j]
        }),
{
    reveal_strlit("host");
    reveal_strlit("port");
    reveal_strlit("user");
    reveal_strlit("pass");
    reveal_strlit("cid");
    reveal_strlit("t_arm");
    reveal_strlit("t_dis");
    reveal_strlit("t_sil");
    reveal_strlit("t_alm");
    assert("host"@[0] == 'h' && "port"@[0] == 'p' && "user"@[0] == 'u' && "pass"@[0] == 'p'
        && "cid"@[0] == 'c');
    assert("port"@[1] == 'o' && "pass"@[1] == 'a');
    assert("t_arm"@[0] == 't' && "t_dis"@[0] == 't' && "t_sil"@[0] == 't' && "t_alm"@[0] == 't');
    assert("t_arm"@[2] == 'a' && "t_dis"@[2] == 'd' && "t_sil"@[2] == 's' && "t_alm"@[2] == 'a');
    assert("t_arm"@[3] == 'r' && "t_alm"@[3] == 'l');
}

/// A stored configuration is read back as it was, if it names a host and its
/// texts fit; one without a host is read back as none.
pub proof fn config_reads_back(image: Image, c: ConfigView)
    requires
        keepable(c),
    ensures
        config_of(answers(all_written(image, config_writes(c)), config_read_views())) == (
        if c.host.len() > 0 {
            Some(c)
        } else {
            None
        }),
{
    let ws = config_writes(c);
    let after = all_written(image, ws);
    lemma_keys();
    let keys = seq![
        "host"@,
        "port"@,
        "user"@,
        "pass"@,
        "cid"@,
        "t_arm"@,
        "t_dis"@,
        "t_sil"@,
        "t_alm"@,
    ];
    assert forall|i: int| 0 <= i < 9 implies ws[i].key == #[trigger] keys[i] by {}
    crate::nvs::lemma_distinct_writes(image, ws);
    assert forall|i: int| 0 <= i < 9 implies after.dom().contains(#[trigger] ws[i].key)
        && after[ws[i].key] == ws[i].value by {}
    let a = answers(after, config_read_views());
    assert(ws[0].key == "host"@ && ws[1].key == "port"@ && ws[2].key == "user"@ && ws[3].key
        == "pass"@ && ws[4].key == "cid"@ && ws[5].key == "t_arm"@ && ws[6].key == "t_dis"@
        && ws[7].key == "t_sil"@ && ws[8].key == "t_alm"@);
}

/// Nothing is read from a flash that no configuration was written to.
pub proof fn no_config_without_a_write()
    ensures
        config_of(answers(Map::empty(), config_read_views())) is None,
{
}

// ── Laws of the topics ──────────────────────────────────────────────────────

proof fn lemma_filter_contains(all: Seq<Seq<char>>, x: Seq<char>)
    ensures
        all.filter(|t: Seq<char>| t.len() > 0).contains(x) <==> all.contains(x) && x.len() > 0,
    decreases all.len(),
{
    reveal(Seq::filter);
    let p = |t: Seq<char>| t.len() > 0;
    if all.len() > 0 {
        let init = all.drop_last();
        lemma_filter_contains(init, x);
        let kept = init.filter(p);
        assert(all =~= init.push(all.last()));
        assert(all.contains(x) <==> init.contains(x) || all.last() == x) by {
            if all.contains(x) {
                let i = choose|i: int| 0 <= i < all.len() && all[i] == x;
                if i < init.len() {
                    assert(init[i] == x);
                }
            }
            if init.contains(x) {
                let i = choose|i: int| 0 <= i < init.len() && init[i] == x;
                assert(all[i] == x);
            }
            if all.last() == x {
                assert(all[all.len() - 1] == x);
            }
        }
        if p(all.last()) {
            let more = kept.push(all.last());
            assert(all.filter(p) == more);
            if more.contains(x) {
                let i = choose|i: int| 0 <= i < more.len() && more[i] == x;
                if i < kept.len() {
                    assert(kept[i] == x);
                }
            }
            if kept.contains(x) {
                let i = choose|i: int| 0 <= i < kept.len() && kept[i] == x;
                assert(more[i] == x);
            }
            if all.last() == x {
                assert(more[kept.len() as int] == x);
            }
        }
    }
}

/// What gives a command is subscribed to, and nothing else: a topic is among the
/// subscribed ones just where a message on it gives a command, and that is where it
/// is not empty and is one of the four of the configuration.
pub proof fn what_commands_is_subscribed_to(topic: Seq<char>, t: TopicsView)
    ensures
        all_topics(t).filter(|s: Seq<char>| s.len() > 0).contains(topic) <==> topic_cmd(topic, t)
            is Some,
        topic_cmd(topic, t) is Some <==> topic.len() > 0 && (topic == t.arm || topic == t.disarm
            || topic == t.silent || topic == t.alarm),
{
    let all = all_topics(t);
    lemma_filter_contains(all, topic);
    assert(all[0] == t.arm && all[1] == t.disarm && all[2] == t.silent && all[3] == t.alarm);
    if all.contains(topic) {
        let i = choose|i: int| 0 <= i < all.len() && all[i] == topic;
        assert(i == 0 || i == 1 || i == 2 || i == 3);
    }
}

/// As many topics are subscribed to as the configuration has that are not empty.
pub proof fn each_topic_is_subscribed_to_once(t: TopicsView)
    ensures
        all_topics(t).filter(|s: Seq<char>| s.len() > 0).len() == (if t.arm.len() > 0 {
            1int
        } else {
            0
        }) + (if t.disarm.len() > 0 {
            1int
        } else {
            0
        }) + (if t.silent.len() > 0 {
            1int
        } else {
            0
        }) + (if t.alarm.len() > 0 {
            1int
        } else {
            0
        }),
{
    reveal(Seq::filter);
    let all = all_topics(t);
    assert(all.drop_last() =~= seq![t.arm, t.disarm, t.silent]);
    assert(seq![t.arm, t.disarm, t.silent].drop_last() =~= seq![t.arm, t.disarm]);
    assert(seq![t.arm, t.disarm].drop_last() =~= seq![t.arm]);
    assert(seq![t.arm].drop_last() =~= Seq::<Seq<char>>::empty());
    let p = |s: Seq<char>| s.len() > 0;
    assert(Seq::<Seq<char>>::empty().filter(p).len() == 0);
    assert(seq![t.arm].filter(p).len() == if t.arm.len() > 0 { 1int } else { 0 });
    let two = seq![t.arm, t.disarm].filter(p).len();
    assert(two == seq![t.arm].filter(p).len() + if t.disarm.len() > 0 { 1int } else { 0 });
    let three = seq![t.arm, t.disarm, t.silent].filter(p).len();
    assert(three == two + if t.silent.len() > 0 { 1int } else { 0 });
}

/// Which command a topic gives: that of its own field; where two fields hold the
/// same topic, arming comes before disarming, that before silencing, and that before
/// the alarm.
pub proof fn a_topic_gives_the_command_of_its_field(topic: Seq<char>, t: TopicsView)
    ensures
        topic.len() == 0 ==> topic_cmd(topic, t) is None,
        topic_cmd(topic, t) == Some(ControlCmd::Arm) <==> topic.len() > 0 && topic == t.arm,
        topic_cmd(topic, t) == Some(ControlCmd::Disarm) <==> topic.len() > 0 && topic == t.disarm
            && topic != t.arm,
        topic_cmd(topic, t) == Some(ControlCmd::Silent) <==> topic.len() > 0 && topic == t.silent
            && topic != t.arm && topic != t.disarm,
        topic_cmd(topic, t) == Some(ControlCmd::Alarm) <==> topic.len() > 0 && topic == t.alarm
            && topic != t.arm && topic != t.disarm && topic != t.silent,
{
}

/// A part of the login is handed on as it is, and is left out where it is empty.
pub proof fn an_empty_part_is_left_out(s: Seq<char>)
    ensures
        s.len() > 0 ==> unless_empty(s) == Some(s),
        s.len() == 0 ==> unless_empty(s) is None,
{
}

// ── Laws of the attempts ────────────────────────────────────────────────────

/// What a series of attempts leads to. Attempts that fail are followed by the next,
/// up to the third. The first that connects ends the series as connected. The user
/// ends it by cancelling, before an attempt or in it; the third failure ends it. It
/// is then told as cancelled if the user has cancelled, else with the last error.
pub proof fn a_series_ends_with_its_outcome(
    run: RunView,
    rounds: Seq<(bool, AttemptView)>,
    cancelled: bool,
    k: int,
)
    requires
        !run.stopped,
        0 <= k < rounds.len(),
        run.attempts + k < 3,
        forall|j: int| 0 <= j < k ==> !(#[trigger] rounds[j]).0 && rounds[j].1 is Failed,
    ensures
        ({
            let told = run.told(rounds, cancelled);
            let before = if k == 0 {
                run.last_err
            } else {
                rounds[k - 1].1->Failed_0
            };
            let failed = |e: Seq<char>|
                EventView::ConnectError(
                    if cancelled {
                        "Отменено"@
                    } else {
                        e
                    },
                );
            &&& rounds[k].0 ==> told.len() == k + 1 && told.last() == failed(before)
            &&& !rounds[k].0 && rounds[k].1 is Connected ==> told.len() == k + 2 && told.last()
                is Connected
            &&& !rounds[k].0 && rounds[k].1 is Cancelled ==> told.len() == k + 2 && told.last()
                == failed(before)
            &&& !rounds[k].0 && rounds[k].1 is Failed && run.attempts + k == 2 ==> told.len() == k
                + 2 && told.last() == failed(rounds[k].1->Failed_0)
        }),
    decreases k,
{
    let told = run.told(rounds, cancelled);
    if k > 0 {
        assert(!rounds[0].0 && rounds[0].1 is Failed);
        let after = run.begun().ended(rounds[0].1);
        let rest = rounds.drop_first();
        assert forall|j: int| 0 <= j < k - 1 implies !(#[trigger] rest[j]).0 && rest[j].1
            is Failed by {
            assert(rest[j] == rounds[j + 1]);
        }
        assert(rest[k - 1] == rounds[k]);
        if k > 1 {
            assert(rest[k - 2] == rounds[k - 1]);
        }
        a_series_ends_with_its_outcome(after, rest, cancelled, k - 1);
        assert(told.last() == after.told(rest, cancelled).last());
    } else if !rounds[0].0 {
        let after = run.begun().ended(rounds[0].1);
        let rest = rounds.drop_first();
        if !(rounds[0].1 is Connected) && (rounds[0].1 is Cancelled || run.attempts == 2) {
            assert(after.told(rest, cancelled) =~= seq![after.failure(cancelled)]);
            assert(told.last() == after.failure(cancelled));
        }
    }
}

/// An attempt is told with its number and that there are three.
pub proof fn an_attempt_is_told_with_its_number(
    run: RunView,
    rounds: Seq<(bool, AttemptView)>,
    cancelled: bool,
)
    requires
        rounds.len() > 0,
        run.attempts < 3,
        !run.stopped,
    ensures
        !rounds[0].0 ==> run.told(rounds, cancelled)[0] == (EventView::Connecting {
            attempt: (run.attempts + 1) as u8,
            max: 3,
        }),
        RunView::start().attempts == 0 && !RunView::start().stopped
            && RunView::start().last_err.len() == 0,
{
}

// ── Laws of the storage ─────────────────────────────────────────────────────

/// The text can be kept and read in a buffer of `size` bytes.
pub open spec fn short(s: Seq<char>, size: int) -> bool {
    vstd::utf8::encode_utf8(s).len() < size && !s.contains('\0')
}

/// A configuration with texts of up to 255 bytes and topics of up to 127 is kept in
/// the namespace `mqtt`, under the keys `host`, `port`, `user`, `pass`, `cid`, `t_arm`, `t_dis`, `t_sil` and
/// `t_alm`, and read back; no other key is touched.
pub proof fn the_configuration_is_kept(image: Image, c: ConfigView, other: Seq<char>)
    requires
        short(c.host, 256) && short(c.username, 256) && short(c.password, 256) && short(
            c.client_id,
            256,
        ),
        short(c.topics.arm, 128) && short(c.topics.disarm, 128) && short(c.topics.silent, 128)
            && short(c.topics.alarm, 128),
    ensures
        ({
            let after = all_written(image, config_writes(c));
            &&& NAMESPACE@ == "mqtt"@
            &&& after["host"@] == ValueView::Str(c.host)
            &&& after["port"@] == ValueView::U32(c.port as u32)
            &&& after["user"@] == ValueView::Str(c.username)
            &&& after["pass"@] == ValueView::Str(c.password)
            &&& after["cid"@] == ValueView::Str(c.client_id)
            &&& after["t_arm"@] == ValueView::Str(c.topics.arm)
            &&& after["t_dis"@] == ValueView::Str(c.topics.disarm)
            &&& after["t_sil"@] == ValueView::Str(c.topics.silent)
            &&& after["t_alm"@] == ValueView::Str(c.topics.alarm)
            &&& c.host.len() > 0 ==> config_of(answers(after, config_read_views())) == Some(c)
            &&& other != "host"@ && other != "port"@ && other != "user"@ && other != "pass"@
                && other != "cid"@ && other != "t_arm"@ && other != "t_dis"@ && other != "t_sil"@
                && other != "t_alm"@ ==> after.dom().contains(other) == image.dom().contains(other)
                && after[other] == image[other]
        }),
{
    config_reads_back(image, c);
    let ws = config_writes(c);
    lemma_keys();
    let keys = seq![
        "host"@,
        "port"@,
        "user"@,
        "pass"@,
        "cid"@,
        "t_arm"@,
        "t_dis"@,
        "t_sil"@,
        "t_alm"@,
    ];
    assert forall|i: int| 0 <= i < 9 implies ws[i].key == #[trigger] keys[i] by {}
    crate::nvs::lemma_distinct_writes(image, ws);
    assert(ws[0].key == "host"@ && ws[1].key == "port"@ && ws[2].key == "user"@ && ws[3].key
        == "pass"@ && ws[4].key == "cid"@ && ws[5].key == "t_arm"@ && ws[6].key == "t_dis"@
        && ws[7].key == "t_sil"@ && ws[8].key == "t_alm"@);
    let after = all_written(image, ws);
    assert forall|i: int| 0 <= i < 9 implies after[#[trigger] keys[i]] == ws[i].value by {
        assert(after[ws[i].key] == ws[i].value);
    }
    assert(keys[0] == "host"@ && keys[1] == "port"@ && keys[2] == "user"@ && keys[3] == "pass"@
        && keys[4] == "cid"@ && keys[5] == "t_arm"@ && keys[6] == "t_dis"@ && keys[7] == "t_sil"@
        && keys[8] == "t_alm"@);
    if forall|i: int| 0 <= i < 9 ==> #[trigger] keys[i] != other {
        assert forall|i: int| 0 <= i < ws.len() implies (#[trigger] ws[i]).key != other by {
            assert(keys[i] != other);
        }
        assert(image.dom().contains(other) == after.dom().contains(other));
    }
}

/// What is not stored, or cannot be read, has its default: the port 1883, an empty
/// login, and the topics of the panel. Without a host there is no configuration.
pub proof fn missing_parts_have_defaults(a: Seq<AnswerView>)
    requires
        a.len() == 9,
    ensures
        config_of(a) is Some <==> (a[0] matches AnswerView::Str(host) && host.len() > 0),
        config_of(a) matches Some(c) ==> {
            &&& a[0] == AnswerView::Str(c.host)
            &&& a[1] matches AnswerView::U32(v) ==> c.port == v % 65536
            &&& !(a[1] is U32) ==> c.port == 1883
            &&& a[2] == AnswerView::Str(c.username) || !(a[2] is Str) && c.username == ""@
            &&& a[3] == AnswerView::Str(c.password) || !(a[3] is Str) && c.password == ""@
            &&& a[4] == AnswerView::Str(c.client_id) || !(a[4] is Str) && c.client_id == ""@
            &&& a[5] == AnswerView::Str(c.topics.arm) || !(a[5] is Str) && c.topics.arm
                == "security/arm"@
            &&& a[6] == AnswerView::Str(c.topics.disarm) || !(a[6] is Str) && c.topics.disarm
                == "security/disarm"@
            &&& a[7] == AnswerView::Str(c.topics.silent) || !(a[7] is Str) && c.topics.silent
                == "security/silent"@
            &&& a[8] == AnswerView::Str(c.topics.alarm) || !(a[8] is Str) && c.topics.alarm
                == "security/alarm"@
        },
{
}

// ── Laws of the worker ──────────────────────────────────────────────────────

/// Without a connection the worker connects just where it is asked to, with the very
/// configuration; with one it leaves just where it is asked to, or where the client or
/// the network is gone. It ends, either way, just where nobody can command it any more.
pub proof fn the_worker_does_what_it_is_asked_to(
    recv: CmdRecv,
    dropped: bool,
    notices: Seq<bool>,
)
    ensures
        idle_step(recv) is Connect <==> (recv matches CmdRecv::Cmd(cmd) && cmd is Connect),
        recv matches CmdRecv::Cmd(cmd) ==> (cmd matches MqttCmd::Connect(cfg) ==> (idle_step(
            recv,
        ) matches IdleStep::Connect(c) && c == cfg)),
        idle_step(recv) is Exit <==> recv is Closed,
        session_step(recv) is Exit <==> recv is Closed,
        session_step(recv) is Leave <==> (recv matches CmdRecv::Cmd(cmd) && cmd is Disconnect),
        link_step(dropped, notices) is Leave <==> dropped || exists|i: int|
            0 <= i < notices.len() && !#[trigger] notices[i],
        !(link_step(dropped, notices) is Exit),
{
    if notices.contains(false) {
        let i = choose|i: int| 0 <= i < notices.len() && notices[i] == false;
        assert(!notices[i]);
    }
}

/// An attempt succeeds just where the broker answered and all topics are subscribed
/// to; it is cancelled just where the user cancelled before an answer; everything else
/// is a failure, with the client's error or one of its own.
pub proof fn an_attempt_needs_an_answer_and_the_topics(report: AttemptReport)
    ensures
        attempt_of(report) is Connected <==> (report matches AttemptReport::Answered {
            subscribed,
        } && subscribed),
        attempt_of(report) is Cancelled <==> (report matches AttemptReport::NoAnswer {
            cancelled,
        } && cancelled),
        report matches AttemptReport::NoClient(e) ==> attempt_of(report) == AttemptView::Failed(
            e@,
        ),
        report matches AttemptReport::NoAnswer { cancelled } ==> (!cancelled ==> attempt_of(report)
            == AttemptView::Failed("Таймаут подключения"@)),
        report matches AttemptReport::Answered { subscribed } ==> (!subscribed ==> attempt_of(
            report,
        ) == AttemptView::Failed("Ошибка подписки на топики"@)),
{
}

} // verus!
