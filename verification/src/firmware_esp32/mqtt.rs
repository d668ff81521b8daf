//! Publishing sensor values to Home Assistant over MQTT.
//!
//! The connection itself is driven from outside. This module decides what to do
//! next, when a value is worth publishing and when the gateway has to reboot, and
//! spells the topics and payloads. Times are in microseconds.

use vstd::prelude::*;

use crate::firmware_esp32::values;
use crate::firmware_esp32::values::{empty_texts, row_index, set_text};
use crate::fixed;
use crate::host::decoder as glyph;
use crate::text;

verus! {

/// Keep-alive that the broker is told.
pub const MQTT_KEEPALIVE_SECS: u16 = 60;

/// Time between two pings: well within the keep-alive.
pub const PING_INTERVAL_US: u64 = 30_000_000;

/// How long a value has to stand before it is published. The panel updates its
/// digits one at a time, so a change shows values that never were.
pub const DEBOUNCE_US: u64 = 500_000;

/// How long a value may look malformed before the gateway reboots.
pub const WATCHDOG_US: u64 = 300_000_000;

/// Seconds until the next try after a connection failed.
pub const RETRY_SECS: u64 = 10;

/// Seconds until the next try after an announcement failed.
pub const ANNOUNCE_RETRY_SECS: u64 = 5;

/// Whether a value looks malformed: a glyph that was not recognised, a gap, or a
/// leading zero without a decimal point. Empty is not: nothing was seen yet.
pub open spec fn malformed(s: Seq<char>) -> bool {
    ||| s.contains('#')
    ||| exists|i: int| 0 <= i < s.len() - 1 && #[trigger] s[i] == ' ' && s[i + 1] == ' '
    ||| s.len() > 1 && s[0] == '0' && !s.contains('.')
}

/// Whether a value looks malformed.
pub fn is_value_malformed(s: &str) -> (bad: bool)
    ensures
        bad == malformed(s@),
{
    let chars: Vec<char> = text::chars_of(s);
    let mut i: usize = 0;
    let mut dotted: bool = false;
    while i < chars.len()
        invariant
            i <= chars.len(),
            chars@ == s@,
            dotted == s@.take(i as int).contains('.'),
            forall|j: int| 0 <= j < i ==> #[trigger] s@[j] != '#',
            forall|j: int|
                0 <= j < i && j < s@.len() - 1 ==> !(#[trigger] s@[j] == ' ' && s@[j + 1] == ' '),
        decreases chars.len() - i,
    {
        let c: char = chars[i];
        if c == '#' {
            assert(s@[i as int] == '#');
            return true;
        }
        if c == ' ' && i + 1 < chars.len() && chars[i + 1] == ' ' {
            assert(s@[i as int] == ' ' && s@[i + 1] == ' ');
            return true;
        }
        proof {
            let t = s@.take(i as int);
            assert(s@.take(i + 1) =~= t.push(c));
            lemma_contains_push(t, c);
        }
        if c == '.' {
            dotted = true;
        }
        i += 1;
    }
    assert(s@.take(i as int) =~= s@);
    chars.len() > 1 && chars[0] == '0' && !dotted
}

proof fn lemma_contains_push(t: Seq<char>, c: char)
    ensures
        t.push(c).contains('.') == (t.contains('.') || c == '.'),
{
    if t.contains('.') {
        let j = t.index_of('.');
        assert(t.push(c)[j] == '.');
    }
    if c == '.' {
        assert(t.push(c)[t.len() as int] == '.');
    }
    if t.push(c).contains('.') {
        let j = t.push(c).index_of('.');
        if j < t.len() {
            assert(t[j] == '.');
        }
    }
}

/// What the five sensors are called, in the order of the rows.
pub open spec fn sensor_names() -> Seq<Seq<char>> {
    seq!["PM2.5"@, "TVOC"@, "CO2"@, "Temperature"@, "Humidity"@]
}

/// The sensors' device classes.
pub open spec fn device_classes() -> Seq<Seq<char>> {
    seq![
        "pm25"@,
        "volatile_organic_compounds_parts"@,
        "carbon_dioxide"@,
        "temperature"@,
        "humidity"@,
    ]
}

/// The sensors' units.
pub open spec fn units() -> Seq<Seq<char>> {
    seq!["µg/m³"@, "ppm"@, "ppm"@, "°C"@, "%"@]
}

/// One sensor's wiring in Home Assistant.
pub struct Sensor {
    /// The row's name.
    pub row: &'static str,
    /// Where the sensor is announced, and with what.
    pub disc_topic: String,
    pub disc_payload: String,
    /// Where its value is published.
    pub state_topic: String,
}

/// Where a sensor is announced.
pub open spec fn disc_topic(id: Seq<char>, row: Seq<char>) -> Seq<char> {
    "homeassistant/sensor/"@ + id + "/"@ + row + "/config"@
}

/// Where a sensor's value is published.
pub open spec fn state_topic(id: Seq<char>, row: Seq<char>) -> Seq<char> {
    id + "/"@ + row
}

/// What a sensor is announced with. All sensors of a unit share one device.
pub open spec fn disc_payload(i: int, id: Seq<char>, device: Seq<char>) -> Seq<char> {
    let row = glyph::row_names()[i];
    "{\"name\":\""@ + sensor_names()[i] + "\",\"uniq_id\":\""@ + id + "_"@ + row
        + "\",\"stat_t\":\""@ + id + "/"@ + row + "\",\"dev_cla\":\""@ + device_classes()[i]
        + "\",\"unit_of_meas\":\""@ + units()[i]
        + "\",\"stat_cla\":\"measurement\",\"dev\":{\"ids\":[\""@ + id + "\"],\"name\":\""@ + device
        + "\"}}"@
}

/// The client id of a unit.
pub open spec fn client_name(id: Seq<char>) -> Seq<char> {
    "aq_lcd_"@ + id
}

/// The client id of a unit. Two units must not share one: the broker would drop
/// the one when the other connects.
pub fn client_id(id: &str) -> (name: String)
    ensures
        name@ == client_name(id@),
{
    let mut name: String = "aq_lcd_".to_owned();
    name.append(id);
    name
}

fn sensor_texts(i: usize) -> (texts: (&'static str, &'static str, &'static str))
    requires
        i < glyph::ROWS_LEN,
    ensures
        texts.0@ == sensor_names()[i as int],
        texts.1@ == device_classes()[i as int],
        texts.2@ == units()[i as int],
{
    if i == 0 {
        ("PM2.5", "pm25", "µg/m³")
    } else if i == 1 {
        ("TVOC", "volatile_organic_compounds_parts", "ppm")
    } else if i == 2 {
        ("CO2", "carbon_dioxide", "ppm")
    } else if i == 3 {
        ("Temperature", "temperature", "°C")
    } else {
        ("Humidity", "humidity", "%")
    }
}

/// The wiring of the sensor of a row, for the unit `id` whose device is called
/// `device`.
pub fn sensor(i: usize, id: &str, device: &str) -> (s: Sensor)
    requires
        i < glyph::ROWS_LEN,
    ensures
        s.row@ == glyph::row_names()[i as int],
        s.disc_topic@ == disc_topic(id@, s.row@),
        s.disc_payload@ == disc_payload(i as int, id@, device@),
        s.state_topic@ == state_topic(id@, s.row@),
{
    let row = glyph::row_name(i);
    let (name, dev_cla, unit) = sensor_texts(i);
    let mut topic: String = "homeassistant/sensor/".to_owned();
    topic.append(id);
    topic.append("/");
    topic.append(row);
    topic.append("/config");
    let mut payload: String = "{\"name\":\"".to_owned();
    payload.append(name);
    payload.append("\",\"uniq_id\":\"");
    payload.append(id);
    payload.append("_");
    payload.append(row);
    payload.append("\",\"stat_t\":\"");
    payload.append(id);
    payload.append("/");
    payload.append(row);
    payload.append("\",\"dev_cla\":\"");
    payload.append(dev_cla);
    payload.append("\",\"unit_of_meas\":\"");
    payload.append(unit);
    payload.append("\",\"stat_cla\":\"measurement\",\"dev\":{\"ids\":[\"");
    payload.append(id);
    payload.append("\"],\"name\":\"");
    payload.append(device);
    payload.append("\"}}");
    let mut state: String = id.to_owned();
    state.append("/");
    state.append(row);
    Sensor { row, disc_topic: topic, disc_payload: payload, state_topic: state }
}

/// What is known of one sensor's value.
pub struct Stage {
    /// The value published last.
    pub last: Seq<char>,
    /// A value that is not published yet.
    pub pending: Seq<char>,
    /// When it may be.
    pub deadline: Option<u64>,
}

/// Nothing known.
pub open spec fn unknown() -> Stage {
    Stage { last: Seq::empty(), pending: Seq::empty(), deadline: None }
}

/// A value was read: one that is published already calls a pending change off;
/// another one has to stand for a while.
pub open spec fn noted(s: Stage, value: Seq<char>, now: u64) -> Stage {
    if s.last == value {
        Stage { pending: Seq::empty(), deadline: None, ..s }
    } else if s.pending != value {
        Stage { pending: value, deadline: Some((now + DEBOUNCE_US) as u64), ..s }
    } else {
        s
    }
}

/// The pending value was published.
pub open spec fn sent(s: Stage) -> Stage {
    Stage { last: s.pending, pending: Seq::empty(), deadline: None }
}

/// Whether a pending value may be published.
pub open spec fn due(s: Stage, now: u64) -> bool {
    s.deadline matches Some(d) && d <= now
}

/// The first `n` sensors' pending values that may be published.
pub open spec fn due_upto(stages: Seq<Stage>, now: u64, n: nat) -> Seq<int>
    decreases n,
{
    if n == 0 {
        Seq::empty()
    } else if due(stages[n - 1], now) {
        due_upto(stages, now, (n - 1) as nat).push(n - 1)
    } else {
        due_upto(stages, now, (n - 1) as nat)
    }
}

/// The watchdog's verdict.
#[derive(Copy, Clone, Debug, PartialEq, Eq, Structural)]
pub enum Watchdog {
    /// All values look well.
    Clean,
    /// They do again.
    Disarmed,
    /// One does not.
    Armed,
    /// One has not for too long.
    Reboot,
}

/// Since when a value has looked malformed, after a look at all of them.
pub open spec fn watched(bad_since: Option<u64>, bad: bool, now: u64) -> Option<u64> {
    if !bad {
        None
    } else if bad_since is Some {
        bad_since
    } else {
        Some(now)
    }
}

/// The verdict of a look at all values.
pub open spec fn verdict(bad_since: Option<u64>, bad: bool, now: u64) -> Watchdog {
    if bad {
        if now - watched(bad_since, bad, now)->0 >= WATCHDOG_US {
            Watchdog::Reboot
        } else {
            Watchdog::Armed
        }
    } else if bad_since is Some {
        Watchdog::Disarmed
    } else {
        Watchdog::Clean
    }
}

/// Whether a value that was published looks malformed.
pub open spec fn any_bad(stages: Seq<Stage>) -> bool {
    exists|i: int| 0 <= i < stages.len() && malformed((#[trigger] stages[i]).last)
}

/// What was published, what waits, and the watchdog, for one connection.
pub struct Publisher {
    last: Vec<heapless::String<16>>,
    pending: Vec<heapless::String<16>>,
    deadline: Vec<Option<u64>>,
    bad_since: Option<u64>,
}

impl Publisher {
    /// What is known of the sensors, in the order of the rows.
    pub closed spec fn stages(&self) -> Seq<Stage> {
        Seq::new(
            glyph::ROWS_LEN as nat,
            |i: int|
                Stage {
                    last: fixed::text16(self.last@[i]),
                    pending: fixed::text16(self.pending@[i]),
                    deadline: self.deadline@[i],
                },
        )
    }

    /// Since when a value has looked malformed.
    pub closed spec fn bad_since(&self) -> Option<u64> {
        self.bad_since
    }

    pub closed spec fn wf(&self) -> bool {
        &&& self.last@.len() == glyph::ROWS_LEN
        &&& self.pending@.len() == glyph::ROWS_LEN
        &&& self.deadline@.len() == glyph::ROWS_LEN
    }

    /// Nothing known: every sensor's first value is published.
    pub fn new() -> (p: Self)
        ensures
            p.wf(),
            p.stages() == Seq::new(glyph::ROWS_LEN as nat, |i: int| unknown()),
            p.bad_since() is None,
    {
        let mut deadline: Vec<Option<u64>> = Vec::new();
        let mut i: usize = 0;
        while i < glyph::ROWS_LEN
            invariant
                i <= glyph::ROWS_LEN,
                deadline@.len() == i,
                forall|j: int| 0 <= j < i ==> #[trigger] deadline@[j] is None,
            decreases glyph::ROWS_LEN - i,
        {
            deadline.push(None);
            i += 1;
        }
        let p = Publisher {
            last: empty_texts(),
            pending: empty_texts(),
            deadline,
            bad_since: None,
        };
        proof {
            assert forall|j: int| 0 <= j < glyph::ROWS_LEN implies #[trigger] p.stages()[j]
                == unknown() by {
                assert(values::says(p.last@)[j] == fixed::text16(p.last@[j]));
                assert(values::says(p.pending@)[j] == fixed::text16(p.pending@[j]));
            }
            assert(p.stages() =~= Seq::new(glyph::ROWS_LEN as nat, |i: int| unknown()));
        }
        p
    }

    /// Takes a value that was read. A name that there is no sensor for is ignored.
    pub fn on_update(&mut self, name: &str, value: &heapless::String<16>, now: u64)
        requires
            old(self).wf(),
            now + DEBOUNCE_US <= u64::MAX,
        ensures
            final(self).wf(),
            final(self).bad_since() == old(self).bad_since(),
            final(self).stages() == match values::row_of(name@) {
                Some(i) => old(self).stages().update(
                    i,
                    noted(old(self).stages()[i], fixed::text16(*value), now),
                ),
                None => old(self).stages(),
            },
    {
        let idx: usize = match row_index(name) {
            Some(i) => i,
            None => {
                return;
            },
        };
        let ghost stage = self.stages()[idx as int];
        let v: &str = fixed::text16_str(value);
        if text::same_text(fixed::text16_str(&self.last[idx]), v) {
            proof {
                reveal_strlit("");
                assert(""@ =~= Seq::<char>::empty());
            }
            self.stage(idx, "", None);
        } else if !text::same_text(fixed::text16_str(&self.pending[idx]), v) {
            self.stage(idx, v, Some(now + DEBOUNCE_US));
        } else {
            assert(self.stages() =~= old(self).stages().update(idx as int, stage));
        }
    }

    /// Sets what is pending of a sensor.
    fn stage(&mut self, idx: usize, v: &str, deadline: Option<u64>)
        requires
            old(self).wf(),
            idx < glyph::ROWS_LEN,
            vstd::utf8::encode_utf8(v@).len() <= 16,
        ensures
            final(self).wf(),
            final(self).bad_since() == old(self).bad_since(),
            final(self).stages() == old(self).stages().update(
                idx as int,
                (Stage { pending: v@, deadline, ..old(self).stages()[idx as int] }),
            ),
    {
        let ghost before = self.pending@;
        set_text(&mut self.pending, idx, v);
        self.deadline.set(idx, deadline);
        proof {
            let wanted = old(self).stages().update(
                idx as int,
                Stage { pending: v@, deadline, ..old(self).stages()[idx as int] },
            );
            assert forall|j: int| 0 <= j < glyph::ROWS_LEN implies #[trigger] self.stages()[j]
                == wanted[j] by {
                assert(values::says(self.pending@)[j] == fixed::text16(self.pending@[j]));
                assert(values::says(before)[j] == fixed::text16(before[j]));
            }
            assert(self.stages() =~= wanted);
        }
    }

    /// When the next pending value may be published, if there is one.
    pub fn next_wake(&self) -> (wake: Option<u64>)
        requires
            self.wf(),
        ensures
            match wake {
                Some(d) => {
                    &&& exists|i: int|
                        0 <= i < glyph::ROWS_LEN && (#[trigger] self.stages()[i]).deadline == Some(d)
                    &&& forall|i: int|
                        0 <= i < glyph::ROWS_LEN ==> ((#[trigger] self.stages()[i]).deadline matches Some(
                            e,
                        ) ==> d <= e)
                },
                None => forall|i: int|
                    0 <= i < glyph::ROWS_LEN ==> (#[trigger] self.stages()[i]).deadline is None,
            },
    {
        let mut wake: Option<u64> = None;
        let mut i: usize = 0;
        while i < glyph::ROWS_LEN
            invariant
                i <= glyph::ROWS_LEN,
                self.wf(),
                match wake {
                    Some(d) => {
                        &&& exists|j: int| 0 <= j < i && (#[trigger] self.stages()[j]).deadline == Some(d)
                        &&& forall|j: int|
                            0 <= j < i ==> ((#[trigger] self.stages()[j]).deadline matches Some(e)
                                ==> d <= e)
                    },
                    None => forall|j: int|
                        0 <= j < i ==> (#[trigger] self.stages()[j]).deadline is None,
                },
            decreases glyph::ROWS_LEN - i,
        {
            assert(self.stages()[i as int].deadline == self.deadline@[i as int]);
            match (self.deadline[i], wake) {
                (Some(d), None) => {
                    wake = Some(d);
                },
                (Some(d), Some(w)) => {
                    if d < w {
                        wake = Some(d);
                    }
                },
                _ => {},
            }
            i += 1;
        }
        wake
    }

    /// The sensors whose pending values may be published, in the order of the rows.
    pub fn due(&self, now: u64) -> (list: Vec<usize>)
        requires
            self.wf(),
        ensures
            list@.map_values(|i: usize| i as int) == due_upto(
                self.stages(),
                now,
                glyph::ROWS_LEN as nat,
            ),
            forall|k: int| 0 <= k < list@.len() ==> #[trigger] list@[k] < glyph::ROWS_LEN,
    {
        let mut list: Vec<usize> = Vec::new();
        let mut i: usize = 0;
        assert(list@.map_values(|i: usize| i as int) =~= due_upto(self.stages(), now, 0));
        while i < glyph::ROWS_LEN
            invariant
                i <= glyph::ROWS_LEN,
                self.wf(),
                list@.map_values(|i: usize| i as int) == due_upto(self.stages(), now, i as nat),
                forall|k: int| 0 <= k < list@.len() ==> #[trigger] list@[k] < glyph::ROWS_LEN,
            decreases glyph::ROWS_LEN - i,
        {
            assert(self.stages()[i as int].deadline == self.deadline@[i as int]);
            if let Some(d) = self.deadline[i] {
                if d <= now {
                    let ghost before = list@;
                    list.push(i);
                    assert(list@.map_values(|i: usize| i as int) =~= before.map_values(
                        |i: usize| i as int,
                    ).push(i as int));
                }
            }
            i += 1;
        }
        list
    }

    /// The value that waits to be published of a sensor.
    pub fn payload(&self, idx: usize) -> (value: &str)
        requires
            self.wf(),
            idx < glyph::ROWS_LEN,
        ensures
            value@ == self.stages()[idx as int].pending,
    {
        fixed::text16_str(&self.pending[idx])
    }

    /// The pending value of a sensor was published.
    pub fn published(&mut self, idx: usize)
        requires
            old(self).wf(),
            idx < glyph::ROWS_LEN,
        ensures
            final(self).wf(),
            final(self).bad_since() == old(self).bad_since(),
            final(self).stages() == old(self).stages().update(
                idx as int,
                sent(old(self).stages()[idx as int]),
            ),
    {
        let ghost before = self.last@;
        let ghost stage = self.stages()[idx as int];
        set_text(&mut self.last, idx, fixed::text16_str(&self.pending[idx]));
        proof {
            let wanted = old(self).stages().update(idx as int, Stage { last: stage.pending, ..stage });
            assert forall|j: int| 0 <= j < glyph::ROWS_LEN implies #[trigger] self.stages()[j]
                == wanted[j] by {
                assert(values::says(self.last@)[j] == fixed::text16(self.last@[j]));
                assert(values::says(before)[j] == fixed::text16(before[j]));
            }
            assert(self.stages() =~= wanted);
            reveal_strlit("");
            assert(""@ =~= Seq::<char>::empty());
        }
        self.stage(idx, "", None);
        assert(self.stages() =~= old(self).stages().update(idx as int, sent(stage)));
    }

    /// Looks at the values that were published; to be called with every ping, so
    /// that a value that is stuck is seen too.
    pub fn watch(&mut self, now: u64) -> (w: Watchdog)
        requires
            old(self).wf(),
            old(self).bad_since() matches Some(t) ==> t <= now,
        ensures
            final(self).wf(),
            final(self).stages() == old(self).stages(),
            final(self).bad_since() == watched(
                old(self).bad_since(),
                any_bad(old(self).stages()),
                now,
            ),
            w == verdict(old(self).bad_since(), any_bad(old(self).stages()), now),
    {
        let mut bad: bool = false;
        let mut i: usize = 0;
        while i < glyph::ROWS_LEN
            invariant
                i <= glyph::ROWS_LEN,
                self.wf(),
                *self == *old(self),
                bad == (exists|j: int|
                    0 <= j < i && malformed((#[trigger] self.stages()[j]).last)),
            decreases glyph::ROWS_LEN - i,
        {
            assert(self.stages()[i as int].last == fixed::text16(self.last@[i as int]));
            if is_value_malformed(fixed::text16_str(&self.last[i])) {
                bad = true;
            }
            i += 1;
        }
        assert(bad == any_bad(self.stages()));
        if bad {
            let since: u64 = match self.bad_since {
                Some(t) => t,
                None => now,
            };
            self.bad_since = Some(since);
            if now - since >= WATCHDOG_US {
                Watchdog::Reboot
            } else {
                Watchdog::Armed
            }
        } else if self.bad_since.is_some() {
            self.bad_since = None;
            Watchdog::Disarmed
        } else {
            Watchdog::Clean
        }
    }
}

/// How far a connection is.
#[derive(Copy, Clone, Debug, PartialEq, Eq, Structural)]
pub enum Phase {
    /// The broker's name is being resolved.
    Resolve,
    /// The broker is being dialled.
    Dial,
    /// The client logs in.
    LogIn,
    /// A sensor is being announced.
    Announce(usize),
    /// Values are published.
    Connected,
}

/// The phase after one that succeeded or failed: any failure starts over.
pub open spec fn next_phase(p: Phase, ok: bool) -> Phase {
    if !ok {
        Phase::Resolve
    } else {
        match p {
            Phase::Resolve => Phase::Dial,
            Phase::Dial => Phase::LogIn,
            Phase::LogIn => Phase::Announce(0),
            Phase::Announce(i) => if i + 1 < glyph::ROWS_LEN {
                Phase::Announce((i + 1) as usize)
            } else {
                Phase::Connected
            },
            Phase::Connected => Phase::Connected,
        }
    }
}

/// Seconds to wait after a phase. A connection that breaks is set up again at
/// once.
pub open spec fn pause(p: Phase, ok: bool) -> u64 {
    if ok {
        0
    } else {
        match p {
            Phase::Announce(_) => ANNOUNCE_RETRY_SECS,
            Phase::Connected => 0,
            _ => RETRY_SECS,
        }
    }
}

/// A connection to the broker, with what was published over it.
pub struct Connection {
    pub phase: Phase,
    pub publisher: Publisher,
}

impl Connection {
    pub open spec fn wf(&self) -> bool {
        self.publisher.wf() && (self.phase matches Phase::Announce(i) ==> i < glyph::ROWS_LEN)
    }

    /// Not connected.
    pub fn new() -> (c: Self)
        ensures
            c.wf(),
            c.phase == Phase::Resolve,
            c.publisher.stages() == Seq::new(glyph::ROWS_LEN as nat, |i: int| unknown()),
            c.publisher.bad_since() is None,
    {
        Connection { phase: Phase::Resolve, publisher: Publisher::new() }
    }

    /// The phase succeeded or failed. Returns how many seconds to wait. What was
    /// published over an earlier connection is forgotten once connected, so that
    /// every value is published again.
    pub fn advance(&mut self, ok: bool) -> (wait_secs: u64)
        requires
            old(self).wf(),
        ensures
            final(self).wf(),
            final(self).phase == next_phase(old(self).phase, ok),
            wait_secs == pause(old(self).phase, ok),
            if final(self).phase == Phase::Connected && old(self).phase != Phase::Connected {
                &&& final(self).publisher.stages() == Seq::new(
                    glyph::ROWS_LEN as nat,
                    |i: int| unknown(),
                )
                &&& final(self).publisher.bad_since() is None
            } else {
                final(self).publisher == old(self).publisher
            },
    {
        let was: Phase = self.phase;
        if !ok {
            self.phase = Phase::Resolve;
            return match was {
                Phase::Announce(_) => ANNOUNCE_RETRY_SECS,
                Phase::Connected => 0,
                _ => RETRY_SECS,
            };
        }
        match was {
            Phase::Resolve => {
                self.phase = Phase::Dial;
            },
            Phase::Dial => {
                self.phase = Phase::LogIn;
            },
            Phase::LogIn => {
                self.phase = Phase::Announce(0);
            },
            Phase::Announce(i) => {
                if i + 1 < glyph::ROWS_LEN {
                    self.phase = Phase::Announce(i + 1);
                } else {
                    self.phase = Phase::Connected;
                    self.publisher = Publisher::new();
                }
            },
            Phase::Connected => {},
        }
        0
    }
}

/// One sensor's stage after values that were read, each with its time.
pub open spec fn noted_all(s: Stage, updates: Seq<(Seq<char>, u64)>) -> Stage
    decreases updates.len(),
{
    if updates.len() == 0 {
        s
    } else {
        noted(noted_all(s, updates.drop_last()), updates.last().0, updates.last().1)
    }
}

/// A value is only published once it has stood: where one is pending, it was read
/// half a second before its deadline, and nothing else was read since. So values
/// that the panel shows while it changes its digits are never published.
pub proof fn law_published_values_have_stood(s: Stage, updates: Seq<(Seq<char>, u64)>) -> (k: int)
    requires
        s.deadline is None,
        s.pending.len() == 0,
        forall|i: int|
            0 <= i < updates.len() ==> (#[trigger] updates[i]).1 + DEBOUNCE_US <= u64::MAX,
        noted_all(s, updates).deadline is Some,
    ensures
        0 <= k < updates.len(),
        noted_all(s, updates).deadline == Some((updates[k].1 + DEBOUNCE_US) as u64),
        forall|j: int|
            k <= j < updates.len() ==> (#[trigger] updates[j]).0 == noted_all(s, updates).pending,
        noted_all(s, updates).pending != noted_all(s, updates).last,
    decreases updates.len(),
{
    let before = updates.drop_last();
    let was = noted_all(s, before);
    let (value, now) = updates.last();
    lemma_last_is_kept(s, before);
    if was.last != value && was.pending != value {
        updates.len() - 1
    } else {
        assert forall|i: int| 0 <= i < before.len() implies (#[trigger] before[i]).1 + DEBOUNCE_US
            <= u64::MAX by {
            assert(before[i] == updates[i]);
        }
        let k = law_published_values_have_stood(s, before);
        assert forall|j: int| k <= j < updates.len() implies (#[trigger] updates[j]).0 == noted_all(
            s,
            updates,
        ).pending by {
            if j < before.len() {
                assert(before[j] == updates[j]);
            }
        }
        k
    }
}

proof fn lemma_last_is_kept(s: Stage, updates: Seq<(Seq<char>, u64)>)
    ensures
        noted_all(s, updates).last == s.last,
    decreases updates.len(),
{
    if updates.len() > 0 {
        lemma_last_is_kept(s, updates.drop_last());
    }
}

/// Only changes are published: once the value that was published last is read
/// again, nothing is due, however long it stands.
pub proof fn law_same_value_is_not_published_again(s: Stage, t1: u64, t2: u64)
    ensures
        !due(noted(s, s.last, t1), t2),
        noted(s, s.last, t1).last == s.last,
{
}

/// A new value that stands is published: it is due half a second after it was
/// read, and once published it is the last one.
pub proof fn law_new_value_becomes_due(s: Stage, value: Seq<char>, now: u64, later: u64)
    requires
        value != s.last,
        value != s.pending,
        now + DEBOUNCE_US <= later,
    ensures
        due(noted(s, value, now), later),
        sent(noted(s, value, now)).last == value,
        !due(sent(noted(s, value, now)), later),
{
}

/// Since when a value has looked malformed, after looks at all of them, each with
/// its time.
pub open spec fn watched_all(looks: Seq<(bool, u64)>) -> Option<u64>
    decreases looks.len(),
{
    if looks.len() == 0 {
        None
    } else {
        watched(watched_all(looks.drop_last()), looks.last().0, looks.last().1)
    }
}

/// The gateway only reboots after a value has looked malformed at every look for
/// five minutes.
pub proof fn law_reboot_needs_five_bad_minutes(looks: Seq<(bool, u64)>) -> (k: int)
    requires
        looks.len() > 0,
        verdict(watched_all(looks.drop_last()), looks.last().0, looks.last().1)
            == Watchdog::Reboot,
    ensures
        0 <= k < looks.len(),
        looks.last().1 - looks[k].1 >= WATCHDOG_US,
        forall|j: int| k <= j < looks.len() ==> (#[trigger] looks[j]).0,
{
    lemma_watched(looks)
}

proof fn lemma_watched(looks: Seq<(bool, u64)>) -> (k: int)
    requires
        watched_all(looks) is Some,
    ensures
        0 <= k < looks.len(),
        watched_all(looks) == Some(looks[k].1),
        forall|j: int| k <= j < looks.len() ==> (#[trigger] looks[j]).0,
    decreases looks.len(),
{
    let before = looks.drop_last();
    if watched_all(before) is Some {
        let k = lemma_watched(before);
        assert forall|j: int| k <= j < looks.len() implies (#[trigger] looks[j]).0 by {
            if j < before.len() {
                assert(before[j] == looks[j]);
            }
        }
        k
    } else {
        looks.len() - 1
    }
}

/// Whether a text has no slash.
pub open spec fn unslashed(s: Seq<char>) -> bool {
    !s.contains('/')
}

proof fn lemma_split_at_slash(a: Seq<char>, r: Seq<char>, b: Seq<char>, q: Seq<char>)
    requires
        a + seq!['/'] + r == b + seq!['/'] + q,
        unslashed(r),
        unslashed(q),
    ensures
        a == b,
        r == q,
{
    let s = a + seq!['/'] + r;
    let t = b + seq!['/'] + q;
    assert(s.len() == t.len());
    if a.len() < b.len() {
        assert(s[b.len() as int] == t[b.len() as int]);
        assert(t[b.len() as int] == '/');
        assert(s[b.len() as int] == r[b.len() - a.len() - 1]);
        assert(r[b.len() - a.len() - 1] == '/');
        assert(r.contains('/'));
    }
    if b.len() < a.len() {
        assert(t[a.len() as int] == s[a.len() as int]);
        assert(s[a.len() as int] == '/');
        assert(t[a.len() as int] == q[a.len() - b.len() - 1]);
        assert(q[a.len() - b.len() - 1] == '/');
        assert(q.contains('/'));
    }
    assert(a =~= s.take(a.len() as int));
    assert(b =~= t.take(a.len() as int));
    assert(r =~= s.skip(a.len() as int + 1));
    assert(q =~= t.skip(a.len() as int + 1));
}

proof fn lemma_rows_unslashed(i: int)
    requires
        0 <= i < glyph::ROWS_LEN,
    ensures
        unslashed(glyph::row_names()[i]),
{
    reveal_strlit("pm25");
    reveal_strlit("tvoc");
    reveal_strlit("co2");
    reveal_strlit("temp");
    reveal_strlit("humidity");
    let r = glyph::row_names()[i];
    if r.contains('/') {
        let j = r.index_of('/');
        assert(r[j] == '/');
    }
}

/// Units with different ids get along: no topic of the one is a topic of the
/// other, and no two sensors of a unit share one.
pub proof fn law_units_do_not_collide(id: Seq<char>, i: int, other: Seq<char>, j: int)
    requires
        0 <= i < glyph::ROWS_LEN,
        0 <= j < glyph::ROWS_LEN,
        id != other || i != j,
    ensures
        state_topic(id, glyph::row_names()[i]) != state_topic(other, glyph::row_names()[j]),
        disc_topic(id, glyph::row_names()[i]) != disc_topic(other, glyph::row_names()[j]),
        id != other ==> client_name(id) != client_name(other),
{
    let r = glyph::row_names()[i];
    let q = glyph::row_names()[j];
    let front = "homeassistant/sensor/"@;
    let back = "/config"@;
    reveal_strlit("/");
    assert("/"@ =~= seq!['/']);
    lemma_rows_unslashed(i);
    lemma_rows_unslashed(j);
    if r == q {
        values::law_row_names_differ(i, j);
    }
    if state_topic(id, r) == state_topic(other, q) {
        lemma_split_at_slash(id, r, other, q);
    }
    if disc_topic(id, r) == disc_topic(other, q) {
        let s = disc_topic(id, r);
        let t = disc_topic(other, q);
        let n = s.len() - back.len();
        assert(s.subrange(front.len() as int, n) =~= id + seq!['/'] + r);
        assert(t.subrange(front.len() as int, n) =~= other + seq!['/'] + q);
        lemma_split_at_slash(id, r, other, q);
    }
    if client_name(id) == client_name(other) {
        let n = "aq_lcd_"@.len() as int;
        assert(id =~= client_name(id).skip(n));
        assert(other =~= client_name(other).skip(n));
    }
}

/// Numbers, with or without a decimal point, look well, and so does anything that is
/// free of hashes and spaces and starts with no zero.
pub proof fn law_numbers_look_well(n: nat, m: nat, s: Seq<char>)
    ensures
        !malformed(Seq::empty()),
        !malformed(text::decimal(n)),
        !malformed(text::decimal(n) + seq!['.'] + text::decimal(m)),
        !s.contains('#') && !s.contains(' ') && s.len() > 0 && s[0] != '0' ==> !malformed(s),
{
    text::law_decimal_reads_back(n);
    text::law_decimal_reads_back(m);
    let a = text::decimal(n);
    let b = a + seq!['.'] + text::decimal(m);
    assert(b[a.len() as int] == '.');
    assert(b.contains('.'));
    if b.contains('#') {
        let i = b.index_of('#');
        assert(b[i] == '#');
        if i > a.len() {
            assert(b[i] == text::decimal(m)[i - a.len() - 1]);
        }
    }
    assert forall|i: int| 0 <= i < b.len() implies #[trigger] b[i] != ' ' by {
        if i > a.len() {
            assert(b[i] == text::decimal(m)[i - a.len() - 1]);
        }
    }
    if a.contains('#') {
        assert(a[a.index_of('#')] == '#');
    }
    if a.len() > 1 && a[0] == '0' {
        assert(n == 0);
        assert(a.len() == 1);
    }
    if exists|i: int| 0 <= i < s.len() - 1 && #[trigger] s[i] == ' ' && s[i + 1] == ' ' {
        assert(s.contains(' '));
    }
}

/// A glyph that was not recognised, a gap of two spaces, and a zero before other
/// digits each spoil a value, whatever is around them.
pub proof fn law_garbage_looks_malformed(a: Seq<char>, b: Seq<char>)
    ensures
        malformed(a + seq!['#'] + b),
        malformed(a + seq![' ', ' '] + b),
        b.len() > 0 && !b.contains('.') ==> malformed(seq!['0'] + b),
{
    let s = a + seq!['#'] + b;
    assert(s[a.len() as int] == '#');
    let t = a + seq![' ', ' '] + b;
    assert(t[a.len() as int] == ' ' && t[a.len() as int + 1] == ' ');
    let u = seq!['0'] + b;
    if u.contains('.') {
        let i = u.index_of('.');
        assert(u[i] == '.');
        assert(b[i - 1] == '.');
    }
}

/// A new value waits for half a second: it is not due a microsecond before, and due
/// from then on. Reading it again meanwhile does not make it wait longer.
pub proof fn law_a_new_value_waits(s: Stage, value: Seq<char>, now: u64, again: u64, later: u64)
    requires
        value != s.last,
        value != s.pending,
        now + 500_000 <= u64::MAX,
    ensures
        due(noted(s, value, now), later) <==> later >= now + 500_000,
        noted(noted(s, value, now), value, again) == noted(s, value, now),
        noted(s, value, now).last == s.last,
        noted(s, value, now).pending == value,
{
}

/// A value that was called off by the one published before starts to wait anew.
pub proof fn law_a_value_that_went_back_waits_anew(s: Stage, value: Seq<char>, t1: u64, t2: u64, t3: u64)
    requires
        value != s.last,
        value != s.pending,
        value.len() > 0,
        t3 + 500_000 <= u64::MAX,
    ensures
        noted(noted(noted(s, value, t1), s.last, t2), value, t3).deadline == Some(
            (t3 + 500_000) as u64,
        ),
{
}

/// Everything that is due is told, once each, in the order of the rows, and nothing
/// else.
pub proof fn law_all_that_is_due_is_told(stages: Seq<Stage>, now: u64, n: nat)
    requires
        n <= stages.len(),
    ensures
        ({
            let told = due_upto(stages, now, n);
            &&& forall|i: int| 0 <= i < n ==> (due(#[trigger] stages[i], now) <==> told.contains(i))
            &&& forall|j: int| 0 <= j < told.len() ==> 0 <= #[trigger] told[j] < n
            &&& forall|j: int, k: int|
                0 <= j < k < told.len() ==> #[trigger] told[j] < #[trigger] told[k]
        }),
    decreases n,
{
    if n > 0 {
        let before = due_upto(stages, now, (n - 1) as nat);
        let told = due_upto(stages, now, n);
        law_all_that_is_due_is_told(stages, now, (n - 1) as nat);
        assert forall|i: int| 0 <= i < n implies (due(#[trigger] stages[i], now)
            <==> told.contains(i)) by {
            if i < n - 1 {
                if before.contains(i) {
                    assert(told[before.index_of(i)] == i);
                }
                if told.contains(i) {
                    assert(before[told.index_of(i)] == i);
                }
            } else {
                if due(stages[i], now) {
                    assert(told[before.len() as int] == i);
                } else if told.contains(i) {
                    assert(before[told.index_of(i)] == i);
                }
            }
        }
    }
}

/// Setting up a connection goes through the same steps each time, and what fails sends
/// it back to the first, after ten seconds, or five where an announcement failed; a
/// connection that breaks is set up again at once.
pub proof fn law_a_connection_is_set_up_step_by_step(p: Phase, i: usize)
    requires
        i < 5,
        p matches Phase::Announce(k) ==> k < 5,
    ensures
        next_phase(Phase::Resolve, true) == Phase::Dial,
        next_phase(Phase::Dial, true) == Phase::LogIn,
        next_phase(Phase::LogIn, true) == Phase::Announce(0),
        i < 4 ==> next_phase(Phase::Announce(i), true) == Phase::Announce((i + 1) as usize),
        i == 4 ==> next_phase(Phase::Announce(i), true) == Phase::Connected,
        next_phase(Phase::Connected, true) == Phase::Connected,
        next_phase(p, false) == Phase::Resolve,
        pause(p, true) == 0,
        pause(Phase::Resolve, false) == 10,
        pause(Phase::Dial, false) == 10,
        pause(Phase::LogIn, false) == 10,
        pause(Phase::Announce(i), false) == 5,
        pause(Phase::Connected, false) == 0,
{
}

/// The watchdog: from the first look at which a value looks malformed, five minutes
/// must pass at which one does. One look at which all are well starts it over.
pub proof fn law_the_watchdog_waits_five_minutes(since: u64, now: u64)
    requires
        since <= now,
    ensures
        watched(None, true, now) == Some(now),
        watched(Some(since), true, now) == Some(since),
        watched(Some(since), false, now) is None,
        verdict(None, true, now) == Watchdog::Armed,
        verdict(Some(since), true, now) == Watchdog::Reboot <==> now - since >= 300_000_000,
        verdict(Some(since), true, now) == Watchdog::Armed <==> now - since < 300_000_000,
        verdict(Some(since), false, now) == Watchdog::Disarmed,
        verdict(None, false, now) == Watchdog::Clean,
{
}

/// A sensor is announced with the topic under which its value is published, under an
/// id made of the unit's and the row's, and as part of the unit's one device.
pub proof fn law_sensors_are_announced(i: int, id: Seq<char>, device: Seq<char>) -> (p: (
    Seq<char>,
    Seq<char>,
    Seq<char>,
))
    requires
        0 <= i < 5,
    ensures
        disc_payload(i, id, device) == "{\"name\":\""@ + p.0 + "\",\"uniq_id\":\""@ + id + "_"@
            + glyph::row_names()[i] + "\",\"stat_t\":\""@ + state_topic(id, glyph::row_names()[i])
            + "\",\"dev_cla\":\""@ + p.1 + "\",\"unit_of_meas\":\""@ + p.2
            + "\",\"stat_cla\":\"measurement\",\"dev\":{\"ids\":[\""@ + id + "\"],\"name\":\""@
            + device + "\"}}"@,
        i == 0 ==> p == ("PM2.5"@, "pm25"@, "µg/m³"@),
        i == 1 ==> p == ("TVOC"@, "volatile_organic_compounds_parts"@, "ppm"@),
        i == 2 ==> p == ("CO2"@, "carbon_dioxide"@, "ppm"@),
        i == 3 ==> p == ("Temperature"@, "temperature"@, "°C"@),
        i == 4 ==> p == ("Humidity"@, "humidity"@, "%"@),
{
    let row = glyph::row_names()[i];
    let front = "{\"name\":\""@ + sensor_names()[i] + "\",\"uniq_id\":\""@ + id + "_"@ + row
        + "\",\"stat_t\":\""@;
    assert(front + id + "/"@ + row =~= front + state_topic(id, row));
    (sensor_names()[i], device_classes()[i], units()[i])
}

/// What calls of [`Publisher::on_update`], [`Publisher::due`], [`Publisher::payload`] and
/// [`Publisher::published`] do with a new value of a row: it is not due before half a
/// second has passed, and due from then on; what is published is the value; then it is
/// not due any more, and it is the last one published.
pub proof fn law_a_value_goes_out_once(
    p: &mut Publisher,
    name: &str,
    value: &heapless::String<16>,
    now: u64,
    later: u64,
    list: Vec<usize>,
    idx: usize,
    payload: &str,
    q: &mut Publisher,
    list_after: Vec<usize>,
)
    requires
        old(p).wf(),
        old(p).stages().len() == 5,
        now + 500_000 <= u64::MAX,
        idx < 5,
        name@ == glyph::row_names()[idx as int],
        fixed::text16(*value) != old(p).stages()[idx as int].last,
        fixed::text16(*value) != old(p).stages()[idx as int].pending,
        call_ensures(Publisher::on_update, (p, name, value, now), ()),
        call_ensures(Publisher::due, (&*final(p), later), list),
        call_ensures(Publisher::payload, (&*final(p), idx), payload),
        *old(q) == *final(p),
        call_ensures(Publisher::published, (q, idx), ()),
        call_ensures(Publisher::due, (&*final(q), later), list_after),
    ensures
        list@.contains(idx) <==> later >= now + 500_000,
        payload@ == fixed::text16(*value),
        !list_after@.contains(idx),
        final(q).stages()[idx as int].last == fixed::text16(*value),
        final(p).stages()[idx as int].last == old(p).stages()[idx as int].last,
{
    values::law_rows_are_found_by_name(name@);
    law_a_new_value_waits(old(p).stages()[idx as int], fixed::text16(*value), now, now, later);
    lemma_listed(final(p).stages(), later, list, idx);
    lemma_listed(final(q).stages(), later, list_after, idx);
}

proof fn lemma_listed(stages: Seq<Stage>, now: u64, list: Vec<usize>, idx: usize)
    requires
        stages.len() == 5,
        idx < 5,
        list@.map_values(|i: usize| i as int) == due_upto(stages, now, 5),
    ensures
        list@.contains(idx) <==> due(stages[idx as int], now),
{
    law_all_that_is_due_is_told(stages, now, 5);
    let told = due_upto(stages, now, 5);
    assert(told.len() == list@.len());
    if list@.contains(idx) {
        let k = list@.index_of(idx);
        assert(told[k] == idx as int);
    }
    if told.contains(idx as int) {
        let k = told.index_of(idx as int);
        assert(told[k] == list@[k] as int);
        assert(list@[k] == idx);
    }
}

/// What a call of [`Publisher::watch`] says: a reboot is due if and only if a published
/// value looks malformed and has for five minutes.
pub proof fn law_watch_reboots_after_five_minutes(p: &mut Publisher, now: u64, w: Watchdog)
    requires
        old(p).wf(),
        old(p).bad_since() matches Some(t) ==> t <= now,
        call_ensures(Publisher::watch, (p, now), w),
    ensures
        w == Watchdog::Reboot <==> any_bad(old(p).stages()) && (old(p).bad_since() matches Some(t)
            && now - t >= 300_000_000),
        w == Watchdog::Clean || w == Watchdog::Disarmed <==> !any_bad(old(p).stages()),
        final(p).bad_since() is Some <==> any_bad(old(p).stages()),
        final(p).stages() == old(p).stages(),
{
}

/// What a call of [`is_value_malformed`] says of numbers and of garbage.
pub proof fn law_only_garbage_is_malformed(s: &str, bad: bool, n: nat, m: nat, a: Seq<char>, b: Seq<char>)
    requires
        call_ensures(is_value_malformed, (s,), bad),
    ensures
        s@ == text::decimal(n) ==> !bad,
        s@ == text::decimal(n) + seq!['.'] + text::decimal(m) ==> !bad,
        s@ == a + seq!['#'] + b ==> bad,
        s@ == a + seq![' ', ' '] + b ==> bad,
        s@ == seq!['0'] + b && b.len() > 0 && !b.contains('.') ==> bad,
{
    law_numbers_look_well(n, m, s@);
    law_garbage_looks_malformed(a, b);
}

/// What a call of [`sensor`] gives: the row's name, topics that are made of the unit's id
/// and the row's name, and an announcement that names the topic of the values.
pub proof fn law_a_sensor_is_wired(i: usize, id: &str, device: &str, s: Sensor) -> (p: (
    Seq<char>,
    Seq<char>,
    Seq<char>,
))
    requires
        i < 5,
        call_ensures(sensor, (i, id, device), s),
    ensures
        i == 0 ==> s.row@ == "pm25"@,
        i == 1 ==> s.row@ == "tvoc"@,
        i == 2 ==> s.row@ == "co2"@,
        i == 3 ==> s.row@ == "temp"@,
        i == 4 ==> s.row@ == "humidity"@,
        s.state_topic@ == id@ + "/"@ + s.row@,
        s.disc_topic@ == "homeassistant/sensor/"@ + id@ + "/"@ + s.row@ + "/config"@,
        s.disc_payload@ == "{\"name\":\""@ + p.0 + "\",\"uniq_id\":\""@ + id@ + "_"@ + s.row@
            + "\",\"stat_t\":\""@ + s.state_topic@ + "\",\"dev_cla\":\""@ + p.1
            + "\",\"unit_of_meas\":\""@ + p.2
            + "\",\"stat_cla\":\"measurement\",\"dev\":{\"ids\":[\""@ + id@
            + "\"],\"name\":\""@ + device@ + "\"}}"@,
{
    law_sensors_are_announced(i as int, id@, device@)
}

/// What a call of [`client_id`] gives: a name of the unit's own.
pub proof fn law_a_client_is_named_after_its_unit(id: &str, name: String)
    requires
        call_ensures(client_id, (id,), name),
    ensures
        name@ == "aq_lcd_"@ + id@,
{
}

/// What a call of [`Publisher::next_wake`] gives: the earliest time at which something is
/// due; before it nothing is, and where nothing waits there is none.
pub proof fn law_the_next_wake_is_the_first_deadline(p: Publisher, wake: Option<u64>, now: u64, i: int)
    requires
        p.wf(),
        call_ensures(Publisher::next_wake, (&p,), wake),
        0 <= i < 5,
    ensures
        wake is None ==> !due(p.stages()[i], now),
        wake matches Some(w) && now < w ==> !due(p.stages()[i], now),
        wake matches Some(w) && now >= w ==> exists|j: int|
            0 <= j < 5 && due(#[trigger] p.stages()[j], now),
{
    if let Some(w) = wake {
        let j = choose|j: int| 0 <= j < 5 && (#[trigger] p.stages()[j]).deadline == Some(w);
        assert(now >= w ==> due(p.stages()[j], now));
    }
}

/// What a call of [`Connection::advance`] does with the last announcement: the values are
/// all published anew, as if none had been before.
pub proof fn law_a_new_connection_publishes_anew(c: &mut Connection, wait_secs: u64, i: int)
    requires
        old(c).wf(),
        old(c).phase == Phase::Announce(4),
        call_ensures(Connection::advance, (c, true), wait_secs),
        0 <= i < 5,
    ensures
        wait_secs == 0,
        final(c).phase == Phase::Connected,
        final(c).publisher.stages()[i].last.len() == 0,
        final(c).publisher.stages()[i].pending.len() == 0,
        final(c).publisher.stages()[i].deadline is None,
        final(c).publisher.bad_since() is None,
{
}

/// What looks well: no hash, no two spaces in a row, and no zero in front unless it
/// stands alone or a decimal point follows somewhere.
pub proof fn law_all_else_looks_well(s: Seq<char>)
    ensures
        malformed(s) <==> (exists|i: int| 0 <= i < s.len() && #[trigger] s[i] == '#') || (
        exists|i: int| 0 <= i && i + 1 < s.len() && #[trigger] s[i] == ' ' && s[i + 1] == ' ')
            || s.len() >= 2 && s[0] == '0' && forall|i: int|
            0 <= i < s.len() ==> #[trigger] s[i] != '.',
{
    if s.contains('#') {
        assert(s[s.index_of('#')] == '#');
    }
    if s.contains('.') {
        assert(s[s.index_of('.')] == '.');
    }
}

} // verus!
