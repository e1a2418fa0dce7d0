//! Flags by which a server tells others whether it is ready, and where it answers them.

use crate::config::{AnonStatsServerConfig, ServerCoordinationConfig};
use std::sync::atomic::{AtomicBool, Ordering};
use std::sync::Arc;
use vstd::arithmetic::div_mod::*;
use vstd::arithmetic::power::*;
use vstd::prelude::*;
use vstd::string::*;

verus! {

/// Whether a flag is one that `AtomicBool::new` gives for the value. This tells what the flag held at
/// first; what it holds later may change at any time and is not part of its model.
pub open spec fn made_with(flag: AtomicBool, value: bool) -> bool {
    call_ensures(AtomicBool::new, (value,), flag)
}

/// Makes a flag with the given constructor.
fn make_flag(make: impl FnOnce(bool) -> AtomicBool, value: bool) -> (r: AtomicBool)
    requires
        call_requires(make, (value,)),
    ensures
        call_ensures(make, (value,), r),
{
    make(value)
}

/// Whether `AtomicBool::store` was called on a flag with the value. What the flag holds later may
/// change at any time.
pub open spec fn stored(flag: AtomicBool, value: bool) -> bool {
    call_ensures(AtomicBool::store, (&flag, value, Ordering::SeqCst), ())
}

/// Stores a value in a flag.
fn store_flag(
    store: impl FnOnce(&AtomicBool, bool, Ordering),
    flag: &AtomicBool,
    value: bool,
)
    requires
        call_requires(store, (flag, value, Ordering::SeqCst)),
    ensures
        call_ensures(store, (flag, value, Ordering::SeqCst), ()),
{
    store(flag, value, Ordering::SeqCst)
}

/// What the flags of a server say.
#[derive(Clone, Copy, Debug, PartialEq, Eq, Structural)]
pub struct ServerState {
    pub ready: bool,
    pub shutting_down: bool,
}

/// What happens to a server.
#[derive(Clone, Copy, Debug, PartialEq, Eq, Structural)]
pub enum ServerEvent {
    /// The server has started up.
    Ready,
    /// The server is told to stop.
    ShutDown,
}

impl ServerState {
    /// What the flags say after an event.
    pub open spec fn after(self, event: ServerEvent) -> ServerState {
        match event {
            ServerEvent::Ready => ServerState { ready: true, shutting_down: self.shutting_down },
            ServerEvent::ShutDown => ServerState { ready: false, shutting_down: true },
        }
    }

    /// What the flags say after all events, in their order.
    pub open spec fn after_all(self, events: Seq<ServerEvent>) -> ServerState
        decreases events.len(),
    {
        if events.len() == 0 {
            self
        } else {
            self.after_all(events.drop_last()).after(events.last())
        }
    }

    /// The state of a server that has just started.
    pub fn started() -> (r: ServerState)
        ensures
            r == (ServerState { ready: false, shutting_down: false }),
    {
        ServerState { ready: false, shutting_down: false }
    }

    /// What the flags say after an event.
    pub fn step(self, event: ServerEvent) -> (r: ServerState)
        ensures
            r == self.after(event),
            r.ready == (event is Ready),
            r.shutting_down == (self.shutting_down || event is ShutDown),
    {
        match event {
            ServerEvent::Ready => ServerState { ready: true, shutting_down: self.shutting_down },
            ServerEvent::ShutDown => ServerState { ready: false, shutting_down: true },
        }
    }
}

/// A server that is shutting down stays so, whatever happens. One that is not was never told to
/// stop, and is ready as soon as it has started up.
pub proof fn lemma_shutting_down_is_kept(state: ServerState, events: Seq<ServerEvent>)
    ensures
        state.after_all(events).shutting_down == (state.shutting_down || events.contains(
            ServerEvent::ShutDown,
        )),
        events.len() > 0 ==> state.after_all(events).ready == (events.last() == ServerEvent::Ready),
    decreases events.len(),
{
    if events.len() > 0 {
        let rest = events.drop_last();
        lemma_shutting_down_is_kept(state, rest);
        assert(events =~= rest.push(events.last()));
        assert(events[events.len() - 1] == events.last());
        if rest.contains(ServerEvent::ShutDown) {
            let k = choose|k: int| 0 <= k < rest.len() && rest[k] == ServerEvent::ShutDown;
            assert(events[k] == ServerEvent::ShutDown);
        }
        if events.contains(ServerEvent::ShutDown) && events.last() != ServerEvent::ShutDown {
            let k = choose|k: int| 0 <= k < events.len() && events[k] == ServerEvent::ShutDown;
            assert(rest[k] == ServerEvent::ShutDown);
        }
    }
}

/// The flags of a running server, shared with the tasks that answer others.
#[derive(Clone, Debug)]
pub struct CoordinationHandles {
    pub ready_flag: Arc<AtomicBool>,
    pub shutting_down_flag: Arc<AtomicBool>,
}

impl CoordinationHandles {
    /// The flags of a server that has just started: it is neither ready nor shutting down.
    pub fn new() -> (r: CoordinationHandles)
        ensures
            made_with(*r.ready_flag, false),
            made_with(*r.shutting_down_flag, false),
    {
        CoordinationHandles {
            ready_flag: Arc::new(make_flag(AtomicBool::new, false)),
            shutting_down_flag: Arc::new(make_flag(AtomicBool::new, false)),
        }
    }

    /// The flag that says whether the server is ready.
    pub fn ready_flag(&self) -> (r: Arc<AtomicBool>)
        ensures
            r == self.ready_flag,
    {
        Arc::clone(&self.ready_flag)
    }

    /// Marks the server as ready: the ready flag is set, the other one is left.
    pub fn set_ready(&self)
        ensures
            stored(*self.ready_flag, true),
            forall|state: ServerState|
                stored(*self.ready_flag, (#[trigger] state.after(ServerEvent::Ready)).ready),
    {
        store_flag(AtomicBool::store, &*self.ready_flag, true);
    }

    /// Marks the server as shutting down: it is not ready any more.
    pub fn mark_shutting_down(&self)
        ensures
            stored(*self.ready_flag, false),
            stored(*self.shutting_down_flag, true),
            forall|state: ServerState|
                stored(*self.ready_flag, (#[trigger] state.after(ServerEvent::ShutDown)).ready)
                    && stored(
                    *self.shutting_down_flag,
                    state.after(ServerEvent::ShutDown).shutting_down,
                ),
    {
        store_flag(AtomicBool::store, &*self.ready_flag, false);
        store_flag(AtomicBool::store, &*self.shutting_down_flag, true);
    }

    /// The flag that says whether the server is shutting down.
    pub fn shutting_down_flag(&self) -> (r: Arc<AtomicBool>)
        ensures
            r == self.shutting_down_flag,
    {
        Arc::clone(&self.shutting_down_flag)
    }
}

/// The value of a decimal digit.
pub open spec fn digit_of(c: char) -> Option<int> {
    if '0' <= c <= '9' {
        Some(c as int - '0' as int)
    } else {
        None
    }
}

/// The number that the first `n` characters from `from` on stand for, if all of them are digits.
pub open spec fn digits(s: Seq<char>, from: int, n: nat) -> Option<int>
    decreases n,
{
    if n == 0 {
        Some(0)
    } else {
        match (digits(s, from, (n - 1) as nat), digit_of(s[from + n - 1])) {
            (Some(x), Some(d)) => Some(10 * x + d),
            _ => None,
        }
    }
}

/// The 32-bit number that a text stands for: an optional sign and at least one decimal digit.
pub open spec fn parsed_i32(s: Seq<char>) -> Option<i32> {
    let signed = s.len() > 0 && (s[0] == '+' || s[0] == '-');
    let from = if signed {
        1int
    } else {
        0int
    };
    if s.len() <= from {
        None
    } else {
        match digits(s, from, (s.len() - from) as nat) {
            None => None,
            Some(x) => {
                let value = if s[0] == '-' {
                    -x
                } else {
                    x
                };
                if i32::MIN <= value <= i32::MAX {
                    Some(value as i32)
                } else {
                    None
                }
            },
        }
    }
}

proof fn lemma_digits_nonnegative(s: Seq<char>, from: int, n: nat)
    ensures
        digits(s, from, n) is Some ==> digits(s, from, n)->0 >= 0,
    decreases n,
{
    if n > 0 {
        lemma_digits_nonnegative(s, from, (n - 1) as nat);
    }
}

proof fn lemma_digits_grow(s: Seq<char>, from: int, m: nat, n: nat)
    requires
        m <= n,
    ensures
        digits(s, from, m) is None ==> digits(s, from, n) is None,
        digits(s, from, n) is Some ==> digits(s, from, m) is Some && digits(s, from, m)->0
            <= digits(s, from, n)->0,
    decreases n,
{
    lemma_digits_nonnegative(s, from, m);
    if m < n {
        lemma_digits_grow(s, from, m, (n - 1) as nat);
        lemma_digits_nonnegative(s, from, (n - 1) as nat);
    }
}

/// The first `n` characters from `from` on are the decimal digits of a number, the most significant
/// one first, exactly if they stand for it.
proof fn lemma_digits_read(s: Seq<char>, from: int, n: nat, v: int)
    ensures
        (digits(s, from, n) == Some(v)) == (0 <= v < pow(10, n) && forall|i: int|
            0 <= i < n ==> #[trigger] s[from + i] as int == 48 + (v / pow(10, (n - 1 - i) as nat))
                % 10),
    decreases n,
{
    lemma_pow0(10);
    if n > 0 {
        let m = (n - 1) as nat;
        let (q, d) = (v / 10, v % 10);
        lemma_fundamental_div_mod(v, 10);
        lemma_digits_read(s, from, m, q);
        lemma_pow1(10);
        lemma_pow_adds(10, m, 1);
        assert(pow(10, n) == 10 * pow(10, m));
        lemma_pow_positive(10, m);
        assert forall|i: int| 0 <= i < m implies v / (#[trigger] pow(10, (n - 1 - i) as nat)) == q
            / pow(10, (m - 1 - i) as nat) by {
            let k = (m - 1 - i) as nat;
            lemma_pow_adds(10, 1, k);
            lemma_pow_positive(10, k);
            if v >= 0 {
                lemma_div_denominator(v, 10, pow(10, k));
            } else {
                lemma_div_denominator_of_negative(v, k);
            }
        }
        let text = 0 <= v < pow(10, n) && forall|i: int|
            0 <= i < n ==> #[trigger] s[from + i] as int == 48 + (v / pow(10, (n - 1 - i) as nat))
                % 10;
        assert(v / pow(10, 0) == v);
        if text {
            assert forall|i: int| 0 <= i < m implies #[trigger] s[from + i] as int == 48 + (q
                / pow(10, (m - 1 - i) as nat)) % 10 by {
                assert(v / pow(10, (n - 1 - i) as nat) == q / pow(10, (m - 1 - i) as nat));
            }
            assert(s[from + m] as int == 48 + (v / pow(10, (n - 1 - m) as nat)) % 10);
        }
        if digits(s, from, n) == Some(v) {
            let x = digits(s, from, m)->0;
            lemma_digits_nonnegative(s, from, m);
            assert(x == q && digit_of(s[from + n - 1]) == Some(d));
            assert forall|i: int| 0 <= i < n implies #[trigger] s[from + i] as int == 48 + (v
                / pow(10, (n - 1 - i) as nat)) % 10 by {
                if i < m {
                    assert(v / pow(10, (n - 1 - i) as nat) == q / pow(10, (m - 1 - i) as nat));
                }
            }
        }
    }
}

proof fn lemma_div_denominator_of_negative(v: int, k: nat)
    ensures
        v / (10 * pow(10, k)) == (v / 10) / pow(10, k),
{
    let p = pow(10, k);
    lemma_pow_positive(10, k);
    let (q, r) = (v / 10, v % 10);
    let (x, y) = (q / p, q % p);
    lemma_fundamental_div_mod(v, 10);
    lemma_fundamental_div_mod(q, p);
    lemma_mod_bound(q, p);
    assert(v == x * (10 * p) + (10 * y + r)) by (nonlinear_arith)
        requires
            v == 10 * q + r,
            q == p * x + y,
    ;
    lemma_fundamental_div_mod_converse(v, 10 * p, x, 10 * y + r);
}

/// Reading is the inverse of writing: the decimal text of a number, with any number of leading
/// zeros, is read as that number, if it fits 32 bits, and is refused otherwise. With a minus before
/// it, it is read as the negative number, and a plus changes nothing.
pub proof fn lemma_numbers_are_read(v: int, n: nat)
    requires
        n > 0,
        0 <= v < pow(10, n),
    ensures
        ({
            let text = Seq::new(
                n,
                |i: int| (48 + (v / pow(10, (n - 1 - i) as nat)) % 10) as char,
            );
            &&& parsed_i32(text) == if v <= 0x7fff_ffff {
                Some(v as i32)
            } else {
                None
            }
            &&& parsed_i32(seq!['+'] + text) == if v <= 0x7fff_ffff {
                Some(v as i32)
            } else {
                None
            }
            &&& parsed_i32(seq!['-'] + text) == if v <= 0x8000_0000 {
                Some((-v) as i32)
            } else {
                None
            }
        }),
{
    let text = Seq::new(n, |i: int| (48 + (v / pow(10, (n - 1 - i) as nat)) % 10) as char);
    assert forall|i: int| 0 <= i < n implies #[trigger] text[i] as int == 48 + (v / pow(
        10,
        (n - 1 - i) as nat,
    )) % 10 && '0' <= text[i] <= '9' by {
        lemma_mod_bound(v / pow(10, (n - 1 - i) as nat), 10);
    }
    assert forall|i: int| 0 <= i < n implies #[trigger] text[0 + i] as int == 48 + (v / pow(
        10,
        (n - 1 - i) as nat,
    )) % 10 by {
        assert(text[i] as int == 48 + (v / pow(10, (n - 1 - i) as nat)) % 10);
    }
    lemma_digits_read(text, 0, n, v);
    let first = text[0];
    let (plus, minus) = (seq!['+'] + text, seq!['-'] + text);
    assert forall|i: int| 0 <= i < n implies #[trigger] plus[1 + i] as int == 48 + (v / pow(
        10,
        (n - 1 - i) as nat,
    )) % 10 by {
        assert(plus[1 + i] == text[i]);
    }
    assert forall|i: int| 0 <= i < n implies #[trigger] minus[1 + i] as int == 48 + (v / pow(
        10,
        (n - 1 - i) as nat,
    )) % 10 by {
        assert(minus[1 + i] == text[i]);
    }
    lemma_digits_read(plus, 1, n, v);
    lemma_digits_read(minus, 1, n, v);
}

/// Nothing else is read: a text that is read as a number consists of an optional sign and the
/// decimal digits of the number without its sign, of which there is at least one.
pub proof fn lemma_only_numbers_are_read(s: Seq<char>)
    ensures
        parsed_i32(s) is Some ==> {
            let x = parsed_i32(s)->0 as int;
            let v = if x < 0 {
                -x
            } else {
                x
            };
            let from = if s.len() > 0 && (s[0] == '+' || s[0] == '-') {
                1int
            } else {
                0int
            };
            let n = s.len() - from;
            &&& n > 0
            &&& v < pow(10, n as nat)
            &&& x < 0 ==> s[0] == '-'
            &&& x > 0 ==> s[0] != '-'
            &&& forall|i: int|
                0 <= i < n ==> #[trigger] s[from + i] as int == 48 + (v / pow(
                    10,
                    (n - 1 - i) as nat,
                )) % 10
        },
{
    if parsed_i32(s) is Some {
        let from = if s[0] == '+' || s[0] == '-' {
            1int
        } else {
            0int
        };
        let n = (s.len() - from) as nat;
        lemma_digits_nonnegative(s, from, n);
        lemma_digits_read(s, from, n, digits(s, from, n)->0);
    }
}

/// Reads a 32-bit number.
fn parse_i32(s: &str) -> (r: Option<i32>)
    ensures
        r == parsed_i32(s@),
{
    let len: usize = s.unicode_len();
    if len == 0 {
        return None;
    }
    let first: char = s.get_char(0);
    let negative: bool = first == '-';
    let from: usize = if negative || first == '+' {
        1
    } else {
        0
    };
    if len == from {
        return None;
    }
    let mut value: i64 = 0;
    let mut i: usize = from;
    while i < len
        invariant
            len == s@.len(),
            from <= i <= len,
            digits(s@, from as int, (i - from) as nat) == Some(value as int),
            0 <= value <= 0x8000_0000,
            from == (if s@.len() > 0 && (s@[0] == '+' || s@[0] == '-') {
                1int
            } else {
                0int
            }),
            from < len,
        decreases len - i,
    {
        let c: char = s.get_char(i);
        proof {
            assert(s@[from + ((i - from) as nat) as int] == c);
            lemma_digits_grow(s@, from as int, (i + 1 - from) as nat, (len - from) as nat);
        }
        if c < '0' || c > '9' {
            return None;
        }
        let d: i64 = c as i64 - '0' as i64;
        value = 10 * value + d;
        if value > 0x8000_0000 {
            return None;
        }
        i += 1;
    }
    let signed: i64 = if negative {
        -value
    } else {
        value
    };
    if signed > 0x7fff_ffff {
        return None;
    }
    Some(signed as i32)
}

/// The port at which a server answers: the one that is set for its party, or 8080 if there is none
/// that can be read.
pub fn healthcheck_port(ports: &[String], party_id: usize) -> (r: i32)
    ensures
        r == (if party_id < ports@.len() && parsed_i32(ports@[party_id as int]@) is Some {
            parsed_i32(ports@[party_id as int]@)->0
        } else {
            8080
        }),
{
    if party_id < ports.len() {
        match parse_i32(ports[party_id].as_str()) {
            Some(port) => port,
            None => 8080,
        }
    } else {
        8080
    }
}

/// Two lists hold the same strings.
pub open spec fn same_strings(a: Seq<String>, b: Seq<String>) -> bool {
    a.map_values(|s: String| s@) == b.map_values(|s: String| s@)
}

fn copy_strings(list: &Vec<String>) -> (r: Vec<String>)
    ensures
        same_strings(r@, list@),
        r@.len() == list@.len(),
        forall|i: int| 0 <= i < r@.len() ==> (#[trigger] r@[i])@ == list@[i]@,
{
    let mut out: Vec<String> = Vec::new();
    let mut i: usize = 0;
    while i < list.len()
        invariant
            i <= list@.len(),
            out@.len() == i,
            forall|j: int| 0 <= j < i ==> (#[trigger] out@[j])@ == list@[j]@,
        decreases list@.len() - i,
    {
        out.push(list[i].clone());
        i += 1;
    }
    assert(out@.map_values(|s: String| s@) =~= list@.map_values(|s: String| s@));
    out
}

/// The settings by which the servers watch each other, for the party of the given settings.
pub fn build_coordination_config(config: &AnonStatsServerConfig) -> (r: Option<
    ServerCoordinationConfig,
>)
    ensures
        match (config.server_coordination, r) {
            (Some(c), Some(copy)) => {
                &&& copy.party_id == config.party_id
                &&& same_strings(copy.node_hostnames@, c.node_hostnames@)
                &&& same_strings(copy.healthcheck_ports@, c.healthcheck_ports@)
                &&& copy.image_name@ == c.image_name@
                &&& copy.http_query_retry_delay_ms == c.http_query_retry_delay_ms
                &&& copy.startup_sync_timeout_secs == c.startup_sync_timeout_secs
                &&& copy.heartbeat_interval_secs == c.heartbeat_interval_secs
                &&& copy.heartbeat_initial_retries == c.heartbeat_initial_retries
            },
            (None, None) => true,
            _ => false,
        },
        (r is Some) == (config.server_coordination is Some),
        r is Some ==> {
            let (c, copy) = (config.server_coordination->0, r->0);
            &&& copy.node_hostnames@.len() == c.node_hostnames@.len()
            &&& copy.healthcheck_ports@.len() == c.healthcheck_ports@.len()
            &&& forall|i: int|
                0 <= i < copy.node_hostnames@.len() ==> (#[trigger] copy.node_hostnames@[i])@
                    == c.node_hostnames@[i]@
            &&& forall|i: int|
                0 <= i < copy.healthcheck_ports@.len() ==> (#[trigger] copy.healthcheck_ports@[i])@
                    == c.healthcheck_ports@[i]@
        },
{
    match &config.server_coordination {
        Some(c) => Some(
            ServerCoordinationConfig {
                party_id: config.party_id,
                node_hostnames: copy_strings(&c.node_hostnames),
                healthcheck_ports: copy_strings(&c.healthcheck_ports),
                image_name: c.image_name.clone(),
                http_query_retry_delay_ms: c.http_query_retry_delay_ms,
                startup_sync_timeout_secs: c.startup_sync_timeout_secs,
                heartbeat_interval_secs: c.heartbeat_interval_secs,
                heartbeat_initial_retries: c.heartbeat_initial_retries,
            },
        ),
        None => None,
    }
}

} // verus!
