//! How sessions are spread over connections.

use crate::counting::lemma_counts;
use std::time::Duration;
use vstd::prelude::*;

verus! {

/// Which connections a session uses.
#[derive(Clone, Copy, Debug, PartialEq, Eq, Structural)]
pub enum SessionConnectionPolicy {
    /// Every session uses all connections.
    Striped,
    /// Every session uses one connection; sessions take the connections in turn.
    Affine,
}

/// How many connections and sessions there are and how they belong together.
#[derive(Debug)]
pub struct MpcConfig {
    pub timeout_duration: Duration,
    pub num_connections: usize,
    pub num_sessions: usize,
    pub session_connection_policy: SessionConnectionPolicy,
}

/// How many of the first `n` sessions fall to a connection when `count` connections take turns.
pub open spec fn sessions_of(connection: int, count: int, n: nat) -> nat
    decreases n,
{
    if n == 0 {
        0
    } else if (n - 1) % count == connection {
        sessions_of(connection, count, (n - 1) as nat) + 1
    } else {
        sessions_of(connection, count, (n - 1) as nat)
    }
}

/// The sessions of a connection are counted: those whose number leaves the number of the connection
/// when it is divided by the number of connections. A connection that does not exist has none.
pub proof fn lemma_sessions_counted(connection: int, count: int, n: nat)
    requires
        count > 0,
    ensures
        sessions_of(connection, count, n) == Set::new(
            |s: int| 0 <= s < n && s % count == connection,
        ).len(),
        connection >= count ==> sessions_of(connection, count, n) == 0,
{
    let f = |s: int| s % count == connection;
    lemma_counts(f, |k: int| sessions_of(connection, count, k as nat) as int, n);
    assert(Set::new(|s: int| 0 <= s < n && f(s)) =~= Set::new(
        |s: int| 0 <= s < n && s % count == connection,
    ));
    if connection >= count {
        let found = Set::new(|s: int| 0 <= s < n && s % count == connection);
        assert forall|s: int| !found.contains(s) by {
            vstd::arithmetic::div_mod::lemma_mod_bound(s, count);
        }
        assert(found =~= Set::<int>::empty());
    }
}

impl MpcConfig {
    /// A configuration in which every session uses all connections.
    pub fn new(timeout_duration: Duration, num_connections: usize, num_sessions: usize) -> (r:
        MpcConfig)
        ensures
            r == (MpcConfig {
                timeout_duration,
                num_connections,
                num_sessions,
                session_connection_policy: SessionConnectionPolicy::Striped,
            }),
    {
        MpcConfig::new_with_policy(
            timeout_duration,
            num_connections,
            num_sessions,
            SessionConnectionPolicy::Striped,
        )
    }

    /// A configuration with a policy. Where sessions use one connection each, there are no more
    /// connections than sessions.
    pub fn new_with_policy(
        timeout_duration: Duration,
        num_connections: usize,
        num_sessions: usize,
        policy: SessionConnectionPolicy,
    ) -> (r: MpcConfig)
        ensures
            r.timeout_duration == timeout_duration,
            r.num_sessions == num_sessions,
            r.session_connection_policy == policy,
            r.num_connections == (if policy is Affine && num_sessions < num_connections {
                num_sessions
            } else {
                num_connections
            }),
    {
        let connections: usize = match policy {
            SessionConnectionPolicy::Affine => if num_sessions < num_connections {
                num_sessions
            } else {
                num_connections
            },
            SessionConnectionPolicy::Striped => num_connections,
        };
        MpcConfig {
            timeout_duration,
            num_connections: connections,
            num_sessions,
            session_connection_policy: policy,
        }
    }

    /// The connection of a session, if it uses only one.
    pub fn connection_for_session(&self, session: usize) -> (r: Option<usize>)
        ensures
            r == (if self.session_connection_policy is Affine && session < self.num_sessions
                && self.num_connections > 0 {
                Some((session % self.num_connections) as usize)
            } else {
                None
            }),
    {
        match self.session_connection_policy {
            SessionConnectionPolicy::Affine => {
                if session < self.num_sessions && self.num_connections > 0 {
                    Some(session % self.num_connections)
                } else {
                    None
                }
            },
            SessionConnectionPolicy::Striped => None,
        }
    }

    /// How many sessions use a connection.
    pub fn get_sessions_for_connection(&self, connection: usize) -> (r: usize)
        ensures
            self.session_connection_policy is Striped ==> r == self.num_sessions,
            self.session_connection_policy is Affine && self.num_connections > 0 ==> r == Set::new(
                |s: int|
                    0 <= s < self.num_sessions && s % self.num_connections as int == connection,
            ).len(),
            self.session_connection_policy is Affine ==> r == (if connection
                < self.num_connections {
                sessions_of(
                    connection as int,
                    self.num_connections as int,
                    self.num_sessions as nat,
                )
            } else {
                0
            }),
    {
        match self.session_connection_policy {
            SessionConnectionPolicy::Striped => self.num_sessions,
            SessionConnectionPolicy::Affine => {
                proof {
                    if self.num_connections > 0 {
                        lemma_sessions_counted(
                            connection as int,
                            self.num_connections as int,
                            self.num_sessions as nat,
                        );
                    }
                }
                if connection >= self.num_connections {
                    return 0;
                }
                let mut count: usize = 0;
                let mut s: usize = 0;
                while s < self.num_sessions
                    invariant
                        s <= self.num_sessions,
                        count <= s,
                        connection < self.num_connections,
                        count == sessions_of(
                            connection as int,
                            self.num_connections as int,
                            s as nat,
                        ),
                    decreases self.num_sessions - s,
                {
                    if s % self.num_connections == connection {
                        count += 1;
                    }
                    s += 1;
                }
                count
            },
        }
    }
}

/// The number of sessions on all of the first `c` connections.
pub open spec fn sessions_below(c: nat, count: int, n: nat) -> nat
    decreases c,
{
    if c == 0 {
        0
    } else {
        sessions_below((c - 1) as nat, count, n) + sessions_of(c - 1, count, n)
    }
}

/// Every session falls to exactly one connection.
pub proof fn lemma_every_session_once(count: nat, n: nat)
    requires
        count > 0,
    ensures
        sessions_below(count, count as int, n) == n,
    decreases n,
{
    if n == 0 {
        lemma_no_sessions(count, count as int);
    } else {
        let c = (n - 1) % count as int;
        vstd::arithmetic::div_mod::lemma_mod_bound(n - 1, count as int);
        lemma_every_session_once(count, (n - 1) as nat);
        lemma_one_more(count, count as int, n, c);
    }
}

proof fn lemma_no_sessions(c: nat, count: int)
    ensures
        sessions_below(c, count, 0) == 0,
    decreases c,
{
    if c > 0 {
        lemma_no_sessions((c - 1) as nat, count);
    }
}

proof fn lemma_one_more(c: nat, count: int, n: nat, at: int)
    requires
        n > 0,
        at == (n - 1) % count,
        0 <= at,
    ensures
        sessions_below(c, count, n) == sessions_below(c, count, (n - 1) as nat) + (if at < c {
            1nat
        } else {
            0nat
        }),
    decreases c,
{
    if c > 0 {
        lemma_one_more((c - 1) as nat, count, n, at);
    }
}

} // verus!
