//! Streams that groups of five parties share.

use crate::message::ProtocolError;
use crate::msb_dealer_helpers::PrfSeed;
use crate::player::Role;
use crate::prf::{blake3_hash, seed_to_rng, PrfRng};
use crate::ring::bit_int;
use vstd::prelude::*;

verus! {

/// Number of parties of the five-party protocols.
pub const FIVE_PARTY_COUNT: u8 = 5;

/// The five roles in order.
pub fn five_party_roles() -> (r: [Role; 5])
    ensures
        forall|i: int| 0 <= i < 5 ==> (#[trigger] r@[i]).index == i,
{
    [Role::new(0), Role::new(1), Role::new(2), Role::new(3), Role::new(4)]
}

/// An unordered pair of two distinct parties, held in order.
#[derive(Clone, Copy, Debug, PartialEq, Eq, PartialOrd, Ord, Hash, Structural)]
pub struct PartyPair(pub Role, pub Role);

/// The pair of two parties, in whichever order they are given.
pub open spec fn pair_of(a: Role, b: Role) -> PartyPair {
    if a.index <= b.index {
        PartyPair(a, b)
    } else {
        PartyPair(b, a)
    }
}

impl PartyPair {
    /// The two parties are distinct and in order.
    pub open spec fn wf(self) -> bool {
        self.0.index < self.1.index
    }

    /// Whether a party belongs to the pair.
    pub open spec fn has(self, role: Role) -> bool {
        self.0 == role || self.1 == role
    }

    /// The pair of two distinct parties.
    pub fn new(a: Role, b: Role) -> (r: PartyPair)
        requires
            a != b,
        ensures
            r == pair_of(a, b),
            r.wf(),
            r.0.index < r.1.index,
            (r.0 == a && r.1 == b) || (r.0 == b && r.1 == a),
    {
        if a.index <= b.index {
            PartyPair(a, b)
        } else {
            PartyPair(b, a)
        }
    }

    /// Whether a party belongs to the pair.
    pub fn contains(&self, role: Role) -> (r: bool)
        ensures
            r == self.has(role),
            r == (self.0.index == role.index || self.1.index == role.index),
    {
        self.0 == role || self.1 == role
    }

    /// The two parties.
    pub fn parties(&self) -> (r: (Role, Role))
        ensures
            r == (self.0, self.1),
    {
        (self.0, self.1)
    }

    /// All pairs among the five parties that do not contain `own_role`, in lexicographic order.
    pub fn excluding(own_role: Role) -> (r: Vec<PartyPair>)
        ensures
            r@ == pairs_excluding(own_role, 10),
            own_role.index < 5 ==> r@.len() == 6,
            forall|i: int|
                0 <= i < r@.len() ==> (#[trigger] r@[i]).0.index < r@[i].1.index < 5
                    && r@[i].0.index != own_role.index && r@[i].1.index != own_role.index,
            forall|i: int, j: int|
                0 <= i < j < r@.len() ==> 5 * (#[trigger] r@[i]).0.index + r@[i].1.index < 5 * (
                #[trigger] r@[j]).0.index + r@[j].1.index,
    {
        let mut pairs: Vec<PartyPair> = Vec::new();
        let mut a: usize = 0;
        let mut t: usize = 0;
        while a < 5
            invariant
                a <= 5,
                t == first_with(a as int),
                pairs@ == pairs_excluding(own_role, t as nat),
            decreases 5 - a,
        {
            let mut b: usize = a + 1;
            while b < 5
                invariant
                    a < b <= 5,
                    t == first_with(a as int) + (b - a - 1),
                    pairs@ == pairs_excluding(own_role, t as nat),
                decreases 5 - b,
            {
                let pair = PartyPair::new(Role::new(a), Role::new(b));
                assert(pair == nth_pair(t as int));
                if !pair.contains(own_role) {
                    pairs.push(pair);
                }
                t += 1;
                b += 1;
            }
            a += 1;
        }
        proof {
            lemma_six_pairs(own_role);
            lemma_pairs_excluding(own_role, 10);
            assert forall|i: int, j: int| 0 <= i < j < pairs@.len() implies 5 * (
            #[trigger] pairs@[i]).0.index + pairs@[i].1.index < 5 * (#[trigger] pairs@[j]).0.index
                + pairs@[j].1.index by {
                assert(pair_code(pairs@[i]) < pair_code(pairs@[j]));
            }
        }
        pairs
    }
}

/// The number of pairs whose lower party is below `a`.
pub open spec fn first_with(a: int) -> int {
    if a == 0 {
        0
    } else if a == 1 {
        4
    } else if a == 2 {
        7
    } else if a == 3 {
        9
    } else {
        10
    }
}

/// Pair `t` of the ten pairs in lexicographic order.
pub open spec fn nth_pair(t: int) -> PartyPair {
    if t < 4 {
        PartyPair(Role { index: 0 }, Role { index: (t + 1) as usize })
    } else if t < 7 {
        PartyPair(Role { index: 1 }, Role { index: (t - 2) as usize })
    } else if t < 9 {
        PartyPair(Role { index: 2 }, Role { index: (t - 4) as usize })
    } else {
        PartyPair(Role { index: 3 }, Role { index: 4 })
    }
}

/// Those of the first `t` pairs that do not contain a party.
pub open spec fn pairs_excluding(role: Role, t: nat) -> Seq<PartyPair>
    decreases t,
{
    if t == 0 {
        Seq::empty()
    } else {
        let rest = pairs_excluding(role, (t - 1) as nat);
        if nth_pair(t - 1).has(role) {
            rest
        } else {
            rest.push(nth_pair(t - 1))
        }
    }
}

/// Every party is outside six of the ten pairs.
pub proof fn lemma_six_pairs(role: Role)
    ensures
        role.index < 5 ==> pairs_excluding(role, 10).len() == 6,
        role.index >= 5 ==> pairs_excluding(role, 10).len() == 10,
{
    reveal_with_fuel(pairs_excluding, 11);
}

/// A number by which pairs are ordered.
pub open spec fn pair_code(p: PartyPair) -> int {
    5 * p.0.index + p.1.index
}

/// Listed pairs are proper pairs of the five parties without the given one, in strict order.
pub proof fn lemma_pairs_excluding(role: Role, t: nat)
    requires
        t <= 10,
    ensures
        forall|i: int|
            0 <= i < pairs_excluding(role, t).len() ==> {
                let p = #[trigger] pairs_excluding(role, t)[i];
                !p.has(role) && p.wf() && p.1.index < 5 && pair_code(p) <= pair_code(
                    nth_pair(t - 1),
                )
            },
        forall|i: int, j: int|
            0 <= i < j < pairs_excluding(role, t).len() ==> pair_code(
                #[trigger] pairs_excluding(role, t)[i],
            ) < pair_code(#[trigger] pairs_excluding(role, t)[j]),
    decreases t,
{
    if t > 0 {
        let k = (t - 1) as nat;
        lemma_pairs_excluding(role, k);
        let (before, after) = (pairs_excluding(role, k), pairs_excluding(role, t));
        assert(t > 1 ==> pair_code(nth_pair(t - 2)) < pair_code(nth_pair(t - 1)));
        assert(nth_pair(t - 1).wf() && nth_pair(t - 1).1.index < 5);
        assert forall|i: int| 0 <= i < after.len() implies {
            let p = #[trigger] after[i];
            !p.has(role) && p.wf() && p.1.index < 5 && pair_code(p) <= pair_code(nth_pair(t - 1))
        } by {
            if i < before.len() {
                assert(after[i] == before[i]);
            }
        }
        assert forall|i: int, j: int| 0 <= i < j < after.len() implies pair_code(
            #[trigger] after[i],
        ) < pair_code(#[trigger] after[j]) by {
            assert(after[i] == before[i]);
            if j < before.len() {
                assert(after[j] == before[j]);
            }
        }
    }
}

/// Every pair of the five parties without the given one is listed.
pub proof fn lemma_pair_listed(role: Role, s: int, t: nat)
    requires
        0 <= s < t <= 10,
        !nth_pair(s).has(role),
    ensures
        pairs_excluding(role, t).contains(nth_pair(s)),
    decreases t,
{
    let after = pairs_excluding(role, t);
    if s == t - 1 {
        assert(after[after.len() - 1] == nth_pair(s));
    } else {
        lemma_pair_listed(role, s, (t - 1) as nat);
        let before = pairs_excluding(role, (t - 1) as nat);
        let i = choose|i: int| 0 <= i < before.len() && before[i] == nth_pair(s);
        assert(after[i] == nth_pair(s));
    }
}

/// A pair of two of the five parties is listed for a role exactly if the role is neither of them.
pub proof fn lemma_listed_pairs(role: Role, a: Role, b: Role)
    requires
        a.index < b.index < 5,
    ensures
        pairs_excluding(role, 10).contains(PartyPair(a, b)) == (role.index != a.index && role.index
            != b.index),
        !pairs_excluding(role, 10).contains(PartyPair(b, a)),
{
    lemma_pairs_excluding(role, 10);
    let listed = pairs_excluding(role, 10);
    let t = first_with(a.index as int) + b.index - a.index - 1;
    assert(nth_pair(t) == PartyPair(a, b));
    if role.index != a.index && role.index != b.index {
        lemma_pair_listed(role, t, 10);
    } else if listed.contains(PartyPair(a, b)) {
        let i = choose|i: int| 0 <= i < listed.len() && listed[i] == PartyPair(a, b);
        assert(!listed[i].has(role));
        assert(a == role || b == role);
    }
    if listed.contains(PartyPair(b, a)) {
        let i = choose|i: int| 0 <= i < listed.len() && listed[i] == PartyPair(b, a);
        assert(listed[i].wf());
    }
}

/// A party is listed beside a role exactly if it is one of the five and another one, and listed
/// parties come in order.
pub proof fn lemma_listed_roles(own_role: Role, n: nat)
    requires
        n <= 5,
    ensures
        forall|role: Role| #[trigger]
            other_roles(own_role, n).contains(role) == (role.index < n && role.index
                != own_role.index),
        forall|i: int, j: int|
            0 <= i < j < other_roles(own_role, n).len() ==> (#[trigger] other_roles(own_role, n)[i]).index
                < (#[trigger] other_roles(own_role, n)[j]).index,
    decreases n,
{
    if n > 0 {
        let k = (n - 1) as nat;
        lemma_listed_roles(own_role, k);
        let (before, after) = (other_roles(own_role, k), other_roles(own_role, n));
        assert forall|role: Role| #[trigger] after.contains(role) == (role.index < n && role.index
            != own_role.index) by {
            if before.contains(role) {
                let i = choose|i: int| 0 <= i < before.len() && before[i] == role;
                assert(after[i] == role);
            }
            if role.index == n - 1 && role.index != own_role.index {
                assert(after[after.len() - 1] == role);
            }
            if after.contains(role) {
                let i = choose|i: int| 0 <= i < after.len() && after[i] == role;
                if i < before.len() {
                    assert(before[i] == role);
                    assert(before.contains(role));
                }
            }
        }
        assert forall|i: int, j: int| 0 <= i < j < after.len() implies (#[trigger] after[i]).index
            < (#[trigger] after[j]).index by {
            assert(after[i] == before[i]);
            if j < before.len() {
                assert(after[j] == before[j]);
            } else {
                assert(before.contains(before[i]));
            }
        }
    }
}

/// How many of the first `n` parties are outside pair `t` and so hold its stream.
pub open spec fn owners(t: int, n: nat) -> int
    decreases n,
{
    if n == 0 {
        0
    } else {
        owners(t, (n - 1) as nat) + bit_int(!nth_pair(t).has(Role { index: (n - 1) as usize }))
    }
}

/// Every pair is owned by exactly three of the five parties.
pub proof fn lemma_three_owners(t: int)
    requires
        0 <= t < 10,
    ensures
        owners(t, 5) == 3,
{
    reveal_with_fuel(owners, 6);
}

/// The streams of a role for the pairs that it is not part of.
#[derive(Debug)]
pub struct ThresholdPrfKeys {
    pub own_role: Role,
    pub keys: Vec<(PartyPair, PrfRng)>,
}

/// The streams belong to the given pairs, in order.
pub open spec fn keyed_by<K>(keys: Seq<(K, PrfRng)>, names: Seq<K>) -> bool {
    &&& keys.len() == names.len()
    &&& forall|i: int| 0 <= i < keys.len() ==> (#[trigger] keys[i]).0 == names[i]
}

/// There is a seed for a name.
pub open spec fn has_seed<K>(seeds: Seq<(K, PrfSeed)>, name: K) -> bool {
    exists|j: int| 0 <= j < seeds.len() && (#[trigger] seeds[j]).0 == name
}

/// The seeds are exactly those of the given names, in any order.
pub open spec fn seeds_for<K>(seeds: Seq<(K, PrfSeed)>, names: Seq<K>) -> bool {
    &&& seeds.len() == names.len()
    &&& forall|i: int| 0 <= i < names.len() ==> has_seed(seeds, #[trigger] names[i])
}

/// A stream starts at a seed of its name.
pub open spec fn starts_at<K>(seeds: Seq<(K, PrfSeed)>, key: (K, PrfRng)) -> bool {
    exists|j: int|
        0 <= j < seeds.len() && (#[trigger] seeds[j]).0 == key.0 && PrfRng::fresh(
            blake3_hash(seeds[j].1@),
            key.1,
        )
}

/// Every stream starts at the seed of its name.
pub open spec fn seeded_by<K>(keys: Seq<(K, PrfRng)>, seeds: Seq<(K, PrfSeed)>) -> bool {
    forall|i: int| 0 <= i < keys.len() ==> starts_at(seeds, #[trigger] keys[i])
}

/// A stream that starts at the seeds of its name is the one whose key is the digest of such a
/// seed, and nothing of it has been read.
pub proof fn lemma_stream_start<K>(keys: Seq<(K, PrfRng)>, seeds: Seq<(K, PrfSeed)>, i: int)
    requires
        0 <= i < keys.len(),
        seeded_by(keys, seeds),
    ensures
        exists|j: int|
            0 <= j < seeds.len() && (#[trigger] seeds[j]).0 == keys[i].0 && keys[i].1.key@
                == blake3_hash(seeds[j].1@) && keys[i].1.pos == 0,
{
    assert(starts_at(seeds, keys[i]));
}

/// Seeds belong to names exactly if there are as many seeds as names and every name has one.
pub proof fn lemma_seeds_of_names<K>(seeds: Seq<(K, PrfSeed)>, names: Seq<K>)
    ensures
        seeds_for(seeds, names) ==> seeds.len() == names.len() && forall|i: int|
            0 <= i < names.len() ==> seeds.map_values(|s: (K, PrfSeed)| s.0).contains(
                #[trigger] names[i],
            ),
        seeds.len() == names.len() && (forall|i: int|
            0 <= i < names.len() ==> seeds.map_values(|s: (K, PrfSeed)| s.0).contains(
                #[trigger] names[i],
            )) ==> seeds_for(seeds, names),
{
    let given = seeds.map_values(|s: (K, PrfSeed)| s.0);
    assert forall|i: int| 0 <= i < names.len() implies has_seed(seeds, #[trigger] names[i])
        == given.contains(names[i]) by {
        if has_seed(seeds, names[i]) {
            let j = choose|j: int| 0 <= j < seeds.len() && (#[trigger] seeds[j]).0 == names[i];
            assert(given[j] == names[i]);
        }
        if given.contains(names[i]) {
            let j = choose|j: int| 0 <= j < given.len() && given[j] == names[i];
            assert(seeds[j].0 == names[i]);
        }
    }
}

impl ThresholdPrfKeys {
    /// The role holds exactly the streams of the pairs that it is not part of.
    pub open spec fn wf(self) -> bool {
        keyed_by(self.keys@, pairs_excluding(self.own_role, 10))
    }

    /// Builds the streams from one seed per pair. Fails unless the seeds are exactly those of the
    /// pairs that the role is not part of.
    pub fn from_seeds(own_role: Role, seeds: &[(PartyPair, PrfSeed)]) -> (r: Result<
        ThresholdPrfKeys,
        ProtocolError,
    >)
        ensures
            if seeds_for(seeds@, pairs_excluding(own_role, 10)) {
                &&& r is Ok
                &&& r->Ok_0.own_role == own_role
                &&& r->Ok_0.wf()
                &&& seeded_by(r->Ok_0.keys@, seeds@)
            } else {
                r == Err::<ThresholdPrfKeys, ProtocolError>(ProtocolError::WrongKeySet)
            },
    {
        let names: Vec<PartyPair> = PartyPair::excluding(own_role);
        if seeds.len() != names.len() {
            return Err(ProtocolError::WrongKeySet);
        }
        let mut keys: Vec<(PartyPair, PrfRng)> = Vec::new();
        let mut i: usize = 0;
        while i < names.len()
            invariant
                i <= names@.len(),
                names@ == pairs_excluding(own_role, 10),
                seeds@.len() == names@.len(),
                keys@.len() == i,
                forall|k: int| 0 <= k < i ==> (#[trigger] keys@[k]).0 == names@[k],
                seeded_by(keys@, seeds@),
                forall|k: int| 0 <= k < i ==> has_seed(seeds@, #[trigger] names@[k]),
            decreases names@.len() - i,
        {
            let mut j: usize = 0;
            while j < seeds.len() && seeds[j].0 != names[i]
                invariant
                    i < names@.len(),
                    j <= seeds@.len(),
                    forall|k: int| 0 <= k < j ==> (#[trigger] seeds@[k]).0 != names@[i as int],
                decreases seeds@.len() - j,
            {
                j += 1;
            }
            if j == seeds.len() {
                assert(!has_seed(seeds@, names@[i as int]));
                return Err(ProtocolError::WrongKeySet);
            }
            keys.push((names[i], seed_to_rng(&seeds[j].1)));
            assert(seeds@[j as int].0 == names@[i as int]);
            assert(starts_at(seeds@, keys@[i as int]));
            i += 1;
        }
        Ok(ThresholdPrfKeys { own_role, keys })
    }

    /// The role that holds the streams.
    pub fn own_role(&self) -> (r: Role)
        ensures
            r == self.own_role,
    {
        self.own_role
    }

    /// The stream of the pair `{i, j}`. There is none if the parties are the same or the role is
    /// part of the pair.
    pub fn get_mut(&mut self, i: Role, j: Role) -> (r: Option<&mut PrfRng>)
        ensures
            match r {
                None => {
                    &&& *final(self) == *old(self)
                    &&& i == j || forall|k: int|
                        0 <= k < old(self).keys@.len() ==> (#[trigger] old(self).keys@[k]).0
                            != pair_of(i, j)
                },
                Some(rng) => {
                    &&& i != j
                    &&& final(self).own_role == old(self).own_role
                    &&& exists|k: int|
                        {
                            &&& 0 <= k < old(self).keys@.len()
                            &&& (#[trigger] old(self).keys@[k]).0 == pair_of(i, j)
                            &&& *rng == old(self).keys@[k].1
                            &&& final(self).keys@ == old(self).keys@.update(
                                k,
                                (pair_of(i, j), *final(rng)),
                            )
                        }
                },
            },
    {
        if i == j {
            return None;
        }
        let pair = PartyPair::new(i, j);
        let mut k: usize = 0;
        while k < self.keys.len() && self.keys[k].0 != pair
            invariant
                pair == pair_of(i, j),
                k <= self.keys@.len(),
                *self == *old(self),
                forall|m: int| 0 <= m < k ==> (#[trigger] self.keys@[m]).0 != pair,
            decreases self.keys@.len() - k,
        {
            k += 1;
        }
        if k == self.keys.len() {
            return None;
        }
        Some(&mut self.keys[k].1)
    }

    /// The pairs whose stream the role holds.
    pub fn owned_pairs(&self) -> (r: Vec<PartyPair>)
        ensures
            r@ == self.keys@.map_values(|k: (PartyPair, PrfRng)| k.0),
    {
        let mut out: Vec<PartyPair> = Vec::new();
        let mut i: usize = 0;
        while i < self.keys.len()
            invariant
                i <= self.keys@.len(),
                out@.len() == i,
                forall|j: int| 0 <= j < i ==> out@[j] == self.keys@[j].0,
            decreases self.keys@.len() - i,
        {
            out.push(self.keys[i].0);
            i += 1;
        }
        assert(out@ =~= self.keys@.map_values(|k: (PartyPair, PrfRng)| k.0));
        out
    }
}

/// The other parties of a role among the first `n` parties, in order.
pub open spec fn other_roles(own_role: Role, n: nat) -> Seq<Role>
    decreases n,
{
    if n == 0 {
        Seq::empty()
    } else {
        let rest = other_roles(own_role, (n - 1) as nat);
        if own_role.index == n - 1 {
            rest
        } else {
            rest.push(Role { index: (n - 1) as usize })
        }
    }
}

fn roles_but(own_role: Role) -> (r: Vec<Role>)
    ensures
        r@ == other_roles(own_role, 5),
{
    let roles: [Role; 5] = five_party_roles();
    let mut out: Vec<Role> = Vec::new();
    let mut i: usize = 0;
    while i < 5
        invariant
            i <= 5,
            forall|j: int| 0 <= j < 5 ==> (#[trigger] roles@[j]).index == j,
            out@ == other_roles(own_role, i as nat),
        decreases 5 - i,
    {
        let role: Role = roles[i];
        assert(role == (Role { index: i }));
        if role != own_role {
            out.push(role);
        }
        i += 1;
    }
    out
}

/// The streams of a role that it shares with each other party.
#[derive(Debug)]
pub struct PairwisePrfKeys {
    pub own_role: Role,
    pub keys: Vec<(Role, PrfRng)>,
}

impl PairwisePrfKeys {
    /// The role holds exactly one stream for each other party.
    pub open spec fn wf(self) -> bool {
        keyed_by(self.keys@, other_roles(self.own_role, 5))
    }

    /// Builds the streams from one seed per other party. Fails unless the seeds are exactly those
    /// of the other parties.
    pub fn from_seeds(own_role: Role, seeds: &[(Role, PrfSeed)]) -> (r: Result<
        PairwisePrfKeys,
        ProtocolError,
    >)
        ensures
            if seeds_for(seeds@, other_roles(own_role, 5)) {
                &&& r is Ok
                &&& r->Ok_0.own_role == own_role
                &&& r->Ok_0.wf()
                &&& seeded_by(r->Ok_0.keys@, seeds@)
            } else {
                r == Err::<PairwisePrfKeys, ProtocolError>(ProtocolError::WrongKeySet)
            },
    {
        let names: Vec<Role> = roles_but(own_role);
        if seeds.len() != names.len() {
            return Err(ProtocolError::WrongKeySet);
        }
        let mut keys: Vec<(Role, PrfRng)> = Vec::new();
        let mut i: usize = 0;
        while i < names.len()
            invariant
                i <= names@.len(),
                names@ == other_roles(own_role, 5),
                seeds@.len() == names@.len(),
                keys@.len() == i,
                forall|k: int| 0 <= k < i ==> (#[trigger] keys@[k]).0 == names@[k],
                seeded_by(keys@, seeds@),
                forall|k: int| 0 <= k < i ==> has_seed(seeds@, #[trigger] names@[k]),
            decreases names@.len() - i,
        {
            let mut j: usize = 0;
            while j < seeds.len() && seeds[j].0 != names[i]
                invariant
                    i < names@.len(),
                    j <= seeds@.len(),
                    forall|k: int| 0 <= k < j ==> (#[trigger] seeds@[k]).0 != names@[i as int],
                decreases seeds@.len() - j,
            {
                j += 1;
            }
            if j == seeds.len() {
                assert(!has_seed(seeds@, names@[i as int]));
                return Err(ProtocolError::WrongKeySet);
            }
            keys.push((names[i], seed_to_rng(&seeds[j].1)));
            assert(seeds@[j as int].0 == names@[i as int]);
            assert(starts_at(seeds@, keys@[i as int]));
            i += 1;
        }
        Ok(PairwisePrfKeys { own_role, keys })
    }

    /// The role that holds the streams.
    pub fn own_role(&self) -> (r: Role)
        ensures
            r == self.own_role,
    {
        self.own_role
    }

    /// The stream that the role shares with another party, if there is one.
    pub fn get_mut(&mut self, other: Role) -> (r: Option<&mut PrfRng>)
        ensures
            match r {
                None => {
                    &&& *final(self) == *old(self)
                    &&& forall|k: int|
                        0 <= k < old(self).keys@.len() ==> (#[trigger] old(self).keys@[k]).0
                            != other
                },
                Some(rng) => {
                    &&& final(self).own_role == old(self).own_role
                    &&& exists|k: int|
                        {
                            &&& 0 <= k < old(self).keys@.len()
                            &&& (#[trigger] old(self).keys@[k]).0 == other
                            &&& *rng == old(self).keys@[k].1
                            &&& final(self).keys@ == old(self).keys@.update(
                                k,
                                (other, *final(rng)),
                            )
                        }
                },
            },
    {
        let mut k: usize = 0;
        while k < self.keys.len() && self.keys[k].0 != other
            invariant
                k <= self.keys@.len(),
                *self == *old(self),
                forall|m: int| 0 <= m < k ==> (#[trigger] self.keys@[m]).0 != other,
            decreases self.keys@.len() - k,
        {
            k += 1;
        }
        if k == self.keys.len() {
            return None;
        }
        Some(&mut self.keys[k].1)
    }

    /// The other parties that the role shares a stream with.
    pub fn parties(&self) -> (r: Vec<Role>)
        ensures
            r@ == self.keys@.map_values(|k: (Role, PrfRng)| k.0),
    {
        let mut out: Vec<Role> = Vec::new();
        let mut i: usize = 0;
        while i < self.keys.len()
            invariant
                i <= self.keys@.len(),
                out@.len() == i,
                forall|j: int| 0 <= j < i ==> out@[j] == self.keys@[j].0,
            decreases self.keys@.len() - i,
        {
            out.push(self.keys[i].0);
            i += 1;
        }
        assert(out@ =~= self.keys@.map_values(|k: (Role, PrfRng)| k.0));
        out
    }
}

} // verus!
