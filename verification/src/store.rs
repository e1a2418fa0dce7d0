//! Queries of the store of anonymous statistics, and what is done with their results.

use crate::shares::Share;
use vstd::prelude::*;
use vstd::string::*;

verus! {

/// The tables of the store.
#[derive(Clone, Copy, Debug, PartialEq, Eq, Structural)]
pub enum AnonStatsTable {
    OneDim,
    OneDimLifted,
    TwoDim,
    TwoDimLifted,
    Face,
}

impl AnonStatsTable {
    /// The name of a table.
    pub open spec fn name_spec(self) -> Seq<char> {
        match self {
            AnonStatsTable::OneDim => "anon_stats_1d"@,
            AnonStatsTable::OneDimLifted => "anon_stats_1d_lifted"@,
            AnonStatsTable::TwoDim => "anon_stats_2d"@,
            AnonStatsTable::TwoDimLifted => "anon_stats_2d_lifted"@,
            AnonStatsTable::Face => "anon_stats_face"@,
        }
    }

    /// The name of a table.
    pub fn name(self) -> (r: &'static str)
        ensures
            r@ == self.name_spec(),
            r@ == (match self {
                AnonStatsTable::OneDim => "anon_stats_1d"@,
                AnonStatsTable::OneDimLifted => "anon_stats_1d_lifted"@,
                AnonStatsTable::TwoDim => "anon_stats_2d"@,
                AnonStatsTable::TwoDimLifted => "anon_stats_2d_lifted"@,
                AnonStatsTable::Face => "anon_stats_face"@,
            }),
    {
        match self {
            AnonStatsTable::OneDim => "anon_stats_1d",
            AnonStatsTable::OneDimLifted => "anon_stats_1d_lifted",
            AnonStatsTable::TwoDim => "anon_stats_2d",
            AnonStatsTable::TwoDimLifted => "anon_stats_2d_lifted",
            AnonStatsTable::Face => "anon_stats_face",
        }
    }
}

/// The condition on the operation, where there is one.
pub open spec fn operation_clause(by_operation: bool) -> Seq<char> {
    if by_operation {
        " AND operation = $2"@
    } else {
        Seq::empty()
    }
}

/// The query for the number of entries that wait, by origin and perhaps by operation.
pub fn num_available_sql(table: AnonStatsTable, by_operation: bool) -> (r: String)
    ensures
        r@ == "SELECT COUNT(*) FROM "@ + table.name_spec()
            + " WHERE processed = FALSE AND origin = $1"@ + operation_clause(by_operation),
        !by_operation ==> r@ == "SELECT COUNT(*) FROM "@ + table.name_spec()
            + " WHERE processed = FALSE AND origin = $1"@,
        by_operation ==> r@ == "SELECT COUNT(*) FROM "@ + table.name_spec()
            + " WHERE processed = FALSE AND origin = $1"@ + " AND operation = $2"@,
{
    let mut sql: String = "SELECT COUNT(*) FROM ".to_owned();
    sql.append(table.name());
    sql.append(" WHERE processed = FALSE AND origin = $1");
    if by_operation {
        sql.append(" AND operation = $2");
    }
    assert(sql@ =~= "SELECT COUNT(*) FROM "@ + table.name_spec()
        + " WHERE processed = FALSE AND origin = $1"@ + operation_clause(by_operation));
    sql
}

/// The query for entries that wait, the oldest first, up to a limit.
pub fn get_available_sql(table: AnonStatsTable, by_operation: bool) -> (r: String)
    ensures
        r@ == "SELECT id, match_id, bundle FROM "@ + table.name_spec()
            + " WHERE processed = FALSE and origin = $1"@ + operation_clause(by_operation)
            + " ORDER BY id ASC LIMIT "@ + (if by_operation {
            "$3"@
        } else {
            "$2"@
        }),
        !by_operation ==> r@ == "SELECT id, match_id, bundle FROM "@ + table.name_spec()
            + " WHERE processed = FALSE and origin = $1"@ + " ORDER BY id ASC LIMIT "@ + "$2"@,
        by_operation ==> r@ == "SELECT id, match_id, bundle FROM "@ + table.name_spec()
            + " WHERE processed = FALSE and origin = $1"@ + " AND operation = $2"@
            + " ORDER BY id ASC LIMIT "@ + "$3"@,
{
    let mut sql: String = "SELECT id, match_id, bundle FROM ".to_owned();
    sql.append(table.name());
    sql.append(" WHERE processed = FALSE and origin = $1");
    if by_operation {
        sql.append(" AND operation = $2");
    }
    sql.append(" ORDER BY id ASC LIMIT ");
    if by_operation {
        sql.append("$3");
    } else {
        sql.append("$2");
    }
    assert(sql@ =~= "SELECT id, match_id, bundle FROM "@ + table.name_spec()
        + " WHERE processed = FALSE and origin = $1"@ + operation_clause(by_operation)
        + " ORDER BY id ASC LIMIT "@ + (if by_operation {
        "$3"@
    } else {
        "$2"@
    }));
    sql
}

/// The statement that marks entries as processed.
pub fn mark_processed_sql(table: AnonStatsTable) -> (r: String)
    ensures
        r@ == "UPDATE "@ + table.name_spec() + " SET processed = TRUE WHERE id = ANY($1)"@,
{
    let mut sql: String = "UPDATE ".to_owned();
    sql.append(table.name());
    sql.append(" SET processed = TRUE WHERE id = ANY($1)");
    sql
}

/// The statement that removes entries that wait, by origin and perhaps by operation.
pub fn clear_unprocessed_sql(table: AnonStatsTable, by_operation: bool) -> (r: String)
    ensures
        r@ == "DELETE FROM "@ + table.name_spec() + " WHERE processed = FALSE AND origin = $1"@
            + operation_clause(by_operation),
        !by_operation ==> r@ == "DELETE FROM "@ + table.name_spec()
            + " WHERE processed = FALSE AND origin = $1"@,
        by_operation ==> r@ == "DELETE FROM "@ + table.name_spec()
            + " WHERE processed = FALSE AND origin = $1"@ + " AND operation = $2"@,
{
    let mut sql: String = "DELETE FROM ".to_owned();
    sql.append(table.name());
    sql.append(" WHERE processed = FALSE AND origin = $1");
    if by_operation {
        sql.append(" AND operation = $2");
    }
    assert(sql@ =~= "DELETE FROM "@ + table.name_spec()
        + " WHERE processed = FALSE AND origin = $1"@ + operation_clause(by_operation));
    sql
}

/// The beginning of the statement that inserts entries.
pub fn insert_sql(table: AnonStatsTable) -> (r: String)
    ensures
        r@ == "INSERT INTO "@ + table.name_spec() + " (match_id, bundle, origin, operation)"@,
{
    let mut sql: String = "INSERT INTO ".to_owned();
    sql.append(table.name());
    sql.append(" (match_id, bundle, origin, operation)");
    sql
}

/// The query for the number of face distances that wait, by origin.
pub fn num_available_face_sql() -> (r: String)
    ensures
        r@ == "SELECT COALESCE(SUM(bundle_size), 0) FROM "@ + AnonStatsTable::Face.name_spec()
            + " WHERE processed = FALSE and origin = $1"@,
{
    let mut sql: String = "SELECT COALESCE(SUM(bundle_size), 0) FROM ".to_owned();
    sql.append(AnonStatsTable::Face.name());
    sql.append(" WHERE processed = FALSE and origin = $1");
    sql
}

/// Number of entries that one statement inserts.
pub const ANON_STATS_INSERT_BATCH_SIZE: usize = 10000;

/// The bounds of the statements that insert `len` entries.
pub open spec fn insert_bounds(len: int, k: int) -> (int, int) {
    let (from, to) = (10000 * k, 10000 * (k + 1));
    (from, if to < len {
        to
    } else {
        len
    })
}

/// Splits entries into the ranges that one statement each inserts. Nothing is inserted if there is
/// no entry.
pub fn insert_ranges(len: usize) -> (r: Vec<(usize, usize)>)
    ensures
        r@.len() == (len + 9999) / 10000,
        forall|k: int|
            0 <= k < r@.len() ==> (#[trigger] r@[k]).0 == insert_bounds(len as int, k).0 && r@[k].1
                == insert_bounds(len as int, k).1,
        forall|k: int|
            0 <= k < r@.len() ==> (#[trigger] r@[k]).0 == 10000 * k && r@[k].0 < r@[k].1 <= r@[k].0
                + 10000 && (k + 1 < r@.len() ==> r@[k].1 == r@[k].0 + 10000),
        len > 0 ==> r@.last().1 == len,
{
    let mut out: Vec<(usize, usize)> = Vec::new();
    let mut at: usize = 0;
    while at < len
        invariant
            at <= len,
            at == (if 10000 * out@.len() < len {
                10000 * out@.len()
            } else {
                len as nat
            }),
            10000 * out@.len() < len + 10000,
            forall|k: int|
                0 <= k < out@.len() ==> (#[trigger] out@[k]).0 == insert_bounds(len as int, k).0
                    && out@[k].1 == insert_bounds(len as int, k).1,
        decreases len - at,
    {
        let end: usize = if len - at > ANON_STATS_INSERT_BATCH_SIZE {
            at + ANON_STATS_INSERT_BATCH_SIZE
        } else {
            len
        };
        out.push((at, end));
        at = end;
    }
    out
}

/// The ranges follow each other without a gap, and together they hold every entry.
pub proof fn lemma_insert_ranges_cover(len: int, i: int)
    requires
        0 <= i < len,
    ensures
        ({
            let k = i / 10000;
            0 <= k < (len + 9999) / 10000 && insert_bounds(len, k).0 <= i < insert_bounds(len, k).1
        }),
        forall|k: int|
            0 <= k < (len + 9999) / 10000 && k != i / 10000 ==> !(insert_bounds(len, k).0 <= i
                < #[trigger] insert_bounds(len, k).1),
{
}

/// Why rows were not inserted: how many should have been, and how many were.
#[derive(Clone, Copy, Debug, PartialEq, Eq, Structural)]
pub struct MissingRows {
    pub expected: usize,
    pub inserted: u64,
}

/// Checks that a statement inserted as many rows as it was given.
pub fn check_inserted(expected: usize, inserted: u64) -> (r: Result<(), MissingRows>)
    ensures
        r == (if inserted == expected {
            Ok::<(), MissingRows>(())
        } else {
            Err::<(), MissingRows>(MissingRows { expected, inserted })
        }),
{
    if inserted != expected as u64 {
        return Err(MissingRows { expected, inserted });
    }
    Ok(())
}

/// What a row that fits adds to what was fetched, and whether the limit is reached.
pub open spec fn took(
    before: FaceFetch,
    id: i64,
    query_id: i64,
    bundle: Seq<Share<u16>>,
    bundle_size: int,
    done: bool,
    after: FaceFetch,
) -> bool {
    &&& after.limit == before.limit
    &&& after.fetched == before.fetched + bundle_size
    &&& after.ids@ == before.ids@.push(id)
    &&& after.query_ids@ == before.query_ids@.push(query_id)
    &&& after.distances@ == before.distances@ + bundle
    &&& done == (after.fetched == after.limit)
}

/// Face distances that are fetched bundle by bundle, up to a limit.
#[derive(Debug)]
pub struct FaceFetch {
    pub limit: usize,
    pub fetched: usize,
    pub ids: Vec<i64>,
    pub query_ids: Vec<i64>,
    pub distances: Vec<Share<u16>>,
}

impl FaceFetch {
    /// There are as many distances as were counted, and no more than the limit allows.
    pub open spec fn within_limit(self) -> bool {
        &&& self.fetched == self.distances@.len()
        &&& self.distances@.len() <= self.limit
    }

    /// Nothing was fetched yet.
    pub fn new(limit: usize) -> (r: FaceFetch)
        ensures
            r.limit == limit,
            r.fetched == 0,
            r.ids@.len() == 0,
            r.query_ids@.len() == 0,
            r.distances@.len() == 0,
            r.within_limit(),
    {
        FaceFetch {
            limit,
            fetched: 0,
            ids: Vec::new(),
            query_ids: Vec::new(),
            distances: Vec::new(),
        }
    }

    /// Takes the next row, unless there would be more distances than the limit allows. Returns
    /// whether fetching is done: the row did not fit, or there are as many distances as the limit
    /// allows.
    pub fn take(&mut self, id: i64, query_id: i64, bundle: Vec<Share<u16>>, bundle_size: usize) -> (r:
        bool)
        ensures
            old(self).fetched + bundle_size > old(self).limit ==> r && *final(self) == *old(self),
            old(self).fetched + bundle_size <= old(self).limit ==> took(
                *old(self),
                id,
                query_id,
                bundle@,
                bundle_size as int,
                r,
                *final(self),
            ),
            old(self).fetched + bundle_size <= old(self).limit ==> {
                &&& final(self).limit == old(self).limit
                &&& final(self).fetched == old(self).fetched + bundle_size
                &&& final(self).ids@ == old(self).ids@.push(id)
                &&& final(self).query_ids@ == old(self).query_ids@.push(query_id)
                &&& final(self).distances@ == old(self).distances@ + bundle@
                &&& r == (final(self).fetched == final(self).limit)
            },
            old(self).fetched == old(self).distances@.len() && bundle_size == bundle@.len()
                && old(self).fetched <= old(self).limit ==> final(self).fetched
                == final(self).distances@.len() <= final(self).limit,
            old(self).fetched <= old(self).limit ==> final(self).fetched <= final(self).limit,
            old(self).within_limit() && bundle_size == bundle@.len()
                ==> final(self).within_limit(),
    {
        if self.fetched > self.limit || bundle_size > self.limit - self.fetched {
            return true;
        }
        let mut bundle: Vec<Share<u16>> = bundle;
        self.fetched = self.fetched + bundle_size;
        self.distances.append(&mut bundle);
        self.query_ids.push(query_id);
        self.ids.push(id);
        self.fetched == self.limit
    }
}

/// A row of face distances.
pub struct FaceRow {
    pub id: i64,
    pub query_id: i64,
    pub bundle: Seq<Share<u16>>,
}

/// The distances of the first `m` rows, one bundle after the other.
pub open spec fn bundles_of(rows: Seq<FaceRow>, m: nat) -> Seq<Share<u16>>
    decreases m,
{
    if m == 0 {
        Seq::empty()
    } else {
        bundles_of(rows, (m - 1) as nat) + rows[m - 1].bundle
    }
}

/// The distances of rows are their bundles joined end to end.
pub proof fn lemma_bundles_joined(rows: Seq<FaceRow>, m: nat)
    requires
        m <= rows.len(),
    ensures
        bundles_of(rows, m) == rows.take(m as int).map_values(|row: FaceRow| row.bundle).flatten(),
    decreases m,
{
    let all = rows.take(m as int).map_values(|row: FaceRow| row.bundle);
    all.lemma_flatten_and_flatten_alt_are_equivalent();
    if m > 0 {
        lemma_bundles_joined(rows, (m - 1) as nat);
        let rest = rows.take(m - 1).map_values(|row: FaceRow| row.bundle);
        rest.lemma_flatten_and_flatten_alt_are_equivalent();
        assert(all.drop_last() =~= rest);
    }
}

/// A fetch that takes rows until one call reports that it is done, or none are left: `states[k]` is
/// what was fetched before row `k`, and `done[k]` what the call on row `k` returned.
pub open spec fn fetches(
    rows: Seq<FaceRow>,
    limit: usize,
    states: Seq<FaceFetch>,
    done: Seq<bool>,
) -> bool {
    let calls = done.len();
    &&& states.len() == calls + 1
    &&& calls <= rows.len()
    &&& states[0].limit == limit
    &&& states[0].fetched == 0
    &&& states[0].ids@.len() == 0
    &&& states[0].query_ids@.len() == 0
    &&& states[0].distances@.len() == 0
    &&& forall|k: int|
        0 <= k < calls ==> {
            let row = #[trigger] rows[k];
            if states[k].fetched + row.bundle.len() > states[k].limit {
                done[k] && states[k + 1] == states[k]
            } else {
                took(
                    states[k],
                    row.id,
                    row.query_id,
                    row.bundle,
                    row.bundle.len() as int,
                    done[k],
                    states[k + 1],
                )
            }
        }
    &&& forall|k: int| 0 <= k < calls - 1 ==> !#[trigger] done[k]
    &&& calls < rows.len() ==> calls > 0 && done[calls - 1]
}

/// What was fetched is the first `m` rows.
pub open spec fn holds_rows(fetch: FaceFetch, rows: Seq<FaceRow>, m: nat) -> bool {
    &&& fetch.ids@ == Seq::new(m, |k: int| rows[k].id)
    &&& fetch.query_ids@ == Seq::new(m, |k: int| rows[k].query_id)
    &&& fetch.distances@ == bundles_of(rows, m)
    &&& fetch.within_limit()
}

/// Before row `k`, the first `k` rows were fetched.
proof fn lemma_fetched_so_far(
    rows: Seq<FaceRow>,
    limit: usize,
    states: Seq<FaceFetch>,
    done: Seq<bool>,
    k: nat,
)
    requires
        fetches(rows, limit, states, done),
        k < done.len() || k == 0,
    ensures
        holds_rows(states[k as int], rows, k),
        states[k as int].limit == limit,
    decreases k,
{
    if k == 0 {
        assert(states[0].ids@ =~= Seq::new(0, |j: int| rows[j].id));
        assert(states[0].query_ids@ =~= Seq::new(0, |j: int| rows[j].query_id));
        assert(states[0].distances@ =~= bundles_of(rows, 0));
    } else {
        let m = (k - 1) as nat;
        lemma_fetched_so_far(rows, limit, states, done, m);
        assert(!done[m as int]);
        let row = rows[m as int];
        assert(states[k as int].ids@ =~= Seq::new(k, |j: int| rows[j].id));
        assert(states[k as int].query_ids@ =~= Seq::new(k, |j: int| rows[j].query_id));
    }
}

/// A fetch gives the first rows, as many as the limit allows: their numbers and their bundles, in
/// order, and no more distances than the limit. It leaves rows only where the limit is reached or
/// the next row does not fit.
pub proof fn lemma_fetch_takes_first_rows(
    rows: Seq<FaceRow>,
    limit: usize,
    states: Seq<FaceFetch>,
    done: Seq<bool>,
)
    requires
        fetches(rows, limit, states, done),
    ensures
        ({
            let fetch = states.last();
            let m = fetch.ids@.len();
            &&& m <= rows.len()
            &&& holds_rows(fetch, rows, m)
            &&& fetch.distances@.len() <= limit
            &&& m < rows.len() ==> fetch.distances@.len() == limit || fetch.distances@.len()
                + rows[m as int].bundle.len() > limit
        }),
{
    let calls = done.len();
    if calls == 0 {
        lemma_fetched_so_far(rows, limit, states, done, 0);
    } else {
        let k = (calls - 1) as nat;
        lemma_fetched_so_far(rows, limit, states, done, k);
        let row = rows[k as int];
        let fetch = states.last();
        if states[k as int].fetched + row.bundle.len() <= limit {
            assert(fetch.ids@ =~= Seq::new(calls, |j: int| rows[j].id));
            assert(fetch.query_ids@ =~= Seq::new(calls, |j: int| rows[j].query_id));
        }
    }
}

} // verus!
