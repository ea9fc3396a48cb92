//! The search for a seed node that answers.
//!
//! The seeds are tried in their order, and the first that can be connected to is used. Opening a
//! client only reads the seed's URL; connecting is the caller's part.
use crate::text::texts;
use redis::{Client, RedisError};
use vstd::prelude::*;

verus! {

/// A client that knows its node and has not connected yet.
#[verifier::external_type_specification]
#[verifier::external_body]
pub struct ExClient(Client);

/// An error that the client reports.
#[verifier::external_type_specification]
#[verifier::external_body]
pub struct ExRedisError(RedisError);

/// What `redis::Client::open` makes of a URL.
pub uninterp spec fn opened_client(url: Seq<char>) -> Result<Client, RedisError>;

/// Calls `redis::Client::open`, which parses the URL and does no I/O. On the Unix platforms that
/// this program is for, what comes back depends on the URL alone; it is named [`opened_client`].
/// Which URLs are refused is left unsaid.
#[verifier::external_body]
fn open_client(url: &str) -> (client: Result<Client, RedisError>)
    ensures
        client == opened_client(url@),
{
    Client::open(url)
}

/// Why no seed is used.
#[derive(Debug)]
pub enum SeedError {
    /// There are no seeds.
    NoSeeds,
    /// No seed could be connected to. The error is that of the last one.
    Failed(RedisError),
}

/// The text of [`SeedError::NoSeeds`].
pub fn no_seeds_message() -> (s: String)
    ensures
        s@ == "no seeds configured"@,
{
    "no seeds configured".to_owned()
}

/// What to do next.
#[derive(Debug)]
pub enum SeedStep {
    /// Connect with this client.
    Connect(Client),
    /// Stop: all seeds have been tried.
    GiveUp(SeedError),
}

/// How far the search has come.
#[derive(Debug)]
pub struct SeedSearch {
    /// The number of seeds that have been tried.
    pub tried: usize,
    /// The error of the last seed that failed.
    pub last_err: Option<RedisError>,
}

/// The first seed from `from` on whose URL is accepted, or the end of the list.
pub open spec fn next_open(seeds: Seq<Seq<char>>, from: int) -> int
    decreases seeds.len() - from,
{
    if from >= seeds.len() || opened_client(seeds[from]) is Ok {
        from
    } else {
        next_open(seeds, from + 1)
    }
}

/// The last error once the seeds from `from` up to `to` have been refused: the last of theirs, or
/// the earlier one where there are none.
pub open spec fn error_after(
    seeds: Seq<Seq<char>>,
    from: int,
    to: int,
    earlier: Option<RedisError>,
) -> Option<RedisError> {
    if from < to {
        Some(opened_client(seeds[to - 1])->Err_0)
    } else {
        earlier
    }
}

/// How a search ends that failed with a given last error.
pub open spec fn failure(last: Option<RedisError>) -> SeedError {
    match last {
        Some(e) => SeedError::Failed(e),
        None => SeedError::NoSeeds,
    }
}

/// The next seed whose URL is accepted is the first: those from `from` up to it are refused.
pub proof fn next_open_is_first(seeds: Seq<Seq<char>>, from: int)
    ensures
        from <= next_open(seeds, from),
        from <= seeds.len() ==> next_open(seeds, from) <= seeds.len(),
        next_open(seeds, from) < seeds.len() ==> opened_client(seeds[next_open(seeds, from)]) is Ok,
        forall|i: int| from <= i < next_open(seeds, from) ==> opened_client(#[trigger] seeds[i]) is Err,
    decreases seeds.len() - from,
{
    if !(from >= seeds.len() || opened_client(seeds[from]) is Ok) {
        next_open_is_first(seeds, from + 1);
    }
}

impl SeedSearch {
    /// A search that has not begun.
    pub fn new() -> (s: SeedSearch)
        ensures
            s.tried == 0,
            s.last_err is None,
    {
        SeedSearch { tried: 0, last_err: None }
    }

    /// Goes on to the next seed whose URL is accepted. The seeds before it that are refused count
    /// as failed. Without one the search ends with the last error.
    pub fn advance(&mut self, seeds: &[String]) -> (step: SeedStep)
        ensures
            ({
                let all = texts(seeds@);
                let from = old(self).tried as int;
                let k = next_open(all, from);
                let last = error_after(all, from, k, old(self).last_err);
                if k < all.len() {
                    &&& step == SeedStep::Connect(opened_client(all[k])->Ok_0)
                    &&& final(self).tried == k + 1
                    &&& final(self).last_err == last
                } else {
                    &&& step == SeedStep::GiveUp(failure(last))
                    &&& final(self).tried == k
                    &&& final(self).last_err is None
                }
            }),
    {
        let ghost all = texts(seeds@);
        let ghost from = self.tried as int;
        let ghost goal = next_open(all, from);
        proof {
            next_open_is_first(all, from);
        }
        while self.tried < seeds.len()
            invariant
                all == texts(seeds@),
                goal == next_open(all, from),
                from == old(self).tried,
                from <= self.tried <= goal,
                goal == next_open(all, self.tried as int),
                self.last_err == error_after(all, from, self.tried as int, old(self).last_err),
            decreases seeds@.len() - self.tried,
        {
            proof {
                assert(all[self.tried as int] == seeds@[self.tried as int]@);
                next_open_is_first(all, self.tried as int);
            }
            match self.opened(open_client(seeds[self.tried].as_str())) {
                Some(client) => {
                    return SeedStep::Connect(client);
                },
                None => {
                    proof {
                        next_open_is_first(all, self.tried as int);
                    }
                },
            }
        }
        match self.last_err.take() {
            Some(e) => SeedStep::GiveUp(SeedError::Failed(e)),
            None => SeedStep::GiveUp(SeedError::NoSeeds),
        }
    }

    /// Takes into account what became of opening a client for the next seed: the client to connect
    /// with, or an error.
    pub fn opened(&mut self, result: Result<Client, RedisError>) -> (client: Option<Client>)
        requires
            old(self).tried < usize::MAX,
        ensures
            final(self).tried == old(self).tried + 1,
            match result {
                Ok(c) => client == Some(c) && final(self).last_err == old(self).last_err,
                Err(e) => client is None && final(self).last_err == Some(e),
            },
    {
        self.tried = self.tried + 1;
        match result {
            Ok(c) => Some(c),
            Err(e) => {
                self.last_err = Some(e);
                None
            },
        }
    }

    /// Notes that the seed could not be connected to.
    pub fn failed(&mut self, err: RedisError)
        ensures
            final(self).tried == old(self).tried,
            final(self).last_err == Some(err),
    {
        self.last_err = Some(err);
    }
}

/// How a search ends that has tried the seeds before `from`, where `refused(i)` is the error with
/// which connecting to seed `i` fails, if it does: the seed that is used, or the failure.
pub open spec fn search_from(
    seeds: Seq<Seq<char>>,
    refused: spec_fn(int) -> Option<RedisError>,
    from: int,
    last: Option<RedisError>,
) -> Result<int, SeedError>
    decreases seeds.len() - from,
{
    let k = next_open(seeds, from);
    if k >= seeds.len() {
        Err(failure(error_after(seeds, from, k, last)))
    } else {
        proof {
            next_open_is_first(seeds, from);
        }
        match refused(k) {
            None => Ok(k),
            Some(e) => search_from(seeds, refused, k + 1, Some(e)),
        }
    }
}

/// The error with which a seed fails, if it does: its URL is refused, or the connection.
pub open spec fn seed_error(
    seeds: Seq<Seq<char>>,
    refused: spec_fn(int) -> Option<RedisError>,
    i: int,
) -> Option<RedisError> {
    match opened_client(seeds[i]) {
        Ok(_) => refused(i),
        Err(e) => Some(e),
    }
}

proof fn lemma_search_from(
    seeds: Seq<Seq<char>>,
    refused: spec_fn(int) -> Option<RedisError>,
    from: int,
    last: Option<RedisError>,
)
    requires
        0 <= from <= seeds.len(),
    ensures
        match search_from(seeds, refused, from, last) {
            Ok(i) => from <= i < seeds.len() && seed_error(seeds, refused, i) is None && forall|j: int|
                from <= j < i ==> #[trigger] seed_error(seeds, refused, j) is Some,
            Err(e) => (forall|j: int|
                from <= j < seeds.len() ==> #[trigger] seed_error(seeds, refused, j) is Some) && e
                == failure(
                if from < seeds.len() {
                    seed_error(seeds, refused, seeds.len() - 1)
                } else {
                    last
                },
            ),
        },
    decreases seeds.len() - from,
{
    next_open_is_first(seeds, from);
    let k = next_open(seeds, from);
    if k < seeds.len() && refused(k) is Some {
        lemma_search_from(seeds, refused, k + 1, refused(k));
    }
}

/// The first seed that works is used: a search ends with seed `i` exactly if seed `i` opens and
/// connects and none before it does. Where none works, it ends with the error of the last seed;
/// without seeds, with [`SeedError::NoSeeds`].
pub proof fn first_working_seed_is_used(
    seeds: Seq<Seq<char>>,
    refused: spec_fn(int) -> Option<RedisError>,
)
    ensures
        match search_from(seeds, refused, 0, None) {
            Ok(i) => 0 <= i < seeds.len() && seed_error(seeds, refused, i) is None && forall|j: int|
                0 <= j < i ==> #[trigger] seed_error(seeds, refused, j) is Some,
            Err(SeedError::NoSeeds) => seeds.len() == 0,
            Err(SeedError::Failed(e)) => seeds.len() > 0 && seed_error(
                seeds,
                refused,
                seeds.len() - 1,
            ) == Some(e) && forall|j: int|
                0 <= j < seeds.len() ==> #[trigger] seed_error(seeds, refused, j) is Some,
        },
{
    lemma_search_from(seeds, refused, 0, None);
    if seeds.len() > 0 && search_from(seeds, refused, 0, None) is Err {
        assert(seed_error(seeds, refused, seeds.len() - 1) is Some);
    }
}

/// Seeds that are refused leave the error of the last of them; where none is, the earlier error
/// stays. The search then fails with the error that was left, or for want of seeds.
pub proof fn last_refusal_is_reported(
    seeds: Seq<Seq<char>>,
    from: int,
    to: int,
    earlier: Option<RedisError>,
    e: RedisError,
)
    ensures
        0 <= from < to <= seeds.len() && opened_client(seeds[to - 1]) == Err::<Client, RedisError>(e)
            ==> error_after(seeds, from, to, earlier) == Some(e),
        error_after(seeds, from, from, earlier) == earlier,
        failure(Some(e)) == SeedError::Failed(e),
        failure(None) is NoSeeds,
{
}

/// A search ends with the first seed that opens and connects.
pub proof fn first_working_seed_is_found(
    seeds: Seq<Seq<char>>,
    refused: spec_fn(int) -> Option<RedisError>,
    i: int,
)
    requires
        0 <= i < seeds.len(),
        opened_client(seeds[i]) is Ok && refused(i) is None,
        forall|j: int| 0 <= j < i ==> opened_client(#[trigger] seeds[j]) is Err || refused(j) is Some,
    ensures
        search_from(seeds, refused, 0, None) == Ok::<int, SeedError>(i),
{
    lemma_search_from(seeds, refused, 0, None);
    assert(seed_error(seeds, refused, i) is None);
    assert forall|j: int| 0 <= j < i implies #[trigger] seed_error(seeds, refused, j) is Some by {
        assert(opened_client(seeds[j]) is Err || refused(j) is Some);
    }
}

} // verus!
