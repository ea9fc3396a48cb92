//! A worker: one kind of operation, over and over, on one key.
use crate::stats::{recorded, OpStats};
use crate::text::{decimal, decimal_has_its_value, decimal_text, numeral_value, texts};
use vstd::prelude::*;
use vstd::string::StringExecFns;

verus! {

/// Of this many rounds in a row one is such that its error is printed.
pub const ROUNDS_PER_ERROR_LINE: u64 = 2000;

/// The kind of operation.
#[derive(Debug, Clone, Copy, PartialEq, Eq)]
pub enum OpKind {
    /// Writes the number of the round to the key.
    Write,
    /// Reads the key.
    Read,
}

impl OpKind {
    /// The name of the operation's command.
    pub open spec fn text(self) -> Seq<char> {
        match self {
            OpKind::Write => "SET"@,
            OpKind::Read => "GET"@,
        }
    }

    /// Names the operation's command.
    pub fn name(&self) -> (s: &'static str)
        ensures
            s@ == self.text(),
    {
        match self {
            OpKind::Write => "SET",
            OpKind::Read => "GET",
        }
    }
}

/// A worker and the round it is in.
#[derive(Debug)]
pub struct Worker {
    /// The position of the key in the list of keys.
    pub shard: usize,
    /// The kind of operation.
    pub op: OpKind,
    /// The key.
    pub key: String,
    /// The number of rounds behind.
    pub round: u64,
}

/// An error in this round is printed.
pub open spec fn prints_errors(round: u64) -> bool {
    round % ROUNDS_PER_ERROR_LINE == 0
}

/// The words of a worker's command.
pub open spec fn command_words(op: OpKind, key: Seq<char>, round: u64) -> Seq<Seq<char>> {
    match op {
        OpKind::Write => seq!["SET"@, key, decimal(round as nat)],
        OpKind::Read => seq!["GET"@, key],
    }
}

/// The line that reports an error.
pub open spec fn error_line(shard: nat, op: OpKind, round: u64, err: Seq<char>) -> Seq<char> {
    "shard="@ + decimal(shard) + " op="@ + op.text() + " i="@ + decimal(round as nat) + " err="@ + err
}

impl Worker {
    /// A worker before its first round.
    pub fn new(shard: usize, op: OpKind, key: &str) -> (w: Worker)
        ensures
            w.shard == shard,
            w.op == op,
            w.key@ == key@,
            w.round == 0,
    {
        Worker { shard, op, key: key.to_owned(), round: 0 }
    }

    /// The words of the command to send in this round.
    pub fn command(&self) -> (words: Vec<String>)
        ensures
            texts(words@) == command_words(self.op, self.key@, self.round),
    {
        let mut words: Vec<String> = Vec::new();
        words.push(self.op.name().to_owned());
        words.push(self.key.clone());
        match self.op {
            OpKind::Write => {
                words.push(decimal_text(self.round));
            },
            OpKind::Read => {},
        }
        proof {
            assert(texts(words@) =~= command_words(self.op, self.key@, self.round));
        }
        words
    }

    /// Ends the round: records its latency and outcome, and goes on to the next. Where the round
    /// failed, `err` describes the error. The line to print comes back, if there is one.
    pub fn complete(&mut self, stats: &mut OpStats, us: u64, err: Option<&str>) -> (line: Option<String>)
        requires
            old(stats).wf(),
            old(self).round < u64::MAX,
        ensures
            final(stats).wf(),
            final(stats)@ == recorded(old(stats)@, us, err is None),
            final(self).round == old(self).round + 1,
            final(self).shard == old(self).shard,
            final(self).op == old(self).op,
            final(self).key == old(self).key,
            line is Some <==> err is Some && prints_errors(old(self).round),
            line matches Some(text) ==> text@ == error_line(
                old(self).shard as nat,
                old(self).op,
                old(self).round,
                err->0@,
            ),
    {
        stats.record(us, err.is_none());
        let line = match err {
            Some(e) => if self.round % ROUNDS_PER_ERROR_LINE == 0 {
                let mut s = "shard=".to_owned();
                s.append(decimal_text(self.shard as u64).as_str());
                s.append(" op=");
                s.append(self.op.name());
                s.append(" i=");
                s.append(decimal_text(self.round).as_str());
                s.append(" err=");
                s.append(e);
                Some(s)
            } else {
                None
            },
            None => None,
        };
        self.round = self.round + 1;
        line
    }
}

/// `w` is a worker before its first round.
pub open spec fn is_new(w: Worker, shard: int, op: OpKind, key: Seq<char>) -> bool {
    &&& w.shard == shard
    &&& w.op == op
    &&& w.key@ == key
    &&& w.round == 0
}

/// Plans the workers: for each key one that writes and, right behind it, one that reads.
pub fn plan_workers(keys: &[String]) -> (workers: Vec<Worker>)
    ensures
        workers@.len() == 2 * keys@.len(),
        forall|i: int|
            0 <= i < workers@.len() ==> is_new(
                #[trigger] workers@[i],
                i / 2,
                if i % 2 == 0 { OpKind::Write } else { OpKind::Read },
                keys@[i / 2]@,
            ),
        forall|k: int|
            0 <= k < keys@.len() ==> {
                &&& (#[trigger] workers@[2 * k]).op == OpKind::Write
                &&& workers@[2 * k].key@ == (#[trigger] keys@[k])@
                &&& workers@[2 * k].shard == k
                &&& workers@[2 * k].round == 0
            },
        forall|k: int|
            0 <= k < keys@.len() ==> {
                &&& (#[trigger] workers@[2 * k + 1]).op == OpKind::Read
                &&& workers@[2 * k + 1].key@ == (#[trigger] keys@[k])@
                &&& workers@[2 * k + 1].shard == k
                &&& workers@[2 * k + 1].round == 0
            },
{
    let mut workers: Vec<Worker> = Vec::new();
    let mut shard: usize = 0;
    while shard < keys.len()
        invariant
            shard <= keys@.len(),
            workers@.len() == 2 * shard,
            forall|i: int|
                0 <= i < workers@.len() ==> is_new(
                    #[trigger] workers@[i],
                    i / 2,
                    if i % 2 == 0 { OpKind::Write } else { OpKind::Read },
                    keys@[i / 2]@,
                ),
        decreases keys@.len() - shard,
    {
        workers.push(Worker::new(shard, OpKind::Write, keys[shard].as_str()));
        workers.push(Worker::new(shard, OpKind::Read, keys[shard].as_str()));
        shard = shard + 1;
    }
    workers
}

/// The order in which the workers of `n` keys are reported, by their position in the plan: those
/// that write first, then those that read.
pub open spec fn report_positions(n: nat) -> Seq<int> {
    Seq::new(2 * n, |k: int| if k < n { 2 * k } else { 2 * (k - n) + 1 })
}

/// Lists the positions of the workers of `n` keys in the order in which they are reported.
pub fn report_order(n: usize) -> (order: Vec<usize>)
    requires
        2 * n <= usize::MAX,
    ensures
        order@.map_values(|p: usize| p as int) == report_positions(n as nat),
        order@.len() == 2 * n,
        forall|k: int| 0 <= k < n ==> #[trigger] order@[k] == 2 * k,
        forall|k: int| n <= k < 2 * n ==> #[trigger] order@[k] == 2 * (k - n) + 1,
{
    let mut order: Vec<usize> = Vec::new();
    let mut k: usize = 0;
    while k < 2 * n
        invariant
            k <= 2 * n <= usize::MAX,
            order@.len() == k,
            forall|j: int| 0 <= j < k ==> #[trigger] order@[j] == report_positions(n as nat)[j],
        decreases 2 * n - k,
    {
        order.push(if k < n { 2 * k } else { 2 * (k - n) + 1 });
        k = k + 1;
    }
    proof {
        assert(order@.map_values(|p: usize| p as int) =~= report_positions(n as nat));
    }
    order
}

/// A report shows every worker of the plan once.
pub proof fn every_worker_is_reported_once(n: nat, position: int)
    requires
        0 <= position < 2 * n,
    ensures
        exists|k: int| 0 <= k < 2 * n && #[trigger] report_positions(n)[k] == position,
        forall|j: int, k: int|
            0 <= j < 2 * n && 0 <= k < 2 * n && #[trigger] report_positions(n)[j] == position
                && #[trigger] report_positions(n)[k] == position ==> j == k,
{
    let k = if position % 2 == 0 { position / 2 } else { n + position / 2 };
    assert(report_positions(n)[k] == position);
}

/// Rounds whose errors are printed lie apart.
pub proof fn printed_rounds_lie_apart(a: u64, b: u64)
    requires
        prints_errors(a),
        prints_errors(b),
        a < b,
    ensures
        b - a >= ROUNDS_PER_ERROR_LINE,
{
}

/// A worker that writes sends `SET`, its key and, in decimal, the number of its round.
pub proof fn writer_sends_its_round(key: Seq<char>, round: u64)
    ensures
        ({
            let words = command_words(OpKind::Write, key, round);
            &&& words.len() == 3
            &&& words[0] == seq!['S', 'E', 'T']
            &&& words[1] == key
            &&& numeral_value(words[2]) == round
            &&& words[2].len() > 0
            &&& forall|i: int| 0 <= i < words[2].len() ==> '0' <= #[trigger] words[2][i] <= '9'
            &&& words[2][0] == '0' ==> round == 0
        }),
{
    reveal_strlit("SET");
    assert("SET"@ =~= seq!['S', 'E', 'T']);
    decimal_has_its_value(round as nat);
}

/// In no two rounds does a worker write the same value.
pub proof fn written_values_differ(key: Seq<char>, a: u64, b: u64)
    requires
        a != b,
    ensures
        command_words(OpKind::Write, key, a)[2] != command_words(OpKind::Write, key, b)[2],
{
    writer_sends_its_round(key, a);
    writer_sends_its_round(key, b);
}

/// A worker that reads sends `GET` and its key, in every round.
pub proof fn reader_sends_its_key(key: Seq<char>, round: u64)
    ensures
        ({
            let words = command_words(OpKind::Read, key, round);
            &&& words.len() == 2
            &&& words[0] == seq!['G', 'E', 'T']
            &&& words[1] == key
        }),
{
    reveal_strlit("GET");
    assert("GET"@ =~= seq!['G', 'E', 'T']);
}

/// The first error that may be printed is that of round 0, and from one such round to the next it
/// is 2000 rounds: of the rounds after one that prints, the first to print is that number later.
pub proof fn every_two_thousandth_error_is_printed(round: u64, later: nat)
    requires
        round + later <= u64::MAX,
        later <= 2000,
    ensures
        prints_errors(0),
        prints_errors(round) && 0 < later < 2000 ==> !prints_errors((round + later) as u64),
        later == 2000 ==> (prints_errors((round + later) as u64) <==> prints_errors(round)),
{
}

/// An error line names the key's number, the command and the round, and ends with the error.
pub proof fn error_line_names_its_round(shard: nat, op: OpKind, round: u64, err: Seq<char>) -> (numerals: (
    Seq<char>,
    Seq<char>,
))
    ensures
        error_line(shard, op, round, err) == "shard="@ + numerals.0 + " op="@ + (if op == OpKind::Write {
            "SET"@
        } else {
            "GET"@
        }) + " i="@ + numerals.1 + " err="@ + err,
        numeral_value(numerals.0) == shard,
        numeral_value(numerals.1) == round,
        forall|i: int| 0 <= i < numerals.0.len() ==> '0' <= #[trigger] numerals.0[i] <= '9',
        forall|i: int| 0 <= i < numerals.1.len() ==> '0' <= #[trigger] numerals.1[i] <= '9',
        numerals.0.len() > 0 && (numerals.0[0] == '0' ==> shard == 0),
        numerals.1.len() > 0 && (numerals.1[0] == '0' ==> round == 0),
{
    decimal_has_its_value(shard);
    decimal_has_its_value(round as nat);
    (decimal(shard), decimal(round as nat))
}

/// A report of a plan shows first, key by key, the workers that write, then, key by key, those
/// that read.
pub proof fn report_shows_writes_then_reads(keys: Seq<Seq<char>>, workers: Seq<Worker>, k: int)
    requires
        workers.len() == 2 * keys.len(),
        forall|i: int|
            0 <= i < workers.len() ==> is_new(
                #[trigger] workers[i],
                i / 2,
                if i % 2 == 0 { OpKind::Write } else { OpKind::Read },
                keys[i / 2],
            ),
        0 <= k < keys.len(),
    ensures
        ({
            let n = keys.len() as int;
            let order = report_positions(keys.len());
            &&& order.len() == 2 * n
            &&& 0 <= order[k] < 2 * n && 0 <= order[n + k] < 2 * n
            &&& workers[order[k]].op == OpKind::Write
            &&& workers[order[k]].key@ == keys[k]
            &&& workers[order[k]].shard == k
            &&& workers[order[n + k]].op == OpKind::Read
            &&& workers[order[n + k]].key@ == keys[k]
            &&& workers[order[n + k]].shard == k
        }),
{
    let order = report_positions(keys.len());
    assert(is_new(workers[order[k]], k, OpKind::Write, keys[k]));
    assert(is_new(workers[order[keys.len() + k]], k, OpKind::Read, keys[k]));
}

} // verus!
