//! The keys under load: given by hand, or derived so that each shard gets one.
use crate::slot::{key_slot, slot_of};
use crate::text::{decimal, decimal_text, split_list, splits_at_commas, texts};
use crate::topology::{shards_view, Shard, ShardInfo};
use vstd::prelude::*;
use vstd::string::StringExecFns;
use vstd::utf8::encode_utf8;

verus! {

/// The number of the last candidate that is tried when keys are derived. The first is 0.
pub const LAST_CANDIDATE: u64 = 1_000_000;

/// Why there are no keys.
#[derive(Debug, Clone, Copy, PartialEq, Eq)]
pub enum KeysError {
    /// No keys were given, and none can be derived because the layout of the cluster is unknown.
    NoTopology,
    /// Some shard serves no candidate.
    CandidatesExhausted,
}

impl KeysError {
    /// The text of the error.
    pub open spec fn text(self) -> Seq<char> {
        match self {
            KeysError::NoTopology => "cannot auto-derive keys without topology; pass --keys"@,
            KeysError::CandidatesExhausted =>
                "could not derive a key for every shard within 1M candidates"@,
        }
    }

    /// Describes the error.
    pub fn message(&self) -> (s: String)
        ensures
            s@ == self.text(),
    {
        match self {
            KeysError::NoTopology =>
                "cannot auto-derive keys without topology; pass --keys".to_owned(),
            KeysError::CandidatesExhausted =>
                "could not derive a key for every shard within 1M candidates".to_owned(),
        }
    }
}

/// The hash slot of a key that is a text.
pub open spec fn text_slot(key: Seq<char>) -> nat {
    slot_of(encode_utf8(key))
}

/// Candidate number `i`.
pub open spec fn candidate(i: nat) -> Seq<char> {
    "repro:"@ + decimal(i)
}

/// The slot is in the shard's range.
pub open spec fn serves(shard: Shard, slot: nat) -> bool {
    shard.start <= slot <= shard.end
}

/// Shard `idx` is the first of the list that serves the slot.
pub open spec fn is_owner(shards: Seq<Shard>, slot: nat, idx: int) -> bool {
    &&& 0 <= idx < shards.len()
    &&& serves(shards[idx], slot)
    &&& forall|j: int| 0 <= j < idx ==> !serves(#[trigger] shards[j], slot)
}

/// Shard `idx` is the first of the list that serves candidate `i`.
pub open spec fn hits(shards: Seq<Shard>, i: nat, idx: int) -> bool {
    is_owner(shards, text_slot(candidate(i)), idx)
}

/// Candidate `i` is the first that shard `idx` gets.
pub open spec fn first_hit(shards: Seq<Shard>, i: nat, idx: int) -> bool {
    &&& hits(shards, i, idx)
    &&& forall|j: nat| j < i ==> !#[trigger] hits(shards, j, idx)
}

/// Some candidate that is tried goes to shard `idx`.
pub open spec fn reachable(shards: Seq<Shard>, idx: int) -> bool {
    exists|i: nat| i <= LAST_CANDIDATE && #[trigger] hits(shards, i, idx)
}

/// There is a shard, and each gets a candidate.
pub open spec fn derivable(shards: Seq<Shard>) -> bool {
    &&& shards.len() > 0
    &&& forall|idx: int| 0 <= idx < shards.len() ==> #[trigger] reachable(shards, idx)
}

/// `key` is the first candidate that shard `idx` gets, among the first `n`.
pub open spec fn is_first_candidate(shards: Seq<Shard>, idx: int, key: Seq<char>, n: nat) -> bool {
    exists|i: nat| i < n && #[trigger] first_hit(shards, i, idx) && key == candidate(i)
}

/// For each shard, in order, the first candidate that it gets.
pub open spec fn derived_keys(shards: Seq<Shard>, keys: Seq<Seq<char>>) -> bool {
    &&& keys.len() == shards.len()
    &&& forall|idx: int|
        0 <= idx < shards.len() ==> is_first_candidate(
            shards,
            idx,
            #[trigger] keys[idx],
            (LAST_CANDIDATE + 1) as nat,
        )
}

/// Writes candidate number `i`.
pub fn candidate_key(i: u64) -> (key: String)
    ensures
        key@ == candidate(i as nat),
{
    "repro:".to_owned().concat(decimal_text(i).as_str())
}

/// Finds the first shard that serves a slot.
fn find_owner(shards: &[ShardInfo], slot: u16) -> (owner: Option<usize>)
    ensures
        match owner {
            Some(idx) => is_owner(shards_view(shards@), slot as nat, idx as int),
            None => forall|idx: int| !is_owner(shards_view(shards@), slot as nat, idx),
        },
{
    let ghost views = shards_view(shards@);
    let mut idx: usize = 0;
    while idx < shards.len()
        invariant
            idx <= shards@.len(),
            views == shards_view(shards@),
            forall|j: int| 0 <= j < idx ==> !serves(#[trigger] views[j], slot as nat),
        decreases shards@.len() - idx,
    {
        assert(views[idx as int] == shards@[idx as int]@);
        if slot >= shards[idx].start && slot <= shards[idx].end {
            return Some(idx);
        }
        idx = idx + 1;
    }
    None
}

/// How many of the entries are there.
spec fn count_some(keys: Seq<Option<String>>) -> nat
    decreases keys.len(),
{
    if keys.len() == 0 {
        0
    } else {
        count_some(keys.drop_last()) + if keys.last() is Some { 1nat } else { 0nat }
    }
}

proof fn lemma_count_bounds(keys: Seq<Option<String>>)
    ensures
        count_some(keys) <= keys.len(),
        count_some(keys) == keys.len() <==> forall|i: int| 0 <= i < keys.len() ==> keys[i] is Some,
    decreases keys.len(),
{
    if keys.len() > 0 {
        lemma_count_bounds(keys.drop_last());
        assert forall|i: int| 0 <= i < keys.len() - 1 implies keys[i] == keys.drop_last()[i] by {}
        if count_some(keys) == keys.len() {
            assert forall|i: int| 0 <= i < keys.len() implies keys[i] is Some by {
                if i < keys.len() - 1 {
                    assert(keys.drop_last()[i] is Some);
                }
            }
        }
        if forall|i: int| 0 <= i < keys.len() ==> keys[i] is Some {
            assert(keys[keys.len() - 1] is Some);
            assert forall|i: int| 0 <= i < keys.drop_last().len() implies keys.drop_last()[i] is Some by {
                assert(keys[i] is Some);
            }
        }
    }
}

proof fn lemma_count_update(keys: Seq<Option<String>>, idx: int, key: String)
    requires
        0 <= idx < keys.len(),
        keys[idx] is None,
    ensures
        count_some(keys.update(idx, Some(key))) == count_some(keys) + 1,
    decreases keys.len(),
{
    let next = keys.update(idx, Some(key));
    if idx == keys.len() - 1 {
        assert(next.drop_last() =~= keys.drop_last());
    } else {
        lemma_count_update(keys.drop_last(), idx, key);
        assert(next.drop_last() =~= keys.drop_last().update(idx, Some(key)));
    }
}

/// What is known of each shard's key once the first `n` candidates have been tried.
spec fn filled_so_far(shards: Seq<Shard>, keys: Seq<Option<String>>, n: nat) -> bool {
    &&& keys.len() == shards.len()
    &&& forall|idx: int|
        0 <= idx < keys.len() ==> match #[trigger] keys[idx] {
            Some(key) => is_first_candidate(shards, idx, key@, n),
            None => forall|i: nat| i < n ==> !#[trigger] hits(shards, i, idx),
        }
}

/// As many empty entries as asked for.
fn empty_keys(n: usize) -> (keys: Vec<Option<String>>)
    ensures
        keys@.len() == n,
        forall|idx: int| 0 <= idx < n ==> keys@[idx] is None,
        count_some(keys@) == 0,
{
    let mut keys: Vec<Option<String>> = Vec::new();
    let mut i: usize = 0;
    while i < n
        invariant
            i <= n,
            keys@.len() == i,
            forall|idx: int| 0 <= idx < i ==> keys@[idx] is None,
            count_some(keys@) == 0,
        decreases n - i,
    {
        let ghost before = keys@;
        keys.push(None);
        assert(keys@.drop_last() =~= before);
        i = i + 1;
    }
    keys
}

/// Derives one key per shard: for each, the first of the numbered candidates that goes to it.
///
/// A candidate goes to the first shard of the list that serves its slot. The search fails when
/// some shard gets none of the candidates, and when there are no shards.
pub fn derive_keys(shards: &[ShardInfo]) -> (keys: Result<Vec<String>, KeysError>)
    ensures
        keys is Ok <==> derivable(shards_view(shards@)),
        keys matches Ok(list) ==> derived_keys(shards_view(shards@), texts(list@)),
        keys matches Err(e) ==> e == KeysError::CandidatesExhausted,
{
    let ghost views = shards_view(shards@);
    let wanted: usize = shards.len();
    let mut keys = empty_keys(wanted);
    let mut filled: usize = 0;
    let mut i: u64 = 0;
    loop
        invariant_except_break
            i <= LAST_CANDIDATE + 1,
            filled < wanted || wanted == 0,
            filled_so_far(views, keys@, i as nat),
        invariant
            wanted == shards@.len(),
            views == shards_view(shards@),
            filled == count_some(keys@),
        ensures
            filled == wanted,
            filled > 0,
            filled_so_far(views, keys@, (LAST_CANDIDATE + 1) as nat),
        decreases LAST_CANDIDATE + 2 - i,
    {
        if i > LAST_CANDIDATE {
            proof {
                lemma_count_bounds(keys@);
                if derivable(views) {
                    let idx = choose|idx: int| 0 <= idx < keys@.len() && keys@[idx] is None;
                    assert(reachable(views, idx));
                }
            }
            return Err(KeysError::CandidatesExhausted);
        }
        let cand = candidate_key(i);
        let slot: u16 = key_slot(cand.as_str().as_bytes());
        let ghost before = keys@;
        let owner = find_owner(shards, slot);
        proof {
            assert(slot == text_slot(candidate(i as nat)));
        }
        match owner {
            Some(idx) => {
                proof {
                    lemma_owner_unique(views, slot as nat, idx as int);
                }
                if keys[idx].is_none() {
                    keys.set(idx, Some(cand));
                    filled = filled + 1;
                    proof {
                        lemma_count_update(before, idx as int, cand);
                        lemma_count_bounds(keys@);
                        assert(first_hit(views, i as nat, idx as int));
                        lemma_step(views, before, keys@, i as nat);
                    }
                    if filled == wanted {
                        proof {
                            lemma_widen(views, keys@, (i + 1) as nat, (LAST_CANDIDATE + 1) as nat);
                        }
                        break;
                    }
                } else {
                    proof {
                        lemma_step(views, before, keys@, i as nat);
                    }
                }
            },
            None => {
                proof {
                    lemma_step(views, before, keys@, i as nat);
                }
            },
        }
        i = i + 1;
    }
    proof {
        lemma_count_bounds(keys@);
        assert forall|idx: int| 0 <= idx < views.len() implies #[trigger] reachable(views, idx) by {
            assert(keys@[idx] is Some);
            let n = (LAST_CANDIDATE + 1) as nat;
            let w = choose|w: nat|
                w < n && #[trigger] first_hit(views, w, idx) && keys@[idx]->0@ == candidate(w);
            assert(hits(views, w, idx));
        }
    }
    let list = present_keys(&keys);
    proof {
        assert forall|idx: int| 0 <= idx < views.len() implies is_first_candidate(
            views,
            idx,
            #[trigger] texts(list@)[idx],
            (LAST_CANDIDATE + 1) as nat,
        ) by {
            assert(keys@[idx] is Some);
        }
    }
    Ok(list)
}

/// The entries of a list without gaps.
fn present_keys(keys: &Vec<Option<String>>) -> (list: Vec<String>)
    requires
        forall|i: int| 0 <= i < keys@.len() ==> keys@[i] is Some,
    ensures
        list@.len() == keys@.len(),
        forall|i: int| 0 <= i < keys@.len() ==> #[trigger] list@[i]@ == keys@[i]->0@,
{
    let mut list: Vec<String> = Vec::new();
    let mut i: usize = 0;
    while i < keys.len()
        invariant
            i <= keys@.len(),
            list@.len() == i,
            forall|j: int| 0 <= j < keys@.len() ==> keys@[j] is Some,
            forall|j: int| 0 <= j < i ==> #[trigger] list@[j]@ == keys@[j]->0@,
        decreases keys@.len() - i,
    {
        if let Some(key) = &keys[i] {
            list.push(key.clone());
        }
        i = i + 1;
    }
    list
}

/// A slot has at most one owner.
proof fn lemma_owner_unique(shards: Seq<Shard>, slot: nat, idx: int)
    requires
        is_owner(shards, slot, idx),
    ensures
        forall|other: int| is_owner(shards, slot, other) ==> other == idx,
{
    assert forall|other: int| is_owner(shards, slot, other) implies other == idx by {
        if other < idx {
            assert(!serves(shards[other], slot));
        }
        if idx < other {
            assert(!serves(shards[idx], slot));
        }
    }
}

/// One more candidate: the entries keep their meaning if the candidate's owner, and only it, may
/// have gained the candidate as its key.
proof fn lemma_step(shards: Seq<Shard>, before: Seq<Option<String>>, after: Seq<Option<String>>, i: nat)
    requires
        filled_so_far(shards, before, i),
        after.len() == before.len(),
        forall|idx: int|
            0 <= idx < after.len() ==> {
                ||| #[trigger] after[idx] == before[idx] && (before[idx] is Some || !hits(
                    shards,
                    i,
                    idx,
                ))
                ||| after[idx] matches Some(key) && key@ == candidate(i) && first_hit(shards, i, idx)
            },
    ensures
        filled_so_far(shards, after, i + 1),
{
    assert forall|idx: int| 0 <= idx < after.len() implies match #[trigger] after[idx] {
        Some(key) => is_first_candidate(shards, idx, key@, i + 1),
        None => forall|j: nat| j < i + 1 ==> !#[trigger] hits(shards, j, idx),
    } by {
        let b = before[idx];
        if after[idx] == b {
            if let Some(key) = b {
                assert(is_first_candidate(shards, idx, key@, i));
                let w = choose|w: nat|
                    w < i && #[trigger] first_hit(shards, w, idx) && key@ == candidate(w);
                assert(w < i + 1 && first_hit(shards, w, idx));
            }
        }
    }
}

/// What is complete after some candidates is complete after more.
proof fn lemma_widen(shards: Seq<Shard>, keys: Seq<Option<String>>, n: nat, m: nat)
    requires
        filled_so_far(shards, keys, n),
        count_some(keys) == keys.len(),
        n <= m,
    ensures
        filled_so_far(shards, keys, m),
{
    lemma_count_bounds(keys);
    assert forall|idx: int| 0 <= idx < keys.len() implies match #[trigger] keys[idx] {
        Some(key) => is_first_candidate(shards, idx, key@, m),
        None => forall|j: nat| j < m ==> !#[trigger] hits(shards, j, idx),
    } by {
        let key = keys[idx]->0;
        assert(is_first_candidate(shards, idx, key@, n));
        let w = choose|w: nat| w < n && #[trigger] first_hit(shards, w, idx) && key@ == candidate(w);
        assert(w < m && first_hit(shards, w, idx));
    }
}

/// Picks the keys under load: those of the comma-separated list, where one is given, else one
/// derived key per shard.
pub fn choose_keys(given: Option<&str>, shards: Option<&[ShardInfo]>) -> (keys: Result<
    Vec<String>,
    KeysError,
>)
    ensures
        given matches Some(s) ==> (keys matches Ok(list) && splits_at_commas(s@, texts(list@))),
        given is None && shards is None ==> keys == Err::<Vec<String>, _>(KeysError::NoTopology),
        given is None ==> (shards matches Some(sh) ==> {
            &&& keys is Ok <==> derivable(shards_view(sh@))
            &&& keys matches Ok(list) ==> derived_keys(shards_view(sh@), texts(list@))
            &&& keys matches Err(e) ==> e == KeysError::CandidatesExhausted
        }),
{
    match given {
        Some(s) => Ok(split_list(s)),
        None => match shards {
            Some(shards) => derive_keys(shards),
            None => Err(KeysError::NoTopology),
        },
    }
}

/// Each derived key goes to its own shard: that shard serves the key's slot, and none before it
/// in the list does.
pub proof fn derived_keys_go_to_their_shards(shards: Seq<Shard>, keys: Seq<Seq<char>>)
    requires
        derived_keys(shards, keys),
    ensures
        forall|idx: int|
            0 <= idx < shards.len() ==> is_owner(shards, text_slot(#[trigger] keys[idx]), idx),
{
    assert forall|idx: int| 0 <= idx < shards.len() implies is_owner(
        shards,
        text_slot(#[trigger] keys[idx]),
        idx,
    ) by {
        let n = (LAST_CANDIDATE + 1) as nat;
        assert(is_first_candidate(shards, idx, keys[idx], n));
        let i = choose|i: nat| i < n && #[trigger] first_hit(shards, i, idx) && keys[idx] == candidate(i);
        assert(hits(shards, i, idx));
    }
}

/// No two shards get the same derived key.
pub proof fn derived_keys_are_distinct(shards: Seq<Shard>, keys: Seq<Seq<char>>, a: int, b: int)
    requires
        derived_keys(shards, keys),
        0 <= a < keys.len(),
        0 <= b < keys.len(),
        a != b,
    ensures
        keys[a] != keys[b],
{
    derived_keys_go_to_their_shards(shards, keys);
    assert(is_owner(shards, text_slot(keys[a]), a));
    assert(is_owner(shards, text_slot(keys[b]), b));
    lemma_owner_unique(shards, text_slot(keys[a]), a);
}

/// The derived keys of a cluster are determined by its shards.
pub proof fn derived_keys_are_unique(shards: Seq<Shard>, p: Seq<Seq<char>>, q: Seq<Seq<char>>)
    requires
        derived_keys(shards, p),
        derived_keys(shards, q),
    ensures
        p == q,
{
    let n = (LAST_CANDIDATE + 1) as nat;
    assert forall|idx: int| 0 <= idx < p.len() implies p[idx] == q[idx] by {
        assert(is_first_candidate(shards, idx, p[idx], n));
        assert(is_first_candidate(shards, idx, q[idx], n));
        let i = choose|i: nat| i < n && #[trigger] first_hit(shards, i, idx) && p[idx] == candidate(i);
        let j = choose|j: nat| j < n && #[trigger] first_hit(shards, j, idx) && q[idx] == candidate(j);
        assert(hits(shards, i, idx) && hits(shards, j, idx));
        assert(i == j);
    }
    assert(p =~= q);
}

/// A derived key is `repro:` and a number of at most a million. Its slot is in the range of its
/// shard and in that of no earlier shard, and of no smaller number is this so.
pub proof fn derived_key_is_first_of_its_shard(
    shards: Seq<Shard>,
    keys: Seq<Seq<char>>,
    idx: int,
) -> (number: nat)
    requires
        derived_keys(shards, keys),
        0 <= idx < shards.len(),
    ensures
        keys.len() == shards.len(),
        number <= 1_000_000,
        keys[idx] == "repro:"@ + decimal(number),
        shards[idx].start <= slot_of(encode_utf8(keys[idx])) <= shards[idx].end,
        forall|j: int|
            0 <= j < idx ==> !((#[trigger] shards[j]).start <= slot_of(encode_utf8(keys[idx])) <= shards[j].end),
        forall|m: nat|
            m < number ==> {
                let slot = slot_of(encode_utf8("repro:"@ + #[trigger] decimal(m)));
                shards[idx].start <= slot <= shards[idx].end ==> exists|j: int|
                    0 <= j < idx && (#[trigger] shards[j]).start <= slot <= shards[j].end
            },
{
    let n = (LAST_CANDIDATE + 1) as nat;
    assert(is_first_candidate(shards, idx, keys[idx], n));
    let number = choose|i: nat| i < n && #[trigger] first_hit(shards, i, idx) && keys[idx] == candidate(i);
    assert(hits(shards, number, idx));
    assert forall|m: nat| m < number implies {
        let slot = slot_of(encode_utf8("repro:"@ + #[trigger] decimal(m)));
        shards[idx].start <= slot <= shards[idx].end ==> exists|j: int|
            0 <= j < idx && (#[trigger] shards[j]).start <= slot <= shards[j].end
    } by {
        assert(!hits(shards, m, idx));
    }
    number
}

/// Keys can be derived if there is a shard and each has, among the numbers up to a million, one
/// whose key goes into its range and into that of no earlier shard.
pub proof fn keys_are_derivable(shards: Seq<Shard>, numbers: Seq<nat>)
    requires
        shards.len() > 0,
        numbers.len() == shards.len(),
        forall|idx: int|
            0 <= idx < shards.len() ==> #[trigger] numbers[idx] <= 1_000_000 && shards[idx].start <= slot_of(
                encode_utf8("repro:"@ + decimal(numbers[idx])),
            ) <= shards[idx].end,
        forall|idx: int, j: int|
            0 <= j < idx < shards.len() ==> !((#[trigger] shards[j]).start <= slot_of(
                encode_utf8("repro:"@ + decimal(#[trigger] numbers[idx])),
            ) <= shards[j].end),
    ensures
        derivable(shards),
{
    assert forall|idx: int| 0 <= idx < shards.len() implies #[trigger] reachable(shards, idx) by {
        assert(hits(shards, numbers[idx], idx));
    }
}

/// Where keys can be derived there is a shard, and each has such a number.
pub proof fn derivable_shards_have_numbers(shards: Seq<Shard>, idx: int) -> (number: nat)
    requires
        derivable(shards),
        0 <= idx < shards.len(),
    ensures
        number <= 1_000_000,
        shards[idx].start <= slot_of(encode_utf8("repro:"@ + decimal(number))) <= shards[idx].end,
        forall|j: int|
            0 <= j < idx ==> !((#[trigger] shards[j]).start <= slot_of(
                encode_utf8("repro:"@ + decimal(number)),
            ) <= shards[j].end),
{
    assert(reachable(shards, idx));
    let number = choose|i: nat| i <= LAST_CANDIDATE && #[trigger] hits(shards, i, idx);
    number
}

/// Without shards no keys can be derived.
pub proof fn no_shards_no_keys(shards: Seq<Shard>)
    requires
        shards.len() == 0,
    ensures
        !derivable(shards),
{
}

} // verus!
