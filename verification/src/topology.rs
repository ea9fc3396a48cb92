//! The layout of a cluster as its nodes report it: which shard serves which hash slots.
use crate::text::{encoded_text_is_read_back, lossy_string, lossy_text, text_of};
use vstd::prelude::*;
use vstd::string::StringExecFns;
use vstd::utf8::{encode_utf8, valid_utf8};

verus! {

/// A reply of a node, as far as the slot table makes use of it.
#[derive(Debug, PartialEq, Eq)]
pub enum Reply {
    /// An integer.
    Int(i64),
    /// A string of arbitrary bytes.
    BulkString(Vec<u8>),
    /// A short string.
    SimpleString(String),
    /// A list of replies.
    Array(Vec<Reply>),
    /// A reply of any other kind.
    Other,
}

/// One shard of a cluster: its range of hash slots and the nodes that serve it.
#[derive(Debug, PartialEq, Eq)]
pub struct ShardInfo {
    /// The first slot of the range.
    pub start: u16,
    /// The last slot of the range.
    pub end: u16,
    /// Host and port of the primary.
    pub primary: (String, u16),
    /// Host and port of each replica.
    pub replicas: Vec<(String, u16)>,
}

/// A shard as a mathematical value.
#[verifier::ext_equal]
pub struct Shard {
    pub start: u16,
    pub end: u16,
    pub primary: (Seq<char>, u16),
    pub replicas: Seq<(Seq<char>, u16)>,
}

/// The nodes that a list of host and port pairs holds.
pub open spec fn nodes(list: Seq<(String, u16)>) -> Seq<(Seq<char>, u16)> {
    list.map_values(|n: (String, u16)| (n.0@, n.1))
}

impl View for ShardInfo {
    type V = Shard;

    open spec fn view(&self) -> Shard {
        Shard {
            start: self.start,
            end: self.end,
            primary: (self.primary.0@, self.primary.1),
            replicas: nodes(self.replicas@),
        }
    }
}

/// The shards that a list of them holds.
pub open spec fn shards_view(list: Seq<ShardInfo>) -> Seq<Shard> {
    list.map_values(|s: ShardInfo| s@)
}

/// Why a slot table could not be read.
#[derive(Debug, Clone, Copy, PartialEq, Eq)]
pub enum SlotTableError {
    /// The reply as a whole is not a list.
    UnexpectedShape,
}

impl SlotTableError {
    /// Describes the error, given the reply as it is shown.
    pub fn message(&self, shown: &str) -> (s: String)
        ensures
            s@ == "unexpected CLUSTER SLOTS shape: "@ + shown@,
    {
        match self {
            SlotTableError::UnexpectedShape => "unexpected CLUSTER SLOTS shape: ".to_owned().concat(
                shown,
            ),
        }
    }
}

/// The sixteen low bits of an integer in two's complement.
pub open spec fn low16(i: i64) -> u16 {
    (i as int % 65536) as u16
}

/// The host that a reply names.
pub open spec fn host_of(r: Reply) -> Option<Seq<char>> {
    match r {
        Reply::BulkString(b) => Some(text_of(b@)),
        Reply::SimpleString(s) => Some(s@),
        _ => None,
    }
}

/// The node that a reply describes: a list that starts with a host and a port.
pub open spec fn node_of(r: Reply) -> Option<(Seq<char>, u16)> {
    match r {
        Reply::Array(items) => if items@.len() < 2 {
            None
        } else {
            match (host_of(items@[0]), items@[1]) {
                (Some(host), Reply::Int(port)) => Some((host, low16(port))),
                _ => None,
            }
        },
        _ => None,
    }
}

/// The shard that one entry of a slot table describes: a list of first slot, last slot, primary,
/// and replicas, of which those that describe no node are left out.
pub open spec fn shard_of(r: Reply) -> Option<Shard> {
    match r {
        Reply::Array(items) => if items@.len() < 3 {
            None
        } else {
            match (items@[0], items@[1], node_of(items@[2])) {
                (Reply::Int(start), Reply::Int(end), Some(primary)) => Some(
                    Shard {
                        start: low16(start),
                        end: low16(end),
                        primary,
                        replicas: items@.skip(3).filter_map(|r: Reply| node_of(r)),
                    },
                ),
                _ => None,
            }
        },
        _ => None,
    }
}

/// The shards of a slot table in the order of its entries. Entries that describe none are left
/// out.
pub open spec fn shards_of(items: Seq<Reply>) -> Seq<Shard> {
    items.filter_map(|r: Reply| shard_of(r))
}

/// The first slots never decrease along the list.
pub open spec fn sorted_by_start(shards: Seq<Shard>) -> bool {
    forall|i: int, j: int| 0 <= i <= j < shards.len() ==> shards[i].start <= shards[j].start
}

/// The shards whose range starts at a given slot, in their order.
pub open spec fn starting_at(shards: Seq<Shard>, start: u16) -> Seq<Shard> {
    shards.filter(|s: Shard| s.start == start)
}

/// `sorted` holds the shards of `input` by their first slot, and those with one first slot in
/// the order they had.
pub open spec fn stably_sorted(input: Seq<Shard>, sorted: Seq<Shard>) -> bool {
    &&& sorted_by_start(sorted)
    &&& forall|start: u16| #[trigger] starting_at(sorted, start) == starting_at(input, start)
}

/// Reads the sixteen low bits of an integer.
fn truncate16(i: i64) -> (n: u16)
    ensures
        n == low16(i),
{
    assert(i as u16 == i % 65536) by (bit_vector);
    i as u16
}

/// Reads a node: a list that starts with a host and a port.
pub fn parse_node(v: &Reply) -> (node: Option<(String, u16)>)
    ensures
        node is Some <==> node_of(*v) is Some,
        node matches Some(n) ==> node_of(*v) == Some((n.0@, n.1)),
{
    let items = match v {
        Reply::Array(items) => items,
        _ => return None,
    };
    if items.len() < 2 {
        return None;
    }
    let host = match &items[0] {
        Reply::BulkString(b) => lossy_string(b.as_slice()),
        Reply::SimpleString(s) => s.clone(),
        _ => return None,
    };
    let port: u16 = match &items[1] {
        Reply::Int(i) => truncate16(*i),
        _ => return None,
    };
    Some((host, port))
}

/// Reads the replicas of a slot table entry: the nodes behind the first three items.
fn parse_replicas(items: &Vec<Reply>) -> (replicas: Vec<(String, u16)>)
    requires
        items@.len() >= 3,
    ensures
        nodes(replicas@) == items@.skip(3).filter_map(|r: Reply| node_of(r)),
{
    let ghost f = |r: Reply| node_of(r);
    let ghost rest = items@.skip(3);
    let mut replicas: Vec<(String, u16)> = Vec::new();
    let mut i: usize = 3;
    proof {
        assert(rest.take(0) =~= Seq::<Reply>::empty());
        assert(nodes(replicas@) =~= Seq::<(Seq<char>, u16)>::empty());
    }
    while i < items.len()
        invariant
            3 <= i <= items@.len(),
            rest == items@.skip(3),
            f == |r: Reply| node_of(r),
            nodes(replicas@) == rest.take(i - 3).filter_map(f),
        decreases items@.len() - i,
    {
        let ghost before = replicas@;
        proof {
            rest.lemma_filter_map_take_succ(f, i - 3);
            assert(rest[i - 3] == items@[i as int]);
        }
        match parse_node(&items[i]) {
            Some(node) => {
                replicas.push(node);
                proof {
                    assert(nodes(replicas@) =~= nodes(before) + seq![(node.0@, node.1)]);
                }
            },
            None => {},
        }
        i = i + 1;
    }
    proof {
        assert(rest.take(i - 3) =~= rest);
    }
    replicas
}

/// Reads one entry of a slot table.
pub fn parse_shard(entry: &Reply) -> (shard: Option<ShardInfo>)
    ensures
        shard is Some <==> shard_of(*entry) is Some,
        shard matches Some(s) ==> shard_of(*entry) == Some(s@),
        shard matches Some(s) ==> (entry matches Reply::Array(items) && {
            &&& items@[0] matches Reply::Int(first) && (0 <= first < 65536 ==> s.start == first)
            &&& items@[1] matches Reply::Int(last) && (0 <= last < 65536 ==> s.end == last)
            &&& node_of(items@[2]) == Some((s.primary.0@, s.primary.1))
        }),
{
    let items = match entry {
        Reply::Array(items) => items,
        _ => return None,
    };
    if items.len() < 3 {
        return None;
    }
    let start: u16 = match &items[0] {
        Reply::Int(i) => truncate16(*i),
        _ => return None,
    };
    let end: u16 = match &items[1] {
        Reply::Int(i) => truncate16(*i),
        _ => return None,
    };
    let primary = match parse_node(&items[2]) {
        Some(primary) => primary,
        None => return None,
    };
    let replicas = parse_replicas(items);
    Some(ShardInfo { start, end, primary, replicas })
}

/// Puts a shard behind all those of a sorted list that start no later.
fn insert_by_start(shards: &mut Vec<ShardInfo>, shard: ShardInfo, Ghost(input): Ghost<Seq<Shard>>)
    requires
        stably_sorted(input, shards_view(old(shards)@)),
    ensures
        stably_sorted(input.push(shard@), shards_view(final(shards)@)),
{
    let ghost before = shards@;
    let mut at: usize = shards.len();
    while at > 0 && shards[at - 1].start > shard.start
        invariant
            at <= shards@.len(),
            shards@ == before,
            forall|i: int| at <= i < before.len() ==> before[i].start > shard.start,
        decreases at,
    {
        at = at - 1;
    }
    shards.insert(at, shard);
    proof {
        let views = shards_view(before);
        assert(shards_view(shards@) =~= views.insert(at as int, shard@));
        assert forall|i: int| 0 <= i < views.len() implies (i < at ==> views[i].start <= shard.start) && (at
            <= i ==> views[i].start > shard.start) by {
            assert(views[i].start == before[i].start);
            if i < at {
                assert(views[i].start <= views[at - 1].start);
            }
        }
        lemma_insert_stable(input, views, at as int, shard@);
    }
}

/// Inserting behind all elements that start no later keeps a list stably sorted.
proof fn lemma_insert_stable(input: Seq<Shard>, sorted: Seq<Shard>, at: int, x: Shard)
    requires
        stably_sorted(input, sorted),
        0 <= at <= sorted.len(),
        forall|i: int| 0 <= i < at ==> sorted[i].start <= x.start,
        forall|i: int| at <= i < sorted.len() ==> sorted[i].start > x.start,
    ensures
        stably_sorted(input.push(x), sorted.insert(at, x)),
{
    let a = sorted.take(at);
    let b = sorted.skip(at);
    let result = sorted.insert(at, x);
    assert(sorted =~= a + b);
    assert(result =~= a.push(x) + b);
    assert forall|start: u16| #[trigger] starting_at(result, start) == starting_at(input.push(x), start) by {
        let p = |s: Shard| s.start == start;
        assert(starting_at(sorted, start) == starting_at(input, start));
        Seq::filter_distributes_over_add(a, b, p);
        Seq::filter_distributes_over_add(a.push(x), b, p);
        a.lemma_filter_push(x, p);
        input.lemma_filter_push(x, p);
        if x.start == start {
            assert(b.filter(p) =~= Seq::<Shard>::empty()) by {
                b.lemma_all_neg_filter_empty(p);
            }
            assert(a.filter(p) + Seq::<Shard>::empty() =~= a.filter(p));
            assert(a.filter(p).push(x) + Seq::<Shard>::empty() =~= a.filter(p).push(x));
        }
    }
}

/// Reads a slot table. The shards come back sorted by their first slot, those with one first
/// slot in the order of their entries; entries that describe no shard are left out.
pub fn parse_slot_table(reply: &Reply) -> (shards: Result<Vec<ShardInfo>, SlotTableError>)
    ensures
        shards matches Ok(list) ==> (reply matches Reply::Array(items) && stably_sorted(
            shards_of(items@),
            shards_view(list@),
        )),
        shards matches Ok(list) ==> forall|i: int, j: int|
            0 <= i < j < list@.len() ==> list@[i].start <= list@[j].start,
        shards is Err <==> !(reply is Array),
{
    let items = match reply {
        Reply::Array(items) => items,
        _ => return Err(SlotTableError::UnexpectedShape),
    };
    let mut shards: Vec<ShardInfo> = Vec::new();
    let ghost f = |r: Reply| shard_of(r);
    let mut i: usize = 0;
    proof {
        assert(items@.take(0) =~= Seq::<Reply>::empty());
        assert(shards_view(shards@) =~= Seq::<Shard>::empty());
    }
    while i < items.len()
        invariant
            i <= items@.len(),
            f == |r: Reply| shard_of(r),
            stably_sorted(items@.take(i as int).filter_map(f), shards_view(shards@)),
        decreases items@.len() - i,
    {
        let ghost input = items@.take(i as int).filter_map(f);
        proof {
            items@.lemma_filter_map_take_succ(f, i as int);
        }
        match parse_shard(&items[i]) {
            Some(shard) => {
                proof {
                    assert(input + seq![shard@] =~= input.push(shard@));
                }
                insert_by_start(&mut shards, shard, Ghost(input));
            },
            None => {
                proof {
                    assert(input + Seq::<Shard>::empty() =~= input);
                }
            },
        }
        i = i + 1;
    }
    proof {
        assert(items@.take(i as int) =~= items@);
        assert forall|a: int, b: int| 0 <= a < b < shards@.len() implies shards@[a].start
            <= shards@[b].start by {
            assert(shards_view(shards@)[a].start <= shards_view(shards@)[b].start);
        }
    }
    Ok(shards)
}

proof fn lemma_filter_count(s: Seq<Shard>, p: spec_fn(Shard) -> bool, x: Shard)
    requires
        p(x),
    ensures
        s.filter(p).to_multiset().count(x) == s.to_multiset().count(x),
    decreases s.len(),
{
    broadcast use vstd::seq_lib::group_to_multiset_ensures;

    if s.len() > 0 {
        let rest = s.drop_last();
        lemma_filter_count(rest, p, x);
        assert(s =~= rest.push(s.last()));
        rest.lemma_filter_push(s.last(), p);
    }
}

/// Sorting a slot table neither loses, adds nor doubles a shard.
pub proof fn stable_sort_keeps_shards(input: Seq<Shard>, sorted: Seq<Shard>)
    requires
        stably_sorted(input, sorted),
    ensures
        sorted.to_multiset() == input.to_multiset(),
        sorted.len() == input.len(),
{
    broadcast use vstd::seq_lib::group_to_multiset_ensures;

    assert forall|x: Shard| sorted.to_multiset().count(x) == input.to_multiset().count(x) by {
        let p = |s: Shard| s.start == x.start;
        lemma_filter_count(sorted, p, x);
        lemma_filter_count(input, p, x);
        assert(starting_at(sorted, x.start) == starting_at(input, x.start));
    }
    assert(sorted.to_multiset() =~= input.to_multiset());
    sorted.to_multiset_ensures();
    input.to_multiset_ensures();
}

/// A slot table has one stable order: two stably sorted lists of the same shards are equal.
pub proof fn stable_sort_is_unique(input: Seq<Shard>, a: Seq<Shard>, b: Seq<Shard>)
    requires
        stably_sorted(input, a),
        stably_sorted(input, b),
    ensures
        a == b,
{
    stable_sort_keeps_shards(input, a);
    stable_sort_keeps_shards(input, b);
    assert forall|start: u16| #[trigger] starting_at(a, start) == starting_at(b, start) by {
        assert(starting_at(a, start) == starting_at(input, start));
    }
    lemma_order_unique(a, b);
}

proof fn lemma_order_unique(a: Seq<Shard>, b: Seq<Shard>)
    requires
        sorted_by_start(a),
        sorted_by_start(b),
        a.len() == b.len(),
        forall|start: u16| #[trigger] starting_at(a, start) == starting_at(b, start),
    ensures
        a == b,
    decreases a.len(),
{
    if a.len() == 0 {
        assert(a =~= b);
    } else {
        let x = a.last();
        let y = b.last();
        let a1 = a.drop_last();
        let b1 = b.drop_last();
        assert(a =~= a1.push(x));
        assert(b =~= b1.push(y));
        assert(x.start <= y.start) by {
            lemma_start_occurs(a, b, x);
        }
        assert(y.start <= x.start) by {
            lemma_start_occurs(b, a, y);
        }
        assert forall|start: u16| #[trigger] starting_at(a1, start) == starting_at(b1, start) by {
            let p = |s: Shard| s.start == start;
            a1.lemma_filter_push(x, p);
            b1.lemma_filter_push(y, p);
            assert(starting_at(a, start) == starting_at(b, start));
            if start == x.start {
                assert(starting_at(a1, start) =~= starting_at(a, start).drop_last());
                assert(starting_at(b1, start) =~= starting_at(b, start).drop_last());
            }
        }
        lemma_order_unique(a1, b1);
        let p = |s: Shard| s.start == x.start;
        a1.lemma_filter_push(x, p);
        b1.lemma_filter_push(y, p);
        assert(starting_at(a, x.start) == starting_at(b, x.start));
        assert(starting_at(a, x.start).last() == x && starting_at(b, x.start).last() == y);
    }
}

/// A first slot that occurs in `a` is at most the last one of `b`.
proof fn lemma_start_occurs(a: Seq<Shard>, b: Seq<Shard>, x: Shard)
    requires
        a.len() > 0,
        x == a.last(),
        sorted_by_start(b),
        starting_at(a, x.start) == starting_at(b, x.start),
    ensures
        b.len() > 0,
        x.start <= b.last().start,
{
    let p = |s: Shard| s.start == x.start;
    a.lemma_filter_contains(p, a.len() - 1);
    assert(b.filter(p).contains(x));
    b.lemma_filter_contains_rev(p, x);
    let i = choose|i: int| 0 <= i < b.len() && b[i] == x;
    assert(b[i].start <= b[b.len() - 1].start);
}

/// A shard as a value has the range, the primary and the replicas that it has as data, the
/// replicas in their order.
pub proof fn shard_view_keeps_fields(s: ShardInfo)
    ensures
        s@.start == s.start,
        s@.end == s.end,
        s@.primary.0 == s.primary.0@,
        s@.primary.1 == s.primary.1,
        s@.replicas.len() == s.replicas@.len(),
        forall|i: int|
            0 <= i < s.replicas@.len() ==> (#[trigger] s@.replicas[i]).0 == s.replicas@[i].0@ && s@.replicas[i].1
                == s.replicas@[i].1,
{
}

/// Numbers of sixteen bits are read as they are, others modulo 65536.
pub proof fn small_integers_are_kept(i: i64)
    ensures
        0 <= i < 65536 ==> low16(i) == i,
        (low16(i) - i) % 65536 == 0,
{
}

/// A reply describes a node exactly if it is a list that begins with a string and an integer.
pub proof fn node_is_a_string_and_an_integer(r: Reply)
    ensures
        node_of(r) is Some <==> (r matches Reply::Array(items) && items@.len() >= 2 && (items@[0] is BulkString
            || items@[0] is SimpleString) && items@[1] is Int),
{
}

/// The node that a reply describes has the host that its first item writes, as a short string or
/// in UTF-8, and the port that its second item gives. What else the list holds does not matter. Of
/// bytes that are not UTF-8 the host is what [`lossy_text`] names.
pub proof fn node_has_its_host_and_port(items: Vec<Reply>, host: Seq<char>, port: i64)
    requires
        items@.len() >= 2,
        (items@[0] matches Reply::SimpleString(s) && s@ == host) || (items@[0] matches Reply::BulkString(b)
            && (b@ == encode_utf8(host) || !valid_utf8(b@) && lossy_text(b@) == host)),
        items@[1] == Reply::Int(port),
    ensures
        node_of(Reply::Array(items)) matches Some(node) && {
            &&& node.0 == host
            &&& 0 <= port < 65536 ==> node.1 == port
            &&& (node.1 - port) % 65536 == 0
        },
{
    encoded_text_is_read_back(host);
}

/// An entry describes a shard exactly if it is a list that begins with two integers and a node.
pub proof fn shard_is_two_integers_and_a_node(r: Reply)
    ensures
        shard_of(r) is Some <==> (r matches Reply::Array(items) && items@.len() >= 3 && items@[0] is Int
            && items@[1] is Int && node_of(items@[2]) is Some),
{
}

/// The shard that an entry describes has the first slot, the last slot and the primary that the
/// entry gives: slots of sixteen bits, as all slots of a cluster are, exactly.
pub proof fn shard_has_its_range_and_primary(items: Vec<Reply>, first: i64, last: i64)
    requires
        items@.len() >= 3,
        items@[0] == Reply::Int(first),
        items@[1] == Reply::Int(last),
        node_of(items@[2]) is Some,
    ensures
        shard_of(Reply::Array(items)) matches Some(shard) && {
            &&& 0 <= first < 65536 ==> shard.start == first
            &&& 0 <= last < 65536 ==> shard.end == last
            &&& (shard.start - first) % 65536 == 0
            &&& (shard.end - last) % 65536 == 0
            &&& Some(shard.primary) == node_of(items@[2])
        },
{
}

/// The replicas of a shard are the nodes behind its primary, in order: without further items
/// there are none, and a further item adds the node it describes, or nothing.
pub proof fn replicas_are_the_nodes_behind_the_primary(items: Vec<Reply>, longer: Vec<Reply>, item: Reply)
    requires
        shard_of(Reply::Array(items)) is Some,
        longer@ == items@.push(item),
    ensures
        items@.len() == 3 ==> shard_of(Reply::Array(items))->0.replicas.len() == 0,
        shard_of(Reply::Array(longer)) is Some,
        shard_of(Reply::Array(longer))->0.replicas == match node_of(item) {
            Some(node) => shard_of(Reply::Array(items))->0.replicas.push(node),
            None => shard_of(Reply::Array(items))->0.replicas,
        },
{
    let f = |r: Reply| node_of(r);
    let a = items@.skip(3);
    let b = longer@.skip(3);
    assert(b =~= a.push(item));
    assert(b.drop_last() =~= a);
    assert(items@.len() == 3 ==> a =~= Seq::<Reply>::empty());
    if let Some(node) = node_of(item) {
        assert(a.filter_map(f) + seq![node] =~= a.filter_map(f).push(node));
    }
}

/// The shards of a table are those of its entries, in order: an empty table has none, and a
/// further entry adds the shard it describes, or nothing.
pub proof fn shards_are_those_of_the_entries(items: Seq<Reply>, entry: Reply)
    ensures
        shards_of(Seq::empty()).len() == 0,
        shards_of(items.push(entry)) == match shard_of(entry) {
            Some(shard) => shards_of(items).push(shard),
            None => shards_of(items),
        },
{
    let f = |r: Reply| shard_of(r);
    assert(items.push(entry).drop_last() =~= items);
    if let Some(shard) = shard_of(entry) {
        assert(items.filter_map(f) + seq![shard] =~= items.filter_map(f).push(shard));
    }
}

/// Of a stably sorted list the first slots never decrease, and the shards of any one first slot
/// are those of the input, in the order they had.
pub proof fn stable_sort_orders_and_keeps_order(input: Seq<Shard>, sorted: Seq<Shard>, start: u16)
    requires
        stably_sorted(input, sorted),
    ensures
        forall|i: int, j: int|
            0 <= i < j < sorted.len() ==> (#[trigger] sorted[i]).start <= (#[trigger] sorted[j]).start,
        sorted.filter(|s: Shard| s.start == start) == input.filter(|s: Shard| s.start == start),
{
    assert(starting_at(sorted, start) == starting_at(input, start));
}

} // verus!
