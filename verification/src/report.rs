//! The table that shows which nodes and which test key belong to each shard.
use crate::keys::{derived_keys, derived_keys_go_to_their_shards, is_owner, serves, text_slot};
use crate::slot::{key_slot, slot_of};
use crate::text::{
    align_left, align_right, column_width, decimal, decimal_text, join_texts, joined, left_aligned,
    left_cell_at, left_cell_goes_on, right_aligned, right_cell_at, right_cell_goes_on, texts,
};
use crate::topology::{nodes, shards_view, Shard, ShardInfo};
use vstd::prelude::*;
use vstd::string::StringExecFns;
use vstd::utf8::encode_utf8;

verus! {

/// The port before the first one of the local test cluster.
pub const LOCAL_BASE_PORT: u16 = 7000;

/// The number of nodes of the local test cluster.
pub const LOCAL_NODES: u16 = 6;

/// How a node is shown: host and port, and for the ports of the local test cluster the name of
/// the container too.
pub open spec fn node_text(node: (Seq<char>, u16)) -> Seq<char> {
    if LOCAL_BASE_PORT < node.1 <= LOCAL_BASE_PORT + LOCAL_NODES {
        "cluster-stall-valkey-"@ + decimal((node.1 - LOCAL_BASE_PORT) as nat) + " ("@ + node.0 + ":"@
            + decimal(node.1 as nat) + ")"@
    } else {
        node.0 + ":"@ + decimal(node.1 as nat)
    }
}

/// How the replicas of a shard are shown.
pub open spec fn replicas_text(replicas: Seq<(Seq<char>, u16)>) -> Seq<char> {
    if replicas.len() == 0 {
        "(none)"@
    } else {
        joined(replicas.map_values(|n: (Seq<char>, u16)| node_text(n)), ", "@)
    }
}

/// The position of the first key whose slot the shard serves.
pub open spec fn first_key_of(keys: Seq<Seq<char>>, shard: Shard) -> Option<int>
    decreases keys.len(),
{
    if keys.len() == 0 {
        None
    } else {
        match first_key_of(keys.drop_last(), shard) {
            Some(i) => Some(i),
            None => if serves(shard, text_slot(keys.last())) {
                Some(keys.len() - 1)
            } else {
                None
            },
        }
    }
}

/// How the test key of a shard is shown.
pub open spec fn test_key_text(keys: Seq<Seq<char>>, shard: Shard) -> Seq<char> {
    match first_key_of(keys, shard) {
        Some(i) => keys[i] + " (slot "@ + decimal(text_slot(keys[i])) + ")"@,
        None => "(no test key in this range)"@,
    }
}

/// The line of one shard, without the line break.
pub open spec fn shard_line(idx: nat, shard: Shard, keys: Seq<Seq<char>>) -> Seq<char> {
    "  "@ + right_aligned(decimal(idx), 3) + "  "@ + right_aligned(decimal(shard.start as nat), 5) + "-"@
        + left_aligned(decimal(shard.end as nat), 6) + "  "@ + left_aligned(node_text(shard.primary), 40)
        + "  "@ + left_aligned(replicas_text(shard.replicas), 40) + "  "@ + test_key_text(keys, shard)
}

/// The line of column titles, without the line break.
pub open spec fn title_line() -> Seq<char> {
    "  "@ + right_aligned("sh"@, 3) + "  "@ + left_aligned("slots"@, 12) + "  "@ + left_aligned(
        "primary"@,
        40,
    ) + "  "@ + left_aligned("replica(s)"@, 40) + "  test key (slot)"@
}

/// The lines of the shards, each with its line break.
pub open spec fn shard_lines(shards: Seq<Shard>, keys: Seq<Seq<char>>) -> Seq<char>
    decreases shards.len(),
{
    if shards.len() == 0 {
        seq![]
    } else {
        shard_lines(shards.drop_last(), keys) + shard_line(
            (shards.len() - 1) as nat,
            shards.last(),
            keys,
        ) + "\n"@
    }
}

/// The table as a whole.
pub open spec fn topology_table(shards: Seq<Shard>, keys: Seq<Seq<char>>) -> Seq<char> {
    "\ncluster topology (sorted by slot range):\n"@ + title_line() + "\n"@ + shard_lines(shards, keys)
        + "\n"@
}

/// Shows a node.
pub fn fmt_node(node: &(String, u16)) -> (s: String)
    ensures
        s@ == node_text((node.0@, node.1)),
{
    let mut s = String::new();
    if node.1 > LOCAL_BASE_PORT && node.1 <= LOCAL_BASE_PORT + LOCAL_NODES {
        s.append("cluster-stall-valkey-");
        s.append(decimal_text((node.1 - LOCAL_BASE_PORT) as u64).as_str());
        s.append(" (");
        s.append(node.0.as_str());
        s.append(":");
        s.append(decimal_text(node.1 as u64).as_str());
        s.append(")");
        proof {
            assert(Seq::<char>::empty() + "cluster-stall-valkey-"@ =~= "cluster-stall-valkey-"@);
        }
    } else {
        s.append(node.0.as_str());
        s.append(":");
        s.append(decimal_text(node.1 as u64).as_str());
        proof {
            assert(Seq::<char>::empty() + node.0@ =~= node.0@);
        }
    }
    s
}

/// Shows the replicas of a shard.
fn fmt_replicas(replicas: &Vec<(String, u16)>) -> (s: String)
    ensures
        s@ == replicas_text(nodes(replicas@)),
{
    if replicas.len() == 0 {
        return "(none)".to_owned();
    }
    let mut shown: Vec<String> = Vec::new();
    let mut i: usize = 0;
    while i < replicas.len()
        invariant
            i <= replicas@.len(),
            shown@.len() == i,
            forall|j: int|
                0 <= j < i ==> #[trigger] shown@[j]@ == node_text((replicas@[j].0@, replicas@[j].1)),
        decreases replicas@.len() - i,
    {
        shown.push(fmt_node(&replicas[i]));
        i = i + 1;
    }
    proof {
        assert(texts(shown@) =~= nodes(replicas@).map_values(|n: (Seq<char>, u16)| node_text(n)));
    }
    join_texts(shown.as_slice(), ", ")
}

proof fn lemma_first_key_extends(keys: Seq<Seq<char>>, shard: Shard, n: int)
    requires
        0 <= n <= keys.len(),
        first_key_of(keys.take(n), shard) is Some,
    ensures
        first_key_of(keys, shard) == first_key_of(keys.take(n), shard),
    decreases keys.len() - n,
{
    if n == keys.len() {
        assert(keys.take(n) =~= keys);
    } else {
        assert(keys.take(n + 1).drop_last() =~= keys.take(n));
        lemma_first_key_extends(keys, shard, n + 1);
    }
}

/// Shows the test key of a shard: the first of the keys whose slot it serves.
fn fmt_test_key(keys: &[String], shard: &ShardInfo) -> (s: String)
    ensures
        s@ == test_key_text(texts(keys@), shard@),
{
    let ghost all = texts(keys@);
    let mut i: usize = 0;
    proof {
        assert(all.take(0) =~= Seq::<Seq<char>>::empty());
    }
    while i < keys.len()
        invariant
            i <= keys@.len(),
            all == texts(keys@),
            first_key_of(all.take(i as int), shard@) is None,
        decreases keys@.len() - i,
    {
        let slot: u16 = key_slot(keys[i].as_str().as_bytes());
        proof {
            assert(all.take(i + 1).drop_last() =~= all.take(i as int));
            assert(all.take(i + 1).last() == keys@[i as int]@);
            assert(slot == text_slot(all[i as int]));
        }
        if slot >= shard.start && slot <= shard.end {
            proof {
                lemma_first_key_extends(all, shard@, i + 1);
            }
            let mut s = keys[i].clone();
            s.append(" (slot ");
            s.append(decimal_text(slot as u64).as_str());
            s.append(")");
            return s;
        }
        i = i + 1;
    }
    proof {
        assert(all.take(i as int) =~= all);
    }
    "(no test key in this range)".to_owned()
}

/// Writes the line of one shard.
pub fn fmt_shard_line(idx: usize, shard: &ShardInfo, keys: &[String]) -> (s: String)
    ensures
        s@ == shard_line(idx as nat, shard@, texts(keys@)),
{
    let mut s = "  ".to_owned();
    s.append(align_right(decimal_text(idx as u64).as_str(), 3).as_str());
    s.append("  ");
    s.append(align_right(decimal_text(shard.start as u64).as_str(), 5).as_str());
    s.append("-");
    s.append(align_left(decimal_text(shard.end as u64).as_str(), 6).as_str());
    s.append("  ");
    s.append(align_left(fmt_node(&shard.primary).as_str(), 40).as_str());
    s.append("  ");
    s.append(align_left(fmt_replicas(&shard.replicas).as_str(), 40).as_str());
    s.append("  ");
    s.append(fmt_test_key(keys, shard).as_str());
    s
}

/// Writes the line of column titles.
fn fmt_title_line() -> (s: String)
    ensures
        s@ == title_line(),
{
    let mut s = "  ".to_owned();
    s.append(align_right("sh", 3).as_str());
    s.append("  ");
    s.append(align_left("slots", 12).as_str());
    s.append("  ");
    s.append(align_left("primary", 40).as_str());
    s.append("  ");
    s.append(align_left("replica(s)", 40).as_str());
    s.append("  test key (slot)");
    s
}

/// Writes the table of shards: slots, nodes, and the first of the keys that the shard serves.
pub fn topology_text(shards: &[ShardInfo], keys: &[String]) -> (s: String)
    ensures
        s@ == topology_table(shards_view(shards@), texts(keys@)),
{
    let ghost views = shards_view(shards@);
    let mut s = "\ncluster topology (sorted by slot range):\n".to_owned();
    s.append(fmt_title_line().as_str());
    s.append("\n");
    let ghost head = s@;
    let mut i: usize = 0;
    proof {
        assert(views.take(0) =~= Seq::<Shard>::empty());
        assert(head + Seq::<char>::empty() =~= head);
    }
    while i < shards.len()
        invariant
            i <= shards@.len(),
            views == shards_view(shards@),
            s@ == head + shard_lines(views.take(i as int), texts(keys@)),
        decreases shards@.len() - i,
    {
        s.append(fmt_shard_line(i, &shards[i], keys).as_str());
        s.append("\n");
        proof {
            let next = views.take(i + 1);
            assert(next.drop_last() =~= views.take(i as int));
            assert(next.last() == shards@[i as int]@);
            assert(s@ =~= head + shard_lines(next, texts(keys@)));
        }
        i = i + 1;
    }
    proof {
        assert(views.take(i as int) =~= views);
    }
    s.append("\n");
    s
}

/// The first key of a shard is in the list, goes to the shard, and none before it does; a shard
/// has none only where no key goes to it.
pub proof fn first_key_is_first(keys: Seq<Seq<char>>, shard: Shard)
    ensures
        match first_key_of(keys, shard) {
            Some(i) => 0 <= i < keys.len() && serves(shard, text_slot(keys[i])) && forall|j: int|
                0 <= j < i ==> !serves(shard, text_slot(#[trigger] keys[j])),
            None => forall|j: int| 0 <= j < keys.len() ==> !serves(shard, text_slot(#[trigger] keys[j])),
        },
    decreases keys.len(),
{
    if keys.len() > 0 {
        first_key_is_first(keys.drop_last(), shard);
        assert forall|j: int| 0 <= j < keys.len() - 1 implies #[trigger] keys[j] == keys.drop_last()[j] by {}
    }
}

/// With derived keys the table shows a test key for every shard.
pub proof fn every_shard_shows_a_derived_key(shards: Seq<Shard>, keys: Seq<Seq<char>>, idx: int)
    requires
        derived_keys(shards, keys),
        0 <= idx < shards.len(),
    ensures
        first_key_of(keys, shards[idx]) is Some,
{
    derived_keys_go_to_their_shards(shards, keys);
    first_key_is_first(keys, shards[idx]);
    assert(is_owner(shards, text_slot(keys[idx]), idx));
}

/// Where no slot is served twice, the test key shown for a shard is the one derived for it.
pub proof fn disjoint_shards_show_their_own_key(shards: Seq<Shard>, keys: Seq<Seq<char>>, idx: int)
    requires
        derived_keys(shards, keys),
        forall|a: int, b: int, slot: nat|
            0 <= a < b < shards.len() ==> !(#[trigger] serves(shards[a], slot) && #[trigger] serves(
                shards[b],
                slot,
            )),
        0 <= idx < shards.len(),
    ensures
        first_key_of(keys, shards[idx]) == Some(idx),
        test_key_text(keys, shards[idx]) == keys[idx] + " (slot "@ + decimal(text_slot(keys[idx]))
            + ")"@,
{
    derived_keys_go_to_their_shards(shards, keys);
    first_key_is_first(keys, shards[idx]);
    let i = first_key_of(keys, shards[idx])->0;
    assert(is_owner(shards, text_slot(keys[idx]), idx));
    assert(is_owner(shards, text_slot(keys[i]), i));
    assert(serves(shards[idx], text_slot(keys[i])) && serves(shards[i], text_slot(keys[i])));
}

/// A node is shown as host, colon and port, and a node with one of the ports 7001 to 7006 as the
/// name of its container, numbered from 1, with host and port in brackets.
pub proof fn node_shows_host_and_port(host: Seq<char>, port: u16)
    ensures
        port < 7001 || port > 7006 ==> node_text((host, port)) == host + ":"@ + decimal(port as nat),
        7001 <= port <= 7006 ==> node_text((host, port)) == "cluster-stall-valkey-"@ + decimal(
            (port - 7000) as nat,
        ) + " ("@ + (host + ":"@ + decimal(port as nat)) + ")"@,
{
    if 7001 <= port <= 7006 {
        assert(node_text((host, port)) =~= "cluster-stall-valkey-"@ + decimal((port - 7000) as nat) + " ("@ + (
        host + ":"@ + decimal(port as nat)) + ")"@);
    }
}

proof fn lemma_node_text_has_colon(node: (Seq<char>, u16))
    ensures
        node_text(node).contains(':'),
{
    reveal_strlit(":");
    let port = decimal(node.1 as nat);
    let address = node.0 + ":"@ + port;
    assert(address[node.0.len() as int] == ':');
    node_shows_host_and_port(node.0, node.1);
    if 7001 <= node.1 <= 7006 {
        let front = "cluster-stall-valkey-"@ + decimal((node.1 - 7000) as nat) + " ("@;
        assert(node_text(node) =~= front + address + ")"@);
        assert(node_text(node)[(front.len() + node.0.len()) as int] == ':');
    }
}

/// The replica column reads `(none)` exactly if there are no replicas. One replica is shown as
/// the node it is, and a further one behind a comma and a space.
pub proof fn replica_column_shows_every_replica(replicas: Seq<(Seq<char>, u16)>, node: (Seq<char>, u16))
    ensures
        replicas_text(replicas) == "(none)"@ <==> replicas.len() == 0,
        replicas_text(seq![node]) == node_text(node),
        replicas.len() > 0 ==> replicas_text(replicas.push(node)) == replicas_text(replicas) + ", "@
            + node_text(node),
{
    let f = |n: (Seq<char>, u16)| node_text(n);
    assert(seq![node].map_values(f) =~= seq![node_text(node)]);
    assert(joined(seq![node_text(node)], ", "@) == node_text(node));
    if replicas.len() > 0 {
        let longer = replicas.push(node);
        assert(longer.map_values(f).drop_last() =~= replicas.map_values(f));
        assert(longer.map_values(f).last() == node_text(node));
        let shown = replicas_text(replicas);
        lemma_node_text_has_colon(replicas.last());
        let k = choose|k: int| 0 <= k < node_text(replicas.last()).len() && node_text(replicas.last())[k] == ':';
        let front = shown.len() - node_text(replicas.last()).len();
        assert(replicas.map_values(f).last() == node_text(replicas.last()));
        assert(shown[front + k] == ':') by {
            if replicas.len() == 1 {
                assert(shown == replicas.map_values(f)[0]);
            } else {
                let head = joined(replicas.map_values(f).drop_last(), ", "@) + ", "@;
                assert(shown == head + node_text(replicas.last()));
            }
        }
        reveal_strlit("(none)");
        assert(!"(none)"@.contains(':'));
        assert(shown.contains(':'));
    }
}

/// The test key of a shard is the first key whose slot lies in its range, shown with that slot.
pub proof fn test_key_is_first_in_range(keys: Seq<Seq<char>>, shard: Shard, i: int)
    requires
        0 <= i < keys.len(),
        shard.start <= slot_of(encode_utf8(keys[i])) <= shard.end,
        forall|j: int|
            0 <= j < i ==> !(shard.start <= slot_of(encode_utf8(#[trigger] keys[j])) <= shard.end),
    ensures
        test_key_text(keys, shard) == keys[i] + " (slot "@ + decimal(slot_of(encode_utf8(keys[i]))) + ")"@,
{
    first_key_is_first(keys, shard);
    assert(serves(shard, text_slot(keys[i])));
    let f = first_key_of(keys, shard)->0;
    assert(serves(shard, text_slot(keys[f])));
}

/// A shard for which no key has a slot in its range shows that there is none.
pub proof fn no_test_key_out_of_range(keys: Seq<Seq<char>>, shard: Shard)
    requires
        forall|j: int|
            0 <= j < keys.len() ==> !(shard.start <= slot_of(encode_utf8(#[trigger] keys[j])) <= shard.end),
    ensures
        test_key_text(keys, shard) == "(no test key in this range)"@,
{
    first_key_is_first(keys, shard);
    if let Some(i) = first_key_of(keys, shard) {
        assert(serves(shard, text_slot(keys[i])));
    }
}

/// A further shard adds its line, with its number in the list, before the blank line that ends
/// the table. A table without shards is the headings and the blank line.
pub proof fn table_has_one_line_per_shard(shards: Seq<Shard>, shard: Shard, keys: Seq<Seq<char>>)
    ensures
        topology_table(Seq::empty(), keys) == "\ncluster topology (sorted by slot range):\n"@ + title_line()
            + "\n"@ + "\n"@,
        topology_table(shards.push(shard), keys) == topology_table(shards, keys).drop_last() + shard_line(
            shards.len(),
            shard,
            keys,
        ) + "\n"@ + "\n"@,
{
    reveal_strlit("\n");
    let longer = shards.push(shard);
    assert(longer.drop_last() =~= shards);
    let head = "\ncluster topology (sorted by slot range):\n"@ + title_line() + "\n"@;
    assert(head + Seq::<char>::empty() =~= head);
    assert(topology_table(shards, keys).drop_last() =~= head + shard_lines(shards, keys));
    assert(topology_table(longer, keys) =~= topology_table(shards, keys).drop_last() + shard_line(
        shards.len(),
        shard,
        keys,
    ) + "\n"@ + "\n"@);
}

/// The line of a shard, in columns: its number, first slot, a dash, last slot, primary, replicas
/// and test key, with two spaces before the number and between the columns.
pub proof fn shard_line_has_its_columns(idx: nat, shard: Shard, keys: Seq<Seq<char>>)
    ensures
        ({
            let line = shard_line(idx, shard, keys);
            let number = decimal(idx);
            let first = decimal(shard.start as nat);
            let last = decimal(shard.end as nat);
            let primary = node_text(shard.primary);
            let replicas = replicas_text(shard.replicas);
            let a = 2 + column_width(number, 3);
            let b = a + 2 + column_width(first, 5);
            let c = b + 1 + column_width(last, 6);
            let d = c + 2 + column_width(primary, 40);
            let e = d + 2 + column_width(replicas, 40);
            &&& line[0] == ' ' && line[1] == ' '
            &&& right_cell_at(line, 2, number, 3)
            &&& line[a] == ' ' && line[a + 1] == ' '
            &&& right_cell_at(line, a + 2, first, 5)
            &&& line[b] == '-'
            &&& left_cell_at(line, b + 1, last, 6)
            &&& line[c] == ' ' && line[c + 1] == ' '
            &&& left_cell_at(line, c + 2, primary, 40)
            &&& line[d] == ' ' && line[d + 1] == ' '
            &&& left_cell_at(line, d + 2, replicas, 40)
            &&& line[e] == ' ' && line[e + 1] == ' '
            &&& line.skip(e + 2) == test_key_text(keys, shard)
        }),
{
    reveal_strlit("  ");
    reveal_strlit("-");
    let line = shard_line(idx, shard, keys);
    let number = decimal(idx);
    let first = decimal(shard.start as nat);
    let last = decimal(shard.end as nat);
    let primary = node_text(shard.primary);
    let replicas = replicas_text(shard.replicas);
    let key = test_key_text(keys, shard);
    let gap = "  "@;
    let dash = "-"@;
    assert(gap.len() == 2 && gap[0] == ' ' && gap[1] == ' ');
    assert(dash.len() == 1 && dash[0] == '-');
    let l0 = gap;
    let l1 = l0 + right_aligned(number, 3) + gap;
    let l2 = l1 + right_aligned(first, 5) + dash;
    let l3 = l2 + left_aligned(last, 6) + gap;
    let l4 = l3 + left_aligned(primary, 40) + gap;
    let l5 = l4 + left_aligned(replicas, 40) + gap;
    let t5 = key;
    let t4 = left_aligned(replicas, 40) + (gap + t5);
    let t3 = left_aligned(primary, 40) + (gap + t4);
    let t2 = left_aligned(last, 6) + (gap + t3);
    let t1 = right_aligned(first, 5) + (dash + t2);
    assert(line == l5 + t5);
    left_cell_goes_on(l4, replicas, 40, gap, t5);
    left_cell_goes_on(l3, primary, 40, gap, t4);
    left_cell_goes_on(l2, last, 6, gap, t3);
    right_cell_goes_on(l1, first, 5, dash, t2);
    right_cell_goes_on(l0, number, 3, gap, t1);
    assert(line[0] == ' ' && line[1] == ' ');
    assert(line.skip(l5.len() as int) =~= key);
}

} // verus!
