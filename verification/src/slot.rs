//! The hash slot of a key, as a cluster client and the cluster's nodes compute it.
use crate::crc::{crc16, crc16_xmodem};
use vstd::prelude::*;
use vstd::slice::slice_subrange;

verus! {

/// The number of hash slots of a cluster.
pub const SLOTS: u16 = 16384;

/// The byte `{`, which opens a hash tag.
pub const TAG_OPEN: u8 = 0x7b;

/// The byte `}`, which closes a hash tag.
pub const TAG_CLOSE: u8 = 0x7d;

/// `open` is the first `{` of the key and `close` the first `}` behind it.
pub open spec fn braces_at(key: Seq<u8>, open: int, close: int) -> bool {
    &&& 0 <= open < close < key.len()
    &&& key[open] == TAG_OPEN
    &&& key[close] == TAG_CLOSE
    &&& forall|j: int| 0 <= j < open ==> key[j] != TAG_OPEN
    &&& forall|j: int| open < j < close ==> key[j] != TAG_CLOSE
}

/// The key has a hash tag: at least one byte between its first `{` and the first `}` behind it.
pub open spec fn has_tag(key: Seq<u8>) -> bool {
    exists|open: int, close: int| #[trigger] braces_at(key, open, close) && open + 1 < close
}

/// The bytes of a key that decide its slot: the hash tag where there is one, else the whole key.
pub open spec fn hashed_part(key: Seq<u8>) -> Seq<u8> {
    if has_tag(key) {
        let (open, close) = choose|open: int, close: int| #[trigger] braces_at(key, open, close);
        key.subrange(open + 1, close)
    } else {
        key
    }
}

/// The hash slot of a key.
pub open spec fn slot_of(key: Seq<u8>) -> nat {
    crc16(hashed_part(key)) % (SLOTS as nat)
}

/// The first `{` and the first `}` behind it are where they are.
proof fn lemma_braces_unique(key: Seq<u8>, o1: int, c1: int, o2: int, c2: int)
    requires
        braces_at(key, o1, c1),
        braces_at(key, o2, c2),
    ensures
        o1 == o2,
        c1 == c2,
{
    assert(o1 == o2) by {
        if o1 < o2 {
            assert(key[o1] != TAG_OPEN);
        }
        if o2 < o1 {
            assert(key[o2] != TAG_OPEN);
        }
    }
    if c1 < c2 {
        assert(key[c1] != TAG_CLOSE);
    }
    if c2 < c1 {
        assert(key[c2] != TAG_CLOSE);
    }
}

/// The hashed part of a key whose braces are known.
pub proof fn hashed_part_of_braces(key: Seq<u8>, open: int, close: int)
    requires
        braces_at(key, open, close),
    ensures
        hashed_part(key) == if open + 1 < close {
            key.subrange(open + 1, close)
        } else {
            key
        },
{
    let (o, c) = choose|o: int, c: int| #[trigger] braces_at(key, o, c);
    lemma_braces_unique(key, open, close, o, c);
    assert forall|o2: int, c2: int| #[trigger] braces_at(key, o2, c2) implies o2 == open && c2
        == close by {
        lemma_braces_unique(key, open, close, o2, c2);
    }
}

/// Finds the first `wanted` byte at or after `from`.
fn find_byte(bytes: &[u8], from: usize, wanted: u8) -> (found: Option<usize>)
    requires
        from <= bytes@.len(),
    ensures
        match found {
            Some(i) => from <= i < bytes@.len() && bytes@[i as int] == wanted && forall|j: int|
                from <= j < i ==> bytes@[j] != wanted,
            None => forall|j: int| from <= j < bytes@.len() ==> bytes@[j] != wanted,
        },
{
    let mut i: usize = from;
    while i < bytes.len()
        invariant
            from <= i <= bytes@.len(),
            forall|j: int| from <= j < i ==> bytes@[j] != wanted,
        decreases bytes@.len() - i,
    {
        if bytes[i] == wanted {
            return Some(i);
        }
        i = i + 1;
    }
    None
}

/// The bytes of a key that decide its slot.
fn hashed_bytes(key: &[u8]) -> (part: &[u8])
    ensures
        part@ == hashed_part(key@),
{
    assert(key@.len() <= usize::MAX) by {
        assert(key.len() == key@.len());
    }
    match find_byte(key, 0, TAG_OPEN) {
        Some(open) => match find_byte(key, open + 1, TAG_CLOSE) {
            Some(close) => {
                proof {
                    hashed_part_of_braces(key@, open as int, close as int);
                }
                if close > open + 1 {
                    slice_subrange(key, open + 1, close)
                } else {
                    key
                }
            },
            None => {
                assert forall|o: int, c: int| !#[trigger] braces_at(key@, o, c) by {
                    if braces_at(key@, o, c) {
                        assert(o == open) by {
                            if open < o {
                                assert(key@[open as int] != TAG_OPEN);
                            }
                        }
                        assert(key@[c] != TAG_CLOSE);
                    }
                }
                key
            },
        },
        None => {
            assert forall|o: int, c: int| !#[trigger] braces_at(key@, o, c) by {
                if braces_at(key@, o, c) {
                    assert(key@[o] != TAG_OPEN);
                }
            }
            key
        },
    }
}

/// Computes the hash slot of `key`: the checksum, modulo the number of slots, of the key's hash
/// tag, or of the whole key where it has none.
pub fn key_slot(key: &[u8]) -> (slot: u16)
    ensures
        slot == slot_of(key@),
        slot < SLOTS,
{
    crc16_xmodem(hashed_bytes(key)) % SLOTS
}

/// A key with a hash tag has the slot of the bare tag.
pub proof fn tagged_key_has_slot_of_tag(key: Seq<u8>, open: int, close: int)
    requires
        braces_at(key, open, close),
        open + 1 < close,
    ensures
        slot_of(key) == slot_of(key.subrange(open + 1, close)),
{
    let tag = key.subrange(open + 1, close);
    hashed_part_of_braces(key, open, close);
    assert forall|o: int, c: int| !#[trigger] braces_at(tag, o, c) by {
        if braces_at(tag, o, c) {
            assert(key[open + 1 + c] != TAG_CLOSE);
        }
    }
}

/// Keys that share a hash tag share a slot, whatever stands around the tag.
pub proof fn equal_tags_share_slot(
    a: Seq<u8>,
    a_open: int,
    a_close: int,
    b: Seq<u8>,
    b_open: int,
    b_close: int,
)
    requires
        braces_at(a, a_open, a_close),
        braces_at(b, b_open, b_close),
        a_open + 1 < a_close,
        a.subrange(a_open + 1, a_close) == b.subrange(b_open + 1, b_close),
    ensures
        slot_of(a) == slot_of(b),
{
    assert(a.subrange(a_open + 1, a_close).len() == b.subrange(b_open + 1, b_close).len());
    hashed_part_of_braces(a, a_open, a_close);
    hashed_part_of_braces(b, b_open, b_close);
}

/// A key without a hash tag is hashed whole.
pub proof fn untagged_key_is_hashed_whole(key: Seq<u8>)
    requires
        !has_tag(key),
    ensures
        slot_of(key) == crc16(key) % (SLOTS as nat),
{
}

/// Of a key `before{tag}after` only the tag decides the slot, where `before` holds no `{` and the
/// tag is not empty and holds no `}`.
pub proof fn slot_is_checksum_of_tag(before: Seq<u8>, tag: Seq<u8>, after: Seq<u8>)
    requires
        !before.contains(0x7b),
        !tag.contains(0x7d),
        tag.len() > 0,
    ensures
        slot_of(before + seq![0x7bu8] + tag + seq![0x7du8] + after) == crc16(tag) % 16384,
{
    let key = before + seq![0x7bu8] + tag + seq![0x7du8] + after;
    let open = before.len() as int;
    let close = open + 1 + tag.len();
    assert forall|j: int| 0 <= j < open implies key[j] != TAG_OPEN by {
        assert(key[j] == before[j]);
    }
    assert forall|j: int| open < j < close implies key[j] != TAG_CLOSE by {
        assert(key[j] == tag[j - open - 1]);
    }
    assert(braces_at(key, open, close));
    hashed_part_of_braces(key, open, close);
    assert(key.subrange(open + 1, close) =~= tag);
}

/// A key whose first braces are empty, `before{}after`, is hashed whole.
pub proof fn slot_of_key_with_empty_tag(before: Seq<u8>, after: Seq<u8>)
    requires
        !before.contains(0x7b),
    ensures
        slot_of(before + seq![0x7bu8, 0x7du8] + after) == crc16(before + seq![0x7bu8, 0x7du8] + after) % 16384,
{
    let key = before + seq![0x7bu8, 0x7du8] + after;
    let open = before.len() as int;
    assert forall|j: int| 0 <= j < open implies key[j] != TAG_OPEN by {
        assert(key[j] == before[j]);
    }
    assert(braces_at(key, open, open + 1));
    hashed_part_of_braces(key, open, open + 1);
}

/// A key without an opening brace, or without a closing brace behind the first opening one, is
/// hashed whole.
pub proof fn slot_of_key_without_braces(before: Seq<u8>, after: Seq<u8>)
    requires
        !before.contains(0x7b),
        !after.contains(0x7d),
    ensures
        slot_of(before) == crc16(before) % 16384,
        slot_of(before + seq![0x7bu8] + after) == crc16(before + seq![0x7bu8] + after) % 16384,
{
    assert forall|o: int, c: int| !#[trigger] braces_at(before, o, c) by {
        if braces_at(before, o, c) {
            assert(before.contains(before[o]));
        }
    }
    let key = before + seq![0x7bu8] + after;
    assert forall|o: int, c: int| !#[trigger] braces_at(key, o, c) by {
        if braces_at(key, o, c) {
            if o < before.len() {
                assert(before[o] == key[o]);
            } else {
                assert(after[c - before.len() - 1] == key[c]);
            }
        }
    }
}

} // verus!
