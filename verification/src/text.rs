//! Text the program prints and reads: decimal numbers, aligned columns, comma-separated lists.
use vstd::prelude::*;
use vstd::string::{StrSliceExecFns, StringExecFns};
use vstd::utf8::{decode_utf8, encode_utf8, valid_utf8};

verus! {

/// The decimal digit `d`.
pub open spec fn digit(d: nat) -> char {
    (('0' as nat) + d) as char
}

/// The decimal numeral of `n`, without leading zeros.
pub open spec fn decimal(n: nat) -> Seq<char>
    decreases n,
{
    if n < 10 {
        seq![digit(n)]
    } else {
        decimal(n / 10).push(digit(n % 10))
    }
}

/// The number that a text of digits writes in decimal.
pub open spec fn numeral_value(s: Seq<char>) -> nat
    decreases s.len(),
{
    if s.len() == 0 {
        0
    } else {
        (10 * numeral_value(s.drop_last()) + (s.last() as int - 48)) as nat
    }
}

/// `n` spaces.
pub open spec fn spaces(n: int) -> Seq<char> {
    Seq::new(if n > 0 { n as nat } else { 0 }, |k: int| ' ')
}

/// `s` behind as many spaces as bring it to `width` characters.
pub open spec fn right_aligned(s: Seq<char>, width: nat) -> Seq<char> {
    spaces(width - s.len()) + s
}

/// `s` followed by as many spaces as bring it to `width` characters.
pub open spec fn left_aligned(s: Seq<char>, width: nat) -> Seq<char> {
    s + spaces(width - s.len())
}

/// The pieces with a comma between each two.
pub open spec fn comma_joined(pieces: Seq<Seq<char>>) -> Seq<char> {
    joined(pieces, seq![','])
}

/// The pieces with `separator` between each two.
pub open spec fn joined(pieces: Seq<Seq<char>>, separator: Seq<char>) -> Seq<char>
    decreases pieces.len(),
{
    if pieces.len() == 0 {
        seq![]
    } else if pieces.len() == 1 {
        pieces[0]
    } else {
        joined(pieces.drop_last(), separator) + separator + pieces.last()
    }
}

/// The texts that a list of strings holds.
pub open spec fn texts(strings: Seq<String>) -> Seq<Seq<char>> {
    strings.map_values(|s: String| s@)
}

/// `pieces` are the pieces of `s` between its commas.
pub open spec fn splits_at_commas(s: Seq<char>, pieces: Seq<Seq<char>>) -> bool {
    &&& pieces.len() > 0
    &&& comma_joined(pieces) == s
    &&& forall|i: int| 0 <= i < pieces.len() ==> !(#[trigger] pieces[i]).contains(',')
}

/// What `String::from_utf8_lossy` makes of a byte string.
pub uninterp spec fn lossy_text(bytes: Seq<u8>) -> Seq<char>;

/// Calls `String::from_utf8_lossy`. The text is a function of the bytes, named [`lossy_text`];
/// bytes that are valid UTF-8 give the text they encode. Which replacement characters stand for
/// invalid bytes is left unsaid.
#[verifier::external_body]
pub(crate) fn lossy_string(bytes: &[u8]) -> (s: String)
    ensures
        s@ == lossy_text(bytes@),
        valid_utf8(bytes@) ==> s@ == decode_utf8(bytes@),
{
    String::from_utf8_lossy(bytes).into_owned()
}

/// The text of a byte string: what its bytes encode where they are valid UTF-8, else what
/// `String::from_utf8_lossy` makes of them.
pub open spec fn text_of(bytes: Seq<u8>) -> Seq<char> {
    if valid_utf8(bytes) {
        decode_utf8(bytes)
    } else {
        lossy_text(bytes)
    }
}

/// The numeral of a one-digit number.
fn digit_text(d: u64) -> (s: &'static str)
    requires
        d < 10,
    ensures
        s@ == seq![digit(d as nat)],
{
    proof {
        reveal_strlit("0");
        reveal_strlit("1");
        reveal_strlit("2");
        reveal_strlit("3");
        reveal_strlit("4");
        reveal_strlit("5");
        reveal_strlit("6");
        reveal_strlit("7");
        reveal_strlit("8");
        reveal_strlit("9");
    }
    match d {
        0 => "0",
        1 => "1",
        2 => "2",
        3 => "3",
        4 => "4",
        5 => "5",
        6 => "6",
        7 => "7",
        8 => "8",
        _ => "9",
    }
}

/// Writes a number in decimal.
pub fn decimal_text(n: u64) -> (s: String)
    ensures
        s@ == decimal(n as nat),
    decreases n,
{
    let mut s = if n < 10 {
        String::new()
    } else {
        decimal_text(n / 10)
    };
    s.append(digit_text(n % 10));
    s
}

/// Writes `n` spaces.
fn spaces_text(n: usize) -> (s: String)
    ensures
        s@ == spaces(n as int),
{
    let mut s = String::new();
    let mut i: usize = 0;
    proof {
        reveal_strlit(" ");
    }
    while i < n
        invariant
            i <= n,
            s@ == spaces(i as int),
            " "@ == seq![' '],
        decreases n - i,
    {
        s.append(" ");
        i = i + 1;
    }
    s
}

/// Right-aligns a text in a column of `width` characters. A longer text stays as it is.
pub fn align_right(s: &str, width: usize) -> (padded: String)
    ensures
        padded@ == right_aligned(s@, width as nat),
{
    let len: usize = s.unicode_len();
    let mut padded = spaces_text(if len < width { width - len } else { 0 });
    padded.append(s);
    padded
}

/// Left-aligns a text in a column of `width` characters. A longer text stays as it is.
pub fn align_left(s: &str, width: usize) -> (padded: String)
    ensures
        padded@ == left_aligned(s@, width as nat),
{
    let len: usize = s.unicode_len();
    let padding = spaces_text(if len < width { width - len } else { 0 });
    s.to_owned().concat(padding.as_str())
}

/// Joins texts with a separator between each two.
pub fn join_texts(pieces: &[String], separator: &str) -> (s: String)
    ensures
        s@ == joined(texts(pieces@), separator@),
{
    let mut s = String::new();
    let mut i: usize = 0;
    proof {
        assert(texts(pieces@).take(0) =~= Seq::<Seq<char>>::empty());
    }
    while i < pieces.len()
        invariant
            i <= pieces@.len(),
            s@ == joined(texts(pieces@).take(i as int), separator@),
        decreases pieces@.len() - i,
    {
        if i > 0 {
            s.append(separator);
        }
        s.append(pieces[i].as_str());
        proof {
            let next = texts(pieces@).take(i + 1);
            assert(next.drop_last() =~= texts(pieces@).take(i as int));
            assert(next.last() == pieces@[i as int]@);
            if i == 0 {
                assert(texts(pieces@).take(0) =~= Seq::<Seq<char>>::empty());
            }
        }
        i = i + 1;
    }
    proof {
        assert(texts(pieces@).take(i as int) =~= texts(pieces@));
    }
    s
}

/// Splits a comma-separated list into its pieces. There is always at least one piece, and pieces
/// may be empty.
pub fn split_list(s: &str) -> (pieces: Vec<String>)
    ensures
        splits_at_commas(s@, texts(pieces@)),
{
    let n: usize = s.unicode_len();
    let mut pieces: Vec<String> = Vec::new();
    let mut start: usize = 0;
    let mut i: usize = 0;
    for c in it: s.chars()
        invariant
            n == s@.len(),
            it.seq() == s@,
            i == it.index(),
            start <= i <= n,
            !s@.subrange(start as int, i as int).contains(','),
            forall|k: int| 0 <= k < pieces@.len() ==> !(#[trigger] texts(pieces@)[k]).contains(','),
            start == 0 ==> pieces@.len() == 0,
            start > 0 ==> pieces@.len() > 0 && comma_joined(texts(pieces@)) + seq![','] == s@.take(
                start as int,
            ),
    {
        assert(c == s@[i as int]);
        if c == ',' {
            let ghost before = pieces@;
            let piece = s.substring_char(start, i);
            pieces.push(piece.to_owned());
            proof {
                let piece = s@.subrange(start as int, i as int);
                assert(texts(pieces@) =~= texts(before).push(piece));
                assert(texts(pieces@).drop_last() =~= texts(before));
                assert(s@.take(i + 1) =~= s@.take(start as int) + s@.subrange(start as int, i as int)
                    + seq![',']);
                assert(s@.subrange(i + 1, i + 1) =~= Seq::<char>::empty());
            }
            start = i + 1;
        } else {
            proof {
                assert(s@.subrange(start as int, i + 1) =~= s@.subrange(start as int, i as int).push(c));
            }
        }
        i = i + 1;
    }
    let ghost before = pieces@;
    let piece = s.substring_char(start, n);
    pieces.push(piece.to_owned());
    proof {
        let piece = s@.subrange(start as int, n as int);
        assert(texts(pieces@) =~= texts(before).push(piece));
        assert(texts(pieces@).drop_last() =~= texts(before));
        assert(s@ =~= s@.take(start as int) + s@.subrange(start as int, n as int));
    }
    pieces
}

/// A comma-separated list has one split: pieces without commas that join to the same text are
/// the same pieces.
pub proof fn split_is_unique(s: Seq<char>, p: Seq<Seq<char>>, q: Seq<Seq<char>>)
    requires
        splits_at_commas(s, p),
        splits_at_commas(s, q),
    ensures
        p == q,
    decreases p.len(),
{
    let a = comma_joined(p.drop_last());
    let b = comma_joined(q.drop_last());
    if p.len() == 1 {
        if q.len() > 1 {
            assert(p[0][b.len() as int] == ',');
        }
    } else if q.len() == 1 {
        assert(q[0][a.len() as int] == ',');
    } else {
        assert(s == a + seq![','] + p.last() && s == b + seq![','] + q.last());
        assert(s.len() == a.len() + 1 + p.last().len());
        assert(s.len() == b.len() + 1 + q.last().len());
        assert(s[a.len() as int] == ',' && s[b.len() as int] == ',');
        if a.len() < b.len() {
            assert((a + seq![','] + p.last())[b.len() as int] == p.last()[b.len() - a.len() - 1]);
        }
        if b.len() < a.len() {
            assert((b + seq![','] + q.last())[a.len() as int] == q.last()[a.len() - b.len() - 1]);
        }
        assert(a =~= s.take(a.len() as int));
        assert(b =~= s.take(b.len() as int));
        assert(p.last() =~= s.skip(a.len() as int + 1));
        assert(q.last() =~= s.skip(b.len() as int + 1));
        assert forall|i: int| 0 <= i < p.len() - 1 implies !(#[trigger] p.drop_last()[i]).contains(',') by {
            assert(p.drop_last()[i] == p[i]);
        }
        assert forall|i: int| 0 <= i < q.len() - 1 implies !(#[trigger] q.drop_last()[i]).contains(',') by {
            assert(q.drop_last()[i] == q[i]);
        }
        split_is_unique(a, p.drop_last(), q.drop_last());
        assert(p =~= p.drop_last().push(p.last()));
        assert(q =~= q.drop_last().push(q.last()));
    }
    assert(p =~= q);
}

/// A decimal numeral is made of the digits `0` to `9`, does not begin with `0` unless it is `0`,
/// and its value is the number.
pub proof fn decimal_has_its_value(n: nat)
    ensures
        numeral_value(decimal(n)) == n,
        decimal(n).len() > 0,
        forall|i: int| 0 <= i < decimal(n).len() ==> '0' <= #[trigger] decimal(n)[i] <= '9',
        decimal(n)[0] == '0' ==> n == 0,
    decreases n,
{
    if n < 10 {
        assert(decimal(n).drop_last() =~= Seq::<char>::empty());
        assert(numeral_value(Seq::<char>::empty()) == 0);
    } else {
        decimal_has_its_value(n / 10);
        assert(decimal(n).drop_last() =~= decimal(n / 10));
    }
}

/// Different numbers have different numerals.
pub proof fn decimal_is_injective(a: nat, b: nat)
    requires
        decimal(a) == decimal(b),
    ensures
        a == b,
{
    decimal_has_its_value(a);
    decimal_has_its_value(b);
}

/// Right alignment puts the text at the end of its column and spaces, and nothing else, before
/// it. The column is as wide as asked for, or as the text where that is wider.
pub proof fn right_alignment_pads_in_front(s: Seq<char>, width: nat)
    ensures
        right_aligned(s, width).len() == if s.len() < width { width } else { s.len() },
        right_aligned(s, width).skip(right_aligned(s, width).len() - s.len()) == s,
        forall|i: int|
            0 <= i < right_aligned(s, width).len() - s.len() ==> #[trigger] right_aligned(s, width)[i] == ' ',
{
    assert(right_aligned(s, width).skip(right_aligned(s, width).len() - s.len()) =~= s);
}

/// Left alignment puts the text at the beginning of its column and spaces, and nothing else,
/// behind it. The column is as wide as asked for, or as the text where that is wider.
pub proof fn left_alignment_pads_behind(s: Seq<char>, width: nat)
    ensures
        left_aligned(s, width).len() == if s.len() < width { width } else { s.len() },
        left_aligned(s, width).take(s.len() as int) == s,
        forall|i: int|
            s.len() <= i < left_aligned(s, width).len() ==> #[trigger] left_aligned(s, width)[i] == ' ',
{
    assert(left_aligned(s, width).take(s.len() as int) =~= s);
}

/// The texts of a list of strings are those of its strings, in order.
pub proof fn texts_are_in_order(strings: Seq<String>)
    ensures
        texts(strings).len() == strings.len(),
        forall|i: int| 0 <= i < strings.len() ==> #[trigger] texts(strings)[i] == strings[i]@,
{
}

/// One piece joins to itself, and two lists join to their joins with one separator between.
pub proof fn joined_lists_meet_at_a_separator(
    a: Seq<Seq<char>>,
    b: Seq<Seq<char>>,
    piece: Seq<char>,
    separator: Seq<char>,
)
    requires
        a.len() > 0,
        b.len() > 0,
    ensures
        joined(seq![piece], separator) == piece,
        joined(a + b, separator) == joined(a, separator) + separator + joined(b, separator),
    decreases b.len(),
{
    let all = a + b;
    if b.len() == 1 {
        assert(all.drop_last() =~= a);
    } else {
        joined_lists_meet_at_a_separator(a, b.drop_last(), piece, separator);
        assert(all.drop_last() =~= a + b.drop_last());
        assert(joined(all, separator) =~= joined(a, separator) + separator + joined(b, separator));
    }
}

/// Splitting undoes joining: pieces without commas come back as they were, and nothing else
/// does.
pub proof fn split_undoes_join(pieces: Seq<Seq<char>>, split: Seq<Seq<char>>)
    requires
        pieces.len() > 0,
        forall|i: int| 0 <= i < pieces.len() ==> !(#[trigger] pieces[i]).contains(','),
    ensures
        splits_at_commas(joined(pieces, seq![',']), split) <==> split == pieces,
{
    if splits_at_commas(joined(pieces, seq![',']), split) {
        split_is_unique(joined(pieces, seq![',']), split, pieces);
    }
}

/// Bytes that encode a text have that text.
pub proof fn encoded_text_is_read_back(s: Seq<char>)
    ensures
        text_of(encode_utf8(s)) == s,
{
    broadcast use vstd::utf8::group_utf8_lib;

}

/// The wider of a column and the text in it.
pub open spec fn column_width(s: Seq<char>, width: nat) -> int {
    if s.len() < width {
        width as int
    } else {
        s.len() as int
    }
}

/// In the line, a column begins at `begin` in which `s` stands at the right, behind spaces.
pub open spec fn right_cell_at(line: Seq<char>, begin: int, s: Seq<char>, width: nat) -> bool {
    let end = begin + column_width(s, width);
    &&& 0 <= begin <= end <= line.len()
    &&& line.subrange(end - s.len(), end) == s
    &&& forall|i: int| begin <= i < end - s.len() ==> #[trigger] line[i] == ' '
}

/// In the line, a column begins at `begin` in which `s` stands at the left, before spaces.
pub open spec fn left_cell_at(line: Seq<char>, begin: int, s: Seq<char>, width: nat) -> bool {
    let end = begin + column_width(s, width);
    &&& 0 <= begin <= end <= line.len()
    &&& line.subrange(begin, begin + s.len()) == s
    &&& forall|i: int| begin + s.len() <= i < end ==> #[trigger] line[i] == ' '
}

/// A right-aligned text between two others is in a column of its own.
pub proof fn right_aligned_text_is_a_cell(front: Seq<char>, s: Seq<char>, width: nat, rest: Seq<char>)
    ensures
        right_cell_at(front + right_aligned(s, width) + rest, front.len() as int, s, width),
{
    let line = front + right_aligned(s, width) + rest;
    let end = front.len() + column_width(s, width);
    assert(line.subrange(end - s.len(), end) =~= s);
}

/// A left-aligned text between two others is in a column of its own.
pub proof fn left_aligned_text_is_a_cell(front: Seq<char>, s: Seq<char>, width: nat, rest: Seq<char>)
    ensures
        left_cell_at(front + left_aligned(s, width) + rest, front.len() as int, s, width),
{
    let line = front + left_aligned(s, width) + rest;
    assert(line.subrange(front.len() as int, front.len() as int + s.len()) =~= s);
}

/// A right-aligned text and the separator behind it, in a line that goes on: however the line is
/// bracketed, the text is in a column of its own and the separator follows.
pub proof fn right_cell_goes_on(front: Seq<char>, s: Seq<char>, width: nat, separator: Seq<char>, rest: Seq<char>)
    ensures
        ({
            let next = front + right_aligned(s, width) + separator;
            let line = next + rest;
            &&& line == front + (right_aligned(s, width) + (separator + rest))
            &&& right_cell_at(line, front.len() as int, s, width)
            &&& next.len() == front.len() + column_width(s, width) + separator.len()
            &&& forall|i: int|
                0 <= i < separator.len() ==> line[front.len() + column_width(s, width) + i] == #[trigger] separator[i]
        }),
{
    let next = front + right_aligned(s, width) + separator;
    let line = next + rest;
    right_aligned_text_is_a_cell(front, s, width, separator + rest);
    assert(line =~= front + right_aligned(s, width) + (separator + rest));
    assert(line =~= front + (right_aligned(s, width) + (separator + rest)));
}

/// A left-aligned text and the separator behind it, in a line that goes on: however the line is
/// bracketed, the text is in a column of its own and the separator follows.
pub proof fn left_cell_goes_on(front: Seq<char>, s: Seq<char>, width: nat, separator: Seq<char>, rest: Seq<char>)
    ensures
        ({
            let next = front + left_aligned(s, width) + separator;
            let line = next + rest;
            &&& line == front + (left_aligned(s, width) + (separator + rest))
            &&& left_cell_at(line, front.len() as int, s, width)
            &&& next.len() == front.len() + column_width(s, width) + separator.len()
            &&& forall|i: int|
                0 <= i < separator.len() ==> line[front.len() + column_width(s, width) + i] == #[trigger] separator[i]
        }),
{
    let next = front + left_aligned(s, width) + separator;
    let line = next + rest;
    left_aligned_text_is_a_cell(front, s, width, separator + rest);
    assert(line =~= front + left_aligned(s, width) + (separator + rest));
    assert(line =~= front + (left_aligned(s, width) + (separator + rest)));
}

} // verus!
