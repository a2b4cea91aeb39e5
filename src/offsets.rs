//! The byte-offset to UTF-16 code-unit offset table.
use vstd::prelude::*;
use vstd::string::StringSliceAdditionalSpecFns;
use vstd::utf8::*;

verus! {

/// Number of bytes in the UTF-8 encoding of `c`.
pub open spec fn utf8_width(c: char) -> nat {
    if (c as u32) < 0x80 {
        1
    } else if (c as u32) < 0x800 {
        2
    } else if (c as u32) < 0x10000 {
        3
    } else {
        4
    }
}

/// Number of 16-bit code units in the UTF-16 encoding of `c`: two (a
/// surrogate pair) for code points at or above U+10000, else one.
pub open spec fn utf16_width(c: char) -> nat {
    if (c as u32) < 0x10000 {
        1
    } else {
        2
    }
}

/// UTF-8 length of a character sequence.
pub open spec fn byte_len(cs: Seq<char>) -> nat
    decreases cs.len(),
{
    if cs.len() == 0 {
        0
    } else {
        byte_len(cs.drop_last()) + utf8_width(cs.last())
    }
}

/// UTF-16 length of a character sequence.
pub open spec fn unit_len(cs: Seq<char>) -> nat
    decreases cs.len(),
{
    if cs.len() == 0 {
        0
    } else {
        unit_len(cs.drop_last()) + utf16_width(cs.last())
    }
}

/// One entry per byte of `cs`: every byte of a character holds the code-unit
/// offset at which that character starts.
pub open spec fn byte_entries(cs: Seq<char>) -> Seq<int>
    decreases cs.len(),
{
    if cs.len() == 0 {
        seq![]
    } else {
        byte_entries(cs.drop_last()) + Seq::new(
            utf8_width(cs.last()),
            |_j: int| unit_len(cs.drop_last()) as int,
        )
    }
}

/// The offset table of a text: its byte entries followed by one sentinel,
/// the text's total UTF-16 length.
pub open spec fn offset_table(cs: Seq<char>) -> Seq<int> {
    byte_entries(cs).push(unit_len(cs) as int)
}

/// The offset table with its entries as `usize`.
pub open spec fn usize_table(cs: Seq<char>) -> Seq<usize> {
    offset_table(cs).map_values(|x: int| x as usize)
}

/// `v` holds, entry by entry, the integers of `t`.
pub open spec fn holds_entries(v: Seq<usize>, t: Seq<int>) -> bool {
    &&& v.len() == t.len()
    &&& forall|i: int| 0 <= i < v.len() ==> v[i] as int == #[trigger] t[i]
}

pub proof fn lemma_encode_scalar_len(c: char)
    ensures
        encode_scalar(c as u32).len() == utf8_width(c),
{
    char_is_scalar(c);
}

pub proof fn lemma_byte_len_concat(a: Seq<char>, b: Seq<char>)
    ensures
        byte_len(a + b) == byte_len(a) + byte_len(b),
    decreases b.len(),
{
    if b.len() == 0 {
        assert(a + b =~= a);
    } else {
        lemma_byte_len_concat(a, b.drop_last());
        assert((a + b).drop_last() =~= a + b.drop_last());
    }
}

pub proof fn lemma_unit_len_concat(a: Seq<char>, b: Seq<char>)
    ensures
        unit_len(a + b) == unit_len(a) + unit_len(b),
    decreases b.len(),
{
    if b.len() == 0 {
        assert(a + b =~= a);
    } else {
        lemma_unit_len_concat(a, b.drop_last());
        assert((a + b).drop_last() =~= a + b.drop_last());
    }
}

/// The byte length of a text is the length of its UTF-8 encoding.
pub proof fn lemma_byte_len_encoding(cs: Seq<char>)
    ensures
        encode_utf8(cs).len() == byte_len(cs),
    decreases cs.len(),
{
    if cs.len() > 0 {
        lemma_byte_len_encoding(cs.drop_first());
        lemma_encode_scalar_len(cs[0]);
        lemma_byte_len_concat(seq![cs[0]], cs.drop_first());
        assert(seq![cs[0]] + cs.drop_first() =~= cs);
        assert(seq![cs[0]].drop_last() =~= Seq::<char>::empty());
        assert(byte_len(Seq::<char>::empty()) == 0);
        assert(byte_len(seq![cs[0]]) == utf8_width(cs[0]));
        assert(encode_utf8(cs) == encode_scalar(cs[0] as u32) + encode_utf8(cs.drop_first()));
    }
}

pub proof fn lemma_units_le_bytes(cs: Seq<char>)
    ensures
        unit_len(cs) <= byte_len(cs),
    decreases cs.len(),
{
    if cs.len() > 0 {
        lemma_units_le_bytes(cs.drop_last());
    }
}

pub proof fn lemma_byte_entries_len(cs: Seq<char>)
    ensures
        byte_entries(cs).len() == byte_len(cs),
    decreases cs.len(),
{
    if cs.len() > 0 {
        lemma_byte_entries_len(cs.drop_last());
    }
}

/// A prefix is no longer, in bytes or in code units, than the whole text.
pub proof fn lemma_prefix_lens(cs: Seq<char>, k: int)
    requires
        0 <= k <= cs.len(),
    ensures
        byte_len(cs.take(k)) <= byte_len(cs),
        unit_len(cs.take(k)) <= unit_len(cs),
{
    assert(cs.take(k) + cs.skip(k) =~= cs);
    lemma_byte_len_concat(cs.take(k), cs.skip(k));
    lemma_unit_len_concat(cs.take(k), cs.skip(k));
}

/// The entries of a prefix's bytes open the entries of the whole text.
pub proof fn lemma_byte_entries_prefix(cs: Seq<char>, k: int)
    requires
        0 <= k <= cs.len(),
    ensures
        byte_entries(cs).take(byte_len(cs.take(k)) as int) == byte_entries(cs.take(k)),
    decreases cs.len(),
{
    lemma_byte_entries_len(cs);
    lemma_byte_entries_len(cs.take(k));
    if k == cs.len() {
        assert(cs.take(k) =~= cs);
        assert(byte_entries(cs).take(byte_len(cs) as int) =~= byte_entries(cs));
    } else {
        let pre = cs.drop_last();
        assert(pre.take(k) =~= cs.take(k));
        lemma_byte_entries_prefix(pre, k);
        lemma_prefix_lens(pre, k);
        lemma_byte_entries_len(pre);
        assert(byte_entries(cs).take(byte_len(cs.take(k)) as int) =~= byte_entries(pre).take(
            byte_len(pre.take(k)) as int,
        ));
    }
}

/// Every byte of the character at index `k` maps to the code-unit offset at
/// which that character starts, and the byte just after the text's prefix of
/// `k` characters maps to that prefix's code-unit length.
pub proof fn lemma_table_at_char(cs: Seq<char>, k: int)
    requires
        0 <= k <= cs.len(),
    ensures
        byte_len(cs.take(k)) < offset_table(cs).len(),
        offset_table(cs)[byte_len(cs.take(k)) as int] == unit_len(cs.take(k)),
        k < cs.len() ==> forall|j: int|
            0 <= j < utf8_width(cs[k]) ==> #[trigger] offset_table(cs)[byte_len(cs.take(k)) + j]
                == unit_len(cs.take(k)),
{
    lemma_byte_entries_len(cs);
    lemma_prefix_lens(cs, k);
    if k == cs.len() {
        assert(cs.take(k) =~= cs);
    } else {
        let next = cs.take(k + 1);
        assert(next.drop_last() =~= cs.take(k));
        lemma_byte_entries_prefix(cs, k + 1);
        lemma_prefix_lens(cs, k + 1);
        lemma_byte_entries_len(cs.take(k));
        lemma_byte_entries_len(next);
        assert forall|j: int| 0 <= j < utf8_width(cs[k]) implies #[trigger] offset_table(cs)[byte_len(
            cs.take(k),
        ) + j] == unit_len(cs.take(k)) by {
            let b = byte_len(cs.take(k)) as int;
            assert(next.last() == cs[k]);
            assert(byte_entries(next) == byte_entries(cs.take(k)) + Seq::new(
                utf8_width(cs[k]),
                |_j: int| unit_len(cs.take(k)) as int,
            ));
            assert(byte_len(next) == b + utf8_width(cs[k]));
            assert(byte_entries(next)[b + j] == unit_len(cs.take(k)));
            assert(byte_entries(cs).take(byte_len(next) as int)[b + j] == byte_entries(cs)[b + j]);
            assert(offset_table(cs)[b + j] == byte_entries(cs)[b + j]);
        }
        assert(offset_table(cs)[byte_len(cs.take(k)) + 0int] == unit_len(cs.take(k)));
    }
}

/// The table has one entry per byte of the text's UTF-8 encoding and a
/// sentinel; it starts at 0 and ends with the text's UTF-16 length.
pub proof fn lemma_table_shape(cs: Seq<char>)
    ensures
        byte_len(cs) == encode_utf8(cs).len(),
        offset_table(cs).len() == byte_len(cs) + 1,
        offset_table(cs)[0] == 0,
        offset_table(cs)[byte_len(cs) as int] == unit_len(cs),
{
    lemma_byte_len_encoding(cs);
    lemma_byte_entries_len(cs);
    lemma_table_at_char(cs, 0);
    assert(cs.take(0) =~= Seq::<char>::empty());
}

/// All-ASCII text has as many code units as bytes.
pub proof fn lemma_ascii_lens(cs: Seq<char>)
    requires
        forall|i: int| 0 <= i < cs.len() ==> (#[trigger] cs[i] as u32) < 0x80,
    ensures
        byte_len(cs) == cs.len(),
        unit_len(cs) == cs.len(),
    decreases cs.len(),
{
    if cs.len() > 0 {
        lemma_ascii_lens(cs.drop_last());
    }
}

/// In all-ASCII text every byte offset maps to itself.
pub proof fn lemma_ascii_identity(cs: Seq<char>)
    requires
        forall|i: int| 0 <= i < cs.len() ==> (#[trigger] cs[i] as u32) < 0x80,
    ensures
        offset_table(cs).len() == cs.len() + 1,
        forall|i: int| 0 <= i <= cs.len() ==> #[trigger] offset_table(cs)[i] == i,
{
    lemma_table_shape(cs);
    lemma_ascii_lens(cs);
    assert forall|i: int| 0 <= i <= cs.len() implies #[trigger] offset_table(cs)[i] == i by {
        lemma_table_at_char(cs, i);
        lemma_ascii_lens(cs.take(i));
    }
}

/// A character at or above U+10000 spans four bytes that all map to its
/// start, and the offset after it is two code units further on.
pub proof fn lemma_surrogate_pair_step(cs: Seq<char>, k: int)
    requires
        0 <= k < cs.len(),
        (cs[k] as u32) >= 0x10000,
    ensures
        ({
            let b = byte_len(cs.take(k)) as int;
            let t = offset_table(cs);
            &&& b + 4 < t.len()
            &&& t[b] == t[b + 1] && t[b] == t[b + 2] && t[b] == t[b + 3]
            &&& t[b + 4] == t[b] + 2
        }),
{
    lemma_table_at_char(cs, k);
    lemma_table_at_char(cs, k + 1);
    let b = byte_len(cs.take(k)) as int;
    let t = offset_table(cs);
    assert(cs.take(k + 1).drop_last() =~= cs.take(k));
    assert(t[b + 0] == unit_len(cs.take(k)));
    assert(t[b + 1] == unit_len(cs.take(k)));
    assert(t[b + 2] == unit_len(cs.take(k)));
    assert(t[b + 3] == unit_len(cs.take(k)));
}

proof fn lemma_byte_entries_sorted(cs: Seq<char>)
    ensures
        forall|i: int, j: int|
            0 <= i <= j < byte_entries(cs).len() ==> #[trigger] byte_entries(cs)[i]
                <= #[trigger] byte_entries(cs)[j],
        forall|i: int| 0 <= i < byte_entries(cs).len() ==> #[trigger] byte_entries(cs)[i] <= unit_len(cs),
    decreases cs.len(),
{
    if cs.len() > 0 {
        let pre = cs.drop_last();
        lemma_byte_entries_sorted(pre);
        lemma_byte_entries_len(pre);
        lemma_byte_entries_len(cs);
        let be = byte_entries(cs);
        let n = byte_entries(pre).len() as int;
        assert forall|i: int| 0 <= i < be.len() implies #[trigger] be[i] <= unit_len(pre) by {
            if i < n {
                assert(be[i] == byte_entries(pre)[i]);
            }
        }
        assert forall|i: int, j: int| 0 <= i <= j < be.len() implies #[trigger] be[i] <= #[trigger] be[j] by {
            if j < n {
                assert(be[i] == byte_entries(pre)[i]);
                assert(be[j] == byte_entries(pre)[j]);
            } else {
                assert(be[j] == unit_len(pre));
            }
        }
    }
}

/// The table never decreases: a later byte offset maps to a code-unit offset
/// at least as large, so a byte range keeps `start <= end` in code units.
pub proof fn lemma_table_monotone(cs: Seq<char>, i: int, j: int)
    requires
        0 <= i <= j < offset_table(cs).len(),
    ensures
        offset_table(cs)[i] <= offset_table(cs)[j],
{
    lemma_byte_entries_sorted(cs);
    let be = byte_entries(cs);
    if j < be.len() {
        assert(offset_table(cs)[i] == be[i]);
        assert(offset_table(cs)[j] == be[j]);
    } else if i < be.len() {
        assert(offset_table(cs)[i] == be[i]);
    }
}

/// Between the starts of the characters at indices `a` and `b` the table
/// advances by the UTF-16 length of the characters in between: one unit per
/// character below U+10000, two for each one above.
pub proof fn lemma_table_span(cs: Seq<char>, a: int, b: int)
    requires
        0 <= a <= b <= cs.len(),
    ensures
        offset_table(cs)[byte_len(cs.take(b)) as int] - offset_table(cs)[byte_len(
            cs.take(a),
        ) as int] == unit_len(cs.subrange(a, b)),
{
    lemma_table_at_char(cs, a);
    lemma_table_at_char(cs, b);
    assert(cs.take(a) + cs.subrange(a, b) =~= cs.take(b));
    lemma_unit_len_concat(cs.take(a), cs.subrange(a, b));
}

/// Where the text's UTF-16 length fits in an `i32`, each `usize` entry of the
/// table is the integer entry, between 0 and that length.
pub proof fn lemma_usize_entry(cs: Seq<char>, j: int)
    requires
        0 <= j <= byte_len(cs),
        unit_len(cs) <= i32::MAX,
    ensures
        usize_table(cs)[j] as int == offset_table(cs)[j],
        0 <= offset_table(cs)[j] <= unit_len(cs),
{
    lemma_table_shape(cs);
    lemma_table_monotone(cs, 0, j);
    lemma_table_monotone(cs, j, byte_len(cs) as int);
}

fn utf8_width_of(c: char) -> (n: usize)
    ensures
        n == utf8_width(c),
{
    let v = c as u32;
    if v < 0x80 {
        1
    } else if v < 0x800 {
        2
    } else if v < 0x10000 {
        3
    } else {
        4
    }
}

fn utf16_width_of(c: char) -> (n: usize)
    ensures
        n == utf16_width(c),
{
    if (c as u32) < 0x10000 {
        1
    } else {
        2
    }
}

/// Builds the table that translates each byte offset of `s`, the end offset
/// included, into its UTF-16 code-unit offset.
pub fn utf16_offsets(s: &str) -> (table: Vec<usize>)
    ensures
        holds_entries(table@, offset_table(s@)),
        table@ == usize_table(s@),
{
    let ghost cs = s@;
    let n = s.as_bytes().len();
    proof {
        lemma_byte_len_encoding(cs);
        lemma_units_le_bytes(cs);
        assert(s.spec_bytes() == encode_utf8(cs));
    }
    let mut table: Vec<usize> = Vec::new();
    let mut offset: usize = 0;
    for c in it: s.chars()
        invariant
            it.seq() == cs,
            n == byte_len(cs),
            unit_len(cs) <= byte_len(cs),
            0 <= it.index() <= cs.len(),
            offset == unit_len(cs.take(it.index() as int)),
            holds_entries(table@, byte_entries(cs.take(it.index() as int))),
    {
        let ghost k = it.index() as int;
        let ghost pre = cs.take(k);
        let ghost next = cs.take(k + 1);
        assert(next.drop_last() =~= pre);
        assert(next.last() == c);
        proof {
            lemma_prefix_lens(cs, k + 1);
            lemma_units_le_bytes(next);
            lemma_byte_entries_len(pre);
        }
        let w = utf8_width_of(c);
        let ghost base = table@;
        for j in 0..w
            invariant
                w == utf8_width(c),
                base == table@.take(base.len() as int),
                table@.len() == base.len() + j,
                forall|i: int| base.len() <= i < table@.len() ==> table@[i] == offset,
        {
            table.push(offset);
        }
        assert(byte_entries(next) =~= byte_entries(pre) + Seq::new(
            utf8_width(c),
            |_j: int| unit_len(pre) as int,
        ));
        offset = offset + utf16_width_of(c);
    }
    assert(cs.take(cs.len() as int) =~= cs);
    table.push(offset);
    assert(table@ =~= usize_table(s@));
    table
}

} // verus!
