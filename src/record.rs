//! The layout of one record in the data file, `<key>,<value>\n`, and the byte-level
//! facts that the index and the replay rest on.
use vstd::prelude::*;
use vstd::string::*;
use vstd::utf8::*;

verus! {

/// The byte that separates a key from its value: `,`.
pub const KV_SEPARATOR: u8 = 44;

/// The byte that ends a record: `\n`.
pub const ENTRY_SEPARATOR: u8 = 10;

/// Number of bytes in the UTF-8 encoding of `s`.
pub open spec fn byte_len(s: Seq<char>) -> nat {
    encode_utf8(s).len()
}

/// The text of the record that stores `value` under `key`.
pub open spec fn record_text(key: Seq<char>, value: Seq<char>) -> Seq<char> {
    key + seq![','] + value + seq!['\n']
}

/// `s` holds no `c`.
pub open spec fn lacks(s: Seq<char>, c: char) -> bool {
    forall|i: int| 0 <= i < s.len() ==> s[i] != c
}

/// Position of the first `x` in `b`, or `b.len()` when `b` holds none.
pub open spec fn first_index_of(b: Seq<u8>, x: u8) -> nat
    decreases b.len(),
{
    if b.len() == 0 {
        0
    } else if b[0] == x {
        0
    } else {
        1 + first_index_of(b.drop_first(), x)
    }
}

/// `i` is where the first `x` of `b` stands, or `b.len()` when there is none.
pub open spec fn is_first_index(b: Seq<u8>, x: u8, i: int) -> bool {
    &&& 0 <= i <= b.len()
    &&& i < b.len() ==> b[i] == x
    &&& forall|j: int| 0 <= j < i ==> b[j] != x
}

/// `first_index_of` is the one position that `is_first_index` describes.
pub proof fn lemma_first_index_of(b: Seq<u8>, x: u8, i: int)
    requires
        is_first_index(b, x, i),
    ensures
        first_index_of(b, x) == i,
    decreases b.len(),
{
    if b.len() > 0 && b[0] != x {
        let t = b.drop_first();
        assert forall|j: int| 0 <= j < i - 1 implies t[j] != x by {
            assert(t[j] == b[j + 1]);
        }
        lemma_first_index_of(t, x, i - 1);
    }
}

/// The first `x` of `a + b` when `a` holds none is found in `b`.
pub proof fn lemma_first_index_of_skip(a: Seq<u8>, b: Seq<u8>, x: u8)
    requires
        forall|j: int| 0 <= j < a.len() ==> a[j] != x,
    ensures
        first_index_of(a + b, x) == a.len() + first_index_of(b, x),
    decreases a.len(),
{
    if a.len() > 0 {
        assert((a + b).drop_first() =~= a.drop_first() + b);
        lemma_first_index_of_skip(a.drop_first(), b, x);
    } else {
        assert(a + b =~= b);
    }
}

/// Finds the first `x` in `b`; returns `b.len()` when there is none.
pub fn find_byte(b: &[u8], x: u8) -> (r: usize)
    ensures
        r == first_index_of(b@, x),
        is_first_index(b@, x, r as int),
{
    let mut i: usize = 0;
    while i < b.len() && b[i] != x
        invariant
            0 <= i <= b@.len(),
            forall|j: int| 0 <= j < i ==> b@[j] != x,
        decreases b@.len() - i,
    {
        i = i + 1;
    }
    proof {
        lemma_first_index_of(b@, x, i as int);
    }
    i
}

/// Splits `s` around the ASCII byte at byte position `p`: the text before it and the
/// text after it.
pub fn split_around(s: &str, p: usize) -> (r: (&str, &str))
    requires
        p < s.spec_bytes().len(),
        s.spec_bytes()[p as int] < 0x80,
    ensures
        r.0.spec_bytes() == s.spec_bytes().subrange(0, p as int),
        r.1.spec_bytes() == s.spec_bytes().subrange(p + 1, s.spec_bytes().len() as int),
{
    proof {
        encode_utf8_valid_utf8(s@);
        is_char_boundary_iff_is_leading_byte(s.spec_bytes(), p as int);
    }
    let (before, rest) = s.split_at(p);
    proof {
        let rb = rest.spec_bytes();
        encode_utf8_valid_utf8(rest@);
        assert(rb[0] == s.spec_bytes()[p as int]);
        reveal_with_fuel(is_char_boundary, 2);
        assert(is_char_boundary(rb, 1));
    }
    let (_, after) = rest.split_at(1);
    proof {
        assert(after.spec_bytes() =~= s.spec_bytes().subrange(p + 1, s.spec_bytes().len() as int));
    }
    (before, after)
}

/// Encoding distributes over concatenation.
pub proof fn lemma_encode_concat(a: Seq<char>, b: Seq<char>)
    ensures
        encode_utf8(a + b) == encode_utf8(a) + encode_utf8(b),
    decreases a.len(),
{
    if a.len() == 0 {
        assert(a + b =~= b);
        assert(encode_utf8(a) + encode_utf8(b) =~= encode_utf8(b));
    } else {
        assert((a + b).drop_first() =~= a.drop_first() + b);
        assert((a + b)[0] == a[0]);
        lemma_encode_concat(a.drop_first(), b);
        assert(encode_utf8(a + b) =~= encode_utf8(a) + encode_utf8(b));
    }
}

/// The two separators are one byte each.
pub proof fn lemma_encode_separators()
    ensures
        encode_utf8(seq![',']) == seq![KV_SEPARATOR],
        encode_utf8(seq!['\n']) == seq![ENTRY_SEPARATOR],
{
    assert((',' as u32) == 44);
    assert(('\n' as u32) == 10);
    assert(seq![','][0] == ',');
    let c: u32 = 44;
    let n: u32 = 10;
    assert((c & 0x7F) as u8 == 44u8) by (bit_vector)
        requires
            c == 44,
    ;
    assert((n & 0x7F) as u8 == 10u8) by (bit_vector)
        requires
            n == 10,
    ;
    assert(seq![','].drop_first() =~= Seq::<char>::empty());
    assert(seq!['\n'].drop_first() =~= Seq::<char>::empty());
    assert(encode_utf8(Seq::<char>::empty()) =~= Seq::<u8>::empty());
    assert(has_width_1_encoding(',' as u32));
    assert(encode_scalar(',' as u32) =~= seq![KV_SEPARATOR]);
    assert(encode_utf8(seq![',']) == encode_scalar(',' as u32) + encode_utf8(Seq::<char>::empty()));
    assert(encode_utf8(seq![',']) =~= seq![KV_SEPARATOR]);
    assert(encode_utf8(seq!['\n']) =~= seq![ENTRY_SEPARATOR]);
}

/// A record encodes as its key, the separator byte, its value and the terminator byte.
pub proof fn lemma_encode_record(key: Seq<char>, value: Seq<char>)
    ensures
        encode_utf8(record_text(key, value)) == encode_utf8(key) + seq![KV_SEPARATOR]
            + encode_utf8(value) + seq![ENTRY_SEPARATOR],
        byte_len(record_text(key, value)) == byte_len(key) + byte_len(value) + 2,
{
    lemma_encode_separators();
    lemma_encode_concat(key, seq![',']);
    lemma_encode_concat(key + seq![','], value);
    lemma_encode_concat(key + seq![','] + value, seq!['\n']);
}

proof fn lemma_scalar_avoids(v: u32, a: u32)
    requires
        is_scalar(v),
        a < 0x80,
        v != a,
    ensures
        forall|j: int| 0 <= j < encode_scalar(v).len() ==> encode_scalar(v)[j] != a as u8,
{
    if has_width_1_encoding(v) {
        assert((v & 0x7F) as u8 != a as u8) by (bit_vector)
            requires
                v <= 0x7F,
                a < 0x80,
                v != a,
        ;
    } else {
        assert(forall|y: u8| #![auto] (0x80u8 | y) >= 0x80 && (0xC0u8 | y) >= 0x80 && (0xE0u8 | y)
            >= 0x80 && (0xF0u8 | y) >= 0x80) by (bit_vector);
        assert((a as u8) < 0x80) by (bit_vector)
            requires
                a < 0x80,
        ;
    }
}

/// An ASCII character absent from `s` is absent, as a byte, from its encoding.
pub proof fn lemma_encode_avoids(s: Seq<char>, c: char)
    requires
        (c as u32) < 0x80,
        lacks(s, c),
    ensures
        forall|j: int|
            0 <= j < encode_utf8(s).len() ==> encode_utf8(s)[j] != (c as u32) as u8,
    decreases s.len(),
{
    if s.len() > 0 {
        let t = s.drop_first();
        assert forall|i: int| 0 <= i < t.len() implies t[i] != c by {
            assert(t[i] == s[i + 1]);
        }
        lemma_encode_avoids(t, c);
        char_is_scalar(s[0]);
        char_u32_cast(s[0], s[0] as u32);
        char_u32_cast(c, c as u32);
        lemma_scalar_avoids(s[0] as u32, c as u32);
        let e = encode_scalar(s[0] as u32);
        assert(encode_utf8(s) == e + encode_utf8(t));
        assert forall|j: int| 0 <= j < encode_utf8(s).len() implies encode_utf8(s)[j] != (
        c as u32) as u8 by {
            if j < e.len() {
                assert(encode_utf8(s)[j] == e[j]);
            } else {
                assert(encode_utf8(s)[j] == encode_utf8(t)[j - e.len()]);
            }
        }
    }
}

} // verus!
