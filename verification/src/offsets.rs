//! Byte positions in the UTF-8 form of a text, and the characters they fall on.
use vstd::prelude::*;
use vstd::utf8::{encode_scalar, encode_utf8};

verus! {

/// The UTF-8 form of a text is that of its pieces, one behind the other.
pub proof fn lemma_encode_add(a: Seq<char>, b: Seq<char>)
    ensures
        encode_utf8(a + b) == encode_utf8(a) + encode_utf8(b),
    decreases a.len(),
{
    if a.len() == 0 {
        assert(a + b =~= b);
        assert(encode_utf8(a) =~= seq![]);
        assert(encode_utf8(a) + encode_utf8(b) =~= encode_utf8(b));
    } else {
        lemma_encode_add(a.drop_first(), b);
        assert((a + b).drop_first() =~= a.drop_first() + b);
        assert(encode_utf8(a + b) =~= encode_scalar(a[0] as u32) + (encode_utf8(a.drop_first())
            + encode_utf8(b)));
        assert(encode_utf8(a) == encode_scalar(a[0] as u32) + encode_utf8(a.drop_first()));
        assert(encode_utf8(a) + encode_utf8(b) =~= encode_utf8(a + b));
    }
}

/// One more character adds its own bytes.
pub proof fn lemma_encode_push(a: Seq<char>, c: char)
    ensures
        encode_utf8(a.push(c)) == encode_utf8(a) + encode_scalar(c as u32),
{
    assert(a.push(c) =~= a + seq![c]);
    lemma_encode_add(a, seq![c]);
    assert(seq![c].drop_first() =~= seq![]);
    assert(encode_utf8(seq![c]) =~= encode_scalar(c as u32)) by {
        assert(encode_utf8(Seq::<char>::empty()) =~= seq![]);
        assert(encode_utf8(seq![c]) == encode_scalar(c as u32) + encode_utf8(seq![c].drop_first()));
    }
}

/// The byte at which character `i` of `s` begins.
pub open spec fn byte_offset(s: Seq<char>, i: int) -> nat {
    encode_utf8(s.take(i)).len()
}

/// How many characters of `s` begin before byte `b`: for the position of a
/// character's first byte, that character's index.
pub open spec fn char_index(s: Seq<char>, b: nat) -> nat
    decreases s.len(),
{
    if s.len() == 0 {
        0
    } else if encode_utf8(s.drop_last()).len() < b {
        s.len()
    } else {
        char_index(s.drop_last(), b)
    }
}

/// No more characters begin before a byte than the text has.
pub proof fn lemma_char_index_bound(s: Seq<char>, b: nat)
    ensures
        char_index(s, b) <= s.len(),
    decreases s.len(),
{
    if s.len() > 0 {
        lemma_char_index_bound(s.drop_last(), b);
    }
}

/// The index is where the characters that begin before `b` end.
proof fn lemma_char_index_is(s: Seq<char>, b: nat, i: int)
    requires
        0 <= i <= s.len(),
        i > 0 ==> byte_offset(s, i - 1) < b,
        forall|j: int| i <= j < s.len() ==> #[trigger] byte_offset(s, j) >= b,
    ensures
        char_index(s, b) == i,
    decreases s.len(),
{
    if s.len() > 0 {
        assert(s.drop_last() =~= s.take(s.len() - 1));
        if i < s.len() {
            assert(byte_offset(s, s.len() - 1) >= b);
            let t = s.drop_last();
            assert forall|j: int| 0 <= j <= t.len() implies t.take(j) == #[trigger] s.take(j) by {
                assert(t.take(j) =~= s.take(j));
            }
            assert forall|j: int| i <= j < t.len() implies #[trigger] byte_offset(t, j) >= b by {
                assert(byte_offset(s, j) >= b);
            }
            if i > 0 {
                assert(byte_offset(t, i - 1) == byte_offset(s, i - 1));
            }
            lemma_char_index_is(t, b, i);
        }
    }
}

/// The position of a character's first byte belongs to that character.
pub proof fn law_offsets_lead_back(s: Seq<char>, i: int)
    requires
        0 <= i <= s.len(),
    ensures
        char_index(s, byte_offset(s, i)) == i,
{
    assert forall|j: int| i <= j < s.len() implies #[trigger] byte_offset(s, j) >= byte_offset(
        s,
        i,
    ) by {
        lemma_offsets_ascend(s, i, j);
    }
    if i > 0 {
        lemma_offsets_ascend(s, i - 1, i);
    }
    lemma_char_index_is(s, byte_offset(s, i), i);
}

/// Later characters begin at later bytes.
pub proof fn lemma_offsets_ascend(s: Seq<char>, i: int, j: int)
    requires
        0 <= i <= j <= s.len(),
    ensures
        byte_offset(s, i) <= byte_offset(s, j),
        i < j ==> byte_offset(s, i) < byte_offset(s, j),
    decreases j - i,
{
    if i < j {
        assert(s.take(i + 1) =~= s.take(i).push(s[i]));
        lemma_encode_push(s.take(i), s[i]);
        lemma_offsets_ascend(s, i + 1, j);
    }
}

/// How many bytes `c` takes.
fn utf8_width(c: char) -> (r: usize)
    ensures
        r == encode_scalar(c as u32).len(),
        1 <= r <= 4,
{
    let u: u32 = c as u32;
    if u <= 0x7F {
        1
    } else if u <= 0x7FF {
        2
    } else if u <= 0xFFFF {
        3
    } else {
        4
    }
}

/// The byte at which each character of `cs` begins, and the byte behind the
/// last one.
pub fn byte_offsets(cs: &[char]) -> (r: Vec<usize>)
    requires
        encode_utf8(cs@).len() <= usize::MAX,
    ensures
        r@.len() == cs@.len() + 1,
        forall|i: int| 0 <= i <= cs@.len() ==> #[trigger] r@[i] == byte_offset(cs@, i),
        cs@.len() < usize::MAX,
{
    let mut out: Vec<usize> = Vec::new();
    let mut at: usize = 0;
    let mut i: usize = 0;
    out.push(0);
    assert(encode_utf8(cs@.take(0)).len() == 0);
    while i < cs.len()
        invariant
            encode_utf8(cs@).len() <= usize::MAX,
            i <= cs@.len(),
            at == byte_offset(cs@, i as int),
            out@.len() == i + 1,
            forall|j: int| 0 <= j <= i ==> #[trigger] out@[j] == byte_offset(cs@, j),
        decreases cs@.len() - i,
    {
        proof {
            assert(cs@.take(i + 1) =~= cs@.take(i as int).push(cs@[i as int]));
            lemma_encode_push(cs@.take(i as int), cs@[i as int]);
            lemma_offsets_ascend(cs@, i + 1, cs@.len() as int);
            assert(cs@.take(cs@.len() as int) =~= cs@);
        }
        at = at + utf8_width(cs[i]);
        i = i + 1;
        out.push(at);
    }
    let total: usize = out.len();
    assert(total == cs@.len() + 1);
    out
}

/// The character that byte `b` belongs to, by the table of [`byte_offsets`].
pub fn char_at_byte(cs: &[char], offsets: &Vec<usize>, b: usize) -> (r: usize)
    requires
        offsets@.len() == cs@.len() + 1,
        forall|i: int| 0 <= i <= cs@.len() ==> #[trigger] offsets@[i] == byte_offset(cs@, i),
    ensures
        r == char_index(cs@, b as nat),
        r <= cs@.len(),
{
    let ghost s = cs@;
    let mut lo: usize = 0;
    let mut hi: usize = cs.len();
    while lo < hi
        invariant
            offsets@.len() == s.len() + 1,
            forall|i: int| 0 <= i <= s.len() ==> #[trigger] offsets@[i] == byte_offset(s, i),
            lo <= hi <= s.len(),
            forall|j: int| 0 <= j < lo ==> #[trigger] byte_offset(s, j) < b,
            forall|j: int| hi <= j < s.len() ==> #[trigger] byte_offset(s, j) >= b,
        decreases hi - lo,
    {
        let mid: usize = lo + (hi - lo) / 2;
        let at: usize = offsets[mid];
        if at < b {
            assert forall|j: int| 0 <= j < mid + 1 implies #[trigger] byte_offset(s, j) < b by {
                lemma_offsets_ascend(s, j, mid as int);
            }
            lo = mid + 1;
        } else {
            assert forall|j: int| mid <= j < s.len() implies #[trigger] byte_offset(s, j)
                >= b by {
                lemma_offsets_ascend(s, mid as int, j);
            }
            hi = mid;
        }
    }
    proof {
        lemma_char_index_is(s, b as nat, lo as int);
    }
    lo
}

} // verus!
