//! Text as a sequence of characters: the small vocabulary that the rest of
//! the crate states its contracts in, with the functions that compute it.
use vstd::prelude::*;

verus! {

/// `String::push` appends the given character to the string.
pub assume_specification[ String::push ](s: &mut String, c: char)
    ensures
        final(s)@ == old(s)@.push(c),
;

// ---------------------------------------------------------------------------
// Converting
// ---------------------------------------------------------------------------

/// The characters of `s`. There is always room for one more.
pub fn chars_of(s: &str) -> (r: Vec<char>)
    ensures
        r@ == s@,
        r@.len() < usize::MAX,
{
    let mut out: Vec<char> = Vec::new();
    for c in it: s.chars()
        invariant
            it.seq() == s@,
            out@ == it.seq().take(it.index()),
    {
        out.push(c);
        assert(out@ =~= it.seq().take(it.index() + 1));
    }
    out.push('\0');
    let room: usize = out.len();
    let last = out.pop();
    assert(out@ =~= s@);
    out
}

/// The string made of `cs`.
pub fn string_of(cs: &[char]) -> (r: String)
    ensures
        r@ == cs@,
{
    let mut out = String::new();
    push_chars(&mut out, cs);
    assert(out@ =~= cs@);
    out
}

/// Appends `cs` to `out`.
pub fn push_chars(out: &mut String, cs: &[char])
    ensures
        final(out)@ == old(out)@ + cs@,
{
    let mut i: usize = 0;
    assert(out@ =~= old(out)@ + cs@.take(0));
    while i < cs.len()
        invariant
            i <= cs@.len(),
            out@ == old(out)@ + cs@.take(i as int),
        decreases cs@.len() - i,
    {
        out.push(cs[i]);
        assert(cs@.take(i + 1) =~= cs@.take(i as int).push(cs@[i as int]));
        i = i + 1;
        assert(out@ =~= old(out)@ + cs@.take(i as int));
    }
    assert(cs@.take(i as int) =~= cs@);
}

/// The characters of an optional string.
pub open spec fn text_option(s: Option<String>) -> Option<Seq<char>> {
    match s {
        Some(t) => Some(t@),
        None => None,
    }
}

/// The characters of an optional piece of text.
pub open spec fn text_ref_option(s: Option<&str>) -> Option<Seq<char>> {
    match s {
        Some(t) => Some(t@),
        None => None,
    }
}

/// Whether two strings hold the same characters.
pub fn same_text(a: &str, b: &str) -> (r: bool)
    ensures
        r == (a@ == b@),
{
    same_chars(chars_of(a).as_slice(), chars_of(b).as_slice())
}

/// Whether two slices hold the same characters.
pub fn same_chars(a: &[char], b: &[char]) -> (r: bool)
    ensures
        r == (a@ == b@),
{
    if a.len() != b.len() {
        return false;
    }
    let mut i: usize = 0;
    while i < a.len()
        invariant
            a@.len() == b@.len(),
            i <= a@.len(),
            forall|j: int| 0 <= j < i ==> a@[j] == b@[j],
        decreases a@.len() - i,
    {
        if a[i] != b[i] {
            return false;
        }
        i = i + 1;
    }
    assert(a@ =~= b@);
    true
}

// ---------------------------------------------------------------------------
// White space and trimming
// ---------------------------------------------------------------------------

/// The characters with Unicode's `White_Space` property.
pub open spec fn white_space(c: char) -> bool {
    ||| 0x9 <= c as u32 <= 0xD
    ||| c as u32 == 0x20
    ||| c as u32 == 0x85
    ||| c as u32 == 0xA0
    ||| c as u32 == 0x1680
    ||| 0x2000 <= c as u32 <= 0x200A
    ||| c as u32 == 0x2028
    ||| c as u32 == 0x2029
    ||| c as u32 == 0x202F
    ||| c as u32 == 0x205F
    ||| c as u32 == 0x3000
}

/// Whether `c` has the `White_Space` property.
pub fn is_white_space(c: char) -> (r: bool)
    ensures
        r == white_space(c),
{
    let u: u32 = c as u32;
    (0x9 <= u && u <= 0xD) || u == 0x20 || u == 0x85 || u == 0xA0 || u == 0x1680
        || (0x2000 <= u && u <= 0x200A) || u == 0x2028 || u == 0x2029 || u == 0x202F
        || u == 0x205F || u == 0x3000
}

/// `s` without its leading white space.
pub open spec fn trimmed_start(s: Seq<char>) -> Seq<char>
    decreases s.len(),
{
    if s.len() > 0 && white_space(s[0]) {
        trimmed_start(s.drop_first())
    } else {
        s
    }
}

/// `s` without its trailing white space.
pub open spec fn trimmed_end(s: Seq<char>) -> Seq<char>
    decreases s.len(),
{
    if s.len() > 0 && white_space(s.last()) {
        trimmed_end(s.drop_last())
    } else {
        s
    }
}

/// `s` without its leading and trailing white space.
pub open spec fn trimmed(s: Seq<char>) -> Seq<char> {
    trimmed_end(trimmed_start(s))
}

/// `s` without its leading white space.
pub fn trim_start(s: &[char]) -> (r: &[char])
    ensures
        r@ == trimmed_start(s@),
{
    let n: usize = s.len();
    let mut i: usize = 0;
    assert(s@.skip(0) =~= s@);
    while i < n && is_white_space(s[i])
        invariant
            n == s@.len(),
            i <= n,
            trimmed_start(s@) == trimmed_start(s@.skip(i as int)),
        decreases n - i,
    {
        assert(s@.skip(i as int).drop_first() =~= s@.skip(i + 1));
        i = i + 1;
    }
    let r = &s[i..n];
    assert(r@ =~= s@.skip(i as int));
    r
}

/// `s` without its trailing white space.
pub fn trim_end(s: &[char]) -> (r: &[char])
    ensures
        r@ == trimmed_end(s@),
        r@ == s@.take(r@.len() as int),
        r@.len() <= s@.len(),
{
    let mut n: usize = s.len();
    assert(s@.take(n as int) =~= s@);
    while n > 0 && is_white_space(s[n - 1])
        invariant
            n <= s@.len(),
            trimmed_end(s@) == trimmed_end(s@.take(n as int)),
        decreases n,
    {
        assert(s@.take(n as int).drop_last() =~= s@.take(n - 1));
        n = n - 1;
    }
    let r = &s[0..n];
    assert(r@ =~= s@.take(n as int));
    r
}

/// `s` without its leading and trailing white space.
pub fn trim(s: &[char]) -> (r: &[char])
    ensures
        r@ == trimmed(s@),
{
    trim_end(trim_start(s))
}

/// What is left of leading white space: none.
pub proof fn lemma_trimmed_start(s: Seq<char>)
    ensures
        trimmed_start(s).len() <= s.len(),
        trimmed_start(s) == s.skip(s.len() - trimmed_start(s).len()),
        trimmed_start(s).len() > 0 ==> !white_space(trimmed_start(s)[0]),
    decreases s.len(),
{
    let n = trimmed_start(s).len();
    if s.len() > 0 && white_space(s[0]) {
        let rest = s.drop_first();
        lemma_trimmed_start(rest);
        assert(rest.skip(rest.len() - n) =~= s.skip(s.len() - n));
    } else {
        assert(s.skip(0) =~= s);
    }
}

/// What is left of trailing white space: none.
pub proof fn lemma_trimmed_end(s: Seq<char>)
    ensures
        trimmed_end(s).len() <= s.len(),
        trimmed_end(s) == s.take(trimmed_end(s).len() as int),
        trimmed_end(s).len() > 0 ==> !white_space(trimmed_end(s).last()),
    decreases s.len(),
{
    if s.len() > 0 && white_space(s.last()) {
        lemma_trimmed_end(s.drop_last());
        assert(s.drop_last().take(trimmed_end(s).len() as int) =~= s.take(
            trimmed_end(s).len() as int,
        ));
    } else {
        assert(s.take(s.len() as int) =~= s);
    }
}

/// Trimmed text has nothing left to trim.
pub proof fn lemma_trimmed_twice(s: Seq<char>)
    ensures
        trimmed(trimmed(s)) == trimmed(s),
{
    let x = trimmed_start(s);
    lemma_trimmed_start(s);
    lemma_trimmed_end(x);
}

// ---------------------------------------------------------------------------
// Searching
// ---------------------------------------------------------------------------

/// Whether `s` starts with `prefix`.
pub fn has_prefix(s: &[char], prefix: &[char]) -> (r: bool)
    ensures
        r == prefix@.is_prefix_of(s@),
{
    if prefix.len() > s.len() {
        return false;
    }
    let mut i: usize = 0;
    while i < prefix.len()
        invariant
            prefix@.len() <= s@.len(),
            i <= prefix@.len(),
            forall|j: int| 0 <= j < i ==> s@[j] == prefix@[j],
        decreases prefix@.len() - i,
    {
        if s[i] != prefix[i] {
            assert(s@.subrange(0, prefix@.len() as int)[i as int] != prefix@[i as int]);
            return false;
        }
        i = i + 1;
    }
    assert(prefix@ =~= s@.subrange(0, prefix@.len() as int));
    true
}

/// Whether `s` starts with the text of `prefix`.
pub fn has_prefix_str(s: &[char], prefix: &str) -> (r: bool)
    ensures
        r == prefix@.is_prefix_of(s@),
{
    has_prefix(s, chars_of(prefix).as_slice())
}

/// The position of the first occurrence of `pat` in `s`.
pub open spec fn find(s: Seq<char>, pat: Seq<char>) -> Option<int>
    decreases s.len(),
{
    if pat.is_prefix_of(s) {
        Some(0)
    } else if s.len() == 0 {
        None
    } else {
        match find(s.drop_first(), pat) {
            Some(i) => Some(i + 1),
            None => None,
        }
    }
}

/// What [`find`] tells of the position that it returns.
pub proof fn lemma_find(s: Seq<char>, pat: Seq<char>)
    ensures
        find(s, pat) matches Some(i) ==> 0 <= i && i + pat.len() <= s.len() && pat.is_prefix_of(
            s.skip(i),
        ),
        find(s, pat) matches Some(i) ==> forall|j: int|
            0 <= j < i ==> !pat.is_prefix_of(#[trigger] s.skip(j)),
        find(s, pat) is None ==> forall|j: int|
            0 <= j <= s.len() ==> !pat.is_prefix_of(#[trigger] s.skip(j)),
    decreases s.len(),
{
    assert(s.skip(0) =~= s);
    if !pat.is_prefix_of(s) && s.len() > 0 {
        lemma_find(s.drop_first(), pat);
        assert forall|j: int| 1 <= j <= s.len() implies s.drop_first().skip(j - 1) == (
        #[trigger] s.skip(j)) by {
            assert(s.drop_first().skip(j - 1) =~= s.skip(j));
        }
        if let Some(i) = find(s.drop_first(), pat) {
            assert(s.drop_first().skip(i) =~= s.skip(i + 1));
        }
    }
}

/// The position of the first occurrence of `pat` in `s`.
pub fn find_chars(s: &[char], pat: &[char]) -> (r: Option<usize>)
    ensures
        match r {
            Some(i) => find(s@, pat@) == Some(i as int) && i + pat@.len() <= s@.len(),
            None => find(s@, pat@) is None,
        },
{
    let n: usize = s.len();
    let mut i: usize = 0;
    assert(s@.skip(0) =~= s@);
    loop
        invariant
            n == s@.len(),
            i <= n,
            find(s@, pat@) == (match find(s@.skip(i as int), pat@) {
                Some(k) => Some(k + i),
                None => None::<int>,
            }),
        decreases n - i,
    {
        let rest = &s[i..n];
        assert(rest@ =~= s@.skip(i as int));
        if has_prefix(rest, pat) {
            proof {
                lemma_find(s@, pat@);
            }
            return Some(i);
        }
        if i == n {
            return None;
        }
        assert(s@.skip(i as int).drop_first() =~= s@.skip(i + 1));
        i = i + 1;
    }
}

/// The position of the first `c` in `s`.
pub open spec fn find_char(s: Seq<char>, c: char) -> Option<int>
    decreases s.len(),
{
    if s.len() == 0 {
        None
    } else if s[0] == c {
        Some(0)
    } else {
        match find_char(s.drop_first(), c) {
            Some(i) => Some(i + 1),
            None => None,
        }
    }
}

/// What [`find_char`] tells of the position that it returns.
pub proof fn lemma_find_char(s: Seq<char>, c: char)
    ensures
        find_char(s, c) matches Some(i) ==> 0 <= i < s.len() && s[i] == c && forall|j: int|
            0 <= j < i ==> s[j] != c,
        find_char(s, c) is None ==> !s.contains(c),
    decreases s.len(),
{
    if s.len() > 0 && s[0] != c {
        lemma_find_char(s.drop_first(), c);
        if find_char(s, c) is None {
            assert forall|j: int| 0 <= j < s.len() implies s[j] != c by {
                if j > 0 {
                    assert(s.drop_first()[j - 1] == s[j]);
                }
            }
        } else {
            let i = find_char(s.drop_first(), c)->Some_0;
            assert forall|j: int| 0 <= j < i + 1 implies s[j] != c by {
                if j > 0 {
                    assert(s.drop_first()[j - 1] == s[j]);
                }
            }
        }
    }
}

/// The position of the first `c` in `s`.
pub fn find_char_in(s: &[char], c: char) -> (r: Option<usize>)
    ensures
        match r {
            Some(i) => find_char(s@, c) == Some(i as int) && i < s@.len() && s@[i as int] == c,
            None => find_char(s@, c) is None,
        },
{
    let n: usize = s.len();
    let mut i: usize = 0;
    assert(s@.skip(0) =~= s@);
    while i < n
        invariant
            n == s@.len(),
            i <= n,
            find_char(s@, c) == (match find_char(s@.skip(i as int), c) {
                Some(k) => Some(k + i),
                None => None::<int>,
            }),
        decreases n - i,
    {
        if s[i] == c {
            return Some(i);
        }
        assert(s@.skip(i as int).drop_first() =~= s@.skip(i + 1));
        i = i + 1;
    }
    None
}

/// `s` cut at every `sep`. There is one more piece than there are separators.
pub open spec fn split(s: Seq<char>, sep: char) -> Seq<Seq<char>>
    decreases s.len(),
    via split_decreases
{
    match find_char(s, sep) {
        None => seq![s],
        Some(i) => seq![s.take(i)] + split(s.skip(i + 1), sep),
    }
}

#[via_fn]
proof fn split_decreases(s: Seq<char>, sep: char) {
    lemma_find_char(s, sep);
}

/// The values of a list of slices.
pub open spec fn slice_views(slices: Seq<&[char]>) -> Seq<Seq<char>> {
    slices.map_values(|p: &[char]| p@)
}

/// `s` cut at every `sep`.
pub fn split_chars<'a>(s: &'a [char], sep: char) -> (r: Vec<&'a [char]>)
    ensures
        slice_views(r@) == split(s@, sep),
        r@.len() > 0,
{
    let mut out: Vec<&'a [char]> = Vec::new();
    let mut rest = s;
    assert(slice_views(out@) + split(s@, sep) =~= split(s@, sep));
    loop
        invariant
            slice_views(out@) + split(rest@, sep) == split(s@, sep),
        decreases rest@.len(),
    {
        let n: usize = rest.len();
        let ghost before = slice_views(out@);
        match find_char_in(rest, sep) {
            None => {
                out.push(rest);
                assert(slice_views(out@) =~= before + seq![rest@]);
                return out;
            },
            Some(i) => {
                let piece = &rest[0..i];
                let next = &rest[i + 1..n];
                assert(piece@ =~= rest@.take(i as int));
                assert(next@ =~= rest@.skip(i + 1));
                out.push(piece);
                assert(slice_views(out@) =~= before + seq![piece@]);
                assert(slice_views(out@) + split(next@, sep) =~= before + (seq![piece@] + split(
                    next@,
                    sep,
                )));
                rest = next;
            },
        }
    }
}

/// The position of the last `c` in `s`.
pub open spec fn find_last_char(s: Seq<char>, c: char) -> Option<int>
    decreases s.len(),
{
    if s.len() == 0 {
        None
    } else if s.last() == c {
        Some(s.len() - 1)
    } else {
        find_last_char(s.drop_last(), c)
    }
}

/// The position of the last `c` in `s`.
pub fn find_last_char_in(s: &[char], c: char) -> (r: Option<usize>)
    ensures
        match r {
            Some(i) => find_last_char(s@, c) == Some(i as int) && i < s@.len() && s@[i as int] == c,
            None => find_last_char(s@, c) is None,
        },
{
    let mut n: usize = s.len();
    assert(s@.take(n as int) =~= s@);
    while n > 0
        invariant
            n <= s@.len(),
            find_last_char(s@, c) == find_last_char(s@.take(n as int), c),
        decreases n,
    {
        if s[n - 1] == c {
            return Some(n - 1);
        }
        assert(s@.take(n as int).drop_last() =~= s@.take(n - 1));
        n = n - 1;
    }
    None
}

// ---------------------------------------------------------------------------
// Lines
// ---------------------------------------------------------------------------

/// `s` without one carriage return at its end.
pub open spec fn without_cr(s: Seq<char>) -> Seq<char> {
    if s.len() > 0 && s.last() == '\r' {
        s.drop_last()
    } else {
        s
    }
}

/// The lines of `s`: a line ends at `\n` or `\r\n`, which do not belong to it,
/// and the last line need not end in either.
pub open spec fn lines(s: Seq<char>) -> Seq<Seq<char>>
    decreases s.len(),
    via lines_decreases
{
    if s.len() == 0 {
        seq![]
    } else {
        match find_char(s, '\n') {
            None => seq![s],
            Some(i) => seq![without_cr(s.take(i))] + lines(s.skip(i + 1)),
        }
    }
}

#[via_fn]
proof fn lines_decreases(s: Seq<char>) {
    lemma_find_char(s, '\n');
}

/// Line number `n` of `s`, counted from zero, or the empty text past the end.
pub open spec fn line_at(s: Seq<char>, n: int) -> Seq<char> {
    if 0 <= n < lines(s).len() {
        lines(s)[n]
    } else {
        seq![]
    }
}

/// The first line of `s` and what follows its line ending.
pub fn split_line(s: &[char]) -> (r: (&[char], &[char]))
    ensures
        r.0@ == line_at(s@, 0),
        s@.len() > 0 ==> lines(s@) == seq![r.0@] + lines(r.1@),
        s@.len() > 0 ==> r.1@.len() < s@.len(),
        s@.len() == 0 ==> r.1@.len() == 0,
{
    let n: usize = s.len();
    match find_char_in(s, '\n') {
        None => {
            let rest = &s[n..n];
            assert(rest@ =~= seq![]);
            assert(lines(rest@) =~= seq![]);
            if n > 0 {
                assert(lines(s@) =~= seq![s@] + lines(rest@));
            } else {
                assert(s@ =~= seq![]);
            }
            (s, rest)
        },
        Some(i) => {
            let rest = &s[i + 1..n];
            assert(rest@ =~= s@.skip(i + 1));
            let end: usize = if i > 0 && s[i - 1] == '\r' {
                i - 1
            } else {
                i
            };
            let line = &s[0..end];
            assert(line@ =~= without_cr(s@.take(i as int)));
            (line, rest)
        },
    }
}

/// The first line of `s`.
pub fn first_line(s: &[char]) -> (r: &[char])
    ensures
        r@ == line_at(s@, 0),
{
    split_line(s).0
}

/// The second line of `s`.
pub fn second_line(s: &[char]) -> (r: &[char])
    ensures
        r@ == line_at(s@, 1),
{
    let (first, rest) = split_line(s);
    if s.len() == 0 {
        assert(lines(s@) =~= seq![]);
        assert(lines(rest@) =~= seq![]);
    } else {
        assert(forall|i: int| 1 <= i < lines(s@).len() ==> lines(s@)[i] == lines(rest@)[i - 1]);
    }
    split_line(rest).0
}

/// How many `\n` the text `s` holds.
pub open spec fn newlines(s: Seq<char>) -> nat
    decreases s.len(),
{
    if s.len() == 0 {
        0
    } else {
        newlines(s.drop_last()) + if s.last() == '\n' {
            1nat
        } else {
            0nat
        }
    }
}

/// How many `\n` stand in the first `end` characters of `s`.
pub fn count_newlines(s: &[char], end: usize) -> (r: usize)
    requires
        end <= s@.len(),
    ensures
        r == newlines(s@.take(end as int)),
        r <= end,
{
    let mut count: usize = 0;
    let mut i: usize = 0;
    assert(newlines(s@.take(0)) == 0);
    while i < end
        invariant
            i <= end <= s@.len(),
            count == newlines(s@.take(i as int)),
            count <= i,
        decreases end - i,
    {
        assert(s@.take(i + 1).drop_last() =~= s@.take(i as int));
        if s[i] == '\n' {
            count = count + 1;
        }
        i = i + 1;
    }
    count
}

// ---------------------------------------------------------------------------
// Cutting and joining
// ---------------------------------------------------------------------------

/// The first `n` characters of `s`, or all of it where it is shorter.
pub open spec fn truncated(s: Seq<char>, n: int) -> Seq<char> {
    if s.len() <= n {
        s
    } else {
        s.take(n)
    }
}

/// The first `n` characters of `s`, or all of it where it is shorter.
pub fn truncate(s: &[char], n: usize) -> (r: &[char])
    ensures
        r@ == truncated(s@, n as int),
{
    if s.len() <= n {
        s
    } else {
        let r = &s[0..n];
        assert(r@ =~= s@.take(n as int));
        r
    }
}

/// The characters of `s` from `a` up to `b`; nothing where that is no range.
pub open spec fn span(s: Seq<char>, a: int, b: int) -> Seq<char> {
    if 0 <= a <= b <= s.len() {
        s.subrange(a, b)
    } else {
        seq![]
    }
}

/// The characters of `s` from `a` up to `b`; nothing where that is no range.
pub fn slice(s: &[char], a: usize, b: usize) -> (r: &[char])
    ensures
        r@ == span(s@, a as int, b as int),
{
    if a <= b && b <= s.len() {
        &s[a..b]
    } else {
        let r = &s[0..0];
        assert(r@ =~= seq![]);
        r
    }
}

/// The texts of `parts` with `sep` between each two of them.
pub open spec fn joined(parts: Seq<Seq<char>>, sep: Seq<char>) -> Seq<char>
    decreases parts.len(),
{
    if parts.len() == 0 {
        seq![]
    } else if parts.len() == 1 {
        parts[0]
    } else {
        joined(parts.drop_last(), sep) + sep + parts.last()
    }
}

/// Appends to `acc`, which holds the first parts, the next one.
pub open spec fn join_next(acc: Seq<char>, first: bool, sep: Seq<char>, part: Seq<char>) -> Seq<
    char,
> {
    if first {
        part
    } else {
        acc + sep + part
    }
}

/// [`joined`] grows by one part at a time.
pub proof fn lemma_joined_push(parts: Seq<Seq<char>>, sep: Seq<char>, part: Seq<char>)
    ensures
        joined(parts.push(part), sep) == join_next(
            joined(parts, sep),
            parts.len() == 0,
            sep,
            part,
        ),
{
    assert(parts.push(part).drop_last() =~= parts);
}

// ---------------------------------------------------------------------------
// Numbers
// ---------------------------------------------------------------------------

/// The decimal digit `d`.
pub open spec fn digit(d: nat) -> char {
    if d == 0 {
        '0'
    } else if d == 1 {
        '1'
    } else if d == 2 {
        '2'
    } else if d == 3 {
        '3'
    } else if d == 4 {
        '4'
    } else if d == 5 {
        '5'
    } else if d == 6 {
        '6'
    } else if d == 7 {
        '7'
    } else if d == 8 {
        '8'
    } else {
        '9'
    }
}

/// `n` in decimal, without leading zeros.
pub open spec fn decimal(n: nat) -> Seq<char>
    decreases n,
{
    if n < 10 {
        seq![digit(n)]
    } else {
        decimal(n / 10).push(digit(n % 10))
    }
}

/// The decimal digit `d`.
fn digit_char(d: u128) -> (r: char)
    requires
        d < 10,
    ensures
        r == digit(d as nat),
{
    if d == 0 {
        '0'
    } else if d == 1 {
        '1'
    } else if d == 2 {
        '2'
    } else if d == 3 {
        '3'
    } else if d == 4 {
        '4'
    } else if d == 5 {
        '5'
    } else if d == 6 {
        '6'
    } else if d == 7 {
        '7'
    } else if d == 8 {
        '8'
    } else {
        '9'
    }
}

/// Appends `n` in decimal to `out`.
pub fn push_decimal(out: &mut String, n: u128)
    ensures
        final(out)@ == old(out)@ + decimal(n as nat),
    decreases n,
{
    if n >= 10 {
        push_decimal(out, n / 10);
        out.push(digit_char(n % 10));
        assert(out@ =~= old(out)@ + decimal(n as nat));
    } else {
        out.push(digit_char(n));
        assert(out@ =~= old(out)@ + decimal(n as nat));
    }
}

// ---------------------------------------------------------------------------
// ASCII case
// ---------------------------------------------------------------------------

/// `c` in lower case where it is an ASCII letter.
pub open spec fn ascii_lower_char(c: char) -> char {
    if 'A' <= c && c <= 'Z' {
        ((c as u8) + 32) as u8 as char
    } else {
        c
    }
}

/// `s` with its ASCII letters in lower case.
pub open spec fn ascii_lower(s: Seq<char>) -> Seq<char> {
    s.map_values(|c: char| ascii_lower_char(c))
}

/// `c` in lower case where it is an ASCII letter.
pub fn lower_char(c: char) -> (r: char)
    ensures
        r == ascii_lower_char(c),
{
    if 'A' <= c && c <= 'Z' {
        let b: u8 = c as u8;
        (b + 32) as char
    } else {
        c
    }
}

/// `s` with its ASCII letters in lower case.
pub fn lower_chars(s: &[char]) -> (r: Vec<char>)
    ensures
        r@ == ascii_lower(s@),
{
    let mut out: Vec<char> = Vec::new();
    let mut i: usize = 0;
    while i < s.len()
        invariant
            i <= s@.len(),
            out@ == ascii_lower(s@.take(i as int)),
        decreases s@.len() - i,
    {
        out.push(lower_char(s[i]));
        i = i + 1;
        assert(out@ =~= ascii_lower(s@.take(i as int)));
    }
    assert(s@.take(i as int) =~= s@);
    out
}

// ---------------------------------------------------------------------------
// HTML escaping
// ---------------------------------------------------------------------------

/// What stands for `c` in HTML text and in quoted attribute values.
pub open spec fn html_escape_char(c: char) -> Seq<char> {
    if c == '&' {
        "&amp;"@
    } else if c == '<' {
        "&lt;"@
    } else if c == '>' {
        "&gt;"@
    } else if c == '"' {
        "&quot;"@
    } else if c == '\'' {
        "&#39;"@
    } else {
        seq![c]
    }
}

/// `s` as HTML text.
pub open spec fn html_escaped(s: Seq<char>) -> Seq<char>
    decreases s.len(),
{
    if s.len() == 0 {
        seq![]
    } else {
        html_escaped(s.drop_last()) + html_escape_char(s.last())
    }
}

/// Appends `s` as HTML text to `out`.
pub fn push_html_escaped(out: &mut String, s: &[char])
    ensures
        final(out)@ == old(out)@ + html_escaped(s@),
{
    let mut i: usize = 0;
    assert(out@ =~= old(out)@ + html_escaped(s@.take(0)));
    while i < s.len()
        invariant
            i <= s@.len(),
            out@ == old(out)@ + html_escaped(s@.take(i as int)),
        decreases s@.len() - i,
    {
        let c: char = s[i];
        assert(s@.take(i + 1).drop_last() =~= s@.take(i as int));
        if c == '&' {
            out.append("&amp;");
        } else if c == '<' {
            out.append("&lt;");
        } else if c == '>' {
            out.append("&gt;");
        } else if c == '"' {
            out.append("&quot;");
        } else if c == '\'' {
            out.append("&#39;");
        } else {
            out.push(c);
        }
        i = i + 1;
        assert(out@ =~= old(out)@ + html_escaped(s@.take(i as int)));
    }
    assert(s@.take(i as int) =~= s@);
}

/// Escaped text holds no character that could open or close markup or end an
/// attribute value.
pub proof fn law_escaped_text_is_inert(s: Seq<char>)
    ensures
        forall|i: int|
            0 <= i < html_escaped(s).len() ==> {
                let c = #[trigger] html_escaped(s)[i];
                c != '<' && c != '>' && c != '"' && c != '\''
            },
    decreases s.len(),
{
    reveal_strlit("&amp;");
    reveal_strlit("&lt;");
    reveal_strlit("&gt;");
    reveal_strlit("&quot;");
    reveal_strlit("&#39;");
    if s.len() > 0 {
        law_escaped_text_is_inert(s.drop_last());
        let a = html_escaped(s.drop_last());
        let b = html_escape_char(s.last());
        assert(html_escaped(s) == a + b);
        assert forall|i: int| 0 <= i < html_escaped(s).len() implies {
            let c = #[trigger] html_escaped(s)[i];
            c != '<' && c != '>' && c != '"' && c != '\''
        } by {
            if i < a.len() {
                assert((a + b)[i] == a[i]);
            } else {
                assert((a + b)[i] == b[i - a.len()]);
            }
        }
    }
}

/// Of the characters of ASCII, white space is the space, the tab, the line feed, the
/// vertical tab, the form feed and the carriage return.
pub proof fn law_ascii_white_space(c: char)
    requires
        c as u32 <= 0x7F,
    ensures
        white_space(c) <==> c == ' ' || c == '\t' || c == '\n' || c == '\r' || c as u32 == 0xB
            || c as u32 == 0xC,
{
}

/// Whether `t` is what is left of `s` without white space at its ends: a part of
/// `s` that neither begins nor ends in white space, with nothing but white space
/// round it.
pub open spec fn is_core(s: Seq<char>, t: Seq<char>, a: int, b: int) -> bool {
    &&& 0 <= a <= b <= s.len()
    &&& t == s.subrange(a, b)
    &&& forall|i: int| 0 <= i < a || b <= i < s.len() ==> white_space(#[trigger] s[i])
    &&& a < b ==> !white_space(s[a]) && !white_space(s[b - 1])
}

/// What is taken off the front is white space.
proof fn lemma_front_is_white(s: Seq<char>)
    ensures
        forall|i: int|
            0 <= i < s.len() - trimmed_start(s).len() ==> white_space(#[trigger] s[i]),
    decreases s.len(),
{
    if s.len() > 0 && white_space(s[0]) {
        let rest = s.drop_first();
        lemma_front_is_white(rest);
        assert forall|i: int| 0 <= i < s.len() - trimmed_start(s).len() implies white_space(
            #[trigger] s[i],
        ) by {
            if i > 0 {
                assert(s[i] == rest[i - 1]);
            }
        }
    }
}

/// What is taken off the end is white space.
proof fn lemma_end_is_white(s: Seq<char>)
    ensures
        forall|i: int| trimmed_end(s).len() <= i < s.len() ==> white_space(#[trigger] s[i]),
    decreases s.len(),
{
    if s.len() > 0 && white_space(s.last()) {
        let front = s.drop_last();
        lemma_end_is_white(front);
        assert forall|i: int| trimmed_end(s).len() <= i < s.len() implies white_space(
            #[trigger] s[i],
        ) by {
            if i < s.len() - 1 {
                assert(s[i] == front[i]);
            }
        }
    }
}

/// Trimming takes off the white space at the ends and nothing else. Where one end
/// alone is trimmed, the other stays.
pub proof fn law_trimming_takes_white_space_only(s: Seq<char>)
    ensures
        is_core(
            s,
            trimmed(s),
            s.len() - trimmed_start(s).len(),
            s.len() - trimmed_start(s).len() + trimmed(s).len(),
        ) || (trimmed(s).len() == 0 && forall|i: int|
            0 <= i < s.len() ==> white_space(#[trigger] s[i])),
        trimmed_start(s).len() <= s.len(),
        trimmed_end(s).len() <= s.len(),
        trimmed_start(s) == s.skip(s.len() - trimmed_start(s).len()),
        forall|i: int|
            0 <= i < s.len() - trimmed_start(s).len() ==> white_space(#[trigger] s[i]),
        trimmed_start(s).len() > 0 ==> !white_space(trimmed_start(s)[0]),
        trimmed_end(s) == s.take(trimmed_end(s).len() as int),
        forall|i: int| trimmed_end(s).len() <= i < s.len() ==> white_space(#[trigger] s[i]),
        trimmed_end(s).len() > 0 ==> !white_space(trimmed_end(s).last()),
{
    let x = trimmed_start(s);
    let t = trimmed(s);
    let a = s.len() - x.len();
    let b = a + t.len();
    lemma_trimmed_start(s);
    lemma_trimmed_end(x);
    lemma_trimmed_end(s);
    lemma_front_is_white(s);
    lemma_end_is_white(x);
    lemma_end_is_white(s);
    assert(t =~= s.subrange(a, b));
    assert forall|i: int| 0 <= i < a || b <= i < s.len() implies white_space(#[trigger] s[i]) by {
        if b <= i < s.len() {
            assert(s[i] == x[i - a]);
        }
    }
    if t.len() > 0 {
        assert(t[0] == x[0]);
        assert(t.last() == s[b - 1]);
    }
}

/// What is trimmed is what a caller finds who knows where the white space ends.
pub proof fn law_the_core_is_what_is_trimmed(s: Seq<char>, a: int, b: int)
    requires
        is_core(s, s.subrange(a, b), a, b),
        a < b,
    ensures
        trimmed(s) == s.subrange(a, b),
{
    law_trimming_takes_white_space_only(s);
    let a2 = s.len() - trimmed_start(s).len();
    let b2 = a2 + trimmed(s).len();
    assert(!white_space(s[a]));
    assert(a2 <= a);
    if a2 < a {
        assert(trimmed_start(s)[0] == s[a2]);
    }
    assert(a2 == a);
    if b2 < b {
        assert(white_space(s[b - 1]));
    } else if b < b2 {
        assert(white_space(s[b2 - 1]));
    }
}

/// The lines of a text are put behind those of what stands before it.
proof fn lemma_lines_add(a: Seq<char>, b: Seq<char>)
    ensures
        lines(a.push('\n') + b) == lines(a.push('\n')) + lines(b),
    decreases a.len(),
{
    let whole = a.push('\n') + b;
    let front = a.push('\n');
    lemma_find_char(whole, '\n');
    lemma_find_char(front, '\n');
    assert(whole[a.len() as int] == '\n' && front[a.len() as int] == '\n');
    assert(whole.contains('\n') && front.contains('\n'));
    let i = find_char(front, '\n')->Some_0;
    let k = find_char(whole, '\n')->Some_0;
    assert(i == k) by {
        if i < k {
            assert(whole[i] == front[i]);
        } else if k < i {
            assert(front[k] == whole[k]);
        }
    }
    assert(whole.take(i) =~= front.take(i));
    if i == a.len() {
        assert(whole.skip(i + 1) =~= b);
        assert(front.skip(i + 1) =~= seq![]);
        assert(lines(front.skip(i + 1)) =~= seq![]);
        assert(lines(whole) =~= lines(front) + lines(b));
    } else {
        let rest = a.skip(i + 1);
        assert(front.skip(i + 1) =~= rest.push('\n'));
        assert(whole.skip(i + 1) =~= rest.push('\n') + b);
        lemma_lines_add(rest, b);
        assert(lines(whole) =~= lines(front) + lines(b));
    }
}

/// A text without carriage returns is its lines, each with a line feed behind it.
/// Only the last one need not have that.
pub proof fn law_lines_make_up_the_text(s: Seq<char>)
    requires
        !s.contains('\r'),
    ensures
        lines(s).map_values(|l: Seq<char>| l.push('\n')).flatten() == if s.len() == 0 || s.last()
            == '\n' {
            s
        } else {
            s.push('\n')
        },
        forall|i: int| 0 <= i < lines(s).len() ==> !(#[trigger] lines(s)[i]).contains('\n'),
    decreases s.len(),
{
    let with = |l: Seq<char>| l.push('\n');
    let all = lines(s);
    if s.len() == 0 {
        assert(all.map_values(with) =~= seq![]);
        assert(all.map_values(with).flatten() =~= s);
    } else {
        lemma_find_char(s, '\n');
        match find_char(s, '\n') {
            None => {
                assert(all =~= seq![s]);
                assert(all.map_values(with) =~= seq![s.push('\n')]);
                all.map_values(with).lemma_flatten_one_element();
                assert(!(s.last() == '\n')) by {
                    if s.last() == '\n' {
                        assert(s.contains(s[s.len() - 1]));
                    }
                }
            },
            Some(i) => {
                let first = s.take(i);
                let rest = s.skip(i + 1);
                assert(without_cr(first) == first) by {
                    if first.len() > 0 && first.last() == '\r' {
                        assert(s[i - 1] == '\r');
                    }
                }
                assert(!rest.contains('\r')) by {
                    if rest.contains('\r') {
                        let k = rest.index_of('\r');
                        assert(s[i + 1 + k] == '\r');
                    }
                }
                law_lines_make_up_the_text(rest);
                let tail = lines(rest);
                assert(all == seq![first] + tail);
                assert(all.map_values(with) =~= seq![first.push('\n')] + tail.map_values(with));
                let parts = all.map_values(with);
                assert(parts.first() == first.push('\n'));
                assert(parts.drop_first() =~= tail.map_values(with));
                assert(first.push('\n') + rest =~= s);
                if rest.len() == 0 {
                    assert(s.last() == '\n');
                    assert(parts.flatten() =~= s);
                } else {
                    assert(s.last() == rest.last());
                    if rest.last() == '\n' {
                        assert(parts.flatten() =~= s);
                    } else {
                        assert(first.push('\n') + rest.push('\n') =~= s.push('\n'));
                        assert(parts.flatten() =~= s.push('\n'));
                    }
                }
                assert forall|n: int| 0 <= n < all.len() implies !(#[trigger] all[n]).contains(
                    '\n',
                ) by {
                    if n == 0 {
                        assert(all[0] == first);
                        if first.contains('\n') {
                            let k = first.index_of('\n');
                            assert(s[k] == '\n');
                        }
                    } else {
                        assert(all[n] == tail[n - 1]);
                    }
                }
            },
        }
    }
}

/// A carriage return before a line feed counts for nothing.
pub proof fn law_crlf_ends_a_line_too(a: Seq<char>, b: Seq<char>)
    requires
        a.len() == 0 || a.last() != '\r',
    ensures
        lines(a + seq!['\r', '\n'] + b) == lines(a + seq!['\n'] + b),
    decreases a.len(),
{
    let long = a.push('\r');
    assert(a + seq!['\r', '\n'] + b =~= long.push('\n') + b);
    assert(a + seq!['\n'] + b =~= a.push('\n') + b);
    lemma_lines_add(long, b);
    lemma_lines_add(a, b);
    let x = long.push('\n');
    let y = a.push('\n');
    lemma_find_char(x, '\n');
    lemma_find_char(y, '\n');
    assert(x[long.len() as int] == '\n' && y[a.len() as int] == '\n');
    assert(x.contains('\n') && y.contains('\n'));
    let i = find_char(y, '\n')->Some_0;
    let k = find_char(x, '\n')->Some_0;
    if i == a.len() {
        assert(k == long.len()) by {
            if k < a.len() {
                assert(y[k] == x[k]);
            }
        }
        assert(x.take(k) =~= long);
        assert(y.take(i) =~= a);
        assert(x.skip(k + 1) =~= seq![]);
        assert(y.skip(i + 1) =~= seq![]);
        assert(without_cr(long) =~= a);
        assert(lines(x) =~= lines(y));
    } else {
        assert(k == i) by {
            assert(x[i] == y[i]);
            if k < i {
                assert(y[k] == x[k]);
            }
        }
        let rest = a.skip(i + 1);
        assert(x.take(k) =~= y.take(i));
        assert(x.skip(k + 1) =~= rest.push('\r').push('\n'));
        assert(y.skip(i + 1) =~= rest.push('\n'));
        if rest.len() > 0 {
            assert(rest.last() == a.last());
        }
        let none = Seq::<char>::empty();
        law_crlf_ends_a_line_too(rest, none);
        assert(rest + seq!['\r', '\n'] + none =~= rest.push('\r').push('\n'));
        assert(rest + seq!['\n'] + none =~= rest.push('\n'));
        assert(lines(x) =~= lines(y));
    }
}

/// A text is its pieces, with a separator between each two.
pub proof fn law_pieces_make_up_the_text(s: Seq<char>, sep: char)
    ensures
        split(s, sep).map_values(|p: Seq<char>| p.push(sep)).flatten() == s.push(sep),
        forall|i: int| 0 <= i < split(s, sep).len() ==> !(#[trigger] split(s, sep)[i]).contains(sep),
    decreases s.len(),
{
    let with = |p: Seq<char>| p.push(sep);
    let all = split(s, sep);
    lemma_find_char(s, sep);
    match find_char(s, sep) {
        None => {
            assert(all =~= seq![s]);
            assert(all.map_values(with) =~= seq![s.push(sep)]);
            all.map_values(with).lemma_flatten_one_element();
        },
        Some(i) => {
            let first = s.take(i);
            let rest = s.skip(i + 1);
            law_pieces_make_up_the_text(rest, sep);
            let tail = split(rest, sep);
            assert(all == seq![first] + tail);
            let parts = all.map_values(with);
            assert(parts =~= seq![first.push(sep)] + tail.map_values(with));
            assert(parts.first() == first.push(sep));
            assert(parts.drop_first() =~= tail.map_values(with));
            assert(first.push(sep) + rest.push(sep) =~= s.push(sep));
            assert forall|n: int| 0 <= n < all.len() implies !(#[trigger] all[n]).contains(sep) by {
                if n == 0 {
                    assert(all[0] == first);
                    if first.contains(sep) {
                        let k = first.index_of(sep);
                        assert(s[k] == sep);
                    }
                } else {
                    assert(all[n] == tail[n - 1]);
                }
            }
        },
    }
}

/// Joined texts are the texts with a separator between each two.
pub proof fn law_joined_texts_are_whole(parts: Seq<Seq<char>>, sep: Seq<char>)
    ensures
        parts.len() == 0 ==> joined(parts, sep) == Seq::<char>::empty(),
        parts.len() > 0 ==> joined(parts, sep) + sep == parts.map_values(
            |p: Seq<char>| p + sep,
        ).flatten(),
    decreases parts.len(),
{
    let with = |p: Seq<char>| p + sep;
    if parts.len() > 0 {
        let front = parts.drop_last();
        let last = parts.last();
        law_joined_texts_are_whole(front, sep);
        assert(parts.map_values(with) =~= front.map_values(with).push(last + sep));
        front.map_values(with).lemma_flatten_push(last + sep);
        if front.len() == 0 {
            assert(front.map_values(with) =~= seq![]);
            assert(parts[0] == last);
            assert(parts.map_values(with).flatten() =~= last + sep);
        } else {
            assert(joined(parts, sep) + sep =~= (joined(front, sep) + sep) + (last + sep));
        }
    }
}

/// The number that decimal digits stand for.
pub open spec fn number_of(digits: Seq<char>) -> nat
    decreases digits.len(),
{
    if digits.len() == 0 {
        0
    } else {
        (number_of(digits.drop_last()) * 10 + (digits.last() as u32 - 0x30)) as nat
    }
}

/// A number in decimal is made of digits, does not begin with a zero unless it is
/// zero, and stands for the number.
pub proof fn law_decimal_is_read_back(n: nat)
    ensures
        number_of(decimal(n)) == n,
        decimal(n).len() > 0,
        decimal(n)[0] == '0' ==> n == 0,
        forall|i: int| 0 <= i < decimal(n).len() ==> '0' <= #[trigger] decimal(n)[i] && decimal(n)[i]
            <= '9',
    decreases n,
{
    if n < 10 {
        assert(seq![digit(n)].drop_last() =~= seq![]);
        assert(number_of(Seq::<char>::empty()) == 0);
    } else {
        law_decimal_is_read_back(n / 10);
        let front = decimal(n / 10);
        let all = decimal(n);
        assert(all == front.push(digit(n % 10)));
        assert(all.drop_last() =~= front);
        assert(all.last() == digit(n % 10));
        assert(all[0] == front[0]);
        assert forall|i: int| 0 <= i < all.len() implies '0' <= #[trigger] all[i] && all[i] <= '9' by {
            if i < front.len() {
                assert(all[i] == front[i]);
            }
        }
    }
}

/// Lower case changes the letters from `A` to `Z`, each to its own, and nothing
/// else.
pub proof fn law_lower_case_changes_capitals_only(s: Seq<char>)
    ensures
        ascii_lower(s).len() == s.len(),
        forall|i: int|
            0 <= i < s.len() ==> (#[trigger] ascii_lower(s)[i]) as u32 == if 0x41 <= s[i] as u32
                && s[i] as u32 <= 0x5A {
                s[i] as u32 + 32
            } else {
                s[i] as int
            },
{
}

/// A cut text is the start of the text, and no shorter than it has to be.
pub proof fn law_cutting_keeps_the_start(s: Seq<char>, n: int)
    requires
        n >= 0,
    ensures
        truncated(s, n).is_prefix_of(s),
        truncated(s, n).len() == if s.len() <= n {
            s.len() as int
        } else {
            n
        },
{
    if s.len() <= n {
        assert(s.subrange(0, s.len() as int) =~= s);
    }
}

/// Line breaks are counted piece by piece.
pub proof fn law_line_breaks_are_counted(a: Seq<char>, b: Seq<char>, c: char)
    ensures
        newlines(a + b) == newlines(a) + newlines(b),
        newlines(seq![c]) == if c == '\n' {
            1nat
        } else {
            0nat
        },
    decreases b.len(),
{
    assert(seq![c].drop_last() =~= seq![]);
    assert(newlines(seq![c].drop_last()) == 0);
    if b.len() == 0 {
        assert(a + b =~= a);
    } else {
        assert((a + b).drop_last() =~= a + b.drop_last());
        law_line_breaks_are_counted(a, b.drop_last(), c);
    }
}

/// Text is escaped character by character. The five characters that mean something
/// in HTML are written as references, and every other stays as it is.
pub proof fn law_text_is_escaped_by_characters(a: Seq<char>, b: Seq<char>, c: char)
    ensures
        html_escaped(a + b) == html_escaped(a) + html_escaped(b),
        html_escaped(seq!['&']) == "&amp;"@,
        html_escaped(seq!['<']) == "&lt;"@,
        html_escaped(seq!['>']) == "&gt;"@,
        html_escaped(seq!['"']) == "&quot;"@,
        html_escaped(seq!['\'']) == "&#39;"@,
        c != '&' && c != '<' && c != '>' && c != '"' && c != '\'' ==> html_escaped(seq![c])
            == seq![c],
    decreases b.len(),
{
    assert forall|d: char| #[trigger] html_escaped(seq![d]) == html_escape_char(d) by {
        assert(seq![d].drop_last() =~= seq![]);
        assert(html_escaped(seq![d].drop_last()) =~= seq![]);
        assert(html_escaped(seq![d]) =~= html_escape_char(d));
    }
    if b.len() == 0 {
        assert(a + b =~= a);
        assert(html_escaped(a + b) =~= html_escaped(a) + html_escaped(b));
    } else {
        assert((a + b).drop_last() =~= a + b.drop_last());
        law_text_is_escaped_by_characters(a, b.drop_last(), c);
        assert(html_escaped(a + b) =~= html_escaped(a) + html_escaped(b));
    }
}

/// Whether `a` is the word `b` in small letters, whatever the case of its own.
pub open spec fn is_word(a: Seq<char>, b: Seq<char>) -> bool {
    &&& a.len() == b.len()
    &&& forall|i: int|
        0 <= i < a.len() ==> #[trigger] a[i] == b[i] || (0x41 <= a[i] as u32 && a[i] as u32 <= 0x5A
            && a[i] as u32 + 32 == b[i] as u32)
}

/// Characters with the same number are the same.
pub proof fn lemma_same_char(x: char, y: char)
    requires
        x as u32 == y as u32,
    ensures
        x == y,
{
}

/// Lower case tells words as they are told letter by letter.
pub proof fn lemma_word(a: Seq<char>, b: Seq<char>)
    requires
        forall|i: int| 0 <= i < b.len() ==> 0x61 <= (#[trigger] b[i]) as u32 && b[i] as u32 <= 0x7A,
    ensures
        is_word(a, b) <==> ascii_lower(a) == b,
{
    law_lower_case_changes_capitals_only(a);
    let l = ascii_lower(a);
    if is_word(a, b) {
        assert forall|i: int| 0 <= i < l.len() implies l[i] == b[i] by {
            assert(a[i] == b[i] || a[i] as u32 + 32 == b[i] as u32);
            assert(0x61 <= b[i] as u32);
            assert(l[i] as u32 == b[i] as u32);
            lemma_same_char(l[i], b[i]);
        }
        assert(l =~= b);
    }
    if l == b {
        assert forall|i: int| 0 <= i < a.len() implies #[trigger] a[i] == b[i] || (0x41
            <= a[i] as u32 && a[i] as u32 <= 0x5A && a[i] as u32 + 32 == b[i] as u32) by {
            assert(l[i] as u32 == b[i] as u32);
        }
    }
}

} // verus!
