//! File paths as text, with `/` between their components.
//!
//! Repeated separators, separators at the end and `.` components count for
//! nothing, except for a `.` in front. A path that Windows gives is brought into
//! this form by [`portable_path`].
use vstd::prelude::*;

use crate::text::{
    ascii_lower, chars_of, find_char, find_last_char, find_last_char_in, has_prefix_str, joined,
    lemma_find_char, lemma_joined_push, lower_chars, push_chars, same_chars, slice_views, split,
    split_chars, string_of, text_option,
};
use crate::window_state::Platform;

verus! {

// ---------------------------------------------------------------------------
// Components
// ---------------------------------------------------------------------------

/// Whether a piece between separators counts for nothing.
pub open spec fn is_void(piece: Seq<char>) -> bool {
    piece.len() == 0 || piece == "."@
}

/// The pieces that count.
pub open spec fn counting(pieces: Seq<Seq<char>>) -> Seq<Seq<char>>
    decreases pieces.len(),
{
    if pieces.len() == 0 {
        seq![]
    } else if is_void(pieces.last()) {
        counting(pieces.drop_last())
    } else {
        counting(pieces.drop_last()).push(pieces.last())
    }
}

/// Whether a path begins at the root.
pub open spec fn is_absolute(path: Seq<char>) -> bool {
    path.len() > 0 && path[0] == '/'
}

/// The components of a path. The root is `/`, and a `.` in front is kept.
pub open spec fn components(path: Seq<char>) -> Seq<Seq<char>> {
    let pieces = split(path, '/');
    if is_absolute(path) {
        seq!["/"@] + counting(pieces)
    } else if pieces[0] == "."@ {
        seq!["."@] + counting(pieces)
    } else {
        counting(pieces)
    }
}

/// Whether two paths have the same components.
pub open spec fn same_path(a: Seq<char>, b: Seq<char>) -> bool {
    components(a) == components(b)
}

/// Whether the components of `path` begin with those of `base`.
pub open spec fn path_within(path: Seq<char>, base: Seq<char>) -> bool {
    components(base).is_prefix_of(components(path))
}

/// Whether a component is a name: neither the root, `.` nor `..`.
pub open spec fn is_name(component: Seq<char>) -> bool {
    component != "/"@ && component != "."@ && component != ".."@
}

/// Whether a path is not empty and made of names alone, with no `.` anywhere in it.
pub open spec fn is_plain_relative(path: Seq<char>) -> bool {
    &&& path.len() > 0
    &&& forall|i: int| 0 <= i < split(path, '/').len() ==> #[trigger] split(path, '/')[i] != "."@
    &&& forall|i: int| 0 <= i < components(path).len() ==> is_name(#[trigger] components(path)[i])
}

/// The names among `components`.
pub open spec fn names(components: Seq<Seq<char>>) -> Seq<Seq<char>>
    decreases components.len(),
{
    if components.len() == 0 {
        seq![]
    } else if is_name(components.last()) {
        names(components.drop_last()).push(components.last())
    } else {
        names(components.drop_last())
    }
}

/// The values of a list of components.
pub open spec fn part_views(parts: Seq<Vec<char>>) -> Seq<Seq<char>> {
    parts.map_values(|p: Vec<char>| p@)
}

/// A copy of `s`.
fn copy_chars(s: &[char]) -> (r: Vec<char>)
    ensures
        r@ == s@,
{
    let mut out: Vec<char> = Vec::new();
    let mut i: usize = 0;
    while i < s.len()
        invariant
            i <= s@.len(),
            out@ == s@.take(i as int),
        decreases s@.len() - i,
    {
        out.push(s[i]);
        i = i + 1;
        assert(out@ =~= s@.take(i as int));
    }
    assert(s@.take(i as int) =~= s@);
    out
}

/// The components of a path.
pub fn path_components(path: &str) -> (r: Vec<Vec<char>>)
    ensures
        part_views(r@) == components(path@),
{
    let path = chars_of(path);
    let dot = chars_of(".");
    let pieces = split_chars(path.as_slice(), '/');
    let ghost all = slice_views(pieces@);
    let mut out: Vec<Vec<char>> = Vec::new();
    assert(pieces@[0]@ == all[0]);
    if path.len() > 0 && path[0] == '/' {
        out.push(chars_of("/"));
    } else if same_chars(pieces[0], dot.as_slice()) {
        out.push(chars_of("."));
    }
    let ghost front = part_views(out@);
    let mut i: usize = 0;
    assert(part_views(out@) =~= front + counting(all.take(0)));
    while i < pieces.len()
        invariant
            all == slice_views(pieces@),
            dot@ == "."@,
            i <= pieces@.len(),
            part_views(out@) == front + counting(all.take(i as int)),
        decreases pieces@.len() - i,
    {
        let piece = pieces[i];
        let ghost before = part_views(out@);
        assert(all.take(i + 1).drop_last() =~= all.take(i as int));
        assert(all.take(i + 1).last() == piece@);
        if piece.len() != 0 && !same_chars(piece, dot.as_slice()) {
            let part = copy_chars(piece);
            out.push(part);
            assert(part_views(out@) =~= before.push(piece@));
        }
        i = i + 1;
        assert(part_views(out@) =~= front + counting(all.take(i as int)));
    }
    proof {
        assert(all.take(i as int) =~= all);
        assert(part_views(out@) =~= components(path@));
    }
    out
}

/// Whether the components of `path` begin with those of `base`.
pub fn is_within(path: &str, base: &str) -> (r: bool)
    ensures
        r == path_within(path@, base@),
{
    let p = path_components(path);
    let b = path_components(base);
    let ghost pv = part_views(p@);
    let ghost bv = part_views(b@);
    if b.len() > p.len() {
        return false;
    }
    let mut i: usize = 0;
    while i < b.len()
        invariant
            pv == part_views(p@),
            bv == part_views(b@),
            pv == components(path@),
            bv == components(base@),
            b@.len() <= p@.len(),
            i <= b@.len(),
            forall|j: int| 0 <= j < i ==> pv[j] == bv[j],
        decreases b@.len() - i,
    {
        assert(pv[i as int] == p@[i as int]@);
        assert(bv[i as int] == b@[i as int]@);
        if !same_chars(p[i].as_slice(), b[i].as_slice()) {
            assert(pv.subrange(0, bv.len() as int)[i as int] != bv[i as int]);
            return false;
        }
        i = i + 1;
    }
    assert(bv =~= pv.subrange(0, bv.len() as int));
    true
}

/// Whether two paths have the same components.
pub fn are_same_path(a: &str, b: &str) -> (r: bool)
    ensures
        r == same_path(a@, b@),
{
    let forth = is_within(a, b);
    let back = is_within(b, a);
    proof {
        let x = components(a@);
        let y = components(b@);
        if forth && back {
            assert(x =~= y);
        }
        if x == y {
            assert(x.subrange(0, x.len() as int) =~= x);
        }
    }
    forth && back
}

/// Whether a component is a name.
pub(crate) fn is_name_part(part: &[char]) -> (r: bool)
    ensures
        r == is_name(part@),
{
    !same_chars(part, chars_of("/").as_slice()) && !same_chars(part, chars_of(".").as_slice())
        && !same_chars(part, chars_of("..").as_slice())
}

/// Whether a path is not empty and made of names alone, with no `.` anywhere in it.
pub fn is_plain_relative_path(path: &str) -> (r: bool)
    ensures
        r == is_plain_relative(path@),
{
    let chars = chars_of(path);
    if chars.len() == 0 {
        return false;
    }
    let dot = chars_of(".");
    let pieces = split_chars(chars.as_slice(), '/');
    let ghost cut = slice_views(pieces@);
    let mut k: usize = 0;
    while k < pieces.len()
        invariant
            cut == slice_views(pieces@),
            cut == split(path@, '/'),
            dot@ == "."@,
            k <= pieces@.len(),
            forall|j: int| 0 <= j < k ==> #[trigger] cut[j] != "."@,
        decreases pieces@.len() - k,
    {
        assert(cut[k as int] == pieces@[k as int]@);
        if same_chars(pieces[k], dot.as_slice()) {
            return false;
        }
        k = k + 1;
    }
    let parts = path_components(path);
    let ghost all = part_views(parts@);
    let mut i: usize = 0;
    while i < parts.len()
        invariant
            all == part_views(parts@),
            all == components(path@),
            i <= parts@.len(),
            forall|j: int| 0 <= j < i ==> is_name(#[trigger] all[j]),
        decreases parts@.len() - i,
    {
        assert(all[i as int] == parts@[i as int]@);
        if !is_name_part(parts[i].as_slice()) {
            return false;
        }
        i = i + 1;
    }
    true
}

// ---------------------------------------------------------------------------
// Dots
// ---------------------------------------------------------------------------

/// The pieces of a relative path without those that are `.`, and without empty
/// ones in front.
pub open spec fn without_dots(pieces: Seq<Seq<char>>) -> Seq<Seq<char>>
    decreases pieces.len(),
{
    if pieces.len() == 0 {
        seq![]
    } else {
        let before = without_dots(pieces.drop_last());
        let last = pieces.last();
        if last == "."@ || (last.len() == 0 && before.len() == 0) {
            before
        } else {
            before.push(last)
        }
    }
}

/// The path of the same file without `.` in it. One that begins at the root stays
/// as it is.
pub open spec fn undotted(path: Seq<char>) -> Seq<char> {
    if is_absolute(path) {
        path
    } else {
        joined(without_dots(split(path, '/')), "/"@)
    }
}

/// The path of the same file without `.` in it.
pub(crate) fn without_dot_pieces(path: &[char]) -> (r: String)
    ensures
        r@ == undotted(path@),
{
    if path.len() > 0 && path[0] == '/' {
        return string_of(path);
    }
    let dot = chars_of(".");
    let pieces = split_chars(path, '/');
    let ghost all = slice_views(pieces@);
    let mut out = String::new();
    let mut empty = true;
    let mut i: usize = 0;
    assert(out@ =~= joined(without_dots(all.take(0)), "/"@));
    while i < pieces.len()
        invariant
            all == slice_views(pieces@),
            dot@ == "."@,
            i <= pieces@.len(),
            empty == (without_dots(all.take(i as int)).len() == 0),
            out@ == joined(without_dots(all.take(i as int)), "/"@),
        decreases pieces@.len() - i,
    {
        let piece = pieces[i];
        let ghost before = without_dots(all.take(i as int));
        assert(all.take(i + 1).drop_last() =~= all.take(i as int));
        assert(all.take(i + 1).last() == piece@);
        if !same_chars(piece, dot.as_slice()) && (piece.len() != 0 || !empty) {
            proof {
                lemma_joined_push(before, "/"@, piece@);
            }
            if !empty {
                out.append("/");
            }
            push_chars(&mut out, piece);
            empty = false;
            assert(out@ =~= joined(before.push(piece@), "/"@));
        }
        i = i + 1;
    }
    assert(all.take(i as int) =~= all);
    out
}

// ---------------------------------------------------------------------------
// Platforms
// ---------------------------------------------------------------------------

/// `path` with `/` for each separator: on Windows `\` separates too.
pub open spec fn slashed(path: Seq<char>, platform: Platform) -> Seq<char> {
    if platform == Platform::Windows {
        path.map_values(
            |c: char|
                if c == '\\' {
                    '/'
                } else {
                    c
                },
        )
    } else {
        path
    }
}

/// Whether `path` begins with a drive of Windows, such as `C:`.
pub open spec fn has_drive(path: Seq<char>) -> bool {
    path.len() >= 2 && path[1] == ':' && ('a' <= path[0] && path[0] <= 'z' || 'A' <= path[0]
        && path[0] <= 'Z')
}

/// Whether a path is made of names alone on a platform: on Windows it has no drive
/// either.
pub open spec fn is_plain_on(path: Seq<char>, platform: Platform) -> bool {
    is_plain_relative(path) && !(platform == Platform::Windows && has_drive(path))
}

/// A path as a platform writes it, in the form of this module: without the prefix
/// `\\?\` that resolved paths have on Windows, and with `/` for each separator.
pub open spec fn portable(path: Seq<char>, platform: Platform) -> Seq<char> {
    if platform != Platform::Windows {
        path
    } else if "\\\\?\\UNC\\"@.is_prefix_of(path) {
        "//"@ + slashed(path.skip(8), platform)
    } else if "\\\\?\\"@.is_prefix_of(path) {
        slashed(path.skip(4), platform)
    } else {
        slashed(path, platform)
    }
}

/// A path in the form of this module as the platform takes it. On Windows a drive
/// alone is the current directory there; its root is meant.
pub open spec fn native(path: Seq<char>, platform: Platform) -> Seq<char> {
    if platform == Platform::Windows && has_drive(path) && path.len() == 2 {
        path + "/"@
    } else {
        path
    }
}

/// Appends `path` with `/` for each separator.
fn push_slashed(out: &mut String, path: &[char], platform: Platform)
    ensures
        final(out)@ == old(out)@ + slashed(path@, platform),
{
    let windows = platform == Platform::Windows;
    let ghost start = out@;
    let ghost target = slashed(path@, platform);
    let mut i: usize = 0;
    assert(out@ =~= start + target.take(0));
    while i < path.len()
        invariant
            windows == (platform == Platform::Windows),
            target == slashed(path@, platform),
            target.len() == path@.len(),
            i <= path@.len(),
            out@ == start + target.take(i as int),
        decreases path@.len() - i,
    {
        if windows && path[i] == '\\' {
            out.push('/');
        } else {
            out.push(path[i]);
        }
        i = i + 1;
        assert(out@ =~= start + target.take(i as int));
    }
    assert(target.take(i as int) =~= target);
}

/// `path` with `/` for each separator.
pub(crate) fn to_slashed(path: &str, platform: Platform) -> (r: String)
    ensures
        r@ == slashed(path@, platform),
{
    let chars = chars_of(path);
    let mut out = String::new();
    push_slashed(&mut out, chars.as_slice(), platform);
    assert(out@ =~= slashed(path@, platform));
    out
}

/// Whether a path is made of names alone on a platform.
pub fn is_plain_relative_on(path: &str, platform: Platform) -> (r: bool)
    ensures
        r == is_plain_on(path@, platform),
{
    let chars = chars_of(path);
    is_plain_relative_path(path) && !(platform == Platform::Windows && begins_with_drive(
        chars.as_slice(),
    ))
}

/// Whether `path` begins with a drive of Windows.
fn begins_with_drive(path: &[char]) -> (r: bool)
    ensures
        r == has_drive(path@),
{
    path.len() >= 2 && path[1] == ':' && ('a' <= path[0] && path[0] <= 'z' || 'A' <= path[0]
        && path[0] <= 'Z')
}

/// A path as the platform writes it, in the form of this module.
pub fn portable_path(path: &str, platform: Platform) -> (r: String)
    ensures
        r@ == portable(path@, platform),
{
    if platform != Platform::Windows {
        return path.to_owned();
    }
    let chars = chars_of(path);
    let mut out = String::new();
    proof {
        reveal_strlit("\\\\?\\UNC\\");
        reveal_strlit("\\\\?\\");
    }
    let rest = if has_prefix_str(chars.as_slice(), "\\\\?\\UNC\\") {
        out.append("//");
        &chars.as_slice()[8..chars.len()]
    } else if has_prefix_str(chars.as_slice(), "\\\\?\\") {
        &chars.as_slice()[4..chars.len()]
    } else {
        chars.as_slice()
    };
    push_slashed(&mut out, rest, platform);
    assert(out@ =~= portable(path@, platform));
    out
}

/// A path in the form of this module as the platform takes it.
pub fn native_path(path: &str, platform: Platform) -> (r: String)
    ensures
        r@ == native(path@, platform),
{
    let chars = chars_of(path);
    let mut out = path.to_owned();
    if platform == Platform::Windows && chars.len() == 2 && begins_with_drive(chars.as_slice()) {
        out.append("/");
    }
    out
}

// ---------------------------------------------------------------------------
// The last component
// ---------------------------------------------------------------------------

/// `path` without what counts for nothing at its end.
pub open spec fn without_void_end(path: Seq<char>) -> Seq<char>
    decreases path.len(),
{
    let n = path.len();
    if n > 1 && path.last() == '/' {
        without_void_end(path.drop_last())
    } else if n > 1 && path.last() == '.' && path[n - 2] == '/' {
        without_void_end(path.drop_last())
    } else {
        path
    }
}

/// Where the last component of `path` begins.
pub open spec fn last_start(path: Seq<char>) -> int {
    match find_last_char(path, '/') {
        Some(i) => i + 1,
        None => 0,
    }
}

/// The name at the end of a path. There is none where it ends in `..`, and none
/// of `.`, the root or the empty path.
pub open spec fn file_name(path: Seq<char>) -> Option<Seq<char>> {
    let p = without_void_end(path);
    let last = p.skip(last_start(p));
    if last.len() == 0 || last == "."@ || last == ".."@ {
        None
    } else {
        Some(last)
    }
}

/// A path without its last component. The root and the empty path have no
/// parent.
pub open spec fn parent(path: Seq<char>) -> Option<Seq<char>> {
    let p = without_void_end(path);
    if p.len() == 0 || p == "/"@ {
        None
    } else {
        Some(without_void_end(p.take(last_start(p))))
    }
}

/// A name up to its last dot, which must not be its first character.
pub open spec fn stem_of(name: Seq<char>) -> Seq<char> {
    match find_last_char(name, '.') {
        Some(i) if i > 0 => name.take(i),
        _ => name,
    }
}

/// What follows the last dot of a name, which must not be its first character.
pub open spec fn extension_of(name: Seq<char>) -> Option<Seq<char>> {
    match find_last_char(name, '.') {
        Some(i) if i > 0 => Some(name.skip(i + 1)),
        _ => None,
    }
}

/// The extension of a path's last component.
pub open spec fn extension(path: Seq<char>) -> Option<Seq<char>> {
    match file_name(path) {
        Some(name) => extension_of(name),
        None => None,
    }
}

/// `path` inside the directory `base`. An absolute path stands for itself.
pub open spec fn joined_path(base: Seq<char>, path: Seq<char>) -> Seq<char> {
    if is_absolute(path) || base.len() == 0 {
        path
    } else if base.last() == '/' {
        base + path
    } else {
        base.push('/') + path
    }
}

/// `path` with `name` in place of its last component, or behind it where it has
/// no name there.
pub open spec fn with_name(path: Seq<char>, name: Seq<char>) -> Seq<char> {
    match (file_name(path), parent(path)) {
        (Some(_), Some(dir)) => joined_path(dir, name),
        _ => joined_path(path, name),
    }
}

/// `path` without what counts for nothing at its end.
fn trim_void_end(path: &[char]) -> (r: &[char])
    ensures
        r@ == without_void_end(path@),
{
    let mut n: usize = path.len();
    assert(path@.take(n as int) =~= path@);
    while n > 1 && (path[n - 1] == '/' || (path[n - 1] == '.' && path[n - 2] == '/'))
        invariant
            n <= path@.len(),
            without_void_end(path@) == without_void_end(path@.take(n as int)),
        decreases n,
    {
        assert(path@.take(n as int).drop_last() =~= path@.take(n - 1));
        n = n - 1;
    }
    let r = &path[0..n];
    assert(r@ =~= path@.take(n as int));
    r
}

/// Where the last component of `path` begins.
fn last_start_of(path: &[char]) -> (r: usize)
    ensures
        r == last_start(path@),
        r <= path@.len(),
{
    let n: usize = path.len();
    match find_last_char_in(path, '/') {
        Some(i) => i + 1,
        None => 0,
    }
}

/// The name at the end of a path.
pub fn path_file_name(path: &str) -> (r: Option<String>)
    ensures
        text_option(r) == file_name(path@),
{
    let path = chars_of(path);
    let p = trim_void_end(path.as_slice());
    let start: usize = last_start_of(p);
    let last = &p[start..p.len()];
    assert(last@ =~= p@.skip(start as int));
    if last.len() == 0 || same_chars(last, chars_of(".").as_slice()) || same_chars(
        last,
        chars_of("..").as_slice(),
    ) {
        None
    } else {
        Some(string_of(last))
    }
}

/// A path without its last component.
pub fn path_parent(path: &str) -> (r: Option<String>)
    ensures
        text_option(r) == parent(path@),
{
    let path = chars_of(path);
    let p = trim_void_end(path.as_slice());
    if p.len() == 0 || same_chars(p, chars_of("/").as_slice()) {
        None
    } else {
        let start: usize = last_start_of(p);
        let dir = &p[0..start];
        assert(dir@ =~= p@.take(start as int));
        Some(string_of(trim_void_end(dir)))
    }
}

/// A name up to its last dot, which must not be its first character.
pub fn name_stem(name: &str) -> (r: String)
    ensures
        r@ == stem_of(name@),
{
    let chars = chars_of(name);
    match find_last_char_in(chars.as_slice(), '.') {
        Some(i) => {
            if i > 0 {
                let stem = &chars.as_slice()[0..i];
                assert(stem@ =~= name@.take(i as int));
                string_of(stem)
            } else {
                name.to_owned()
            }
        },
        None => name.to_owned(),
    }
}

/// The extension of a path's last component.
pub fn path_extension(path: &str) -> (r: Option<String>)
    ensures
        text_option(r) == extension(path@),
{
    match path_file_name(path) {
        None => None,
        Some(name) => {
            let chars = chars_of(name.as_str());
            match find_last_char_in(chars.as_slice(), '.') {
                Some(i) => {
                    if i > 0 {
                        let tail = &chars.as_slice()[i + 1..chars.len()];
                        assert(tail@ =~= name@.skip(i + 1));
                        Some(string_of(tail))
                    } else {
                        None
                    }
                },
                None => None,
            }
        },
    }
}

/// `path` inside the directory `base`.
pub fn path_join(base: &str, path: &str) -> (r: String)
    ensures
        r@ == joined_path(base@, path@),
{
    let b = chars_of(base);
    let p = chars_of(path);
    if (p.len() > 0 && p[0] == '/') || b.len() == 0 {
        return path.to_owned();
    }
    let mut out = base.to_owned();
    if b[b.len() - 1] != '/' {
        out.push('/');
    }
    out.append(path);
    out
}

/// `path` with `name` in place of its last component.
pub fn path_with_name(path: &str, name: &str) -> (r: String)
    ensures
        r@ == with_name(path@, name@),
{
    match (path_file_name(path), path_parent(path)) {
        (Some(_), Some(dir)) => path_join(dir.as_str(), name),
        _ => path_join(path, name),
    }
}

/// Whether the extension of `path` is `expected`, whatever the case of its ASCII
/// letters. `expected` is in lower case.
pub open spec fn has_extension(path: Seq<char>, expected: Seq<char>) -> bool {
    extension(path) matches Some(e) && ascii_lower(e) == expected
}

/// Whether the extension of `path` is `expected`, whatever the case of its ASCII
/// letters.
pub fn path_has_extension(path: &str, expected: &str) -> (r: bool)
    ensures
        r == has_extension(path@, expected@),
{
    match path_extension(path) {
        None => false,
        Some(e) => {
            let e = chars_of(e.as_str());
            same_chars(lower_chars(e.as_slice()).as_slice(), chars_of(expected).as_slice())
        },
    }
}

// ---------------------------------------------------------------------------
// Laws
// ---------------------------------------------------------------------------

/// Whether `name` can be the name of a file: it is not empty, holds no `/`, and is
/// neither `.` nor `..`.
pub open spec fn is_file_name(name: Seq<char>) -> bool {
    name.len() > 0 && !name.contains('/') && name != "."@ && name != ".."@
}

/// What [`find_last_char`] tells of the position that it returns.
pub proof fn lemma_find_last_char(s: Seq<char>, c: char)
    ensures
        find_last_char(s, c) matches Some(i) ==> 0 <= i < s.len() && s[i] == c && !s.skip(
            i + 1,
        ).contains(c),
        find_last_char(s, c) is None ==> !s.contains(c),
    decreases s.len(),
{
    if s.len() > 0 && s.last() != c {
        let t = s.drop_last();
        lemma_find_last_char(t, c);
        match find_last_char(t, c) {
            Some(i) => {
                let tail = s.skip(i + 1);
                assert forall|j: int| 0 <= j < tail.len() implies tail[j] != c by {
                    if j < tail.len() - 1 {
                        assert(t.skip(i + 1)[j] == tail[j]);
                    } else {
                        assert(tail[j] == s.last());
                    }
                }
            },
            None => {
                assert forall|j: int| 0 <= j < s.len() implies s[j] != c by {
                    if j < s.len() - 1 {
                        assert(t[j] == s[j]);
                    }
                }
            },
        }
    }
}

/// The last `/` of a path that ends in a name stands before that name.
proof fn lemma_last_start(front: Seq<char>, name: Seq<char>)
    requires
        !name.contains('/'),
        front.len() > 0 ==> front.last() == '/',
    ensures
        last_start(front + name) == front.len(),
    decreases name.len(),
{
    let all = front + name;
    if name.len() == 0 {
        assert(all =~= front);
    } else {
        assert(name[name.len() - 1] != '/');
        assert(all.last() != '/');
        assert(all.drop_last() =~= front + name.drop_last());
        assert forall|i: int| 0 <= i < name.drop_last().len() implies name.drop_last()[i] != '/' by {
            assert(name[i] != '/');
        }
        lemma_last_start(front, name.drop_last());
    }
}

/// A path that ends in a name ends in nothing that does not count.
proof fn lemma_no_void_end(front: Seq<char>, name: Seq<char>)
    requires
        is_file_name(name),
        front.len() > 0 ==> front.last() == '/',
    ensures
        without_void_end(front + name) == front + name,
{
    reveal_strlit(".");
    let all = front + name;
    let n = all.len();
    assert(name[name.len() - 1] != '/');
    assert(all.last() == name.last());
    if n > 1 && all.last() == '.' && all[n - 2] == '/' {
        if name.len() >= 2 {
            assert(all[n - 2] == name[name.len() - 2]);
            assert(name.contains('/'));
        } else {
            assert(name =~= "."@);
        }
    }
}

/// What does not count at the end of a path is not there any more once it was
/// taken off.
proof fn lemma_void_end_twice(path: Seq<char>)
    ensures
        without_void_end(without_void_end(path)) == without_void_end(path),
    decreases path.len(),
{
    let n = path.len();
    if n > 1 && (path.last() == '/' || (path.last() == '.' && path[n - 2] == '/')) {
        lemma_void_end_twice(path.drop_last());
    }
}

/// A name in a directory is the name of the path that they make, and the directory
/// is its parent.
pub proof fn law_joining_and_taking_apart(dir: Seq<char>, name: Seq<char>)
    requires
        is_file_name(name),
        without_void_end(dir) == dir,
    ensures
        file_name(joined_path(dir, name)) == Some(name),
        parent(joined_path(dir, name)) == Some(dir),
{
    reveal_strlit(".");
    reveal_strlit("/");
    reveal_strlit("..");
    assert(name[0] != '/');
    let all = joined_path(dir, name);
    let front = if dir.len() == 0 {
        Seq::<char>::empty()
    } else if dir.last() == '/' {
        dir
    } else {
        dir.push('/')
    };
    assert(all =~= front + name);
    lemma_no_void_end(front, name);
    lemma_last_start(front, name);
    assert(all.skip(front.len() as int) =~= name);
    assert(all.take(front.len() as int) =~= front);
    assert(all != "/"@) by {
        if all == "/"@ {
            assert(all.last() == name.last());
            assert(name[name.len() - 1] == '/');
        }
    }
    if front.len() > 0 && front != dir {
        assert(front.drop_last() =~= dir);
        assert(without_void_end(front) == without_void_end(dir));
    } else if dir.len() == 0 {
        assert(front =~= dir);
    }
}

/// The parent of a path ends in nothing that does not count.
pub proof fn lemma_parent_is_bare(path: Seq<char>)
    ensures
        parent(path) matches Some(dir) ==> without_void_end(dir) == dir,
{
    let p = without_void_end(path);
    lemma_void_end_twice(p.take(last_start(p)));
}

/// The name of a path can be the name of a file.
pub proof fn lemma_file_name_is_one(path: Seq<char>)
    ensures
        file_name(path) matches Some(name) ==> is_file_name(name),
{
    let p = without_void_end(path);
    lemma_find_last_char(p, '/');
    if find_last_char(p, '/') is None {
        assert(p.skip(0) =~= p);
    }
}

/// Pieces are found in a text that is joined at a separator as they are found in
/// its parts.
proof fn lemma_split_join(a: Seq<char>, b: Seq<char>, sep: char)
    ensures
        split(a.push(sep) + b, sep) == split(a, sep) + split(b, sep),
    decreases a.len(),
{
    let all = a.push(sep) + b;
    lemma_find_char(all, sep);
    lemma_find_char(a, sep);
    match find_char(a, sep) {
        None => {
            let i = a.len() as int;
            assert(all[i] == sep);
            assert(all.contains(sep));
            assert(find_char(all, sep) == Some(i)) by {
                let j = find_char(all, sep)->Some_0;
                if j < i {
                    assert(a[j] == sep);
                    assert(a.contains(sep));
                }
            }
            assert(all.take(i) =~= a);
            assert(all.skip(i + 1) =~= b);
        },
        Some(i) => {
            assert(all[i] == sep);
            assert(all.contains(sep));
            assert(find_char(all, sep) == Some(i)) by {
                let j = find_char(all, sep)->Some_0;
                if j < i {
                    assert(a[j] == sep);
                }
            }
            assert(all.take(i) =~= a.take(i));
            assert(all.skip(i + 1) =~= a.skip(i + 1).push(sep) + b);
            lemma_split_join(a.skip(i + 1), b, sep);
            assert(split(all, sep) =~= split(a, sep) + split(b, sep));
        },
    }
}

/// The pieces that count are found piece by piece.
proof fn lemma_counting_push(pieces: Seq<Seq<char>>, piece: Seq<char>)
    ensures
        counting(pieces.push(piece)) == if is_void(piece) {
            counting(pieces)
        } else {
            counting(pieces).push(piece)
        },
{
    assert(pieces.push(piece).drop_last() =~= pieces);
}

/// A name behind a plain relative path makes another one, and has the same
/// extension as before.
pub proof fn law_plain_paths_grow_by_names(path: Seq<char>, name: Seq<char>)
    requires
        path.len() == 0 || is_plain_relative(path),
        is_file_name(name),
    ensures
        ({
            let grown = if path.len() == 0 {
                name
            } else {
                path + "/"@ + name
            };
            is_plain_relative(grown) && extension(grown) == extension_of(name)
        }),
{
    reveal_strlit("/");
    reveal_strlit(".");
    reveal_strlit("..");
    lemma_find_char(name, '/');
    assert(split(name, '/') == seq![name]);
    assert(!is_void(name));
    assert(Seq::<Seq<char>>::empty().push(name) =~= seq![name]);
    lemma_counting_push(Seq::<Seq<char>>::empty(), name);
    assert(name[0] != '/');
    if path.len() == 0 {
        assert(name != "/"@) by {
            if name == "/"@ {
                assert(name[0] == '/');
            }
        }
        assert(components(name) =~= seq![name]);
        assert(is_name(components(name)[0]));
        lemma_no_void_end(Seq::<char>::empty(), name);
        lemma_last_start(Seq::<char>::empty(), name);
        assert(Seq::<char>::empty() + name =~= name);
        assert(name.skip(0) =~= name);
    } else {
        let grown = path + "/"@ + name;
        assert(grown =~= path.push('/') + name);
        lemma_split_join(path, name, '/');
        let pieces = split(path, '/');
        assert(split(path, '/') + seq![name] =~= pieces.push(name));
        lemma_counting_push(pieces, name);
        assert(grown[0] == path[0]);
        assert(!is_absolute(path)) by {
            if is_absolute(path) {
                assert(components(path)[0] == "/"@);
                assert(!is_name(components(path)[0]));
            }
        }
        assert(pieces.len() > 0);
        assert(pieces[0] != "."@) by {
            if pieces[0] == "."@ {
                assert(components(path)[0] == "."@);
                assert(!is_name(components(path)[0]));
            }
        }
        assert(pieces.push(name)[0] == pieces[0]);
        assert(components(grown) =~= components(path).push(name));
        assert forall|i: int| 0 <= i < components(grown).len() implies is_name(
            #[trigger] components(grown)[i],
        ) by {
            if i < components(path).len() {
                assert(components(grown)[i] == components(path)[i]);
            } else {
                assert(components(grown)[i] == name);
                if name == "/"@ {
                    assert(name[0] == '/');
                }
            }
        }
        let front = path.push('/');
        lemma_no_void_end(front, name);
        lemma_last_start(front, name);
        assert(grown.skip(front.len() as int) =~= name);
    }
}

/// Pieces hold no separator.
proof fn lemma_pieces_are_cut(s: Seq<char>, sep: char)
    ensures
        split(s, sep).len() > 0,
        forall|i: int| 0 <= i < split(s, sep).len() ==> !(#[trigger] split(s, sep)[i]).contains(sep),
    decreases s.len(),
{
    lemma_find_char(s, sep);
    if let Some(k) = find_char(s, sep) {
        lemma_pieces_are_cut(s.skip(k + 1), sep);
        let all = split(s, sep);
        assert forall|i: int| 0 <= i < all.len() implies !(#[trigger] all[i]).contains(sep) by {
            if i == 0 {
                assert(all[0] == s.take(k));
                if s.take(k).contains(sep) {
                    let j = s.take(k).index_of(sep);
                    assert(s[j] == sep);
                }
            } else {
                assert(all[i] == split(s.skip(k + 1), sep)[i - 1]);
            }
        }
    }
}

/// What is joined at separators is cut there.
proof fn lemma_joined_is_cut(pieces: Seq<Seq<char>>)
    requires
        pieces.len() > 0,
        forall|i: int| 0 <= i < pieces.len() ==> !(#[trigger] pieces[i]).contains('/'),
    ensures
        split(joined(pieces, "/"@), '/') == pieces,
    decreases pieces.len(),
{
    reveal_strlit("/");
    let last = pieces.last();
    assert(!pieces[pieces.len() - 1].contains('/'));
    lemma_find_char(last, '/');
    assert(split(last, '/') == seq![last]);
    if pieces.len() == 1 {
        assert(pieces =~= seq![last]);
    } else {
        let front = pieces.drop_last();
        assert forall|i: int| 0 <= i < front.len() implies !(#[trigger] front[i]).contains('/') by {
            assert(front[i] == pieces[i]);
        }
        lemma_joined_is_cut(front);
        lemma_split_join(joined(front, "/"@), last, '/');
        assert(joined(pieces, "/"@) =~= joined(front, "/"@).push('/') + last);
        assert(front + seq![last] =~= pieces);
    }
}

/// The pieces that count are among the pieces.
proof fn lemma_counting_takes(pieces: Seq<Seq<char>>)
    ensures
        forall|i: int|
            0 <= i < counting(pieces).len() ==> pieces.contains(#[trigger] counting(pieces)[i]),
    decreases pieces.len(),
{
    if pieces.len() > 0 {
        let front = pieces.drop_last();
        lemma_counting_takes(front);
        assert forall|i: int| 0 <= i < counting(pieces).len() implies pieces.contains(
            #[trigger] counting(pieces)[i],
        ) by {
            if i < counting(front).len() {
                let piece = counting(front)[i];
                let k = choose|k: int| 0 <= k < front.len() && front[k] == piece;
                assert(pieces[k] == piece);
            } else {
                assert(pieces[pieces.len() - 1] == counting(pieces)[i]);
            }
        }
    }
}

/// What is left without dots is among the pieces, holds no dot and does not begin
/// with nothing, and the same pieces of it count.
proof fn lemma_without_dots(pieces: Seq<Seq<char>>)
    ensures
        counting(without_dots(pieces)) == counting(pieces),
        without_dots(pieces).len() > 0 ==> without_dots(pieces)[0].len() > 0,
        forall|i: int|
            0 <= i < without_dots(pieces).len() ==> #[trigger] without_dots(pieces)[i] != "."@
                && pieces.contains(without_dots(pieces)[i]),
    decreases pieces.len(),
{
    if pieces.len() > 0 {
        let front = pieces.drop_last();
        let before = without_dots(front);
        let last = pieces.last();
        let all = without_dots(pieces);
        lemma_without_dots(front);
        assert(pieces[pieces.len() - 1] == last);
        if all != before {
            assert(before.push(last).drop_last() =~= before);
        }
        assert forall|i: int| 0 <= i < all.len() implies #[trigger] all[i] != "."@
            && pieces.contains(all[i]) by {
            if i < before.len() {
                assert(all[i] == before[i]);
                let k = choose|k: int| 0 <= k < front.len() && front[k] == before[i];
                assert(pieces[k] == before[i]);
            } else {
                assert(all[i] == last);
            }
        }
    }
}

/// The name at the end of a relative path is the last of its pieces that counts.
proof fn lemma_name_is_last_piece(path: Seq<char>)
    requires
        !is_absolute(path),
    ensures
        ({
            let parts = counting(split(path, '/'));
            file_name(path) == if parts.len() == 0 || parts.last() == ".."@ {
                None
            } else {
                Some(parts.last())
            }
        }),
    decreases path.len(),
{
    reveal_strlit(".");
    reveal_strlit("..");
    let n = path.len();
    let empty = Seq::<char>::empty();
    lemma_find_char(empty, '/');
    if n > 1 && path.last() == '/' {
        let front = path.drop_last();
        assert(front[0] == path[0]);
        assert(path =~= front.push('/') + empty);
        lemma_split_join(front, empty, '/');
        assert(split(front, '/') + seq![empty] =~= split(front, '/').push(empty));
        lemma_counting_push(split(front, '/'), empty);
        lemma_name_is_last_piece(front);
    } else if n > 1 && path.last() == '.' && path[n - 2] == '/' {
        let front = path.take(n - 2);
        let shorter = path.drop_last();
        assert(n > 2);
        assert(shorter[0] == path[0]);
        assert(path =~= front.push('/') + "."@);
        assert(shorter =~= front.push('/') + empty);
        lemma_split_join(front, "."@, '/');
        lemma_split_join(front, empty, '/');
        lemma_find_char("."@, '/');
        assert(split("."@, '/') == seq!["."@]);
        assert(split(front, '/') + seq!["."@] =~= split(front, '/').push("."@));
        assert(split(front, '/') + seq![empty] =~= split(front, '/').push(empty));
        lemma_counting_push(split(front, '/'), "."@);
        lemma_counting_push(split(front, '/'), empty);
        lemma_name_is_last_piece(shorter);
    } else {
        lemma_find_last_char(path, '/');
        lemma_find_char(path, '/');
        match find_last_char(path, '/') {
            None => {
                assert(path.skip(0) =~= path);
                assert(find_char(path, '/') is None);
                assert(split(path, '/') == seq![path]);
                assert(Seq::<Seq<char>>::empty().push(path) =~= seq![path]);
                lemma_counting_push(Seq::<Seq<char>>::empty(), path);
            },
            Some(i) => {
                let front = path.take(i);
                let last = path.skip(i + 1);
                assert(path =~= front.push('/') + last);
                assert(!last.contains('/')) by {
                    if last.contains('/') {
                        let j = last.index_of('/');
                        assert(path[i + 1 + j] == '/');
                    }
                }
                lemma_find_char(last, '/');
                assert(split(last, '/') == seq![last]);
                lemma_split_join(front, last, '/');
                assert(split(front, '/') + seq![last] =~= split(front, '/').push(last));
                lemma_counting_push(split(front, '/'), last);
                assert(i < n - 1) by {
                    if i == n - 1 {
                        assert(path.last() == '/');
                        assert(path[0] == '/');
                    }
                }
                assert(last != "."@) by {
                    if last == "."@ {
                        assert(i == n - 2);
                        assert(path.last() == last[0]);
                    }
                }
            },
        }
    }
}

/// A path without its dots names the same file by the same pieces that count, and
/// is plain unless it is empty, begins at the root or goes up somewhere.
pub proof fn law_dots_count_for_nothing(path: Seq<char>)
    ensures
        file_name(undotted(path)) == file_name(path),
        counting(split(undotted(path), '/')) == counting(split(path, '/')),
        is_plain_relative(undotted(path)) <==> undotted(path).len() > 0 && !is_absolute(path)
            && !split(path, '/').contains(".."@),
{
    reveal_strlit(".");
    reveal_strlit("..");
    reveal_strlit("/");
    let pieces = split(path, '/');
    lemma_pieces_are_cut(path, '/');
    if is_absolute(path) {
        assert(components(path)[0] == "/"@);
        assert(!is_name(components(path)[0]));
    } else {
        let kept = without_dots(pieces);
        let r = undotted(path);
        lemma_without_dots(pieces);
        if kept.len() == 0 {
            let empty = Seq::<char>::empty();
            assert(r =~= empty);
            lemma_find_char(empty, '/');
            assert(split(r, '/') == seq![empty]);
            assert(Seq::<Seq<char>>::empty().push(empty) =~= seq![empty]);
            lemma_counting_push(Seq::<Seq<char>>::empty(), empty);
        } else {
            assert forall|i: int| 0 <= i < kept.len() implies !(#[trigger] kept[i]).contains(
                '/',
            ) by {
                let k = choose|k: int| 0 <= k < pieces.len() && pieces[k] == kept[i];
                assert(!pieces[k].contains('/'));
            }
            lemma_joined_is_cut(kept);
            assert(split(r, '/') == kept);
            lemma_first_of_joined(kept);
            assert(!is_absolute(r)) by {
                if is_absolute(r) {
                    assert(kept[0][0] == '/');
                    assert(kept[0].contains('/'));
                }
            }
            assert(components(r) == counting(kept));
            lemma_counting_takes(kept);
            lemma_counting_keeps(kept, ".."@);
            lemma_counting_keeps(pieces, ".."@);
            assert forall|i: int|
                0 <= i < components(r).len() && !pieces.contains(".."@) implies is_name(
                #[trigger] components(r)[i],
            ) by {
                let piece = components(r)[i];
                let k = choose|k: int| 0 <= k < kept.len() && kept[k] == piece;
                assert(pieces.contains(kept[k]));
                if piece == "/"@ {
                    assert(piece[0] == '/');
                    assert(kept[k].contains('/'));
                }
            }
            if pieces.contains(".."@) {
                let i = counting(pieces).index_of(".."@);
                assert(components(r)[i] == ".."@);
                assert(!is_name(components(r)[i]));
            }
        }
        lemma_name_is_last_piece(path);
        assert(!is_absolute(r));
        lemma_name_is_last_piece(r);
    }
}

/// What is joined begins with its first piece, where that holds something.
proof fn lemma_first_of_joined(pieces: Seq<Seq<char>>)
    requires
        pieces.len() > 0,
        pieces[0].len() > 0,
    ensures
        joined(pieces, "/"@).len() > 0,
        joined(pieces, "/"@)[0] == pieces[0][0],
    decreases pieces.len(),
{
    if pieces.len() > 1 {
        lemma_first_of_joined(pieces.drop_last());
    }
}

/// A piece that counts is found among those that do.
proof fn lemma_counting_keeps(pieces: Seq<Seq<char>>, piece: Seq<char>)
    requires
        !is_void(piece),
    ensures
        pieces.contains(piece) ==> counting(pieces).contains(piece),
    decreases pieces.len(),
{
    if pieces.contains(piece) {
        let front = pieces.drop_last();
        let all = counting(pieces);
        if pieces.last() == piece {
            assert(all.last() == piece);
            assert(all[all.len() - 1] == piece);
        } else {
            let k = pieces.index_of(piece);
            assert(front[k] == piece);
            lemma_counting_keeps(front, piece);
            let j = counting(front).index_of(piece);
            assert(all[j] == piece);
        }
    }
}

/// Pieces hold nothing that the text does not hold.
proof fn lemma_pieces_hold_no_more(s: Seq<char>, sep: char, c: char)
    requires
        !s.contains(c),
    ensures
        forall|i: int| 0 <= i < split(s, sep).len() ==> !(#[trigger] split(s, sep)[i]).contains(c),
    decreases s.len(),
{
    lemma_find_char(s, sep);
    if let Some(k) = find_char(s, sep) {
        let rest = s.skip(k + 1);
        assert(!rest.contains(c)) by {
            if rest.contains(c) {
                let j = rest.index_of(c);
                assert(s[k + 1 + j] == c);
            }
        }
        lemma_pieces_hold_no_more(rest, sep, c);
        let all = split(s, sep);
        assert forall|i: int| 0 <= i < all.len() implies !(#[trigger] all[i]).contains(c) by {
            if i == 0 {
                assert(all[0] == s.take(k));
                if s.take(k).contains(c) {
                    let j = s.take(k).index_of(c);
                    assert(s[j] == c);
                }
            } else {
                assert(all[i] == split(rest, sep)[i - 1]);
            }
        }
    }
}

/// What is joined holds nothing but what its pieces and the separator hold.
proof fn lemma_joined_holds_no_more(pieces: Seq<Seq<char>>, c: char)
    requires
        c != '/',
        forall|i: int| 0 <= i < pieces.len() ==> !(#[trigger] pieces[i]).contains(c),
    ensures
        !joined(pieces, "/"@).contains(c),
    decreases pieces.len(),
{
    reveal_strlit("/");
    if pieces.len() > 0 {
        let front = pieces.drop_last();
        let last = pieces.last();
        let all = joined(pieces, "/"@);
        assert(!pieces[pieces.len() - 1].contains(c));
        assert forall|i: int| 0 <= i < front.len() implies !(#[trigger] front[i]).contains(c) by {
            assert(front[i] == pieces[i]);
        }
        lemma_joined_holds_no_more(front, c);
        if pieces.len() > 1 && all.contains(c) {
            let before = joined(front, "/"@);
            let j = all.index_of(c);
            if j < before.len() {
                assert(before[j] == c);
            } else if j > before.len() {
                assert(last[j - before.len() - 1] == c);
            }
        }
    }
}

/// A path without its dots holds nothing that it did not hold.
pub proof fn lemma_undotted_holds_no_more(path: Seq<char>, c: char)
    requires
        c != '/',
        !path.contains(c),
    ensures
        !undotted(path).contains(c),
{
    let pieces = split(path, '/');
    let kept = without_dots(pieces);
    lemma_pieces_hold_no_more(path, '/', c);
    lemma_without_dots(pieces);
    assert forall|i: int| 0 <= i < kept.len() implies !(#[trigger] kept[i]).contains(c) by {
        let k = choose|k: int| 0 <= k < pieces.len() && pieces[k] == kept[i];
        assert(!pieces[k].contains(c));
    }
    lemma_joined_holds_no_more(kept, c);
}

/// The pieces that count in two runs are those of the one and those of the other.
proof fn lemma_counting_both(a: Seq<Seq<char>>, b: Seq<Seq<char>>)
    ensures
        counting(a + b) == counting(a) + counting(b),
    decreases b.len(),
{
    if b.len() == 0 {
        assert(a + b =~= a);
        assert(counting(a) + counting(b) =~= counting(a));
    } else {
        lemma_counting_both(a, b.drop_last());
        assert((a + b).drop_last() =~= a + b.drop_last());
        if !is_void(b.last()) {
            assert((counting(a) + counting(b.drop_last())).push(b.last()) =~= counting(a)
                + counting(b));
        }
    }
}

/// A text without a separator is one piece.
proof fn lemma_one_piece(s: Seq<char>)
    requires
        !s.contains('/'),
    ensures
        split(s, '/') == seq![s],
{
    lemma_find_char(s, '/');
}

/// The first piece of a path does not change when the path is continued.
proof fn lemma_first_piece(a: Seq<char>, b: Seq<char>)
    ensures
        split(a.push('/') + b, '/')[0] == split(a, '/')[0],
        split(a, '/').len() > 0,
{
    lemma_split_join(a, b, '/');
    lemma_pieces_are_cut(a, '/');
}

/// The components of a path that goes on: what is added counts piece by piece.
proof fn lemma_components_go_on(a: Seq<char>, b: Seq<char>)
    requires
        a.len() > 0,
    ensures
        components(a.push('/') + b) == components(a) + counting(split(b, '/')),
{
    lemma_split_join(a, b, '/');
    lemma_first_piece(a, b);
    lemma_counting_both(split(a, '/'), split(b, '/'));
    let all = a.push('/') + b;
    assert(all[0] == a[0]);
    assert(components(all) =~= components(a) + counting(split(b, '/')));
}

/// What stands inside a directory has the components of the directory and one more:
/// a name, or `..`. It lies within the directory, and the directory not within it.
pub proof fn law_a_path_grows_by_a_component(dir: Seq<char>, name: Seq<char>)
    requires
        dir.len() > 0,
        name.len() > 0,
        name != "."@,
        !name.contains('/'),
    ensures
        components(joined_path(dir, name)) == components(dir).push(name),
        path_within(joined_path(dir, name), dir),
        !path_within(dir, joined_path(dir, name)),
{
    assert(name[0] != '/');
    lemma_one_piece(name);
    assert(Seq::<Seq<char>>::empty().push(name) =~= seq![name]);
    lemma_counting_push(Seq::<Seq<char>>::empty(), name);
    let all = joined_path(dir, name);
    if dir.last() == '/' {
        let d = dir.drop_last();
        let none = Seq::<char>::empty();
        assert(d.push('/') =~= dir);
        if d.len() == 0 {
            lemma_one_piece(none);
            assert(d =~= none);
            lemma_split_join(none, name, '/');
            lemma_split_join(none, none, '/');
            assert(none.push('/') + name =~= all);
            assert(none.push('/') + none =~= dir);
            lemma_counting_both(seq![none], seq![name]);
            lemma_counting_both(seq![none], seq![none]);
            assert(Seq::<Seq<char>>::empty().push(none) =~= seq![none]);
            lemma_counting_push(Seq::<Seq<char>>::empty(), none);
            assert(counting(seq![none]) =~= seq![]);
            assert(all[0] == '/');
            assert(components(all) =~= components(dir).push(name));
        } else {
            lemma_components_go_on(d, name);
            lemma_components_go_on(d, none);
            assert(d.push('/') + none =~= dir);
            lemma_one_piece(none);
            assert(Seq::<Seq<char>>::empty().push(none) =~= seq![none]);
            lemma_counting_push(Seq::<Seq<char>>::empty(), none);
            assert(components(all) =~= components(dir).push(name));
        }
    } else {
        lemma_components_go_on(dir, name);
        assert(components(all) =~= components(dir).push(name));
    }
    assert(components(all).take(components(dir).len() as int) =~= components(dir));
}

/// The root is one component, and the empty path has none.
pub proof fn law_where_paths_begin()
    ensures
        components("/"@) == seq!["/"@],
        components(""@).len() == 0,
{
    reveal_strlit("/");
    reveal_strlit("");
    reveal_strlit(".");
    let none = Seq::<char>::empty();
    lemma_one_piece(none);
    lemma_split_join(none, none, '/');
    lemma_counting_both(seq![none], seq![none]);
    assert(Seq::<Seq<char>>::empty().push(none) =~= seq![none]);
    lemma_counting_push(Seq::<Seq<char>>::empty(), none);
    assert(none.push('/') + none =~= "/"@);
    assert(""@ =~= none);
    assert(components("/"@) =~= seq!["/"@]);
    assert(none != "."@);
}

/// A separator that is repeated, and a `.` between two, count for nothing.
pub proof fn law_paths_that_are_the_same(a: Seq<char>, b: Seq<char>)
    requires
        a.len() > 0,
    ensures
        same_path(a.push('/') + b.insert(0, '/'), a.push('/') + b),
        same_path(a.push('/') + (seq!['.', '/'] + b), a.push('/') + b),
        same_path(a.push('/'), a),
{
    reveal_strlit(".");
    let none = Seq::<char>::empty();
    let dot = seq!['.'];
    lemma_components_go_on(a, b);
    lemma_components_go_on(a, b.insert(0, '/'));
    lemma_components_go_on(a, seq!['.', '/'] + b);
    lemma_components_go_on(a, none);
    assert(a.push('/') + none =~= a.push('/'));
    assert(none.push('/') + b =~= b.insert(0, '/'));
    assert(dot.push('/') + b =~= seq!['.', '/'] + b);
    lemma_split_join(none, b, '/');
    lemma_split_join(dot, b, '/');
    lemma_one_piece(none);
    lemma_one_piece(dot);
    assert(dot =~= "."@);
    lemma_counting_both(seq![none], split(b, '/'));
    lemma_counting_both(seq![dot], split(b, '/'));
    assert(Seq::<Seq<char>>::empty().push(none) =~= seq![none]);
    assert(Seq::<Seq<char>>::empty().push(dot) =~= seq![dot]);
    lemma_counting_push(Seq::<Seq<char>>::empty(), none);
    lemma_counting_push(Seq::<Seq<char>>::empty(), dot);
    assert(counting(seq![none]) + counting(split(b, '/')) =~= counting(split(b, '/')));
    assert(counting(seq![dot]) + counting(split(b, '/')) =~= counting(split(b, '/')));
    assert(components(a.push('/')) =~= components(a));
}

/// A path that begins at the root stands for itself wherever it is taken.
pub proof fn law_absolute_paths_stand_for_themselves(base: Seq<char>, rest: Seq<char>)
    ensures
        joined_path(base, seq!['/'] + rest) == seq!['/'] + rest,
{
}

/// A path is plain where it is not empty, does not begin at the root, and none of
/// what stands between its separators is `.` or `..`.
pub proof fn law_what_is_plain(path: Seq<char>)
    ensures
        is_plain_relative(path) <==> path.len() > 0 && path[0] != '/' && !split(
            path,
            '/',
        ).contains("."@) && !split(path, '/').contains(".."@),
{
    reveal_strlit("/");
    reveal_strlit(".");
    reveal_strlit("..");
    let pieces = split(path, '/');
    lemma_pieces_are_cut(path, '/');
    lemma_counting_takes(pieces);
    if is_plain_relative(path) {
        if path[0] == '/' {
            assert(components(path)[0] == "/"@);
        }
        if pieces.contains(".."@) {
            lemma_counting_keeps(pieces, ".."@);
            let i = counting(pieces).index_of(".."@);
            assert(components(path)[i] == ".."@);
        }
        if pieces.contains("."@) {
            let i = pieces.index_of("."@);
            assert(pieces[i] == "."@);
        }
    }
    if path.len() > 0 && path[0] != '/' && !pieces.contains("."@) && !pieces.contains(".."@) {
        assert(pieces[0] != "."@);
        assert forall|i: int| 0 <= i < components(path).len() implies is_name(
            #[trigger] components(path)[i],
        ) by {
            let piece = components(path)[i];
            let k = choose|k: int| 0 <= k < pieces.len() && pieces[k] == piece;
            assert(pieces[k] == piece);
            assert(!pieces[k].contains('/'));
            if piece == "/"@ {
                assert(piece[0] == '/');
            }
        }
    }
}

/// A name is taken apart at its last dot.
pub proof fn law_names_are_taken_apart_at_the_last_dot(stem: Seq<char>, ext: Seq<char>)
    requires
        stem.len() > 0,
        !ext.contains('.'),
    ensures
        stem_of(stem.push('.') + ext) == stem,
        extension_of(stem.push('.') + ext) == Some(ext),
{
    let name = stem.push('.') + ext;
    let k = stem.len() as int;
    lemma_find_last_char(name, '.');
    assert(name[k] == '.');
    assert(name.contains('.'));
    let i = find_last_char(name, '.')->Some_0;
    if i > k {
        assert(ext[i - k - 1] == '.');
    } else if i < k {
        assert(name.skip(i + 1)[k - i - 1] == '.');
    }
    assert(name.take(k) =~= stem);
    assert(name.skip(k + 1) =~= ext);
}

/// A name with no dot behind its first character is not taken apart.
pub proof fn law_names_without_a_dot_stay_whole(name: Seq<char>)
    requires
        !name.skip(1).contains('.'),
        name.len() > 0,
    ensures
        stem_of(name) == name,
        extension_of(name) is None,
{
    lemma_find_last_char(name, '.');
    if let Some(i) = find_last_char(name, '.') {
        if i > 0 {
            assert(name.skip(1)[i - 1] == '.');
        }
    }
}

/// Paths of other systems than Windows stay as they are. Of those of Windows each
/// separator is written as `/`, and the prefix of a resolved path is taken off.
pub proof fn law_paths_of_a_platform(path: Seq<char>, other: Platform, i: int)
    requires
        0 <= i < path.len(),
        other != Platform::Windows,
    ensures
        portable(path, other) == path,
        native(path, other) == path,
        slashed(path, other) == path,
        slashed(path, Platform::Windows).len() == path.len(),
        path[i] == '\\' ==> slashed(path, Platform::Windows)[i] == '/',
        path[i] != '\\' ==> slashed(path, Platform::Windows)[i] == path[i],
        !"UNC\\"@.is_prefix_of(path) ==> portable("\\\\?\\"@ + path, Platform::Windows) == slashed(
            path,
            Platform::Windows,
        ),
        portable("\\\\?\\UNC\\"@ + path, Platform::Windows) == "//"@ + slashed(
            path,
            Platform::Windows,
        ),
        !"\\\\?\\"@.is_prefix_of(path) ==> portable(path, Platform::Windows) == slashed(
            path,
            Platform::Windows,
        ),
        path.len() > 2 ==> native(path, Platform::Windows) == path,
{
    reveal_strlit("\\\\?\\UNC\\");
    reveal_strlit("\\\\?\\");
    reveal_strlit("UNC\\");
    let long = "\\\\?\\UNC\\"@;
    let short = "\\\\?\\"@;
    assert((short + path).skip(4) =~= path);
    assert((long + path).skip(8) =~= path);
    assert((short + path).take(4) =~= short);
    assert((long + path).take(8) =~= long);
    if long.is_prefix_of(short + path) {
        assert(forall|k: int| 0 <= k < 8 ==> long[k] == (short + path).subrange(0, 8)[k]);
        assert("UNC\\"@ =~= path.subrange(0, 4)) by {
            assert(path[0] == (short + path).subrange(0, 8)[4]);
            assert(path[1] == (short + path).subrange(0, 8)[5]);
            assert(path[2] == (short + path).subrange(0, 8)[6]);
            assert(path[3] == (short + path).subrange(0, 8)[7]);
        }
    }
    if long.is_prefix_of(path) {
        assert(short =~= path.subrange(0, 4)) by {
            assert(forall|k: int| 0 <= k < 8 ==> long[k] == path.subrange(0, 8)[k]);
        }
    }
}

/// A separator at the end of a path counts for nothing, and neither does a `.`
/// behind one.
pub proof fn law_the_end_of_a_path(path: Seq<char>)
    requires
        path.len() > 0,
    ensures
        file_name(path.push('/')) == file_name(path),
        parent(path.push('/')) == parent(path),
        file_name(path.push('/').push('.')) == file_name(path),
        parent(path.push('/').push('.')) == parent(path),
{
    assert(path.push('/').drop_last() =~= path);
    assert(path.push('/').push('.').drop_last() =~= path.push('/'));
    assert(without_void_end(path.push('/')) == without_void_end(path));
    assert(without_void_end(path.push('/').push('.')) == without_void_end(path.push('/')));
}

/// The name of a file in a directory, and the directory of a file.
pub proof fn law_a_name_in_a_directory(dir: Seq<char>, name: Seq<char>)
    requires
        name.len() > 0,
        !name.contains('/'),
        name != "."@,
        name != ".."@,
        dir.len() > 0 ==> dir == "/"@ || dir.last() != '/' && dir.last() != '.',
    ensures
        file_name(joined_path(dir, name)) == Some(name),
        parent(joined_path(dir, name)) == Some(dir),
        dir.len() > 0 && dir != "/"@ ==> joined_path(dir, name) == dir.push('/') + name,
        joined_path("/"@, name) == "/"@ + name,
        joined_path(""@, name) == name,
{
    reveal_strlit("/");
    reveal_strlit("");
    assert(name[0] != '/');
    law_joining_and_taking_apart(dir, name);
}

/// The last component of the root, of `.`, of `..` and of nothing is no name.
pub proof fn law_paths_without_a_name(dir: Seq<char>)
    ensures
        file_name(""@) is None,
        file_name("/"@) is None,
        file_name("."@) is None,
        file_name(".."@) is None,
        file_name(dir + "/.."@) is None,
        parent(""@) is None,
        parent("/"@) is None,
{
    reveal_strlit("");
    reveal_strlit("/");
    reveal_strlit(".");
    reveal_strlit("..");
    reveal_strlit("/..");
    let all = dir + "/.."@;
    let n = dir.len() as int;
    assert(all[n] == '/' && all[n + 1] == '.' && all[n + 2] == '.');
    assert(without_void_end(all) == all);
    let up = ".."@;
    assert forall|i: int| 0 <= i < up.len() implies up[i] != '/' by {}
    assert(all =~= dir.push('/') + up);
    lemma_last_start(dir.push('/'), up);
    assert(all.skip(n + 1) =~= up);
    let none = Seq::<char>::empty();
    lemma_last_start(none, up);
    assert(none + up =~= up);
    assert(up.skip(0) =~= up);
    let dot = "."@;
    assert forall|i: int| 0 <= i < dot.len() implies dot[i] != '/' by {}
    lemma_last_start(none, dot);
    assert(none + dot =~= dot);
    assert(dot.skip(0) =~= dot);
    lemma_last_start("/"@, none);
    assert("/"@ + none =~= "/"@);
    assert(without_void_end(up) == up);
    assert(without_void_end(dot) == dot);
}

} // verus!
