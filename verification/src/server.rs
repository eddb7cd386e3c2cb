//! Which requests the local HTTP server takes.
use vstd::prelude::*;

use crate::path::lemma_find_last_char;
use crate::reply::{text_reply, Reply};
use crate::text::{
    ascii_lower, chars_of, find_last_char, find_last_char_in, has_prefix_str, is_word,
    law_lower_case_changes_capitals_only, lemma_same_char, lemma_word, lower_chars, same_chars,
    text_ref_option, trim, trimmed,
};

verus! {

/// What a request is told that is not for a loopback address.
pub const HOST_REJECTION_BODY: &'static str = "403 Forbidden: Host header must be 127.0.0.1 or localhost";

/// The most bytes that the body of a request may have.
pub const MAX_BODY_BYTES: usize = 1048576;

/// Whether `s` is one or more ASCII digits.
pub open spec fn all_digits(s: Seq<char>) -> bool {
    s.len() > 0 && forall|i: int| 0 <= i < s.len() ==> '0' <= #[trigger] s[i] && s[i] <= '9'
}

/// Whether `s` is `:` and a port.
pub open spec fn port_suffix(s: Seq<char>) -> bool {
    ":"@.is_prefix_of(s) && all_digits(s.skip(1))
}

/// Whether `name` is a loopback name.
pub open spec fn loopback_name(name: Seq<char>) -> bool {
    ascii_lower(name) == "127.0.0.1"@ || ascii_lower(name) == "localhost"@
}

/// Whether a `Host` header names a loopback address: `127.0.0.1`, `localhost` or
/// `[::1]`, with or without a port.
pub open spec fn allowed_host(header: Seq<char>) -> bool {
    let host = trimmed(header);
    if "[::1]"@.is_prefix_of(host) {
        host.skip(5).len() == 0 || port_suffix(host.skip(5))
    } else {
        match find_last_char(host, ':') {
            Some(i) => all_digits(host.skip(i + 1)) && loopback_name(host.take(i)),
            None => loopback_name(host),
        }
    }
}

/// Whether a request with this `Host` header, of this version of HTTP, is taken.
/// Only before HTTP/1.1 may the header be missing.
pub open spec fn request_allowed(host: Option<Seq<char>>, major: u8, minor: u8) -> bool {
    match host {
        Some(h) => allowed_host(h),
        None => !(major > 1 || (major == 1 && minor >= 1)),
    }
}

fn are_digits(s: &[char]) -> (r: bool)
    ensures
        r == all_digits(s@),
{
    if s.len() == 0 {
        return false;
    }
    let mut i: usize = 0;
    while i < s.len()
        invariant
            i <= s@.len(),
            s@.len() > 0,
            forall|j: int| 0 <= j < i ==> '0' <= #[trigger] s@[j] && s@[j] <= '9',
        decreases s@.len() - i,
    {
        if !('0' <= s[i] && s[i] <= '9') {
            return false;
        }
        i = i + 1;
    }
    true
}

fn is_port_suffix(s: &[char]) -> (r: bool)
    ensures
        r == port_suffix(s@),
{
    proof {
        reveal_strlit(":");
    }
    if !has_prefix_str(s, ":") {
        return false;
    }
    let digits = &s[1..s.len()];
    assert(digits@ =~= s@.skip(1));
    are_digits(digits)
}

fn is_loopback_name(name: &[char]) -> (r: bool)
    ensures
        r == loopback_name(name@),
{
    let lower = lower_chars(name);
    same_chars(lower.as_slice(), chars_of("127.0.0.1").as_slice()) || same_chars(
        lower.as_slice(),
        chars_of("localhost").as_slice(),
    )
}

/// Whether a `Host` header names a loopback address.
pub fn is_allowed_host(header: &str) -> (r: bool)
    ensures
        r == allowed_host(header@),
{
    let header = chars_of(header);
    let host = trim(header.as_slice());
    let n: usize = host.len();
    proof {
        reveal_strlit("[::1]");
    }
    if has_prefix_str(host, "[::1]") {
        let rest = &host[5..n];
        assert(rest@ =~= host@.skip(5));
        return rest.len() == 0 || is_port_suffix(rest);
    }
    match find_last_char_in(host, ':') {
        Some(i) => {
            let name = &host[0..i];
            let port = &host[i + 1..n];
            assert(name@ =~= host@.take(i as int));
            assert(port@ =~= host@.skip(i + 1));
            are_digits(port) && is_loopback_name(name)
        },
        None => is_loopback_name(host),
    }
}

/// What a request is told that is not taken for its `Host` header, or `None` where
/// it is taken.
pub fn host_rejection(host: Option<&str>, major: u8, minor: u8) -> (r: Option<Reply>)
    ensures
        match r {
            None => request_allowed(text_ref_option(host), major, minor),
            Some(reply) => !request_allowed(text_ref_option(host), major, minor) && reply@
                == text_reply(403, HOST_REJECTION_BODY@),
        },
{
    let allowed = match host {
        Some(h) => is_allowed_host(h),
        None => !(major > 1 || (major == 1 && minor >= 1)),
    };
    if allowed {
        None
    } else {
        Some(Reply::text(403, HOST_REJECTION_BODY))
    }
}

/// What a request with a body of `len` bytes is told where that is too much, or
/// `None` where it is not.
pub fn body_rejection(len: usize) -> (r: Option<Reply>)
    ensures
        match r {
            None => len <= MAX_BODY_BYTES,
            Some(reply) => len > MAX_BODY_BYTES && reply@ == text_reply(
                413,
                "413 Payload Too Large"@,
            ),
        },
        r is None <==> len <= 1024 * 1024,
{
    if len > MAX_BODY_BYTES {
        Some(Reply::text(413, "413 Payload Too Large"))
    } else {
        None
    }
}

/// Whether `name` is `127.0.0.1`, or `localhost` in letters of any case.
pub open spec fn is_loopback(name: Seq<char>) -> bool {
    name == "127.0.0.1"@ || is_word(name, "localhost"@)
}

/// Loopback names are told letter by letter.
proof fn lemma_loopback(name: Seq<char>)
    ensures
        is_loopback(name) <==> loopback_name(name),
{
    reveal_strlit("127.0.0.1");
    reveal_strlit("localhost");
    lemma_word(name, "localhost"@);
    law_lower_case_changes_capitals_only(name);
    let l = ascii_lower(name);
    if l == "127.0.0.1"@ {
        assert forall|i: int| 0 <= i < name.len() implies name[i] == "127.0.0.1"@[i] by {
            assert(l[i] == "127.0.0.1"@[i]);
            lemma_same_char(name[i], l[i]);
        }
        assert(name =~= "127.0.0.1"@);
    }
    if name == "127.0.0.1"@ {
        assert forall|i: int| 0 <= i < name.len() implies l[i] == name[i] by {
            lemma_same_char(name[i], l[i]);
        }
        assert(l =~= name);
    }
}

/// A `Host` header is allowed if and only if it names `127.0.0.1`, `localhost` or
/// `[::1]`, with nothing behind it or with `:` and digits. White space round it does
/// not count, nor does the case of letters.
pub proof fn law_only_loopback_is_allowed(header: Seq<char>)
    ensures
        ({
            let t = trimmed(header);
            allowed_host(header) <==> {
                ||| is_loopback(t)
                ||| t == "[::1]"@
                ||| exists|k: int|
                    0 <= k < t.len() && #[trigger] t[k] == ':' && k + 1 < t.len() && (forall|i: int|
                        k < i < t.len() ==> '0' <= #[trigger] t[i] && t[i] <= '9') && (is_loopback(
                        t.take(k),
                    ) || t.take(k) == "[::1]"@)
            }
        }),
{
    reveal_strlit("[::1]");
    reveal_strlit(":");
    reveal_strlit("127.0.0.1");
    reveal_strlit("localhost");
    let t = trimmed(header);
    lemma_loopback(t);
    let has_port = exists|k: int|
        0 <= k < t.len() && #[trigger] t[k] == ':' && k + 1 < t.len() && (forall|i: int|
            k < i < t.len() ==> '0' <= #[trigger] t[i] && t[i] <= '9') && (is_loopback(t.take(k))
            || t.take(k) == "[::1]"@);
    if "[::1]"@.is_prefix_of(t) {
        let rest = t.skip(5);
        assert(t.take(5) =~= t.subrange(0, 5));
        assert(t.take(5) == "[::1]"@);
        assert(t[0] == t.take(5)[0]);
        assert(t[0] == '[');
        if rest.len() == 0 {
            assert(t =~= t.take(5));
        }
        if port_suffix(rest) {
            assert(":"@[0] == rest.subrange(0, 1)[0]);
            assert(t[5] == ':');
            assert forall|i: int| 5 < i < t.len() implies '0' <= #[trigger] t[i] && t[i] <= '9' by {
                assert(rest.skip(1)[i - 6] == t[i]);
            }
        }
        if has_port {
            let k = choose|k: int|
                0 <= k < t.len() && #[trigger] t[k] == ':' && k + 1 < t.len() && (forall|i: int|
                    k < i < t.len() ==> '0' <= #[trigger] t[i] && t[i] <= '9') && (is_loopback(
                    t.take(k),
                ) || t.take(k) == "[::1]"@);
            assert(t.take(k).len() == k);
            if is_loopback(t.take(k)) {
                assert(t.take(k)[0] == t[0]);
            }
            assert(k == 5);
            assert(":"@ =~= rest.subrange(0, 1));
            assert forall|i: int| 0 <= i < rest.skip(1).len() implies '0' <= #[trigger] rest.skip(1)[i]
                && rest.skip(1)[i] <= '9' by {
                assert(rest.skip(1)[i] == t[i + 6]);
            }
        }
        if is_loopback(t) {
            assert(t[0] == '[');
        }
    } else {
        lemma_find_last_char(t, ':');
        if t == "[::1]"@ {
            assert(t.subrange(0, 5) =~= t);
        }
        if has_port {
            let k = choose|k: int|
                0 <= k < t.len() && #[trigger] t[k] == ':' && k + 1 < t.len() && (forall|i: int|
                    k < i < t.len() ==> '0' <= #[trigger] t[i] && t[i] <= '9') && (is_loopback(
                    t.take(k),
                ) || t.take(k) == "[::1]"@);
            assert(t.contains(':'));
            let j = find_last_char(t, ':')->Some_0;
            if j < k {
                assert(t.skip(j + 1)[k - j - 1] == ':');
            } else if k < j {
                assert('0' <= t[j] && t[j] <= '9');
            }
            if t.take(k) == "[::1]"@ {
                assert(t.subrange(0, 5) =~= t.take(k));
            }
            lemma_loopback(t.take(k));
            assert forall|i: int| 0 <= i < t.skip(k + 1).len() implies '0' <= #[trigger] t.skip(
                k + 1,
            )[i] && t.skip(k + 1)[i] <= '9' by {
                assert(t.skip(k + 1)[i] == t[k + 1 + i]);
            }
        }
        if is_loopback(t) {
            if t.contains(':') {
                let j = t.index_of(':');
                assert(t[j] == ':');
                if t == "127.0.0.1"@ {
                    assert("127.0.0.1"@[j] == ':');
                } else {
                    assert(t[j] == "localhost"@[j] || t[j] as u32 + 32 == "localhost"@[j] as u32);
                }
            }
            if find_last_char(t, ':') is Some {
                assert(t.contains(':'));
            }
        }
        if allowed_host(header) {
            if let Some(j) = find_last_char(t, ':') {
                lemma_loopback(t.take(j));
                assert forall|i: int| j < i < t.len() implies '0' <= #[trigger] t[i] && t[i] <= '9' by {
                    assert(t.skip(j + 1)[i - j - 1] == t[i]);
                }
                assert(t[j] == ':');
            }
        }
    }
}

/// A request without a `Host` header is taken in HTTP/1.0 and before only, and one
/// with it if and only if the header is allowed.
pub proof fn law_hosts_are_asked_for(host: Option<Seq<char>>, major: u8, minor: u8)
    ensures
        host is None ==> (request_allowed(host, major, minor) <==> major == 0 || (major == 1
            && minor == 0)),
        host matches Some(h) ==> request_allowed(host, major, minor) == allowed_host(h),
{
}

} // verus!
