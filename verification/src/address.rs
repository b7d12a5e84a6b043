//! Address sources and the address parser.
//!
//! An address text has the scheme prefix `unix:` followed by comma-separated
//! `key=value` segments. The first segment (scanning left to right) whose key
//! is exactly `path` or exactly `abstract` selects the connection mode and the
//! value; segments without `=` and segments with other keys are skipped.

use vstd::prelude::*;

verus! {

/// How the unix socket endpoint is named: by a filesystem path, or by a name
/// in the kernel's abstract namespace (which reserves a leading zero byte in
/// the encoded address).
#[derive(Clone, Copy, Debug, PartialEq, Eq, Structural)]
pub enum ConnectionMode {
    FilesystemPath,
    AbstractNamespace,
}

/// Why an address text was rejected.
#[derive(Clone, Debug, PartialEq, Eq)]
pub enum ParseError {
    /// The text does not begin with the `unix:` scheme prefix.
    NotUnix,
    /// No segment carries a recognized key; the payload is the whole
    /// offending address text.
    UnsupportedAddressType(String),
    /// The value does not fit the fixed-capacity socket address buffer.
    TooLong,
}

/// A required environment-provided address was absent.
#[derive(Clone, Copy, Debug, PartialEq, Eq, Structural)]
pub struct NotFound;

/// The scheme prefix every address text must begin with.
pub open spec fn unix_prefix() -> Seq<char> {
    seq!['u', 'n', 'i', 'x', ':']
}

/// Whether the address text begins with the `unix:` scheme prefix.
pub open spec fn has_unix_prefix(s: Seq<char>) -> bool {
    s.len() >= 5 && s.subrange(0, 5) == unix_prefix()
}

/// The key selecting filesystem-path mode.
pub open spec fn path_key() -> Seq<char> {
    seq!['p', 'a', 't', 'h']
}

/// The key selecting abstract-namespace mode.
pub open spec fn abstract_key() -> Seq<char> {
    seq!['a', 'b', 's', 't', 'r', 'a', 'c', 't']
}

/// Index of the first occurrence of `c` in `s`, or `s.len()` if `c` does not
/// occur.
pub open spec fn find(s: Seq<char>, c: char) -> int
    decreases s.len(),
{
    if s.len() == 0 {
        0
    } else if s[0] == c {
        0
    } else {
        1 + find(s.drop_first(), c)
    }
}

/// `find` returns the index of the first occurrence, or the length.
pub proof fn lemma_find(s: Seq<char>, c: char)
    ensures
        0 <= find(s, c) <= s.len(),
        find(s, c) < s.len() ==> s[find(s, c)] == c,
        forall|j: int| 0 <= j < find(s, c) ==> s[j] != c,
    decreases s.len(),
{
    if s.len() == 0 {
    } else if s[0] == c {
    } else {
        lemma_find(s.drop_first(), c);
        assert forall|j: int| 0 <= j < find(s, c) implies s[j] != c by {
            if j > 0 {
                assert(s.drop_first()[j - 1] == s[j]);
            }
        }
    }
}

/// `find` is pinned down by exhibiting the first occurrence (or its absence).
pub proof fn lemma_find_is(s: Seq<char>, c: char, i: int)
    requires
        0 <= i <= s.len(),
        forall|j: int| 0 <= j < i ==> s[j] != c,
        i < s.len() ==> s[i] == c,
    ensures
        find(s, c) == i,
{
    lemma_find(s, c);
}

/// What one `key=value` segment selects: the mode and value when the key is
/// recognized, nothing when the segment has no `=` or an unrecognized key.
pub open spec fn segment_mode(seg: Seq<char>) -> Option<(ConnectionMode, Seq<char>)> {
    let e = find(seg, '=');
    if e < seg.len() {
        let key = seg.subrange(0, e);
        let value = seg.subrange(e + 1, seg.len() as int);
        if key == path_key() {
            Some((ConnectionMode::FilesystemPath, value))
        } else if key == abstract_key() {
            Some((ConnectionMode::AbstractNamespace, value))
        } else {
            None
        }
    } else {
        None
    }
}

/// Scans the comma-separated segments after the prefix, left to right; the
/// first recognized segment decides, and the scan stops there.
pub open spec fn scan_segments(r: Seq<char>) -> Option<(ConnectionMode, Seq<char>)>
    decreases r.len(),
{
    let i = find(r, ',');
    if 0 <= i < r.len() {
        match segment_mode(r.subrange(0, i)) {
            Some(mv) => Some(mv),
            None => scan_segments(r.subrange(i + 1, r.len() as int)),
        }
    } else {
        segment_mode(r)
    }
}

/// The mode and value an address text denotes, if any: the text must carry
/// the `unix:` prefix and a recognized segment after it.
pub open spec fn spec_parse(s: Seq<char>) -> Option<(ConnectionMode, Seq<char>)> {
    if has_unix_prefix(s) {
        scan_segments(s.skip(5))
    } else {
        None
    }
}

/// Index of the first occurrence of `c` in `s`, or the character length of
/// `s` if `c` does not occur.
fn find_char(s: &str, c: char) -> (i: usize)
    ensures
        i as int == find(s@, c),
{
    let n = s.unicode_len();
    let mut i: usize = 0;
    while i < n
        invariant
            0 <= i <= n,
            n == s@.len(),
            forall|j: int| 0 <= j < i ==> s@[j] != c,
        decreases n - i,
    {
        if s.get_char(i) == c {
            proof {
                lemma_find_is(s@, c, i as int);
            }
            return i;
        }
        i += 1;
    }
    proof {
        lemma_find_is(s@, c, n as int);
    }
    n
}

/// Whether the text begins with the five characters `unix:`.
fn prefix_is_unix(s: &str) -> (b: bool)
    ensures
        b == has_unix_prefix(s@),
{
    let n = s.unicode_len();
    if n < 5 {
        return false;
    }
    let b = s.get_char(0) == 'u' && s.get_char(1) == 'n' && s.get_char(2) == 'i' && s.get_char(3)
        == 'x' && s.get_char(4) == ':';
    proof {
        if b {
            assert(s@.subrange(0, 5) =~= unix_prefix());
        } else {
            assert(s@.subrange(0, 5)[0] == s@[0]);
            assert(s@.subrange(0, 5)[1] == s@[1]);
            assert(s@.subrange(0, 5)[2] == s@[2]);
            assert(s@.subrange(0, 5)[3] == s@[3]);
            assert(s@.subrange(0, 5)[4] == s@[4]);
        }
    }
    b
}

/// Whether the first `e` characters of `seg` are exactly the key `path`.
fn key_is_path(seg: &str, e: usize) -> (b: bool)
    requires
        e <= seg@.len(),
    ensures
        b == (seg@.subrange(0, e as int) == path_key()),
{
    proof {
        assert(seg@.subrange(0, e as int).len() == e);
    }
    if e != 4 {
        return false;
    }
    let b = seg.get_char(0) == 'p' && seg.get_char(1) == 'a' && seg.get_char(2) == 't'
        && seg.get_char(3) == 'h';
    proof {
        if b {
            assert(seg@.subrange(0, 4) =~= path_key());
        } else {
            assert(seg@.subrange(0, 4)[0] == seg@[0]);
            assert(seg@.subrange(0, 4)[1] == seg@[1]);
            assert(seg@.subrange(0, 4)[2] == seg@[2]);
            assert(seg@.subrange(0, 4)[3] == seg@[3]);
        }
    }
    b
}

/// Whether the first `e` characters of `seg` are exactly the key `abstract`.
fn key_is_abstract(seg: &str, e: usize) -> (b: bool)
    requires
        e <= seg@.len(),
    ensures
        b == (seg@.subrange(0, e as int) == abstract_key()),
{
    proof {
        assert(seg@.subrange(0, e as int).len() == e);
    }
    if e != 8 {
        return false;
    }
    let b = seg.get_char(0) == 'a' && seg.get_char(1) == 'b' && seg.get_char(2) == 's'
        && seg.get_char(3) == 't' && seg.get_char(4) == 'r' && seg.get_char(5) == 'a'
        && seg.get_char(6) == 'c' && seg.get_char(7) == 't';
    proof {
        if b {
            assert(seg@.subrange(0, 8) =~= abstract_key());
        } else {
            assert(seg@.subrange(0, 8)[0] == seg@[0]);
            assert(seg@.subrange(0, 8)[1] == seg@[1]);
            assert(seg@.subrange(0, 8)[2] == seg@[2]);
            assert(seg@.subrange(0, 8)[3] == seg@[3]);
            assert(seg@.subrange(0, 8)[4] == seg@[4]);
            assert(seg@.subrange(0, 8)[5] == seg@[5]);
            assert(seg@.subrange(0, 8)[6] == seg@[6]);
            assert(seg@.subrange(0, 8)[7] == seg@[7]);
        }
    }
    b
}

/// Splits one segment on its first `=` and reads the key.
fn segment_mode_exec(seg: &str) -> (r: Option<(ConnectionMode, String)>)
    ensures
        match segment_mode(seg@) {
            Some(mv) => r matches Some(p) && p.0 == mv.0 && p.1@ == mv.1,
            None => r is None,
        },
{
    let n = seg.unicode_len();
    let e = find_char(seg, '=');
    proof {
        lemma_find(seg@, '=');
    }
    if e < n {
        if key_is_path(seg, e) {
            let value = seg.substring_char(e + 1, n).to_owned();
            Some((ConnectionMode::FilesystemPath, value))
        } else if key_is_abstract(seg, e) {
            let value = seg.substring_char(e + 1, n).to_owned();
            Some((ConnectionMode::AbstractNamespace, value))
        } else {
            None
        }
    } else {
        None
    }
}

/// Scans the comma-separated segments left to right; the first recognized
/// one decides.
fn scan_exec(rem: &str) -> (r: Option<(ConnectionMode, String)>)
    ensures
        match scan_segments(rem@) {
            Some(mv) => r matches Some(p) && p.0 == mv.0 && p.1@ == mv.1,
            None => r is None,
        },
    decreases rem@.len(),
{
    let n = rem.unicode_len();
    let i = find_char(rem, ',');
    proof {
        lemma_find(rem@, ',');
    }
    if i < n {
        let seg = rem.substring_char(0, i);
        match segment_mode_exec(seg) {
            Some(p) => Some(p),
            None => scan_exec(rem.substring_char(i + 1, n)),
        }
    } else {
        segment_mode_exec(rem)
    }
}

/// Parses an address text into its connection mode and value.
///
/// The text must begin with `unix:`; of the comma-separated `key=value`
/// segments after the prefix, the first one (left to right) whose key is
/// exactly `path` or exactly `abstract` decides the result. A segment
/// without `=` is skipped; an empty value is accepted. When no segment
/// carries a recognized key, the error reports the whole address text.
pub fn parse(s: &str) -> (r: Result<(ConnectionMode, String), ParseError>)
    ensures
        !has_unix_prefix(s@) ==> r matches Err(ParseError::NotUnix),
        has_unix_prefix(s@) ==> match scan_segments(s@.skip(5)) {
            Some(mv) => r matches Ok(p) && p.0 == mv.0 && p.1@ == mv.1,
            None => (r matches Err(ParseError::UnsupportedAddressType(t)) && t@ == s@),
        },
{
    if !prefix_is_unix(s) {
        return Err(ParseError::NotUnix);
    }
    let n = s.unicode_len();
    let rem = s.substring_char(5, n);
    proof {
        assert(rem@ =~= s@.skip(5));
    }
    match scan_exec(rem) {
        Some(p) => Ok(p),
        None => Err(ParseError::UnsupportedAddressType(s.to_owned())),
    }
}

/// Picks the session bus address: the environment-provided value, if present.
pub fn resolve_session_address(env_value: Option<String>) -> (r: Result<String, NotFound>)
    ensures
        env_value matches Some(v) ==> r matches Ok(a) && a == v,
        env_value is None ==> r is Err,
{
    match env_value {
        Some(v) => Ok(v),
        None => Err(NotFound),
    }
}

/// The well-known system bus address used when the environment provides none.
pub open spec fn system_bus_fallback() -> Seq<char> {
    "unix:path=/var/run/dbus/system_bus_socket"@
}

/// Picks the system bus address: the environment-provided value, or the
/// well-known fallback. Never fails.
pub fn resolve_system_address(env_value: Option<String>) -> (r: String)
    ensures
        env_value matches Some(v) ==> r == v,
        env_value is None ==> r@ == system_bus_fallback(),
{
    match env_value {
        Some(v) => v,
        None => "unix:path=/var/run/dbus/system_bus_socket".to_owned(),
    }
}

/// Picks the address handed down by a launcher process: the same lookup as
/// the session bus address, kept separate for its distinct use.
pub fn resolve_starter_address(env_value: Option<String>) -> (r: Result<String, NotFound>)
    ensures
        env_value matches Some(v) ==> r matches Ok(a) && a == v,
        env_value is None ==> r is Err,
{
    match env_value {
        Some(v) => Ok(v),
        None => Err(NotFound),
    }
}

/// In `key=value`, a key free of `=` ends at the first `=`, and the value is
/// everything after it.
proof fn lemma_segment_mode_split(key: Seq<char>, value: Seq<char>)
    requires
        forall|j: int| 0 <= j < key.len() ==> key[j] != '=',
    ensures
        ({
            let seg = key + seq!['='] + value;
            &&& find(seg, '=') == key.len()
            &&& seg.subrange(0, key.len() as int) == key
            &&& seg.subrange(key.len() as int + 1, seg.len() as int) == value
        }),
{
    let seg = key + seq!['='] + value;
    assert(seg[key.len() as int] == '=');
    assert forall|j: int| 0 <= j < key.len() implies seg[j] != '=' by {
        assert(seg[j] == key[j]);
    }
    lemma_find_is(seg, '=', key.len() as int);
    assert(seg.subrange(0, key.len() as int) =~= key);
    assert(seg.subrange(key.len() as int + 1, seg.len() as int) =~= value);
}

/// Law: an address `unix:path=P` denotes `(FilesystemPath, P)` and an
/// address `unix:abstract=A` denotes `(AbstractNamespace, A)`, for every
/// value free of commas (a comma would end the segment early).
pub proof fn lemma_parse_single_key(value: Seq<char>)
    requires
        !value.contains(','),
    ensures
        spec_parse(unix_prefix() + path_key() + seq!['='] + value) == Some(
            (ConnectionMode::FilesystemPath, value),
        ),
        spec_parse(unix_prefix() + abstract_key() + seq!['='] + value) == Some(
            (ConnectionMode::AbstractNamespace, value),
        ),
{
    lemma_parse_keyed(path_key(), value);
    lemma_parse_keyed(abstract_key(), value);
}

/// The shared shape behind both cases of [`lemma_parse_single_key`]: a
/// single `key=value` segment with a recognized key.
proof fn lemma_parse_keyed(key: Seq<char>, value: Seq<char>)
    requires
        !value.contains(','),
        key == path_key() || key == abstract_key(),
    ensures
        spec_parse(unix_prefix() + key + seq!['='] + value) == Some(
            (
                if key == path_key() {
                    ConnectionMode::FilesystemPath
                } else {
                    ConnectionMode::AbstractNamespace
                },
                value,
            ),
        ),
{
    let s = unix_prefix() + key + seq!['='] + value;
    let r = key + seq!['='] + value;
    assert(s.subrange(0, 5) =~= unix_prefix());
    assert(has_unix_prefix(s));
    assert(s.skip(5) =~= r);
    assert forall|j: int| 0 <= j < key.len() implies key[j] != '=' && key[j] != ',' by {
        if key == path_key() {
            assert(key[0] == 'p' && key[1] == 'a' && key[2] == 't' && key[3] == 'h');
        } else {
            assert(key[0] == 'a' && key[1] == 'b' && key[2] == 's' && key[3] == 't' && key[4]
                == 'r' && key[5] == 'a' && key[6] == 'c' && key[7] == 't');
        }
    }
    assert forall|j: int| 0 <= j < r.len() implies r[j] != ',' by {
        if j < key.len() {
            assert(r[j] == key[j]);
        } else if j == key.len() {
            assert(r[j] == '=');
        } else {
            assert(r[j] == value[j - key.len() - 1]);
            if r[j] == ',' {
                assert(value.contains(','));
            }
        }
    }
    lemma_find_is(r, ',', r.len() as int);
    lemma_segment_mode_split(key, value);
    assert(path_key().len() == 4 && abstract_key().len() == 8);
    assert(scan_segments(s.skip(5)) == segment_mode(r));
}

/// Law: the first recognized key wins, scanning left to right: the address
/// `unix:abstract=X,...` denotes `(AbstractNamespace, X)` whatever follows
/// the comma, for every X free of commas.
pub proof fn lemma_first_match_wins(x: Seq<char>, rest: Seq<char>)
    requires
        !x.contains(','),
    ensures
        spec_parse(unix_prefix() + abstract_key() + seq!['='] + x + seq![','] + rest) == Some(
            (ConnectionMode::AbstractNamespace, x),
        ),
{
    let s = unix_prefix() + abstract_key() + seq!['='] + x + seq![','] + rest;
    let r = s.skip(5);
    let seg = abstract_key() + seq!['='] + x;
    let i0 = seg.len() as int;
    assert(s.subrange(0, 5) =~= unix_prefix());
    assert(has_unix_prefix(s));
    assert(r =~= seg + seq![','] + rest);
    assert(abstract_key()[0] == 'a' && abstract_key()[1] == 'b' && abstract_key()[2] == 's'
        && abstract_key()[3] == 't' && abstract_key()[4] == 'r' && abstract_key()[5] == 'a'
        && abstract_key()[6] == 'c' && abstract_key()[7] == 't');
    assert(r[i0] == ',');
    assert forall|j: int| 0 <= j < i0 implies r[j] != ',' by {
        assert(r[j] == seg[j]);
        if j > 8 {
            assert(seg[j] == x[j - 9]);
            if seg[j] == ',' {
                assert(x.contains(','));
            }
        }
    }
    lemma_find_is(r, ',', i0);
    assert(r.subrange(0, i0) =~= seg);
    lemma_segment_mode_split(abstract_key(), x);
    assert(path_key().len() == 4);
    assert(segment_mode(seg) == Some((ConnectionMode::AbstractNamespace, x)));
}

/// The comma-separated joining of a list of segments.
pub open spec fn join_segments(segs: Seq<Seq<char>>) -> Seq<char>
    decreases segs.len(),
{
    if segs.len() == 0 {
        Seq::empty()
    } else if segs.len() == 1 {
        segs[0]
    } else {
        segs[0] + seq![','] + join_segments(segs.drop_first())
    }
}

/// Law: the scan is strictly left to right. When the segments before `k` are
/// all unrecognized and segment `k` is recognized, the whole address resolves
/// to segment `k`'s mode and value, whatever segments follow.
pub proof fn lemma_leftmost_recognized_segment(segs: Seq<Seq<char>>, k: int)
    requires
        0 <= k < segs.len(),
        forall|i: int| 0 <= i < segs.len() ==> !(#[trigger] segs[i]).contains(','),
        forall|i: int| 0 <= i < k ==> (#[trigger] segment_mode(segs[i])) is None,
        segment_mode(segs[k]) is Some,
    ensures
        scan_segments(join_segments(segs)) == segment_mode(segs[k]),
        spec_parse(unix_prefix() + join_segments(segs)) == segment_mode(segs[k]),
    decreases k,
{
    let r = join_segments(segs);
    if segs.len() == 1 {
        assert forall|j: int| 0 <= j < r.len() implies r[j] != ',' by {
            if r[j] == ',' {
                assert(segs[0].contains(','));
            }
        }
        lemma_find_is(r, ',', r.len() as int);
    } else {
        let head = segs[0];
        let tail = segs.drop_first();
        let i0 = head.len() as int;
        assert(r == head + seq![','] + join_segments(tail));
        assert(r[i0] == ',');
        assert forall|j: int| 0 <= j < i0 implies r[j] != ',' by {
            assert(r[j] == head[j]);
            if head[j] == ',' {
                assert(head.contains(','));
            }
        }
        lemma_find_is(r, ',', i0);
        assert(r.subrange(0, i0) =~= head);
        if k > 0 {
            assert forall|i: int| 0 <= i < tail.len() implies !(#[trigger] tail[i]).contains(
                ',',
            ) by {
                assert(tail[i] == segs[i + 1]);
            }
            assert forall|i: int|
                0 <= i < k - 1 implies (#[trigger] segment_mode(tail[i])) is None by {
                assert(tail[i] == segs[i + 1]);
            }
            assert(tail[k - 1] == segs[k]);
            lemma_leftmost_recognized_segment(tail, k - 1);
            assert(r.subrange(i0 + 1, r.len() as int) =~= join_segments(tail));
        }
    }
    let s = unix_prefix() + r;
    assert(s.subrange(0, 5) =~= unix_prefix());
    assert(has_unix_prefix(s));
    assert(s.skip(5) =~= r);
}

/// Law: an address whose comma-separated segments all lack a recognized key
/// denotes no mode/value pair, so parsing it fails with the
/// unsupported-address error (which carries the whole address text).
pub proof fn lemma_unrecognized_segments(segs: Seq<Seq<char>>)
    requires
        segs.len() >= 1,
        forall|k: int| 0 <= k < segs.len() ==> !(#[trigger] segs[k]).contains(','),
        forall|k: int| 0 <= k < segs.len() ==> (#[trigger] segment_mode(segs[k])) is None,
    ensures
        scan_segments(join_segments(segs)) is None,
        spec_parse(unix_prefix() + join_segments(segs)) is None,
    decreases segs.len(),
{
    let r = join_segments(segs);
    if segs.len() == 1 {
        assert(r == segs[0]);
        assert forall|j: int| 0 <= j < r.len() implies r[j] != ',' by {
            if r[j] == ',' {
                assert(segs[0].contains(','));
            }
        }
        lemma_find_is(r, ',', r.len() as int);
        assert(scan_segments(r) == segment_mode(segs[0]));
    } else {
        let head = segs[0];
        let tail = segs.drop_first();
        let i0 = head.len() as int;
        assert(r == head + seq![','] + join_segments(tail));
        assert(r[i0] == ',');
        assert forall|j: int| 0 <= j < i0 implies r[j] != ',' by {
            assert(r[j] == head[j]);
            if head[j] == ',' {
                assert(head.contains(','));
            }
        }
        lemma_find_is(r, ',', i0);
        assert(r.subrange(0, i0) =~= head);
        assert forall|k: int| 0 <= k < tail.len() implies !(#[trigger] tail[k]).contains(',') by {
            assert(tail[k] == segs[k + 1]);
        }
        assert forall|k: int|
            0 <= k < tail.len() implies (#[trigger] segment_mode(tail[k])) is None by {
            assert(tail[k] == segs[k + 1]);
        }
        lemma_unrecognized_segments(tail);
        assert(r.subrange(i0 + 1, r.len() as int) =~= join_segments(tail));
    }
    let s = unix_prefix() + r;
    assert(s.subrange(0, 5) =~= unix_prefix());
    assert(has_unix_prefix(s));
    assert(s.skip(5) =~= r);
}

} // verus!
