//! The decisions of the self-upgrade: reading the release API's answer,
//! comparing versions, checking the published SHA-256 sum and taking the
//! binary out of the release archive. Fetching and replacing the executable
//! are left to the caller.
use vstd::prelude::*;
use sha2::Digest;
use std::io::Read;
use crate::db::opt_view;
use crate::error::GitregError;
use crate::hook::strip_prefix;
use crate::text::{
    chars_of, copy_string, concat2, find, find_char, find_char_exec, find_from_exec,
    lemma_find_from, matches_at, parse_u32, parse_u32_exec, slice_to_vec, string_of,
    trim_start, trim_start_index,
};

verus! {

/// The release API endpoint that names the latest release.
pub const API_URL: &'static str = "https://api.github.com/repos/dpkay-io/gitreg/releases/latest";

/// Where the assets of the latest release are downloaded from.
pub const DOWNLOAD_BASE: &'static str = "https://github.com/dpkay-io/gitreg/releases/latest/download";

/// Largest archive that is downloaded, in bytes.
pub const MAX_DOWNLOAD_BYTES: u64 = 67108864;

// ---------------------------------------------------------------------------
// Versions
// ---------------------------------------------------------------------------

/// A leading `v` removed.
pub open spec fn strip_v(s: Seq<char>) -> Seq<char> {
    if s.len() > 0 && s[0] == 'v' {
        s.drop_first()
    } else {
        s
    }
}

/// The part before the first `-` (a pre-release suffix dropped).
pub open spec fn before_dash(s: Seq<char>) -> Seq<char> {
    match find_char(s, '-') {
        Some(k) => s.take(k),
        None => s,
    }
}

/// `major.minor.patch` of a version string such as `v1.2.3-rc.1`; the patch
/// part is everything after the second dot.
pub open spec fn version_of(s: Seq<char>) -> Option<(u32, u32, u32)> {
    let t = before_dash(strip_v(s));
    match find_char(t, '.') {
        None => None,
        Some(i) => {
            let r = t.skip(i + 1);
            match find_char(r, '.') {
                None => None,
                Some(j) => match (parse_u32(t.take(i)), parse_u32(r.take(j)), parse_u32(r.skip(j + 1))) {
                    (Some(a), Some(b), Some(c)) => Some((a, b, c)),
                    _ => None,
                },
            }
        },
    }
}

/// The order of version triples (lexicographic).
pub open spec fn version_lt(a: (u32, u32, u32), b: (u32, u32, u32)) -> bool {
    a.0 < b.0 || (a.0 == b.0 && (a.1 < b.1 || (a.1 == b.1 && a.2 < b.2)))
}

/// Position of the first `c` in `s` at or after `from`, with its bounds.
fn find_char_in(s: &[char], c: char, from: usize) -> (r: Option<usize>)
    requires
        from <= s@.len(),
    ensures
        match r {
            Some(k) => from <= k < s@.len() && find_char(s@.skip(from as int), c) == Some(k - from),
            None => find_char(s@.skip(from as int), c) is None,
        },
{
    proof {
        crate::text::lemma_find_from_shift(s@, seq![c], from as int, from as int);
        lemma_find_from(s@, seq![c], from as int);
    }
    let r = find_char_exec(s, c, from);
    match r {
        Some(k) => {
            assert(matches_at(s@, seq![c], k as int));
            assert(k + 1 <= s@.len());
        },
        None => {},
    }
    r
}

/// The version triple of a version string such as `v1.2.3`, `0.2.0` or
/// `v1.0.0-rc.1`.
pub fn parse_version(s: &str) -> (r: Option<(u32, u32, u32)>)
    ensures
        r == version_of(s@),
{
    let cs = chars_of(s);
    let start: usize = if cs.len() > 0 && cs[0] == 'v' {
        1
    } else {
        0
    };
    let sv = slice_to_vec(cs.as_slice(), start, cs.len());
    assert(sv@ == strip_v(s@));
    assert(sv@.skip(0) == sv@);
    let t = match find_char_in(sv.as_slice(), '-', 0) {
        Some(k) => slice_to_vec(sv.as_slice(), 0, k),
        None => sv,
    };
    assert(t@ == before_dash(strip_v(s@)));
    assert(t@.skip(0) == t@);
    let i = match find_char_in(t.as_slice(), '.', 0) {
        Some(i) => i,
        None => return None,
    };
    let major = slice_to_vec(t.as_slice(), 0, i);
    let r = slice_to_vec(t.as_slice(), i + 1, t.len());
    assert(r@.skip(0) == r@);
    let j = match find_char_in(r.as_slice(), '.', 0) {
        Some(j) => j,
        None => return None,
    };
    let minor = slice_to_vec(r.as_slice(), 0, j);
    let patch = slice_to_vec(r.as_slice(), j + 1, r.len());
    let a = match parse_u32_exec(major.as_slice()) {
        Some(a) => a,
        None => return None,
    };
    let b = match parse_u32_exec(minor.as_slice()) {
        Some(b) => b,
        None => return None,
    };
    let c = match parse_u32_exec(patch.as_slice()) {
        Some(c) => c,
        None => return None,
    };
    Some((a, b, c))
}

/// The error for a version string that does not parse.
fn unparsable(what: &str) -> (e: GitregError)
    ensures
        e matches GitregError::Upgrade(m) && m@ == what@,
{
    GitregError::Upgrade(copy_string(what))
}

/// Whether the release tagged `latest_tag` is newer than `current_version`.
/// Fails when either does not parse as a version.
pub fn upgrade_needed(current_version: &str, latest_tag: &str) -> (res: Result<bool, GitregError>)
    ensures
        match (version_of(current_version@), version_of(latest_tag@)) {
            (Some(c), Some(l)) => res == Ok::<bool, GitregError>(version_lt(c, l)),
            (None, _) => res matches Err(GitregError::Upgrade(m)) && m@
                == "could not parse current version"@,
            (Some(_), None) => res matches Err(GitregError::Upgrade(m)) && m@
                == "could not parse latest tag: "@ + latest_tag@,
        },
{
    let current = match parse_version(current_version) {
        Some(v) => v,
        None => return Err(unparsable("could not parse current version")),
    };
    let latest = match parse_version(latest_tag) {
        Some(v) => v,
        None => return Err(GitregError::Upgrade(concat2("could not parse latest tag: ", latest_tag))),
    };
    let newer = current.0 < latest.0 || (current.0 == latest.0 && (current.1 < latest.1 || (
    current.1 == latest.1 && current.2 < latest.2)));
    Ok(newer)
}

// ---------------------------------------------------------------------------
// The release API's answer
// ---------------------------------------------------------------------------

/// The value of the `"tag_name"` string field of a JSON text, read the way a
/// simple scanner does: the first occurrence of the key, then optional
/// whitespace, `:`, optional whitespace and a string without escapes.
pub open spec fn tag_name_of(body: Seq<char>) -> Option<Seq<char>> {
    let key = "\"tag_name\""@;
    match find(body, key) {
        None => None,
        Some(pos) => match strip_prefix(trim_start(body.skip(pos + key.len())), seq![':']) {
            None => None,
            Some(r) => match strip_prefix(trim_start(r), seq!['"']) {
                None => None,
                Some(v) => match find_char(v, '"') {
                    Some(e) => Some(v.take(e)),
                    None => None,
                },
            },
        },
    }
}

/// The part of `s` after the whitespace that starts it, and after `c`.
fn after_space_and(s: &[char], c: char) -> (r: Option<Vec<char>>)
    ensures
        match r {
            Some(v) => strip_prefix(trim_start(s@), seq![c]) == Some(v@),
            None => strip_prefix(trim_start(s@), seq![c]) is None,
        },
{
    let a = trim_start_index(s);
    let t = slice_to_vec(s, a, s.len());
    if t.len() > 0 && t[0] == c {
        assert(t@.subrange(0, 1) =~= seq![c]);
        Some(slice_to_vec(t.as_slice(), 1, t.len()))
    } else {
        proof {
            if crate::text::starts_with(t@, seq![c]) {
                assert(t@.subrange(0, 1)[0] == t@[0]);
            }
        }
        None
    }
}

/// The tag name in the release API's JSON answer.
pub fn extract_tag_name(body: &str) -> (r: Option<String>)
    ensures
        opt_view(r) == tag_name_of(body@),
{
    let b = chars_of(body);
    let key = chars_of("\"tag_name\"");
    let pos = match find_from_exec(b.as_slice(), key.as_slice(), 0) {
        Some(p) => p,
        None => return None,
    };
    proof {
        lemma_find_from(b@, key@, 0);
    }
    assert(matches_at(b@, key@, pos as int));
    assert(pos + key@.len() <= b@.len());
    assert(b@.len() == b.len() && key@.len() == key.len());
    let rest = slice_to_vec(b.as_slice(), pos + key.len(), b.len());
    let r = match after_space_and(rest.as_slice(), ':') {
        Some(r) => r,
        None => return None,
    };
    let v = match after_space_and(r.as_slice(), '"') {
        Some(v) => v,
        None => return None,
    };
    assert(v@.skip(0) == v@);
    match find_char_in(v.as_slice(), '"', 0) {
        Some(e) => Some(string_of(slice_to_vec(v.as_slice(), 0, e).as_slice())),
        None => None,
    }
}

/// The latest release's tag, from the release API's answer.
pub fn latest_tag_from_response(body: &str) -> (res: Result<String, GitregError>)
    ensures
        match tag_name_of(body@) {
            Some(t) => res matches Ok(s) && s@ == t,
            None => res matches Err(GitregError::Upgrade(m)) && m@
                == "could not parse tag_name from GitHub API response"@,
        },
{
    match extract_tag_name(body) {
        Some(t) => Ok(t),
        None => Err(unparsable("could not parse tag_name from GitHub API response")),
    }
}


// ---------------------------------------------------------------------------
// Download locations
// ---------------------------------------------------------------------------

/// The download URL of the release archive for `target` with extension `ext`.
pub fn archive_url(target: &str, ext: &str) -> (u: String)
    ensures
        u@ == DOWNLOAD_BASE@ + "/gitreg-latest-"@ + target@ + "."@ + ext@,
{
    let a = concat2(DOWNLOAD_BASE, "/gitreg-latest-");
    let b = concat2(a.as_str(), target);
    let c = concat2(b.as_str(), ".");
    concat2(c.as_str(), ext)
}

/// The download URL of the SHA-256 sum published beside that archive.
pub fn sidecar_url(target: &str, ext: &str) -> (u: String)
    ensures
        u@ == DOWNLOAD_BASE@ + "/gitreg-latest-"@ + target@ + "."@ + ext@ + ".sha256"@,
{
    let a = archive_url(target, ext);
    concat2(a.as_str(), ".sha256")
}

/// The `User-Agent` sent with every request.
pub fn user_agent(version: &str) -> (u: String)
    ensures
        u@ == "gitreg/"@ + version@,
{
    concat2("gitreg/", version)
}

/// Fails on a platform for which no binary is published (`target` empty).
pub fn check_platform(target: &str) -> (res: Result<(), GitregError>)
    ensures
        target@.len() > 0 ==> res is Ok,
        target@.len() == 0 ==> (res matches Err(GitregError::Upgrade(m)) && m@
            == "unsupported platform — no pre-built binary available"@),
{
    if chars_of(target).len() == 0 {
        Err(unparsable("unsupported platform — no pre-built binary available"))
    } else {
        Ok(())
    }
}

// ---------------------------------------------------------------------------
// The published SHA-256 sum
// ---------------------------------------------------------------------------

/// Bytes that the UTF-8 encoding of `c` takes.
pub open spec fn utf8_len(c: char) -> nat {
    if (c as u32) < 0x80 {
        1
    } else if (c as u32) < 0x800 {
        2
    } else if (c as u32) < 0x10000 {
        3
    } else {
        4
    }
}

/// Length of the UTF-8 encoding of `s`: what `str::len` reports.
pub open spec fn utf8_byte_len(s: Seq<char>) -> nat
    decreases s.len(),
{
    if s.len() == 0 {
        0
    } else {
        utf8_byte_len(s.drop_last()) + utf8_len(s.last())
    }
}

/// `str::trim_start_matches` with a character.
pub open spec fn trim_start_char(s: Seq<char>, c: char) -> Seq<char>
    decreases s.len(),
{
    if s.len() > 0 && s[0] == c {
        trim_start_char(s.drop_first(), c)
    } else {
        s
    }
}

/// The index of the first whitespace character of `t` at or after `i`, or
/// its length.
pub open spec fn token_end(t: Seq<char>, i: int) -> int
    decreases t.len() - i,
{
    if i < 0 || i >= t.len() {
        t.len() as int
    } else if crate::text::is_ws(t[i]) {
        i
    } else {
        token_end(t, i + 1)
    }
}

/// The first item of `str::split_whitespace`.
pub open spec fn first_token(s: Seq<char>) -> Option<Seq<char>> {
    let t = trim_start(s);
    if t.len() == 0 {
        None
    } else {
        Some(t.take(token_end(t, 0)))
    }
}

/// The value of a hexadecimal digit (either case).
pub open spec fn hex_value(c: char) -> Option<u8> {
    if '0' <= c && c <= '9' {
        Some(((c as u32) - ('0' as u32)) as u8)
    } else if 'a' <= c && c <= 'f' {
        Some(((c as u32) - ('a' as u32) + 10) as u8)
    } else if 'A' <= c && c <= 'F' {
        Some(((c as u32) - ('A' as u32) + 10) as u8)
    } else {
        None
    }
}

/// `u8::from_str_radix(s, 16)` on the two-character string `ab`; like all of
/// Rust's integer parsing it accepts a leading `+`.
pub open spec fn hex_pair(a: char, b: char) -> Option<u8> {
    if a == '+' {
        hex_value(b)
    } else {
        match (hex_value(a), hex_value(b)) {
            (Some(x), Some(y)) => Some((x * 16 + y) as u8),
            _ => None,
        }
    }
}

/// How reading a 64-byte hexadecimal token two bytes at a time ends.
pub enum HexScan {
    /// All 32 bytes read.
    Bytes(Seq<u8>),
    /// A pair is not hexadecimal.
    Invalid,
    /// A two-byte slice would split a character (the slicing panics).
    SplitsChar,
}

/// Reads pairs `k..32` of `h` (whose pairs before `k` were ASCII and
/// hexadecimal), after the bytes `acc`.
pub open spec fn scan_hex(h: Seq<char>, k: nat, acc: Seq<u8>) -> HexScan
    decreases 32 - k,
{
    if k >= 32 {
        HexScan::Bytes(acc)
    } else {
        let a = h[2 * k as int];
        let b = h[2 * k + 1 as int];
        if (a as u32) >= 0x80 {
            if utf8_len(a) == 2 {
                HexScan::Invalid
            } else {
                HexScan::SplitsChar
            }
        } else if (b as u32) >= 0x80 {
            HexScan::SplitsChar
        } else {
            match hex_pair(a, b) {
                Some(v) => scan_hex(h, k + 1, acc.push(v)),
                None => HexScan::Invalid,
            }
        }
    }
}

/// How reading a `.sha256` file's text ends.
pub enum SidecarOutcome {
    Hash(Seq<u8>),
    Empty,
    BadLength(nat),
    BadHex,
    SplitsChar,
}

/// The reading of a `.sha256` file: byte-order marks dropped, the first
/// whitespace-separated token taken, which must be 64 bytes of hexadecimal.
pub open spec fn sidecar_outcome(text: Seq<char>) -> SidecarOutcome {
    match first_token(trim_start_char(text, '\u{FEFF}')) {
        None => SidecarOutcome::Empty,
        Some(h) => if utf8_byte_len(h) != 64 {
            SidecarOutcome::BadLength(utf8_byte_len(h))
        } else {
            match scan_hex(h, 0, Seq::empty()) {
                HexScan::Bytes(b) => SidecarOutcome::Hash(b),
                HexScan::Invalid => SidecarOutcome::BadHex,
                HexScan::SplitsChar => SidecarOutcome::SplitsChar,
            }
        },
    }
}

proof fn lemma_byte_len_ascii(h: Seq<char>, m: int)
    requires
        0 <= m <= h.len(),
        forall|i: int| 0 <= i < m ==> (#[trigger] h[i] as u32) < 0x80,
    ensures
        utf8_byte_len(h.take(m)) == m,
    decreases m,
{
    if m > 0 {
        assert(h.take(m).drop_last() == h.take(m - 1));
        lemma_byte_len_ascii(h, m - 1);
    }
}

proof fn lemma_byte_len_prefix(h: Seq<char>, m: int)
    requires
        0 <= m <= h.len(),
    ensures
        utf8_byte_len(h.take(m)) <= utf8_byte_len(h),
    decreases h.len() - m,
{
    if m < h.len() {
        lemma_byte_len_prefix(h, m + 1);
        assert(h.take(m + 1).drop_last() == h.take(m));
    } else {
        assert(h.take(m) == h);
    }
}

/// `hex_value` for ASCII characters.
fn hex_value_exec(c: char) -> (r: Option<u8>)
    ensures
        r == hex_value(c),
{
    if '0' <= c && c <= '9' {
        Some((c as u32 - '0' as u32) as u8)
    } else if 'a' <= c && c <= 'f' {
        Some((c as u32 - 'a' as u32 + 10) as u8)
    } else if 'A' <= c && c <= 'F' {
        Some((c as u32 - 'A' as u32 + 10) as u8)
    } else {
        None
    }
}

fn hex_pair_exec(a: char, b: char) -> (r: Option<u8>)
    ensures
        r == hex_pair(a, b),
{
    if a == '+' {
        hex_value_exec(b)
    } else {
        match (hex_value_exec(a), hex_value_exec(b)) {
            (Some(x), Some(y)) => Some(x * 16 + y),
            _ => None,
        }
    }
}

/// What reading a `.sha256` file's text gives (executable form of
/// `sidecar_outcome`).
enum SidecarRead {
    Hash(Vec<u8>),
    Empty,
    BadLength(u128),
    BadHex,
    SplitsChar,
}

/// Executable form of `HexScan`.
enum HexRead {
    Bytes(Vec<u8>),
    Invalid,
    SplitsChar,
}

/// The first whitespace-separated token after the byte-order marks.
fn sidecar_token(text: &str) -> (r: Option<Vec<char>>)
    ensures
        match first_token(trim_start_char(text@, '\u{FEFF}')) {
            Some(h) => r matches Some(v) && v@ == h,
            None => r is None,
        },
{
    let cs = chars_of(text);
    let mut s0: usize = 0;
    assert(cs@.skip(0) == cs@);
    while s0 < cs.len() && cs[s0] == '\u{FEFF}'
        invariant
            s0 <= cs@.len(),
            cs@ == text@,
            trim_start_char(cs@.skip(s0 as int), '\u{FEFF}') == trim_start_char(text@, '\u{FEFF}'),
        decreases cs.len() - s0,
    {
        assert(cs@.skip(s0 as int).drop_first() == cs@.skip(s0 + 1));
        s0 = s0 + 1;
    }
    let body = slice_to_vec(cs.as_slice(), s0, cs.len());
    assert(body@ == trim_start_char(text@, '\u{FEFF}'));
    let a = trim_start_index(body.as_slice());
    let t = slice_to_vec(body.as_slice(), a, body.len());
    assert(t@ == trim_start(body@));
    if t.len() == 0 {
        return None;
    }
    let mut e: usize = 0;
    while e < t.len() && !crate::text::is_whitespace(t[e])
        invariant
            e <= t@.len(),
            token_end(t@, 0) == token_end(t@, e as int),
        decreases t.len() - e,
    {
        e = e + 1;
    }
    let h = slice_to_vec(t.as_slice(), 0, e);
    assert(h@ == t@.take(token_end(t@, 0)));
    Some(h)
}

/// `utf8_byte_len` of `h`.
fn byte_len(h: &[char]) -> (n: u128)
    ensures
        n == utf8_byte_len(h@),
{
    let mut n: u128 = 0;
    let mut i: usize = 0;
    while i < h.len()
        invariant
            i <= h@.len(),
            n == utf8_byte_len(h@.take(i as int)),
            n <= 4 * i,
        decreases h.len() - i,
    {
        let c = h[i];
        let w: u128 = if (c as u32) < 0x80 {
            1
        } else if (c as u32) < 0x800 {
            2
        } else if (c as u32) < 0x10000 {
            3
        } else {
            4
        };
        assert(h@.take(i + 1).drop_last() == h@.take(i as int));
        n = n + w;
        i = i + 1;
    }
    assert(h@.take(h@.len() as int) == h@);
    n
}

/// One step of `scan_hex` at pair `k` when it stops there.
proof fn lemma_scan_step(h: Seq<char>, k: nat, acc: Seq<u8>)
    requires
        k < 32,
    ensures
        scan_hex(h, k, acc) == {
            let a = h[2 * k as int];
            let b = h[2 * k + 1 as int];
            if (a as u32) >= 0x80 {
                if utf8_len(a) == 2 {
                    HexScan::Invalid
                } else {
                    HexScan::SplitsChar
                }
            } else if (b as u32) >= 0x80 {
                HexScan::SplitsChar
            } else {
                match hex_pair(a, b) {
                    Some(v) => scan_hex(h, k + 1, acc.push(v)),
                    None => HexScan::Invalid,
                }
            }
        },
{
}

/// Reads the 32 pairs of a token of 64 bytes.
fn scan_hex_exec(h: &[char]) -> (r: HexRead)
    requires
        utf8_byte_len(h@) == 64,
    ensures
        match scan_hex(h@, 0, Seq::empty()) {
            HexScan::Bytes(b) => r matches HexRead::Bytes(v) && v@ == b,
            HexScan::Invalid => r is Invalid,
            HexScan::SplitsChar => r is SplitsChar,
        },
{
    let mut out: Vec<u8> = Vec::new();
    let mut k: usize = 0;
    while k < 32
        invariant
            k <= 32,
            utf8_byte_len(h@) == 64,
            2 * k <= h@.len(),
            forall|j: int| 0 <= j < 2 * k ==> (#[trigger] h@[j] as u32) < 0x80,
            scan_hex(h@, k as nat, out@) == scan_hex(h@, 0, Seq::empty()),
        decreases 32 - k,
    {
        proof {
            lemma_scan_step(h@, k as nat, out@);
            lemma_byte_len_ascii(h@, 2 * k as int);
            lemma_byte_len_prefix(h@, 2 * k as int);
            if h@.len() == 2 * k {
                assert(h@.take(2 * k as int) == h@);
            }
        }
        let a = h[2 * k];
        if (a as u32) >= 0x80 {
            if (a as u32) < 0x800 {
                return HexRead::Invalid;
            } else {
                return HexRead::SplitsChar;
            }
        }
        proof {
            lemma_byte_len_ascii(h@, 2 * k + 1);
            lemma_byte_len_prefix(h@, 2 * k + 1);
            if h@.len() == 2 * k + 1 {
                assert(h@.take(2 * k + 1) == h@);
            }
        }
        let b = h[2 * k + 1];
        if (b as u32) >= 0x80 {
            return HexRead::SplitsChar;
        }
        match hex_pair_exec(a, b) {
            Some(v) => {
                out.push(v);
            },
            None => {
                return HexRead::Invalid;
            },
        }
        k = k + 1;
    }
    HexRead::Bytes(out)
}

fn read_sidecar(text: &str) -> (r: SidecarRead)
    ensures
        match sidecar_outcome(text@) {
            SidecarOutcome::Hash(b) => r matches SidecarRead::Hash(v) && v@ == b,
            SidecarOutcome::Empty => r is Empty,
            SidecarOutcome::BadLength(n) => r matches SidecarRead::BadLength(m) && m == n,
            SidecarOutcome::BadHex => r is BadHex,
            SidecarOutcome::SplitsChar => r is SplitsChar,
        },
{
    let h = match sidecar_token(text) {
        Some(h) => h,
        None => return SidecarRead::Empty,
    };
    let n = byte_len(h.as_slice());
    if n != 64 {
        return SidecarRead::BadLength(n);
    }
    match scan_hex_exec(h.as_slice()) {
        HexRead::Bytes(v) => SidecarRead::Hash(v),
        HexRead::Invalid => SidecarRead::BadHex,
        HexRead::SplitsChar => SidecarRead::SplitsChar,
    }
}

/// Whether reading the `.sha256` text `text` would slice through a
/// character; the caller stops there, as slicing a string there panics.
pub fn sidecar_splits_char(text: &str) -> (b: bool)
    ensures
        b == (sidecar_outcome(text@) is SplitsChar),
{
    match read_sidecar(text) {
        SidecarRead::SplitsChar => true,
        _ => false,
    }
}

/// The 32 bytes of the SHA-256 sum in the text of a `.sha256` file.
pub fn parse_sha256_sidecar(text: &str) -> (res: Result<Vec<u8>, GitregError>)
    requires
        !(sidecar_outcome(text@) is SplitsChar),
    ensures
        match sidecar_outcome(text@) {
            SidecarOutcome::Hash(b) => res matches Ok(v) && v@ == b && b.len() == 32,
            SidecarOutcome::Empty => res matches Err(GitregError::Upgrade(m)) && m@
                == "sha256 sidecar file is empty"@,
            SidecarOutcome::BadLength(n) => res matches Err(GitregError::Upgrade(m)) && m@
                == "unexpected sha256 format ("@ + crate::text::decimal(n) + " chars, want 64)"@,
            SidecarOutcome::BadHex => res matches Err(GitregError::Upgrade(m)) && m@
                == "invalid hex in sha256 sidecar"@,
            SidecarOutcome::SplitsChar => false,
        },
{
    match read_sidecar(text) {
        SidecarRead::Hash(v) => {
            proof {
                lemma_scan_len(text@);
            }
            Ok(v)
        },
        SidecarRead::Empty => Err(unparsable("sha256 sidecar file is empty")),
        SidecarRead::BadLength(n) => {
            let a = concat2("unexpected sha256 format (", crate::text::decimal_string(n).as_str());
            Err(GitregError::Upgrade(concat2(a.as_str(), " chars, want 64)")))
        },
        SidecarRead::BadHex => Err(unparsable("invalid hex in sha256 sidecar")),
        SidecarRead::SplitsChar => Err(unparsable("invalid hex in sha256 sidecar")),
    }
}

proof fn lemma_scan_hex_len(h: Seq<char>, k: nat, acc: Seq<u8>)
    requires
        k <= 32,
        acc.len() == k,
    ensures
        scan_hex(h, k, acc) matches HexScan::Bytes(b) ==> b.len() == 32,
    decreases 32 - k,
{
    if k < 32 {
        let a = h[2 * k as int];
        let b = h[2 * k + 1 as int];
        if (a as u32) < 0x80 && (b as u32) < 0x80 {
            match hex_pair(a, b) {
                Some(v) => lemma_scan_hex_len(h, k + 1, acc.push(v)),
                None => {},
            }
        }
    }
}

proof fn lemma_scan_len(text: Seq<char>)
    ensures
        sidecar_outcome(text) matches SidecarOutcome::Hash(b) ==> b.len() == 32,
{
    match first_token(trim_start_char(text, '\u{FEFF}')) {
        Some(h) => lemma_scan_hex_len(h, 0, Seq::empty()),
        None => {},
    }
}

// ---------------------------------------------------------------------------
// Checking the archive
// ---------------------------------------------------------------------------

/// The SHA-256 digest of `data` (a function of the bytes alone).
pub uninterp spec fn sha256_of(data: Seq<u8>) -> Seq<u8>;

/// `sha2::Sha256::digest`: the digest of `data`, which is 32 bytes long
/// (its output type is a 32-byte array); which bytes is left to the name
/// `sha256_of`.
#[verifier::external_body]
fn sha256(data: &[u8]) -> (d: Vec<u8>)
    ensures
        d@ == sha256_of(data@),
        d@.len() == 32,
{
    sha2::Sha256::digest(data).to_vec()
}

/// Compares a computed digest with the published one.
pub fn check_digest(actual: &[u8], expected: &[u8]) -> (res: Result<(), GitregError>)
    ensures
        actual@ == expected@ ==> res is Ok,
        actual@ != expected@ ==> (res matches Err(GitregError::Upgrade(m)) && m@
            == "SHA256 mismatch — archive may be corrupted or tampered with"@),
{
    if actual.len() != expected.len() {
        return Err(unparsable("SHA256 mismatch — archive may be corrupted or tampered with"));
    }
    let mut i: usize = 0;
    while i < actual.len()
        invariant
            actual@.len() == expected@.len(),
            forall|j: int| 0 <= j < i ==> actual@[j] == expected@[j],
            i <= actual@.len(),
        decreases actual.len() - i,
    {
        if actual[i] != expected[i] {
            assert(actual@[i as int] != expected@[i as int]);
            return Err(unparsable("SHA256 mismatch — archive may be corrupted or tampered with"));
        }
        i = i + 1;
    }
    assert(actual@ =~= expected@);
    Ok(())
}

/// Checks the archive's bytes against the published SHA-256 sum.
pub fn verify_archive_sha256(bytes: &[u8], expected: &[u8]) -> (res: Result<(), GitregError>)
    ensures
        sha256_of(bytes@) == expected@ ==> res is Ok,
        sha256_of(bytes@) != expected@ ==> (res matches Err(GitregError::Upgrade(m)) && m@
            == "SHA256 mismatch — archive may be corrupted or tampered with"@),
{
    let actual = sha256(bytes);
    check_digest(actual.as_slice(), expected)
}


// ---------------------------------------------------------------------------
// Taking the binary out of the archive
// ---------------------------------------------------------------------------

/// The two archive formats that releases are published in.
#[derive(PartialEq, Eq, Structural, Clone, Copy, Debug)]
pub enum ArchiveKind {
    /// A gzip-compressed tar archive (Linux, macOS).
    TarGz,
    /// A zip archive (Windows).
    Zip,
}

/// Entry `index` of a gzip-compressed tar archive, read by iterating its
/// entries: `Ok(None)` past the last entry, else the raw bytes of the
/// entry's path (the same on every platform), or the text of the first
/// error met.
pub uninterp spec fn tar_gz_entry_path_at(archive: Seq<u8>, index: usize) -> Result<
    Option<Seq<u8>>,
    Seq<char>,
>;

/// The contents of entry `index` of a gzip-compressed tar archive.
pub uninterp spec fn tar_gz_entry_data_at(archive: Seq<u8>, index: usize) -> Result<
    Option<Seq<u8>>,
    Seq<char>,
>;

/// The number of entries of a zip archive.
pub uninterp spec fn zip_entry_count_of(archive: Seq<u8>) -> Result<usize, Seq<char>>;

/// The name of entry `index` of a zip archive.
pub uninterp spec fn zip_entry_name_at(archive: Seq<u8>, index: usize) -> Result<Seq<char>, Seq<char>>;

/// The contents of entry `index` of a zip archive.
pub uninterp spec fn zip_entry_data_at(archive: Seq<u8>, index: usize) -> Result<Seq<u8>, Seq<char>>;

pub open spec fn data_step_view(r: Result<Option<Vec<u8>>, String>) -> Result<
    Option<Seq<u8>>,
    Seq<char>,
> {
    match r {
        Ok(Some(d)) => Ok(Some(d@)),
        Ok(None) => Ok(None),
        Err(e) => Err(e@),
    }
}

pub open spec fn text_result_view(r: Result<String, String>) -> Result<Seq<char>, Seq<char>> {
    match r {
        Ok(n) => Ok(n@),
        Err(e) => Err(e@),
    }
}

pub open spec fn bytes_result_view(r: Result<Vec<u8>, String>) -> Result<Seq<u8>, Seq<char>> {
    match r {
        Ok(d) => Ok(d@),
        Err(e) => Err(e@),
    }
}

pub open spec fn count_result_view(r: Result<usize, String>) -> Result<usize, Seq<char>> {
    match r {
        Ok(n) => Ok(n),
        Err(e) => Err(e@),
    }
}

/// `flate2::read::GzDecoder` under `tar::Archive::entries`, advanced to
/// entry `index` with `Iterator::nth`, then `Entry::path_bytes`. What it
/// returns is named by `tar_gz_entry_path_at`.
#[verifier::external_body]
fn tar_gz_entry_path(archive: &[u8], index: usize) -> (r: Result<Option<Vec<u8>>, String>)
    ensures
        data_step_view(r) == tar_gz_entry_path_at(archive@, index),
{
    let mut ar = tar::Archive::new(flate2::read::GzDecoder::new(archive));
    match ar.entries().map(|mut es| es.nth(index)) {
        Err(e) => Err(e.to_string()),
        Ok(None) => Ok(None),
        Ok(Some(Err(e))) => Err(e.to_string()),
        Ok(Some(Ok(entry))) => Ok(Some(entry.path_bytes().into_owned())),
    }
}

/// As `tar_gz_entry_path`, then `Read::read_to_end` on the entry. What it
/// returns is named by `tar_gz_entry_data_at`.
#[verifier::external_body]
fn tar_gz_entry_data(archive: &[u8], index: usize) -> (r: Result<Option<Vec<u8>>, String>)
    ensures
        data_step_view(r) == tar_gz_entry_data_at(archive@, index),
{
    let mut ar = tar::Archive::new(flate2::read::GzDecoder::new(archive));
    match ar.entries().map(|mut es| es.nth(index)) {
        Err(e) => Err(e.to_string()),
        Ok(None) => Ok(None),
        Ok(Some(Err(e))) => Err(e.to_string()),
        Ok(Some(Ok(mut entry))) => {
            let mut buf = Vec::new();
            entry.read_to_end(&mut buf).map(|_| Some(buf)).map_err(|e| e.to_string())
        },
    }
}

/// `zip::ZipArchive::new` on the bytes, then `ZipArchive::len`. What it
/// returns is named by `zip_entry_count_of`.
#[verifier::external_body]
fn zip_entry_count(archive: &[u8]) -> (r: Result<usize, String>)
    ensures
        count_result_view(r) == zip_entry_count_of(archive@),
{
    zip::ZipArchive::new(std::io::Cursor::new(archive)).map(|a| a.len()).map_err(|e| e.to_string())
}

/// `zip::ZipArchive::by_index` and `ZipFile::name`. What it returns is named
/// by `zip_entry_name_at`.
#[verifier::external_body]
fn zip_entry_name(archive: &[u8], index: usize) -> (r: Result<String, String>)
    ensures
        text_result_view(r) == zip_entry_name_at(archive@, index),
{
    match zip::ZipArchive::new(std::io::Cursor::new(archive)) {
        Err(e) => Err(e.to_string()),
        Ok(mut a) => a.by_index(index).map(|f| f.name().to_string()).map_err(|e| e.to_string()),
    }
}

/// `zip::ZipArchive::by_index` and `Read::read_to_end`. What it returns is
/// named by `zip_entry_data_at`.
#[verifier::external_body]
fn zip_entry_data(archive: &[u8], index: usize) -> (r: Result<Vec<u8>, String>)
    ensures
        bytes_result_view(r) == zip_entry_data_at(archive@, index),
{
    match zip::ZipArchive::new(std::io::Cursor::new(archive)) {
        Err(e) => Err(e.to_string()),
        Ok(mut a) => match a.by_index(index) {
            Err(e) => Err(e.to_string()),
            Ok(mut f) => {
                let mut buf = Vec::new();
                f.read_to_end(&mut buf).map(|_| buf).map_err(|e| e.to_string())
            },
        },
    }
}

/// How looking for the binary in an archive ends.
pub enum Extraction {
    Found(Seq<u8>),
    Failed(Seq<char>),
    Missing,
}

/// A tar entry's path with the trailing separators and `.` components
/// taken off, as Unix path rules ignore them: `a/b/./` is `a/b`.
pub open spec fn trim_path_tail(p: Seq<u8>) -> Seq<u8>
    decreases p.len(),
{
    if p.len() > 0 && p.last() == 0x2fu8 {
        trim_path_tail(p.drop_last())
    } else if p.len() >= 2 && p.last() == 0x2eu8 && p[p.len() - 2] == 0x2fu8 {
        trim_path_tail(p.drop_last())
    } else {
        p
    }
}

/// Where the last component of `t` starts: just after its last `/`, or at 0.
pub open spec fn last_component_start(t: Seq<u8>) -> int
    decreases t.len(),
{
    if t.len() == 0 {
        0
    } else if t.last() == 0x2fu8 {
        t.len() as int
    } else {
        last_component_start(t.drop_last())
    }
}

/// The last component of a tar entry's path under Unix path rules (which
/// is where the release's tar archive is read). For a name that is neither
/// empty, `.` nor `..` and has no `/`, `Path::file_name` of the path is that
/// name exactly when this component is.
pub open spec fn final_component(p: Seq<u8>) -> Seq<u8> {
    let t = trim_path_tail(p);
    t.skip(last_component_start(t))
}

/// Looking through the entries of a tar archive from `k` on for the first
/// whose path's last component is `bin` (as UTF-8 bytes).
pub open spec fn tar_search(archive: Seq<u8>, bin: Seq<u8>, k: int) -> Extraction
    decreases usize::MAX - k,
{
    if k < 0 || k >= usize::MAX {
        Extraction::Missing
    } else {
        match tar_gz_entry_path_at(archive, k as usize) {
            Err(e) => Extraction::Failed(e),
            Ok(None) => Extraction::Missing,
            Ok(Some(p)) => if final_component(p) == bin {
                match tar_gz_entry_data_at(archive, k as usize) {
                    Ok(Some(d)) => Extraction::Found(d),
                    Ok(None) => Extraction::Missing,
                    Err(e) => Extraction::Failed(e),
                }
            } else {
                tar_search(archive, bin, k + 1)
            },
        }
    }
}

/// The start and end of the last component of `p` (see `final_component`).
fn final_component_range(p: &[u8]) -> (r: (usize, usize))
    ensures
        r.0 <= r.1 <= p@.len(),
        p@.subrange(r.0 as int, r.1 as int) == final_component(p@),
{
    let mut end: usize = p.len();
    assert(p@.take(end as int) =~= p@);
    while end > 0 && (p[end - 1] == 0x2fu8 || (end >= 2 && p[end - 1] == 0x2eu8 && p[end - 2]
        == 0x2fu8))
        invariant
            end <= p@.len(),
            trim_path_tail(p@.take(end as int)) == trim_path_tail(p@),
        decreases end,
    {
        let ghost t = p@.take(end as int);
        assert(t.drop_last() =~= p@.take(end - 1));
        assert(t.last() == p@[end - 1]);
        if end >= 2 {
            assert(t[t.len() - 2] == p@[end - 2]);
        }
        end = end - 1;
    }
    let ghost t = p@.take(end as int);
    assert(trim_path_tail(t) == t);
    let mut start: usize = end;
    assert(t.take(start as int) =~= t);
    while start > 0 && p[start - 1] != 0x2fu8
        invariant
            start <= end <= p@.len(),
            t == p@.take(end as int),
            last_component_start(t.take(start as int)) == last_component_start(t),
        decreases start,
    {
        let ghost u = t.take(start as int);
        assert(u.drop_last() =~= t.take(start - 1));
        assert(u.last() == p@[start - 1]);
        start = start - 1;
    }
    proof {
        let u = t.take(start as int);
        if start > 0 {
            assert(u.last() == p@[start - 1]);
        }
        assert(last_component_start(u) == start);
        assert(p@.subrange(start as int, end as int) =~= t.skip(start as int));
    }
    (start, end)
}

/// Whether the last component of the path `p` is `bin`.
fn final_component_is(p: &[u8], bin: &[u8]) -> (b: bool)
    ensures
        b == (final_component(p@) == bin@),
{
    let (start, end) = final_component_range(p);
    if end - start != bin.len() {
        return false;
    }
    let mut i: usize = 0;
    while i < bin.len()
        invariant
            start <= end <= p@.len(),
            end - start == bin@.len(),
            p@.subrange(start as int, end as int) == final_component(p@),
            i <= bin@.len(),
            forall|j: int| 0 <= j < i ==> p@[start + j] == bin@[j],
        decreases bin.len() - i,
    {
        if p[start + i] != bin[i] {
            assert(final_component(p@)[i as int] != bin@[i as int]);
            return false;
        }
        i = i + 1;
    }
    assert(final_component(p@) =~= bin@);
    true
}

/// Looking through entries `k..n` of a zip archive for the first whose name
/// ends with `bin`.
pub open spec fn zip_search(archive: Seq<u8>, bin: Seq<char>, n: int, k: int) -> Extraction
    decreases n - k,
{
    if k < 0 || k >= n {
        Extraction::Missing
    } else {
        match zip_entry_name_at(archive, k as usize) {
            Err(e) => Extraction::Failed(e),
            Ok(name) => if crate::text::ends_with(name, bin) {
                match zip_entry_data_at(archive, k as usize) {
                    Ok(d) => Extraction::Found(d),
                    Err(e) => Extraction::Failed(e),
                }
            } else {
                zip_search(archive, bin, n, k + 1)
            },
        }
    }
}

/// The outcome of looking for the binary named `bin` in an archive.
pub open spec fn extraction(archive: Seq<u8>, kind: ArchiveKind, bin: Seq<char>) -> Extraction {
    match kind {
        ArchiveKind::TarGz => tar_search(archive, vstd::utf8::encode_utf8(bin), 0),
        ArchiveKind::Zip => match zip_entry_count_of(archive) {
            Err(e) => Extraction::Failed(e),
            Ok(n) => zip_search(archive, bin, n as int, 0),
        },
    }
}

fn tar_extract(archive: &[u8], bin: &str) -> (r: Result<Vec<u8>, Option<String>>)
    ensures
        match tar_search(archive@, vstd::utf8::encode_utf8(bin@), 0) {
            Extraction::Found(d) => r matches Ok(v) && v@ == d,
            Extraction::Failed(e) => r matches Err(Some(m)) && m@ == e,
            Extraction::Missing => r matches Err(None),
        },
{
    let bin_bytes = bin.as_bytes();
    let ghost bb = vstd::utf8::encode_utf8(bin@);
    assert(bin_bytes@ == bb);
    let mut k: usize = 0;
    while k < usize::MAX
        invariant
            bin_bytes@ == bb,
            bb == vstd::utf8::encode_utf8(bin@),
            tar_search(archive@, bb, k as int) == tar_search(archive@, bb, 0),
        decreases usize::MAX - k,
    {
        match tar_gz_entry_path(archive, k) {
            Err(e) => return Err(Some(e)),
            Ok(None) => return Err(None),
            Ok(Some(path)) => {
                if final_component_is(path.as_slice(), bin_bytes) {
                    return match tar_gz_entry_data(archive, k) {
                        Ok(Some(d)) => Ok(d),
                        Ok(None) => Err(None),
                        Err(e) => Err(Some(e)),
                    };
                }
            },
        }
        k = k + 1;
    }
    Err(None)
}

fn zip_extract(archive: &[u8], bin: &str) -> (r: Result<Vec<u8>, Option<String>>)
    ensures
        match extraction(archive@, ArchiveKind::Zip, bin@) {
            Extraction::Found(d) => r matches Ok(v) && v@ == d,
            Extraction::Failed(e) => r matches Err(Some(m)) && m@ == e,
            Extraction::Missing => r matches Err(None),
        },
{
    let n = match zip_entry_count(archive) {
        Ok(n) => n,
        Err(e) => return Err(Some(e)),
    };
    let binv = chars_of(bin);
    let mut k: usize = 0;
    while k < n
        invariant
            zip_entry_count_of(archive@) == Ok::<usize, Seq<char>>(n),
            binv@ == bin@,
            k <= n,
            zip_search(archive@, bin@, n as int, k as int) == zip_search(archive@, bin@, n as int, 0),
        decreases n - k,
    {
        match zip_entry_name(archive, k) {
            Err(e) => return Err(Some(e)),
            Ok(name) => {
                let nv = chars_of(name.as_str());
                if crate::text::ends_with_exec(nv.as_slice(), binv.as_slice()) {
                    return match zip_entry_data(archive, k) {
                        Ok(d) => Ok(d),
                        Err(e) => Err(Some(e)),
                    };
                }
            },
        }
        k = k + 1;
    }
    Err(None)
}

/// The file named `binary_name` in a release archive (for a tar archive the
/// entry whose file name is `binary_name`, for a zip archive the first entry
/// whose name ends with it).
pub fn extract_binary(archive_bytes: &[u8], kind: ArchiveKind, binary_name: &str) -> (res: Result<
    Vec<u8>,
    GitregError,
>)
    ensures
        match extraction(archive_bytes@, kind, binary_name@) {
            Extraction::Found(d) => res matches Ok(v) && v@ == d,
            Extraction::Failed(e) => res matches Err(GitregError::Upgrade(m)) && m@ == e,
            Extraction::Missing => res matches Err(GitregError::Upgrade(m)) && m@ == "binary '"@
                + binary_name@ + "' not found in archive"@,
        },
{
    let r = match kind {
        ArchiveKind::TarGz => tar_extract(archive_bytes, binary_name),
        ArchiveKind::Zip => zip_extract(archive_bytes, binary_name),
    };
    match r {
        Ok(v) => Ok(v),
        Err(Some(e)) => Err(GitregError::Upgrade(e)),
        Err(None) => {
            let a = concat2("binary '", binary_name);
            Err(GitregError::Upgrade(concat2(a.as_str(), "' not found in archive")))
        },
    }
}

} // verus!
