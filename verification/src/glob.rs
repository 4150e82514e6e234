//! Simple glob matching.
//!
//! Supported patterns:
//! - `*` matches any characters except for path separators, including an empty string.
//! - `**` matches any characters, including an empty string.
//!   For convenience, `/**/` also matches `/`.
//!
//! Matching is ASCII case-insensitive, and `/` is the path separator.

use vstd::prelude::*;
use crate::text::{ascii_lower, to_ascii_lowercase};

verus! {

/// `*`
pub const STAR: u8 = 42;

/// `/`
pub const SLASH: u8 = 47;

/// The path separator.
pub open spec fn is_separator(c: u8) -> bool {
    c == 47
}

/// ASCII case-insensitive equality of two bytes.
pub open spec fn eq_ci(a: u8, b: u8) -> bool {
    ascii_lower(a) == ascii_lower(b)
}

/// Whether the star at `i` (a `*` byte) is a double star `**`.
pub open spec fn star_is_double(p: Seq<u8>, i: int) -> bool {
    i + 1 < p.len() && p[i + 1] == 42
}

/// The pattern position right after the star token that starts at `i`:
/// past `*`, past `**`, or past `**/` when that `**` is preceded by `/`.
pub open spec fn star_end(p: Seq<u8>, i: int) -> int {
    if star_is_double(p, i) {
        let a = i + 2;
        if a >= 3 && a < p.len() && p[a] == 47 && p[a - 3] == 47 {
            a + 1
        } else {
            a
        }
    } else {
        i + 1
    }
}

/// Whether `p[i..]` matches `n[j..]`.
///
/// A star either ends at `j`, or takes the byte `n[j]` (which must not be a
/// separator for a single star) and goes on.
pub open spec fn glob_from(p: Seq<u8>, i: int, n: Seq<u8>, j: int) -> bool
    decreases n.len() - j, p.len() - i,
    when 0 <= i && j <= n.len()
{
    if i >= p.len() {
        j >= n.len()
    } else if p[i] == 42 {
        glob_from(p, star_end(p, i), n, j) || (j < n.len() && (star_is_double(p, i)
            || !is_separator(n[j])) && glob_from(p, i, n, j + 1))
    } else {
        j < n.len() && eq_ci(p[i], n[j]) && glob_from(p, i + 1, n, j + 1)
    }
}

/// Whether `n` ends with `suffix`, ignoring ASCII case.
pub open spec fn ends_with_ci(n: Seq<u8>, suffix: Seq<u8>) -> bool {
    n.len() >= suffix.len() && forall|k: int|
        0 <= k < suffix.len() ==> eq_ci(#[trigger] n[n.len() - suffix.len() + k], suffix[k])
}

/// Patterns of the form `**/*suffix` or `**/name`, where neither `suffix` nor
/// `name` holds a star: `**/*suffix` matches any path ending with `suffix`,
/// `**/name` matches `name` and any path ending with `/name`. `None` for all
/// other patterns.
pub open spec fn fast_spec(p: Seq<u8>, n: Seq<u8>) -> Option<bool> {
    if p.len() >= 3 && p[0] == 42 && p[1] == 42 && p[2] == 47 && p.len() > 3 {
        let anchored = p[3] != 42;
        let suffix = if anchored {
            p.skip(3)
        } else {
            p.skip(4)
        };
        if suffix.len() == 0 || suffix.contains(42) {
            None
        } else {
            Some(
                ends_with_ci(n, suffix) && (!anchored || n.len() == suffix.len() || is_separator(
                    n[n.len() - suffix.len() - 1],
                )),
            )
        }
    } else {
        None
    }
}

/// Whether glob `p` matches path `n`.
pub open spec fn glob_spec(p: Seq<u8>, n: Seq<u8>) -> bool {
    match fast_spec(p, n) {
        Some(b) => b,
        None => glob_from(p, 0, n, 0),
    }
}

/// Whether `m[a..b]` holds no path separator.
pub open spec fn no_separator(m: Seq<u8>, a: int, b: int) -> bool {
    forall|t: int| a <= t < b ==> !is_separator(#[trigger] m[t])
}

/// A byte equals `/` ignoring case only if it is `/`.
proof fn lemma_eq_ci_slash(c: u8)
    ensures
        eq_ci(47, c) == (c == 47),
{
}

/// A pattern tail without stars matches exactly the rest of the path of its length
/// that equals it byte for byte, ignoring case.
proof fn lemma_glob_literal(p: Seq<u8>, i: int, m: Seq<u8>, k: int)
    requires
        0 <= i <= p.len(),
        0 <= k <= m.len(),
        forall|t: int| i <= t < p.len() ==> p[t] != 42,
    ensures
        glob_from(p, i, m, k) == (m.len() - k == p.len() - i && forall|t: int|
            0 <= t < p.len() - i ==> eq_ci(p[i + t], #[trigger] m[k + t])),
    decreases p.len() - i,
{
    if i < p.len() && k < m.len() {
        lemma_glob_literal(p, i + 1, m, k + 1);
        if glob_from(p, i, m, k) {
            assert forall|t: int| 0 <= t < p.len() - i implies eq_ci(p[i + t], #[trigger] m[k + t]) by {
                if t > 0 {
                    assert(m[(k + 1) + (t - 1)] == m[k + t]);
                }
            }
        }
        if m.len() - k == p.len() - i && forall|t: int| 0 <= t < p.len() - i ==> eq_ci(p[i + t], #[trigger] m[k + t]) {
            assert(eq_ci(p[i + 0], m[k + 0]));
            assert forall|t: int| 0 <= t < p.len() - (i + 1) implies eq_ci(p[(i + 1) + t], #[trigger] m[(k + 1) + t]) by {
                assert(eq_ci(p[i + (t + 1)], m[k + (t + 1)]));
            }
        }
    }
}

/// A single star followed by `p[i + 1..]` matches `m[k..]` when some stretch of
/// `m[k..]` without separators is followed by a match of the rest.
proof fn lemma_glob_single_star(p: Seq<u8>, i: int, m: Seq<u8>, k: int)
    requires
        0 <= i < p.len(),
        p[i] == 42,
        !star_is_double(p, i),
        0 <= k <= m.len(),
    ensures
        glob_from(p, i, m, k) == exists|k2: int|
            k <= k2 <= m.len() && no_separator(m, k, k2) && #[trigger] glob_from(p, i + 1, m, k2),
    decreases m.len() - k,
{
    assert(star_end(p, i) == i + 1);
    assert(glob_from(p, i, m, k) == (glob_from(p, i + 1, m, k) || (k < m.len() && !is_separator(m[k]) && glob_from(
        p,
        i,
        m,
        k + 1,
    ))));
    if k < m.len() {
        lemma_glob_single_star(p, i, m, k + 1);
        if glob_from(p, i, m, k) {
            if glob_from(p, i + 1, m, k) {
                assert(no_separator(m, k, k));
            } else {
                let k2 = choose|k2: int|
                    k + 1 <= k2 <= m.len() && no_separator(m, k + 1, k2) && #[trigger] glob_from(p, i + 1, m, k2);
                assert(no_separator(m, k, k2));
            }
        }
        if exists|k2: int| k <= k2 <= m.len() && no_separator(m, k, k2) && #[trigger] glob_from(p, i + 1, m, k2) {
            let k2 = choose|k2: int| k <= k2 <= m.len() && no_separator(m, k, k2) && #[trigger] glob_from(p, i + 1, m, k2);
            if k2 > k {
                assert(!is_separator(m[k]));
                assert(no_separator(m, k + 1, k2));
            }
        }
    } else {
        if exists|k2: int| k <= k2 <= m.len() && no_separator(m, k, k2) && #[trigger] glob_from(p, i + 1, m, k2) {
            let k2 = choose|k2: int| k <= k2 <= m.len() && no_separator(m, k, k2) && #[trigger] glob_from(p, i + 1, m, k2);
            assert(k2 == k);
        }
        if glob_from(p, i, m, k) {
            assert(no_separator(m, k, k));
        }
    }
}

/// A leading `**` followed by `/`: `p[0..]` matches `m[k..]` when `p[2..]` matches
/// some `m[k2..]` with `k <= k2`.
proof fn lemma_glob_leading_double_star(p: Seq<u8>, m: Seq<u8>, k: int)
    requires
        p.len() > 3,
        p[0] == 42,
        p[1] == 42,
        p[2] == 47,
        0 <= k <= m.len(),
    ensures
        glob_from(p, 0, m, k) == exists|k2: int| k <= k2 <= m.len() && #[trigger] glob_from(p, 2, m, k2),
    decreases m.len() - k,
{
    assert(star_end(p, 0) == 2);
    assert(star_is_double(p, 0));
    assert(glob_from(p, 0, m, k) == (glob_from(p, 2, m, k) || (k < m.len() && glob_from(p, 0, m, k + 1))));
    if k < m.len() {
        lemma_glob_leading_double_star(p, m, k + 1);
        if glob_from(p, 0, m, k) {
            if !glob_from(p, 2, m, k) {
                let k2 = choose|k2: int| k + 1 <= k2 <= m.len() && #[trigger] glob_from(p, 2, m, k2);
                assert(k <= k2 <= m.len() && glob_from(p, 2, m, k2));
            }
        }
        if exists|k2: int| k <= k2 <= m.len() && #[trigger] glob_from(p, 2, m, k2) {
            let k2 = choose|k2: int| k <= k2 <= m.len() && #[trigger] glob_from(p, 2, m, k2);
            if k2 > k {
                assert(k + 1 <= k2 <= m.len() && glob_from(p, 2, m, k2));
            }
        }
    } else {
        if exists|k2: int| k <= k2 <= m.len() && #[trigger] glob_from(p, 2, m, k2) {
            let k2 = choose|k2: int| k <= k2 <= m.len() && #[trigger] glob_from(p, 2, m, k2);
            assert(k2 == k);
        }
    }
}

/// The last separator before `e` in a path that starts with one.
proof fn last_separator(m: Seq<u8>, e: int) -> (k: int)
    requires
        1 <= e <= m.len(),
        m[0] == 47,
    ensures
        0 <= k < e,
        m[k] == 47,
        no_separator(m, k + 1, e),
    decreases e,
{
    if m[e - 1] == 47 {
        e - 1
    } else {
        let k = last_separator(m, e - 1);
        k
    }
}

/// The fast path gives what the general matcher gives for the path seen from the root,
/// `/` followed by it: `**/*suffix` matches exactly the paths that end with `suffix`,
/// and `**/name` exactly `name` itself and the paths that end with `/name` (so
/// `**/Cargo.toml` does not match `dir/MyCargo.toml`), ignoring ASCII case.
pub proof fn lemma_fast_path_agrees(p: Seq<u8>, n: Seq<u8>)
    ensures
        fast_spec(p, n) matches Some(b) ==> b == glob_from(p, 0, seq![47u8] + n, 0),
{
    if let Some(b) = fast_spec(p, n) {
        let m = seq![47u8] + n;
        assert(m.len() == n.len() + 1);
        assert(m[0] == 47);
        assert(forall|t: int| 0 <= t < n.len() ==> #[trigger] m[t + 1] == n[t]);
        let anchored = p[3] != 42;
        let start: int = if anchored { 3 } else { 4 };
        let suffix = p.skip(start);
        let len = suffix.len() as int;
        assert forall|t: int| start <= t < p.len() implies p[t] != 42 by {
            assert(suffix[t - start] == p[t]);
        }
        lemma_glob_leading_double_star(p, m, 0);
        // The `/` after `**`: `p[2..]` matches `m[k2..]` when `m[k2]` is `/` and the
        // rest of the pattern matches after it.
        assert forall|k2: int| 0 <= k2 <= m.len() implies #[trigger] glob_from(p, 2, m, k2) == (k2 < m.len() && m[k2]
            == 47 && glob_from(p, 3, m, k2 + 1)) by {
            if k2 < m.len() {
                lemma_eq_ci_slash(m[k2]);
            }
        }
        if anchored {
            let k2 = n.len() - len;
            if b {
                // The separator right before `name` (or the root one).
                if k2 > 0 {
                    assert(m[k2] == n[k2 - 1]);
                }
                lemma_glob_literal(p, 3, m, k2 + 1);
                assert forall|t: int| 0 <= t < p.len() - 3 implies eq_ci(p[3 + t], #[trigger] m[(k2 + 1) + t]) by {
                    assert(m[(k2 + 1) + t] == n[k2 + t]);
                    assert(eq_ci(n[n.len() - suffix.len() + t], suffix[t]));
                    assert(suffix[t] == p[3 + t]);
                }
                assert(glob_from(p, 2, m, k2));
            } else {
                if glob_from(p, 0, m, 0) {
                    let j = choose|j: int| 0 <= j <= m.len() && #[trigger] glob_from(p, 2, m, j);
                    lemma_glob_literal(p, 3, m, j + 1);
                    assert(j == k2);
                    assert forall|t: int| 0 <= t < suffix.len() implies eq_ci(
                        #[trigger] n[n.len() - suffix.len() + t],
                        suffix[t],
                    ) by {
                        assert(eq_ci(p[3 + t], m[(j + 1) + t]));
                        assert(m[(j + 1) + t] == n[j + t]);
                        assert(suffix[t] == p[3 + t]);
                    }
                    if k2 > 0 {
                        assert(m[k2] == n[k2 - 1]);
                    }
                    assert(false);
                }
            }
        } else {
            assert(!star_is_double(p, 3)) by {
                assert(suffix[0] == p[4]);
            }
            let k3 = m.len() - len;
            if b {
                lemma_glob_literal(p, 4, m, k3);
                assert forall|t: int| 0 <= t < p.len() - 4 implies eq_ci(p[4 + t], #[trigger] m[k3 + t]) by {
                    assert(m[k3 + t] == n[(k3 - 1) + t]);
                    assert(eq_ci(n[n.len() - suffix.len() + t], suffix[t]));
                    assert(suffix[t] == p[4 + t]);
                }
                let k2 = last_separator(m, k3);
                lemma_glob_single_star(p, 3, m, k2 + 1);
                assert(glob_from(p, 3, m, k2 + 1));
                assert(glob_from(p, 2, m, k2));
            } else {
                if glob_from(p, 0, m, 0) {
                    let j = choose|j: int| 0 <= j <= m.len() && #[trigger] glob_from(p, 2, m, j);
                    lemma_glob_single_star(p, 3, m, j + 1);
                    let j3 = choose|j3: int|
                        j + 1 <= j3 <= m.len() && no_separator(m, j + 1, j3) && #[trigger] glob_from(p, 4, m, j3);
                    lemma_glob_literal(p, 4, m, j3);
                    assert(j3 == k3);
                    assert forall|t: int| 0 <= t < suffix.len() implies eq_ci(
                        #[trigger] n[n.len() - suffix.len() + t],
                        suffix[t],
                    ) by {
                        assert(eq_ci(p[4 + t], m[k3 + t]));
                        assert(m[k3 + t] == n[(k3 - 1) + t]);
                        assert(suffix[t] == p[4 + t]);
                    }
                    assert(false);
                }
            }
        }
    }
}

/// Whether glob `pattern` matches path `name`.
pub fn glob_match(pattern: &[u8], name: &[u8]) -> (r: bool)
    requires
        name@.len() < usize::MAX,
    ensures
        r == glob_spec(pattern@, name@),
{
    glob(pattern, name)
}

fn glob(pattern: &[u8], name: &[u8]) -> (r: bool)
    requires
        name@.len() < usize::MAX,
    ensures
        r == glob_spec(pattern@, name@),
{
    match fast_path(pattern, name) {
        Some(b) => b,
        None => slow_path(pattern, name),
    }
}

// Fast-pass for the most common patterns:
// * Matching files by extension (e.g., **/*.rs)
// * Matching files by name (e.g., **/Cargo.toml)
fn fast_path(pattern: &[u8], name: &[u8]) -> (r: Option<bool>)
    ensures
        r == fast_spec(pattern@, name@),
{
    // In either case, the glob must start with "**/".
    if !(pattern.len() >= 3 && pattern[0] == STAR && pattern[1] == STAR && pattern[2] == SLASH) {
        return None;
    }
    if pattern.len() == 3 {
        return None;
    }
    // Determine whether it's "**/" or "**/*".
    let needs_dir_anchor = pattern[3] != STAR;
    let start: usize = if needs_dir_anchor {
        3
    } else {
        4
    };
    let ghost suffix = pattern@.skip(start as int);

    // Restrict down to anything we can handle with a suffix check.
    if start == pattern.len() || contains_magic(pattern, start) {
        proof {
            if start < pattern.len() {
                let k = choose|k: int| start <= k < pattern@.len() && pattern@[k] == 42;
                assert(suffix[k - start] == 42);
            }
        }
        return None;
    }
    assert(!suffix.contains(42));
    let suffix_len = pattern.len() - start;
    let m = match_path_suffix(name, pattern, start);
    assert(m == ends_with_ci(name@, suffix));
    Some(
        m && (
        // In case of "**/*extension" a simple suffix match is sufficient.
        !needs_dir_anchor
        // But for "**/filename" we need to ensure that path is either "filename"...
         || name.len() == suffix_len
        // ...or that it is ".../filename".
         || name[name.len() - suffix_len - 1] == SLASH),
    )
}

/// Whether `pattern[start..]` holds a star.
fn contains_magic(pattern: &[u8], start: usize) -> (r: bool)
    requires
        start <= pattern@.len(),
    ensures
        r == exists|k: int| start <= k < pattern@.len() && pattern@[k] == 42,
{
    let mut k = start;
    while k < pattern.len()
        invariant
            start <= k <= pattern@.len(),
            forall|q: int| start <= q < k ==> pattern@[q] != 42,
        decreases pattern@.len() - k,
    {
        if pattern[k] == STAR {
            return true;
        }
        k += 1;
    }
    false
}

/// Whether `path` ends with `pattern[start..]`, ignoring ASCII case.
fn match_path_suffix(path: &[u8], pattern: &[u8], start: usize) -> (r: bool)
    requires
        start <= pattern@.len(),
    ensures
        r == ends_with_ci(path@, pattern@.skip(start as int)),
{
    let ghost suffix = pattern@.skip(start as int);
    let suffix_len = pattern.len() - start;
    if path.len() < suffix_len {
        return false;
    }
    let base = path.len() - suffix_len;
    let mut k: usize = 0;
    while k < suffix_len
        invariant
            k <= suffix_len,
            suffix_len == suffix.len(),
            base + suffix_len == path.len(),
            start + suffix_len == pattern.len(),
            suffix == pattern@.skip(start as int),
            forall|q: int| 0 <= q < k ==> eq_ci(#[trigger] path@[base + q], suffix[q]),
        decreases suffix_len - k,
    {
        if to_ascii_lowercase(path[base + k]) != to_ascii_lowercase(pattern[start + k]) {
            assert(!eq_ci(path@[base + k], suffix[k as int]));
            assert(path@[path@.len() - suffix.len() + k] == path@[base + k]);
            return false;
        }
        k += 1;
    }
    assert forall|q: int| 0 <= q < suffix.len() implies eq_ci(
        #[trigger] path@[path@.len() - suffix.len() + q],
        suffix[q],
    ) by {
        assert(path@[path@.len() - suffix.len() + q] == path@[base + q]);
    }
    true
}

/// The pattern position after the star token at `i`, and whether it is a double star.
fn star_token(pattern: &[u8], i: usize) -> (r: (usize, bool))
    requires
        i < pattern.len(),
        pattern@[i as int] == 42,
    ensures
        r.0 == star_end(pattern@, i as int),
        r.1 == star_is_double(pattern@, i as int),
        i < r.0 <= pattern@.len(),
{
    let mut a = i + 1;
    let mut double = false;
    if a < pattern.len() && pattern[a] == STAR {
        a += 1;
        double = true;
        // For convenience, /**/ also matches /
        if a >= 3 && a < pattern.len() && pattern[a] == SLASH && pattern[a - 3] == SLASH {
            a += 1;
        }
    }
    (a, double)
}

// Matches by dynamic programming over the positions of pattern and name:
// `rows[pattern.len() - i][j]` says whether `pattern[i..]` matches `name[j..]`.
fn slow_path(pattern: &[u8], name: &[u8]) -> (r: bool)
    requires
        name@.len() < usize::MAX,
    ensures
        r == glob_from(pattern@, 0, name@, 0),
{
    let plen = pattern.len();
    let nlen = name.len();
    let mut rows: Vec<Vec<bool>> = Vec::new();

    // The empty pattern matches only the end of the name.
    let mut last: Vec<bool> = Vec::new();
    let mut j: usize = 0;
    while j <= nlen
        invariant
            j <= nlen + 1,
            nlen == name@.len(),
            plen == pattern@.len(),
            nlen < usize::MAX,
            last@.len() == j,
            forall|q: int| 0 <= q < j ==> last@[q] == glob_from(pattern@, plen as int, name@, q),
        decreases nlen + 1 - j,
    {
        last.push(j == nlen);
        j += 1;
    }
    rows.push(last);

    let mut i = plen;
    while i > 0
        invariant
            i <= plen,
            plen == pattern@.len(),
            nlen == name@.len(),
            nlen < usize::MAX,
            rows@.len() == plen - i + 1,
            forall|k: int|
                0 <= k < rows@.len() ==> (#[trigger] rows@[k])@.len() == nlen + 1,
            forall|k: int, q: int|
                0 <= k < rows@.len() && 0 <= q <= nlen ==> #[trigger] rows@[k]@[q] == glob_from(
                    pattern@,
                    plen - k,
                    name@,
                    q,
                ),
        decreases i,
    {
        i -= 1;
        let mut row: Vec<bool> = Vec::new();
        if pattern[i] == STAR {
            let (a, double) = star_token(pattern, i);
            let after = &rows[plen - a];
            // Fill right to left, then reverse.
            let mut rev: Vec<bool> = Vec::new();
            let mut acc = after[nlen];
            rev.push(acc);
            let mut q = nlen;
            while q > 0
                invariant
                    q <= nlen,
                    nlen == name@.len(),
                    plen == pattern@.len(),
                    i < plen,
                    pattern@[i as int] == 42,
                    a == star_end(pattern@, i as int),
                    double == star_is_double(pattern@, i as int),
                    i < a <= plen,
                    after@.len() == nlen + 1,
                    forall|t: int| 0 <= t <= nlen ==> after@[t] == glob_from(pattern@, a as int, name@, t),
                    rev@.len() == nlen - q + 1,
                    acc == glob_from(pattern@, i as int, name@, q as int),
                    forall|t: int|
                        0 <= t < rev@.len() ==> rev@[t] == glob_from(pattern@, i as int, name@, nlen - t),
                decreases q,
            {
                q -= 1;
                acc = after[q] || ((double || name[q] != SLASH) && acc);
                rev.push(acc);
            }
            let mut t = rev.len();
            while t > 0
                invariant
                    t <= rev@.len(),
                    rev@.len() == nlen + 1,
                    row@.len() == nlen + 1 - t,
                    forall|s: int| 0 <= s < row@.len() ==> row@[s] == rev@[nlen - s],
                decreases t,
            {
                t -= 1;
                row.push(rev[t]);
            }
            assert forall|s: int| 0 <= s <= nlen implies row@[s] == glob_from(pattern@, i as int, name@, s) by {
                assert(row@[s] == rev@[nlen - s]);
            }
        } else {
            let next = &rows[plen - i - 1];
            let c = to_ascii_lowercase(pattern[i]);
            let mut q: usize = 0;
            while q <= nlen
                invariant
                    q <= nlen + 1,
                    nlen == name@.len(),
                    nlen < usize::MAX,
                    plen == pattern@.len(),
                    i < plen,
                    pattern@[i as int] != 42,
                    c == ascii_lower(pattern@[i as int]),
                    next@.len() == nlen + 1,
                    forall|t: int| 0 <= t <= nlen ==> next@[t] == glob_from(pattern@, i + 1, name@, t),
                    row@.len() == q,
                    forall|t: int| 0 <= t < q ==> row@[t] == glob_from(pattern@, i as int, name@, t),
                decreases nlen + 1 - q,
            {
                let v = q < nlen && to_ascii_lowercase(name[q]) == c && next[q + 1];
                row.push(v);
                q += 1;
            }
        }
        rows.push(row);
    }
    rows[plen][0]
}

} // verus!
