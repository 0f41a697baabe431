//! The fixed directory part of a glob pattern.

use vstd::prelude::*;

verus! {

/// Characters that may mark glob pattern syntax. Escapes such as `[*]` are
/// treated as patterns too, which is rare enough to accept.
pub open spec fn is_pattern_char(c: char) -> bool {
    c == '*' || c == '?' || c == '{' || c == '}' || c == '[' || c == ']'
}

/// The index of the first pattern character at `i` or later, or the length.
pub open spec fn first_pattern_char(s: Seq<char>, i: int) -> int
    decreases s.len() - i,
{
    if i >= s.len() {
        s.len() as int
    } else if is_pattern_char(s[i]) {
        i
    } else {
        first_pattern_char(s, i + 1)
    }
}

/// The index of the last `/` before index `k`, or -1 if there is none.
pub open spec fn last_separator_before(s: Seq<char>, k: int) -> int
    decreases k,
{
    if k <= 0 {
        -1
    } else if s[k - 1] == '/' {
        k - 1
    } else {
        last_separator_before(s, k - 1)
    }
}

/// How many characters of `glob` form its fixed prefix: all of it when it
/// holds no pattern character; otherwise everything before the path
/// component that holds the first one, without the separator (a leading
/// `/`, the root, is kept).
pub open spec fn fixed_prefix_len(glob: Seq<char>) -> int {
    let k = first_pattern_char(glob, 0);
    if k == glob.len() {
        glob.len() as int
    } else {
        let j = last_separator_before(glob, k);
        if j < 0 {
            0
        } else if j == 0 {
            1
        } else {
            j
        }
    }
}

/// The leading part of a glob path that holds no pattern syntax, such as
/// `a/b` for `a/b/**/*.png`.
///
/// This works on the text of the glob, not on parsed path components:
/// separators are kept as they are written, so `a//b/*.png` gives `a//b`
/// and `a/b/`, which holds no pattern, stays `a/b/`. Each names the same
/// path as its component-wise form.
pub fn get_non_pattern_prefix(glob: &str) -> (r: String)
    ensures
        r@ == glob@.subrange(0, fixed_prefix_len(glob@)),
{
    let n = glob.unicode_len();
    let mut k: usize = 0;
    while k < n && !is_pattern(glob.get_char(k))
        invariant
            0 <= k <= n,
            n == glob@.len(),
            first_pattern_char(glob@, k as int) == first_pattern_char(glob@, 0),
        decreases n - k,
    {
        k = k + 1;
    }
    if k == n {
        return String::from_str(glob);
    }
    let mut j: usize = k;
    while j > 0 && glob.get_char(j - 1) != '/'
        invariant
            0 <= j <= k < n,
            n == glob@.len(),
            last_separator_before(glob@, j as int) == last_separator_before(glob@, k as int),
        decreases j,
    {
        j = j - 1;
    }
    let end: usize = if j == 0 {
        0
    } else if j == 1 {
        1
    } else {
        j - 1
    };
    String::from_str(glob.substring_char(0, end))
}

fn is_pattern(c: char) -> (r: bool)
    ensures
        r == is_pattern_char(c),
{
    c == '*' || c == '?' || c == '{' || c == '}' || c == '[' || c == ']'
}

} // verus!
