//! Choosing a codec from a file name. Binary and image extensions, where
//! long runs of one byte are common, favour RLE; everything else favours
//! LZ77. The file name's extension is the part of its final path component
//! after the last dot, compared ASCII-case-insensitively, and a leading dot
//! (a hidden file) does not start an extension.

use vstd::prelude::*;

verus! {

/// The position of the last occurrence of `c` in `s`, or -1 when `c` does
/// not occur.
pub open spec fn last_index_of(s: Seq<char>, c: char) -> int
    decreases s.len(),
{
    if s.len() == 0 {
        -1
    } else if s[s.len() - 1] == c {
        s.len() - 1
    } else {
        last_index_of(s.drop_last(), c)
    }
}

/// The code point of `c` with an ASCII upper-case letter folded to lower
/// case.
pub open spec fn lower_code(c: char) -> u32 {
    if 65 <= c as u32 <= 90 {
        (c as u32 + 32) as u32
    } else {
        c as u32
    }
}

/// Whether the tail of `path` from `start` on equals `lit`, comparing
/// ASCII-case-insensitively.
pub open spec fn ext_matches(path: Seq<char>, start: int, lit: Seq<char>) -> bool {
    &&& path.len() - start == lit.len()
    &&& forall|k: int| 0 <= k < lit.len() ==> lower_code(#[trigger] path[start + k]) == lit[k]
        as u32
}

/// Where the extension of `path` begins, or -1 when it has none: after the
/// last dot, provided that dot lies in the final path component and is not
/// the component's first character.
pub open spec fn spec_ext_start(path: Seq<char>) -> int {
    let sep = last_index_of(path, '/');
    let dot = last_index_of(path, '.');
    if dot > sep + 1 {
        dot + 1
    } else {
        -1
    }
}

/// Whether the file name favours RLE: its extension is one of the binary or
/// image extensions `bin`, `dat`, `exe`, `dll`, `bmp`, `tga`, `raw`.
pub open spec fn spec_detect_rle(path: Seq<char>) -> bool {
    let st = spec_ext_start(path);
    st >= 0 && {
        ||| ext_matches(path, st, "bin"@)
        ||| ext_matches(path, st, "dat"@)
        ||| ext_matches(path, st, "exe"@)
        ||| ext_matches(path, st, "dll"@)
        ||| ext_matches(path, st, "bmp"@)
        ||| ext_matches(path, st, "tga"@)
        ||| ext_matches(path, st, "raw"@)
    }
}

/// The position of the last occurrence of `c` in `s`, scanning from the
/// end.
fn rfind_char(s: &str, c: char) -> (r: Option<usize>)
    ensures
        match r {
            Some(k) => k < s@.len() && last_index_of(s@, c) == k as int,
            None => last_index_of(s@, c) == -1,
        },
{
    let n = s.unicode_len();
    let mut idx = n;
    proof {
        assert(s@.subrange(0, n as int) =~= s@);
    }
    while idx > 0
        invariant
            idx <= n,
            n as int == s@.len(),
            last_index_of(s@, c) == last_index_of(s@.subrange(0, idx as int), c),
        decreases idx,
    {
        idx = idx - 1;
        let ch = s.get_char(idx);
        proof {
            let pre = s@.subrange(0, idx + 1);
            assert(pre[pre.len() - 1] == s@[idx as int]);
            assert(pre.drop_last() =~= s@.subrange(0, idx as int));
        }
        if ch == c {
            return Some(idx);
        }
    }
    proof {
        assert(s@.subrange(0, 0).len() == 0);
    }
    None
}

/// The folded code point of `c` (ASCII upper case mapped to lower case).
fn lower_code_exec(c: char) -> (r: u32)
    ensures
        r == lower_code(c),
{
    let u = c as u32;
    if 65 <= u && u <= 90 {
        u + 32
    } else {
        u
    }
}

/// Whether the tail of `path` from `start` on equals `lit`, comparing
/// ASCII-case-insensitively.
fn ext_matches_exec(path: &str, start: usize, lit: &str) -> (r: bool)
    requires
        start <= path@.len(),
    ensures
        r == ext_matches(path@, start as int, lit@),
{
    let n = path.unicode_len();
    let m = lit.unicode_len();
    if n - start != m {
        return false;
    }
    let mut k: usize = 0;
    while k < m
        invariant
            k <= m,
            m as int == lit@.len(),
            n as int == path@.len(),
            start + m <= n,
            forall|q: int| 0 <= q < k ==> lower_code(#[trigger] path@[start + q]) == lit@[q] as u32,
        decreases m - k,
    {
        let pc = lower_code_exec(path.get_char(start + k));
        let lc = lit.get_char(k) as u32;
        if pc != lc {
            return false;
        }
        k = k + 1;
    }
    true
}

/// Pick the codec that suits a file name: true for RLE, false for LZ77.
pub fn detect_rle(path: &str) -> (r: bool)
    ensures
        r == spec_detect_rle(path@),
{
    let n = path.unicode_len();
    let sep = rfind_char(path, '/');
    let dot = rfind_char(path, '.');
    let start: usize = match dot {
        None => {
            return false;
        },
        Some(d) => {
            proof {
                assert(d < n);
            }
            let in_component = match sep {
                None => d > 0,
                Some(p) => d > p + 1,
            };
            if !in_component {
                return false;
            }
            d + 1
        },
    };
    ext_matches_exec(path, start, "bin") || ext_matches_exec(path, start, "dat")
        || ext_matches_exec(path, start, "exe") || ext_matches_exec(path, start, "dll")
        || ext_matches_exec(path, start, "bmp") || ext_matches_exec(path, start, "tga")
        || ext_matches_exec(path, start, "raw")
}

/// The name of the codec that suits a file name: "rle" for binary and image
/// extensions, "lz" for everything else.
pub fn detect_best_algorithm(file_path: &str) -> (r: &'static str)
    ensures
        spec_detect_rle(file_path@) ==> r@ == "rle"@,
        !spec_detect_rle(file_path@) ==> r@ == "lz"@,
{
    if detect_rle(file_path) {
        "rle"
    } else {
        "lz"
    }
}

} // verus!
