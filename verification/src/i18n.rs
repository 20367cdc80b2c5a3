//! Classification of locale values into the two supported message languages.
//!
//! `parse_lang` mirrors how locale environment values are usually shaped:
//! the value is trimmed, the part before any `.` or `@` modifier is taken,
//! then the part before any `_` or `-` region code, and that primary tag is
//! compared case-insensitively. `ja` selects Japanese; `en`, `c` and `posix`
//! select English; anything else falls back to Japanese, the default.
//! Reading the environment itself is left to the caller.

use vstd::prelude::*;

use crate::skill::is_space_char;

verus! {

#[derive(Debug, Clone, Copy, PartialEq, Eq, Structural)]
pub enum Lang {
    Ja,
    En,
}

pub open spec fn is_delim_char(c: char) -> bool {
    c == '.' || c == '@' || c == '_' || c == '-'
}

/// The index of the first non-blank character, or the length if none.
pub open spec fn first_non_space(s: Seq<char>) -> int
    decreases s.len(),
{
    if s.len() == 0 {
        0
    } else if !is_space_char(s[0]) {
        0
    } else {
        1 + first_non_space(s.drop_first())
    }
}

/// One past the index of the last non-blank character, or zero if none.
pub open spec fn trim_end_idx(s: Seq<char>) -> int
    decreases s.len(),
{
    if s.len() == 0 {
        0
    } else if !is_space_char(s.last()) {
        s.len() as int
    } else {
        trim_end_idx(s.drop_last())
    }
}

/// The length of the prefix that carries no delimiter character.
pub open spec fn delim_prefix_len(s: Seq<char>) -> int
    decreases s.len(),
{
    if s.len() == 0 {
        0
    } else if is_delim_char(s[0]) {
        0
    } else {
        1 + delim_prefix_len(s.drop_first())
    }
}

/// The primary language tag of a locale value: trimmed, then cut at the
/// first `.`, `@`, `_` or `-`.
pub open spec fn lang_segment(s: Seq<char>) -> Seq<char> {
    let lo = first_non_space(s);
    let hi = trim_end_idx(s);
    if lo >= hi {
        Seq::empty()
    } else {
        let t = s.subrange(lo, hi);
        t.subrange(0, delim_prefix_len(t))
    }
}

/// The character's code with an ASCII upper-case letter folded to lower case.
pub open spec fn lower_code(c: char) -> int {
    if 65 <= c as u32 <= 90 {
        c as u32 + 32
    } else {
        c as u32 as int
    }
}

/// Case-insensitive comparison of a segment against a lower-case tag.
pub open spec fn seg_matches(s: Seq<char>, t: Seq<char>) -> bool {
    s.len() == t.len() && (forall|i: int| 0 <= i < s.len() ==> lower_code(s[i]) == t[i] as u32)
}

pub open spec fn parse_lang_spec(s: Seq<char>) -> Lang {
    let seg = lang_segment(s);
    if seg_matches(seg, seq!['j', 'a']) {
        Lang::Ja
    } else if seg_matches(seg, seq!['e', 'n']) || seg_matches(seg, seq!['c']) || seg_matches(
        seg,
        seq!['p', 'o', 's', 'i', 'x'],
    ) {
        Lang::En
    } else {
        Lang::Ja
    }
}

proof fn lemma_first_non_space(s: Seq<char>)
    ensures
        0 <= first_non_space(s) <= s.len(),
        forall|k: int| 0 <= k < first_non_space(s) ==> is_space_char(s[k]),
        first_non_space(s) < s.len() ==> !is_space_char(s[first_non_space(s)]),
    decreases s.len(),
{
    if s.len() > 0 && is_space_char(s[0]) {
        lemma_first_non_space(s.drop_first());
        assert forall|k: int| 0 <= k < first_non_space(s) implies is_space_char(s[k]) by {
            if k > 0 {
                assert(s.drop_first()[k - 1] == s[k]);
            }
        }
    }
}

proof fn lemma_trim_end_idx(s: Seq<char>)
    ensures
        0 <= trim_end_idx(s) <= s.len(),
        forall|k: int| trim_end_idx(s) <= k < s.len() ==> is_space_char(s[k]),
        trim_end_idx(s) > 0 ==> !is_space_char(s[trim_end_idx(s) - 1]),
    decreases s.len(),
{
    if s.len() > 0 && is_space_char(s.last()) {
        lemma_trim_end_idx(s.drop_last());
        assert forall|k: int| trim_end_idx(s) <= k < s.len() implies is_space_char(s[k]) by {
            if k < s.len() - 1 {
                assert(s.drop_last()[k] == s[k]);
            }
        }
    }
}

proof fn lemma_delim_prefix_len(s: Seq<char>)
    ensures
        0 <= delim_prefix_len(s) <= s.len(),
        forall|k: int| 0 <= k < delim_prefix_len(s) ==> !is_delim_char(s[k]),
        delim_prefix_len(s) < s.len() ==> is_delim_char(s[delim_prefix_len(s)]),
    decreases s.len(),
{
    if s.len() > 0 && !is_delim_char(s[0]) {
        lemma_delim_prefix_len(s.drop_first());
        assert forall|k: int| 0 <= k < delim_prefix_len(s) implies !is_delim_char(s[k]) by {
            if k > 0 {
                assert(s.drop_first()[k - 1] == s[k]);
            }
        }
    }
}

fn is_space_exec(c: char) -> (r: bool)
    ensures
        r == is_space_char(c),
{
    let u = c as u32;
    u == 0x09 || u == 0x0A || u == 0x0B || u == 0x0C || u == 0x0D || u == 0x20 || u == 0x85
        || u == 0xA0 || u == 0x1680 || (0x2000 <= u && u <= 0x200A) || u == 0x2028 || u == 0x2029
        || u == 0x202F || u == 0x205F || u == 0x3000
}

fn is_delim(c: char) -> (r: bool)
    ensures
        r == is_delim_char(c),
{
    c == '.' || c == '@' || c == '_' || c == '-'
}

/// True when `c` equals `t` after ASCII lower-casing of `c`.
fn lower_is(c: char, t: char) -> (r: bool)
    ensures
        r == (lower_code(c) == t as u32),
{
    let u = c as u32;
    let l = if 65 <= u && u <= 90 {
        u + 32
    } else {
        u
    };
    l == t as u32
}

/// Picks the message language that a locale value selects.
pub fn parse_lang(value: &str) -> (r: Lang)
    ensures
        r == parse_lang_spec(value@),
{
    let s = value;
    let n = s.unicode_len();
    let mut lo: usize = 0;
    while lo < n && is_space_exec(s.get_char(lo))
        invariant
            0 <= lo <= n,
            n == s@.len(),
            forall|k: int| 0 <= k < lo ==> is_space_char(s@[k]),
        decreases n - lo,
    {
        lo = lo + 1;
    }
    proof {
        lemma_first_non_space(s@);
        if lo < first_non_space(s@) {
            assert(is_space_char(s@[lo as int]));
        }
        if first_non_space(s@) < lo {
            assert(is_space_char(s@[first_non_space(s@)]));
        }
        assert(lo == first_non_space(s@));
    }
    let mut hi: usize = n;
    while hi > 0 && is_space_exec(s.get_char(hi - 1))
        invariant
            0 <= hi <= n,
            n == s@.len(),
            forall|k: int| hi <= k < n ==> is_space_char(s@[k]),
        decreases hi,
    {
        hi = hi - 1;
    }
    proof {
        lemma_trim_end_idx(s@);
        if hi < trim_end_idx(s@) {
            assert(is_space_char(s@[trim_end_idx(s@) - 1]));
        }
        if trim_end_idx(s@) < hi {
            assert(is_space_char(s@[hi - 1]));
        }
        assert(hi == trim_end_idx(s@));
    }
    if lo >= hi {
        return Lang::Ja;
    }
    let ghost t = s@.subrange(lo as int, hi as int);
    let mut e: usize = lo;
    while e < hi && !is_delim(s.get_char(e))
        invariant
            lo <= e <= hi <= n,
            n == s@.len(),
            t == s@.subrange(lo as int, hi as int),
            forall|k: int| lo <= k < e ==> !is_delim_char(s@[k]),
        decreases hi - e,
    {
        e = e + 1;
    }
    proof {
        lemma_delim_prefix_len(t);
        assert(forall|k: int| 0 <= k < t.len() ==> t[k] == s@[lo + k]);
        if e - lo < delim_prefix_len(t) {
            assert(!is_delim_char(t[e - lo]));
            assert(is_delim_char(s@[e as int]));
        }
        if delim_prefix_len(t) < e - lo {
            assert(is_delim_char(t[delim_prefix_len(t)]));
            assert(!is_delim_char(s@[lo + delim_prefix_len(t)]));
        }
        assert(e - lo == delim_prefix_len(t));
        assert(lang_segment(s@) =~= s@.subrange(lo as int, e as int));
    }
    let ghost seg = lang_segment(s@);
    let seg_len = e - lo;
    proof {
        assert(seg.len() == seg_len);
        assert(forall|k: int| 0 <= k < seg.len() ==> seg[k] == s@[lo + k]);
    }
    let is_ja = seg_len == 2 && lower_is(s.get_char(lo), 'j') && lower_is(s.get_char(lo + 1), 'a');
    proof {
        assert(is_ja == seg_matches(seg, seq!['j', 'a']));
    }
    if is_ja {
        return Lang::Ja;
    }
    let is_en = seg_len == 2 && lower_is(s.get_char(lo), 'e') && lower_is(s.get_char(lo + 1), 'n');
    let is_c = seg_len == 1 && lower_is(s.get_char(lo), 'c');
    let is_posix = seg_len == 5 && lower_is(s.get_char(lo), 'p') && lower_is(
        s.get_char(lo + 1),
        'o',
    ) && lower_is(s.get_char(lo + 2), 's') && lower_is(s.get_char(lo + 3), 'i') && lower_is(
        s.get_char(lo + 4),
        'x',
    );
    proof {
        assert(is_en == seg_matches(seg, seq!['e', 'n']));
        assert(is_c == seg_matches(seg, seq!['c']));
        assert(is_posix == seg_matches(seg, seq!['p', 'o', 's', 'i', 'x']));
    }
    if is_en || is_c || is_posix {
        Lang::En
    } else {
        Lang::Ja
    }
}

} // verus!
