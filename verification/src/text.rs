//! Character-level text utilities: trimming, separator splitting and
//! whitespace tokenisation, with exact sequence-level specifications.

use vstd::prelude::*;

verus! {

/// The characters that trimming removes: the Unicode `White_Space` set,
/// as `str::trim` uses it.
pub open spec fn is_space_char(c: char) -> bool {
    let v = c as u32;
    (0x9 <= v && v <= 0xD) || v == 0x20 || v == 0x85 || v == 0xA0 || v == 0x1680 || (0x2000 <= v
        && v <= 0x200A) || v == 0x2028 || v == 0x2029 || v == 0x202F || v == 0x205F || v == 0x3000
}

/// Runtime decision procedure for [`is_space_char`].
pub fn is_space(c: char) -> (b: bool)
    ensures
        b == is_space_char(c),
{
    let v = c as u32;
    (0x9 <= v && v <= 0xD) || v == 0x20 || v == 0x85 || v == 0xA0 || v == 0x1680 || (0x2000 <= v
        && v <= 0x200A) || v == 0x2028 || v == 0x2029 || v == 0x202F || v == 0x205F || v == 0x3000
}

/// The sequence with its leading whitespace removed.
pub open spec fn trim_start_spec(s: Seq<char>) -> Seq<char>
    decreases s.len(),
{
    if s.len() > 0 && is_space_char(s[0]) {
        trim_start_spec(s.drop_first())
    } else {
        s
    }
}

/// The sequence with its trailing whitespace removed.
pub open spec fn trim_end_spec(s: Seq<char>) -> Seq<char>
    decreases s.len(),
{
    if s.len() > 0 && is_space_char(s.last()) {
        trim_end_spec(s.drop_last())
    } else {
        s
    }
}

/// The sequence with both surrounding whitespace runs removed, as
/// `str::trim` produces it.
pub open spec fn trim_spec(s: Seq<char>) -> Seq<char> {
    trim_end_spec(trim_start_spec(s))
}

proof fn lemma_trim_start_at(s: Seq<char>, i: int)
    requires
        0 <= i <= s.len(),
        forall|k: int| 0 <= k < i ==> is_space_char(s[k]),
        i == s.len() || !is_space_char(s[i]),
    ensures
        trim_start_spec(s) == s.subrange(i, s.len() as int),
    decreases i,
{
    if i == 0 {
        assert(s.subrange(0, s.len() as int) =~= s);
    } else {
        lemma_trim_start_at(s.drop_first(), i - 1);
        assert(s.drop_first().subrange(i - 1, s.len() - 1) =~= s.subrange(i, s.len() as int));
    }
}

proof fn lemma_trim_end_at(s: Seq<char>, j: int)
    requires
        0 <= j <= s.len(),
        forall|k: int| j <= k < s.len() ==> is_space_char(s[k]),
        j == 0 || !is_space_char(s[j - 1]),
    ensures
        trim_end_spec(s) == s.subrange(0, j),
    decreases s.len(),
{
    if j == s.len() {
        assert(s.subrange(0, s.len() as int) =~= s);
        if s.len() > 0 && is_space_char(s.last()) {
            assert(!is_space_char(s[j - 1]));
            assert(false);
        }
    } else {
        assert(is_space_char(s.last()));
        lemma_trim_end_at(s.drop_last(), j);
        assert(s.drop_last().subrange(0, j) =~= s.subrange(0, j));
    }
}

/// Trims surrounding whitespace, exactly as [`trim_spec`] describes.
pub fn trim_str(s: &str) -> (r: String)
    ensures
        r@ == trim_spec(s@),
{
    let n = s.unicode_len();
    let mut lo: usize = 0;
    while lo < n && is_space(s.get_char(lo))
        invariant
            lo <= n,
            n == s@.len(),
            forall|k: int| 0 <= k < lo ==> is_space_char(s@[k]),
        decreases n - lo,
    {
        lo += 1;
    }
    proof {
        lemma_trim_start_at(s@, lo as int);
    }
    if lo == n {
        proof {
            assert(trim_start_spec(s@) =~= Seq::<char>::empty());
            assert(trim_end_spec(Seq::<char>::empty()) =~= Seq::<char>::empty());
        }
        return String::new();
    }
    let mut hi: usize = n;
    while hi > lo && is_space(s.get_char(hi - 1))
        invariant
            lo <= hi <= n,
            n == s@.len(),
            forall|k: int| hi <= k < n ==> is_space_char(s@[k]),
        decreases hi,
    {
        hi -= 1;
    }
    proof {
        let sub = s@.subrange(lo as int, n as int);
        if hi == lo {
            assert(is_space_char(s@[lo as int]));
            assert(false);
        }
        assert(!is_space_char(sub[hi - lo - 1]));
        lemma_trim_end_at(sub, hi - lo as int);
        assert(sub.subrange(0, hi - lo as int) =~= s@.subrange(lo as int, hi as int));
    }
    let out = s.substring_char(lo, hi);
    out.to_owned()
}

/// The comma-style split of a sequence: segments between occurrences of
/// `sep`, in order, always at least one segment (the empty input yields one
/// empty segment), exactly as `str::split` behaves.
pub open spec fn split_spec(s: Seq<char>, sep: char) -> Seq<Seq<char>>
    decreases s.len(),
{
    if s.len() == 0 {
        seq![Seq::<char>::empty()]
    } else if s[0] == sep {
        seq![Seq::<char>::empty()] + split_spec(s.drop_first(), sep)
    } else {
        let rest = split_spec(s.drop_first(), sep);
        rest.update(0, seq![s[0]] + rest[0])
    }
}

pub proof fn lemma_split_nonempty(s: Seq<char>, sep: char)
    ensures
        split_spec(s, sep).len() >= 1,
    decreases s.len(),
{
    if s.len() > 0 {
        lemma_split_nonempty(s.drop_first(), sep);
    }
}

/// Unfolds the split at its first separator: a separator-free prefix is the
/// first segment, and the rest splits independently.
proof fn lemma_split_at_sep(s: Seq<char>, sep: char, i: int)
    requires
        0 <= i <= s.len(),
        forall|k: int| 0 <= k < i ==> s[k] != sep,
        i == s.len() || s[i] == sep,
    ensures
        i == s.len() ==> split_spec(s, sep) == seq![s],
        i < s.len() ==> split_spec(s, sep) == seq![s.subrange(0, i)] + split_spec(
            s.subrange(i + 1, s.len() as int),
            sep,
        ),
    decreases i,
{
    if i == 0 {
        if s.len() == 0 {
            assert(s =~= Seq::<char>::empty());
            assert(split_spec(s, sep) =~= seq![s]);
        } else {
            assert(s.subrange(0, 0) =~= Seq::<char>::empty());
            assert(s.subrange(1, s.len() as int) =~= s.drop_first());
        }
    } else {
        let d = s.drop_first();
        lemma_split_at_sep(d, sep, i - 1);
        let rest = split_spec(d, sep);
        lemma_split_nonempty(d, sep);
        if i == s.len() {
            assert(rest == seq![d]);
            assert(seq![s[0]] + d =~= s);
            assert(split_spec(s, sep) == rest.update(0, seq![s[0]] + rest[0]));
            assert(split_spec(s, sep) =~= seq![s]);
        } else {
            assert(d.subrange(i, d.len() as int) =~= s.subrange(i + 1, s.len() as int));
            assert(seq![s[0]] + d.subrange(0, i - 1) =~= s.subrange(0, i));
            assert(split_spec(s, sep) == rest.update(0, seq![s[0]] + rest[0]));
            assert((seq![d.subrange(0, i - 1)] + split_spec(
                s.subrange(i + 1, s.len() as int),
                sep,
            ))[0] == d.subrange(0, i - 1));
            assert(split_spec(s, sep) =~= seq![s.subrange(0, i)] + split_spec(
                s.subrange(i + 1, s.len() as int),
                sep,
            ));
        }
    }
}

/// Splits on a separator character, exactly as [`split_spec`] describes.
pub fn split_on(s: &str, sep: char) -> (r: Vec<String>)
    ensures
        r.deep_view() == split_spec(s@, sep),
        r.len() >= 1,
{
    let n = s.unicode_len();
    let mut r: Vec<String> = Vec::new();
    let mut start: usize = 0;
    proof {
        assert(s@.subrange(0, n as int) =~= s@);
        assert(r.deep_view() =~= Seq::<Seq<char>>::empty());
        assert(r.deep_view() + split_spec(s@, sep) =~= split_spec(s@, sep));
    }
    loop
        invariant
            start <= n,
            n == s@.len(),
            split_spec(s@, sep) == r.deep_view() + split_spec(
                s@.subrange(start as int, n as int),
                sep,
            ),
        decreases n - start,
    {
        let mut j: usize = start;
        while j < n && !(s.get_char(j) == sep)
            invariant
                start <= j <= n,
                n == s@.len(),
                forall|k: int| start <= k < j ==> s@[k] != sep,
            decreases n - j,
        {
            j += 1;
        }
        let seg = s.substring_char(start, j).to_owned();
        proof {
            let suffix = s@.subrange(start as int, n as int);
            assert(forall|k: int|
                0 <= k < j - start ==> suffix[k] == s@[start + k] && suffix[k] != sep);
            if j < n {
                assert(suffix[j - start as int] == sep);
            }
            lemma_split_at_sep(suffix, sep, j - start as int);
            assert(suffix.subrange(0, j - start as int) =~= s@.subrange(start as int, j as int));
        }
        if j == n {
            proof {
                let suffix = s@.subrange(start as int, n as int);
                assert(suffix =~= s@.subrange(start as int, j as int));
                assert((r.deep_view().push(seg@)) =~= r.deep_view() + seq![suffix]);
                lemma_split_nonempty(s@, sep);
            }
            let ghost old_r = r.deep_view();
            r.push(seg);
            proof {
                assert(r.deep_view() =~= old_r.push(seg@));
            }
            return r;
        } else {
            proof {
                let suffix = s@.subrange(start as int, n as int);
                assert(suffix.subrange(j - start + 1, suffix.len() as int) =~= s@.subrange(
                    j + 1 as int,
                    n as int,
                ));
                assert((r.deep_view().push(seg@)) + split_spec(
                    s@.subrange(j + 1 as int, n as int),
                    sep,
                ) =~= r.deep_view() + (seq![suffix.subrange(0, j - start as int)] + split_spec(
                    suffix.subrange(j - start + 1, suffix.len() as int),
                    sep,
                )));
            }
            let ghost old_r = r.deep_view();
            r.push(seg);
            proof {
                assert(r.deep_view() =~= old_r.push(seg@));
            }
            start = j + 1;
        }
    }
}

/// The whitespace tokenisation of a sequence: maximal runs of
/// non-whitespace characters, in order, with no empty tokens, exactly as
/// `str::split_whitespace` behaves.
pub open spec fn ws_tokens_spec(s: Seq<char>) -> Seq<Seq<char>>
    decreases s.len(),
{
    if s.len() == 0 {
        Seq::<Seq<char>>::empty()
    } else if is_space_char(s[0]) {
        ws_tokens_spec(s.drop_first())
    } else {
        let rest = ws_tokens_spec(s.drop_first());
        if s.len() == 1 || is_space_char(s[1]) {
            seq![seq![s[0]]] + rest
        } else {
            rest.update(0, seq![s[0]] + rest[0])
        }
    }
}

} // verus!
