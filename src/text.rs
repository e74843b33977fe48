//! Text helpers: substring search, and the wall-clock part of a timestamp
//! shown beside each record.
use vstd::prelude::*;

verus! {

/// `needle` occurs in `haystack` as a contiguous run of characters.
pub open spec fn has_substring(haystack: Seq<char>, needle: Seq<char>) -> bool {
    exists|i: int|
        0 <= i <= haystack.len() - needle.len() && #[trigger] haystack.subrange(
            i,
            i + needle.len(),
        ) == needle
}

/// Relies on `str::contains` with a `&str` pattern: it answers whether the
/// needle occurs in the haystack as a contiguous substring.
#[verifier::external_body]
fn str_contains(haystack: &str, needle: &str) -> (r: bool)
    ensures
        r == has_substring(haystack@, needle@),
{
    haystack.contains(needle)
}

/// Whether `needle` occurs in `haystack`. The empty needle occurs in every
/// text.
pub fn contains_text_simd(haystack: &str, needle: &str) -> (r: bool)
    ensures
        r == has_substring(haystack@, needle@),
{
    str_contains(haystack, needle)
}

/// `s` starts like a wall-clock time `HH:MM:SS`: eight characters or more,
/// with colons third and sixth.
pub open spec fn looks_like_clock(s: Seq<char>) -> bool {
    &&& s.len() >= 8
    &&& s[2] == ':'
    &&& s[5] == ':'
}

/// The part of `s` before its first `c`; all of `s` if it holds none.
pub open spec fn before_char(s: Seq<char>, c: char) -> Seq<char>
    decreases s.len(),
{
    if s.len() == 0 {
        s
    } else if s[0] == c {
        Seq::empty()
    } else {
        seq![s[0]] + before_char(s.drop_first(), c)
    }
}

/// The part of `s` after its first `c`; none if it holds none.
pub open spec fn after_char(s: Seq<char>, c: char) -> Option<Seq<char>>
    decreases s.len(),
{
    if s.len() == 0 {
        None
    } else if s[0] == c {
        Some(s.drop_first())
    } else {
        after_char(s.drop_first(), c)
    }
}

/// The wall-clock time to show for a timestamp text: the text itself if it
/// is exactly `HH:MM:SS`; else, for a date and time joined by `T`, the first
/// eight characters of the time, cut before any `T`, `+` offset or `.`
/// fraction, if those look like a clock. None where neither applies and the
/// host has to parse the text as a date.
pub open spec fn clock_time_spec(s: Seq<char>) -> Option<Seq<char>> {
    if s.len() == 8 && looks_like_clock(s) {
        Some(s)
    } else {
        match after_char(s, 'T') {
            None => None,
            Some(rest) => {
                let time = before_char(before_char(before_char(rest, 'T'), '+'), '.');
                if looks_like_clock(time) {
                    Some(time.subrange(0, 8))
                } else {
                    None
                }
            },
        }
    }
}

/// Cutting `s[a..b]` at the first `c`, found at `r`, leaves `s[a..r]` before
/// it and `s[r + 1..b]` after it.
proof fn lemma_cut_at(s: Seq<char>, a: int, r: int, b: int, c: char)
    requires
        0 <= a <= r <= b <= s.len(),
        forall|j: int| a <= j < r ==> s[j] != c,
        r < b ==> s[r] == c,
    ensures
        before_char(s.subrange(a, b), c) == s.subrange(a, r),
        after_char(s.subrange(a, b), c) == if r < b {
            Some(s.subrange(r + 1, b))
        } else {
            None::<Seq<char>>
        },
    decreases r - a,
{
    let t = s.subrange(a, b);
    if a == r {
        if r == b {
            assert(t.len() == 0);
            assert(t =~= s.subrange(a, r));
        } else {
            assert(t[0] == s[a]);
            assert(t.drop_first() =~= s.subrange(r + 1, b));
            assert(s.subrange(a, r) =~= Seq::<char>::empty());
        }
    } else {
        assert(t[0] == s[a]);
        assert(t.drop_first() =~= s.subrange(a + 1, b));
        lemma_cut_at(s, a + 1, r, b, c);
        assert(seq![s[a]] + s.subrange(a + 1, r) =~= s.subrange(a, r));
    }
}

/// Index of the first `c` in `text` within `[from, to)`, or `to`.
fn first_index_of(text: &str, c: char, from: usize, to: usize) -> (r: usize)
    requires
        from <= to <= text@.len(),
    ensures
        from <= r <= to,
        forall|j: int| from <= j < r ==> text@[j] != c,
        r < to ==> text@[r as int] == c,
{
    let mut i = from;
    while i < to
        invariant
            from <= i <= to <= text@.len(),
            forall|j: int| from <= j < i ==> text@[j] != c,
        decreases to - i,
    {
        if text.get_char(i) == c {
            return i;
        }
        i += 1;
    }
    i
}

/// The wall-clock time to show for a timestamp text, where it can be read
/// off the text; `None` where the host has to parse it as a date.
pub fn display_time_of(text: &str) -> (r: Option<String>)
    ensures
        match r {
            Some(t) => clock_time_spec(text@) == Some(t@),
            None => clock_time_spec(text@) is None,
        },
{
    let ghost s = text@;
    let n = text.unicode_len();
    if n == 8 && text.get_char(2) == ':' && text.get_char(5) == ':' {
        return Some(String::from_str(text));
    }
    let t = first_index_of(text, 'T', 0, n);
    proof {
        lemma_cut_at(s, 0, t as int, n as int, 'T');
        assert(s.subrange(0, n as int) =~= s);
    }
    if t == n {
        return None;
    }
    let start = t + 1;
    let end_segment = first_index_of(text, 'T', start, n);
    let end_zone = first_index_of(text, '+', start, end_segment);
    let end_time = first_index_of(text, '.', start, end_zone);
    proof {
        lemma_cut_at(s, start as int, end_segment as int, n as int, 'T');
        lemma_cut_at(s, start as int, end_zone as int, end_segment as int, '+');
        lemma_cut_at(s, start as int, end_time as int, end_zone as int, '.');
    }
    if end_time - start >= 8 && text.get_char(start + 2) == ':' && text.get_char(start + 5)
        == ':' {
        let clock = text.substring_char(start, start + 8);
        proof {
            assert(s.subrange(start as int, end_time as int).subrange(0, 8) =~= s.subrange(
                start as int,
                start + 8,
            ));
        }
        Some(String::from_str(clock))
    } else {
        None
    }
}

} // verus!
