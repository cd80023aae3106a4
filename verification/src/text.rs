//! Text primitives of the path language: separators, case folding,
//! splitting an address into segments, and substring search.

use vstd::prelude::*;
use vstd::std_specs::iter::IteratorSpec;
use crate::search::{first_index, lemma_first_index, lemma_first_index_is};

verus! {

/// The lower-case form of a text, as `str::to_lowercase` computes it.
pub uninterp spec fn lowercase(s: Seq<char>) -> Seq<char>;

/// `str::to_lowercase` of std: the result is the lower-case form of `s`.
/// Unicode case folding is not restated here; `lowercase` names it.
#[verifier::external_body]
pub(crate) fn to_lowercase(s: &str) -> (r: String)
    ensures
        r@ == lowercase(s@),
{
    s.to_lowercase()
}

/// `String::push` of std: appends the one character `c` to `s`.
#[verifier::external_body]
pub(crate) fn push_char(s: &mut String, c: char)
    ensures
        final(s)@ == old(s)@.push(c),
{
    s.push(c)
}

/// Two names denote the same entity when their lower-case forms agree.
pub open spec fn same_name(a: Seq<char>, b: Seq<char>) -> bool {
    lowercase(a) == lowercase(b)
}

/// Case-insensitive comparison of two names.
pub fn names_match(a: &str, b: &str) -> (r: bool)
    ensures
        r == same_name(a@, b@),
{
    let la = to_lowercase(a);
    let lb = to_lowercase(b);
    la == lb
}

/// Whether `c` separates two segments of a path.
pub open spec fn is_separator(c: char) -> bool {
    c == ':' || c == '/' || c == '\\'
}

/// Executable form of `is_separator`.
pub fn separator(c: char) -> (r: bool)
    ensures
        r == is_separator(c),
{
    c == ':' || c == '/' || c == '\\'
}

/// The characters of a text, in order.
pub fn to_chars(s: &str) -> (v: Vec<char>)
    ensures
        v@ == s@,
{
    let mut v: Vec<char> = Vec::new();
    for c in it: s.chars()
        invariant
            it.seq() == s@,
            v@ == it.seq().subrange(0, it.index()),
    {
        v.push(c);
    }
    assert(v@ =~= s@);
    v
}

/// The property of being a separator, as a predicate.
pub open spec fn separator_test() -> spec_fn(char) -> bool {
    |c: char| is_separator(c)
}

/// The position of the first separator of `s`, or `s.len()` if it has none.
pub open spec fn first_separator(s: Seq<char>) -> int {
    first_index(s, separator_test())
}

/// `first_separator` is the least position that holds a separator.
pub proof fn lemma_first_separator(s: Seq<char>)
    ensures
        0 <= first_separator(s) <= s.len(),
        forall|j: int| 0 <= j < first_separator(s) ==> !is_separator(#[trigger] s[j]),
        first_separator(s) < s.len() ==> is_separator(s[first_separator(s)]),
{
    lemma_first_index(s, separator_test());
}

/// A position that precedes every separator and holds one (or is the end)
/// is the first separator.
pub proof fn lemma_first_separator_is(s: Seq<char>, i: int)
    requires
        0 <= i <= s.len(),
        forall|j: int| 0 <= j < i ==> !is_separator(#[trigger] s[j]),
        i < s.len() ==> is_separator(s[i]),
    ensures
        first_separator(s) == i,
{
    lemma_first_index_is(s, separator_test(), i);
}

/// The segments of a path: the text between its separators. A path always
/// has at least one segment; an empty text is one empty segment.
pub open spec fn split_path(s: Seq<char>) -> Seq<Seq<char>>
    decreases s.len(),
    via split_path_decreases
{
    let i = first_separator(s);
    if i >= s.len() {
        seq![s]
    } else {
        seq![s.subrange(0, i)] + split_path(s.subrange(i + 1, s.len() as int))
    }
}

#[via_fn]
proof fn split_path_decreases(s: Seq<char>) {
    lemma_first_separator(s);
}

/// A path has at least one segment.
pub proof fn lemma_split_nonempty(s: Seq<char>)
    ensures
        split_path(s).len() >= 1,
{
    lemma_first_separator(s);
}

/// The segments of `text`, in order.
pub fn split_segments(text: &str) -> (segments: Vec<String>)
    ensures
        texts(segments@) == split_path(text@),
{
    let chars = to_chars(text);
    let mut segments: Vec<String> = Vec::new();
    let mut current = String::new();
    let mut start: usize = 0;
    let mut i: usize = 0;
    proof {
        assert(chars@.subrange(0, chars.len() as int) =~= chars@);
        assert(texts(segments@) + split_path(chars@) =~= split_path(chars@));
    }
    while i < chars.len()
        invariant
            chars@ == text@,
            0 <= start <= i <= chars.len(),
            current@ == chars@.subrange(start as int, i as int),
            forall|j: int| start <= j < i ==> !is_separator(#[trigger] chars@[j]),
            texts(segments@) + split_path(chars@.subrange(start as int, chars.len() as int))
                == split_path(chars@),
        decreases chars.len() - i,
    {
        let c = chars[i];
        if separator(c) {
            proof {
                let rest = chars@.subrange(start as int, chars.len() as int);
                lemma_first_separator_is(rest, i - start);
                assert(rest.subrange(0, i - start) =~= current@);
                assert(rest.subrange(i - start + 1, rest.len() as int) =~= chars@.subrange(
                    i + 1,
                    chars.len() as int,
                ));
                assert(texts(segments@.push(current)) =~= texts(segments@) + seq![current@]);
            }
            segments.push(current);
            current = String::new();
            start = i + 1;
            assert(current@ =~= chars@.subrange(start as int, i + 1));
        } else {
            push_char(&mut current, c);
            assert(current@ =~= chars@.subrange(start as int, i + 1));
        }
        i += 1;
    }
    proof {
        let rest = chars@.subrange(start as int, chars.len() as int);
        lemma_first_separator_is(rest, rest.len() as int);
        assert(rest =~= current@);
        assert(texts(segments@.push(current)) =~= texts(segments@) + seq![current@]);
    }
    segments.push(current);
    segments
}

/// The texts that a sequence of strings holds.
pub open spec fn texts(v: Seq<String>) -> Seq<Seq<char>> {
    v.map_values(|s: String| s@)
}

/// `s` with every separator replaced by a colon.
pub open spec fn unify_separators(s: Seq<char>) -> Seq<char> {
    s.map_values(|c: char| if is_separator(c) { ':' } else { c })
}

/// The form in which a query is compared: lower case, separators unified.
pub open spec fn normalized(s: Seq<char>) -> Seq<char> {
    unify_separators(lowercase(s))
}

/// The normal form of `name`: lower case, every separator a colon.
pub fn normalize(name: &str) -> (r: String)
    ensures
        r@ == normalized(name@),
{
    let lower = to_lowercase(name);
    unify(lower.as_str())
}

/// `text` with every separator replaced by a colon.
pub fn unify(text: &str) -> (r: String)
    ensures
        r@ == unify_separators(text@),
{
    let chars = to_chars(text);
    let mut r = String::new();
    let mut i: usize = 0;
    while i < chars.len()
        invariant
            0 <= i <= chars.len(),
            r@ == unify_separators(chars@.subrange(0, i as int)),
        decreases chars.len() - i,
    {
        let c = chars[i];
        if separator(c) {
            push_char(&mut r, ':');
        } else {
            push_char(&mut r, c);
        }
        assert(r@ =~= unify_separators(chars@.subrange(0, i + 1)));
        i += 1;
    }
    assert(chars@.subrange(0, i as int) =~= chars@);
    r
}

/// Whether `needle` occurs in `hay` at position `k`.
pub open spec fn occurs_at(needle: Seq<char>, hay: Seq<char>, k: int) -> bool {
    0 <= k && k + needle.len() <= hay.len() && hay.subrange(k, k + needle.len()) == needle
}

/// Whether `needle` is a contiguous part of `hay`.
pub open spec fn is_substring(needle: Seq<char>, hay: Seq<char>) -> bool {
    exists|k: int| occurs_at(needle, hay, k)
}

/// Whether `needle` occurs in `hay` at position `k`.
fn matches_at(needle: &Vec<char>, hay: &Vec<char>, k: usize) -> (r: bool)
    requires
        k + needle.len() <= hay.len(),
    ensures
        r == occurs_at(needle@, hay@, k as int),
{
    let mut j: usize = 0;
    while j < needle.len()
        invariant
            k + needle.len() <= hay.len(),
            0 <= j <= needle.len(),
            forall|m: int| 0 <= m < j ==> hay@[k + m] == needle@[m],
        decreases needle.len() - j,
    {
        if hay[k + j] != needle[j] {
            proof {
                let part = hay@.subrange(k as int, k + needle.len());
                assert(part[j as int] == hay@[k + j]);
            }
            return false;
        }
        j += 1;
    }
    assert(hay@.subrange(k as int, k + needle.len()) =~= needle@);
    true
}

/// Substring test: whether `needle` is a contiguous part of `hay`.
pub fn chars_contain(hay: &Vec<char>, needle: &Vec<char>) -> (r: bool)
    ensures
        r == is_substring(needle@, hay@),
{
    if needle.len() > hay.len() {
        return false;
    }
    let last: usize = hay.len() - needle.len();
    let mut k: usize = 0;
    while k < last
        invariant
            last == hay.len() - needle.len(),
            0 <= k <= last,
            forall|m: int| 0 <= m < k ==> !occurs_at(needle@, hay@, m),
        decreases last - k,
    {
        if matches_at(needle, hay, k) {
            return true;
        }
        k += 1;
    }
    matches_at(needle, hay, last)
}


/// A line as it was typed: `s` without one line feed at its end, and
/// without one carriage return before that.
pub open spec fn typed_line(s: Seq<char>) -> Seq<char> {
    let a = if s.len() > 0 && s.last() == '\n' {
        s.drop_last()
    } else {
        s
    };
    if a.len() > 0 && a.last() == '\r' {
        a.drop_last()
    } else {
        a
    }
}

/// Whether the line `answer` says yes: whether it is, but for its line end
/// and for case, the one letter `y`.
pub fn confirms(answer: &str) -> (r: bool)
    ensures
        r == (lowercase(typed_line(answer@)) == "y"@),
{
    let line = line_of(answer);
    let folded = to_lowercase(line.as_str());
    let yes = "y".to_owned();
    folded == yes
}

/// The line `answer` as it was typed, without its line end.
pub fn line_of(answer: &str) -> (line: String)
    ensures
        line@ == typed_line(answer@),
{
    let chars = to_chars(answer);
    let mut end: usize = chars.len();
    if end > 0 && chars[end - 1] == '\n' {
        end -= 1;
    }
    assert(chars@.subrange(0, end as int) =~= if answer@.len() > 0 && answer@.last() == '\n' {
        answer@.drop_last()
    } else {
        answer@
    });
    if end > 0 && chars[end - 1] == '\r' {
        end -= 1;
    }
    assert(chars@.subrange(0, end as int) =~= typed_line(answer@));
    let mut line = String::new();
    let mut k: usize = 0;
    while k < end
        invariant
            0 <= k <= end <= chars.len(),
            line@ == chars@.subrange(0, k as int),
        decreases end - k,
    {
        push_char(&mut line, chars[k]);
        assert(line@ =~= chars@.subrange(0, k + 1));
        k += 1;
    }
    line
}

} // verus!
