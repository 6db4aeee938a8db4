//! Scanning text: whitespace, words, and runs of characters of one kind.

use vstd::prelude::*;
use vstd::string::StrSliceExecFns;

verus! {

/// The characters with the Unicode property White_Space.
pub open spec fn is_whitespace(c: char) -> bool {
    ||| '\u{9}' <= c <= '\u{d}'
    ||| c == ' '
    ||| c == '\u{85}'
    ||| c == '\u{a0}'
    ||| c == '\u{1680}'
    ||| '\u{2000}' <= c <= '\u{200a}'
    ||| c == '\u{2028}'
    ||| c == '\u{2029}'
    ||| c == '\u{202f}'
    ||| c == '\u{205f}'
    ||| c == '\u{3000}'
}

/// Whether `c` has the Unicode property White_Space.
pub fn whitespace(c: char) -> (r: bool)
    ensures
        r == is_whitespace(c),
{
    ('\u{9}' <= c && c <= '\u{d}') || c == ' ' || c == '\u{85}' || c == '\u{a0}' || c
        == '\u{1680}' || ('\u{2000}' <= c && c <= '\u{200a}') || c == '\u{2028}' || c
        == '\u{2029}' || c == '\u{202f}' || c == '\u{205f}' || c == '\u{3000}'
}

/// The characters from `i` up to `j` are a word of `s`: a run without
/// whitespace, as long as it can be.
pub open spec fn word_at(s: Seq<char>, i: int, j: int) -> bool {
    &&& 0 <= i < j <= s.len()
    &&& i == 0 || is_whitespace(s[i - 1])
    &&& j == s.len() || is_whitespace(s[j])
    &&& forall|k: int| i <= k < j ==> !is_whitespace(#[trigger] s[k])
}

/// `w` is one of the words that whitespace separates in `s`.
pub open spec fn has_word(s: Seq<char>, w: Seq<char>) -> bool {
    exists|i: int, j: int| word_at(s, i, j) && #[trigger] s.subrange(i, j) == w
}

/// Whether `words` holds a string with the characters `w`.
pub open spec fn holds(words: Seq<String>, w: Seq<char>) -> bool {
    exists|k: int| 0 <= k < words.len() && (#[trigger] words[k])@ == w
}

/// Whether `words` holds a string equal to `w`.
pub fn contains(words: &Vec<String>, w: &String) -> (r: bool)
    ensures
        r == holds(words@, w@),
{
    let mut k: usize = 0;
    while k < words.len()
        invariant
            k <= words@.len(),
            forall|m: int| 0 <= m < k ==> (#[trigger] words@[m])@ != w@,
        decreases words@.len() - k,
    {
        if words[k] == *w {
            return true;
        }
        k += 1;
    }
    false
}

/// Adds the word of `s` from `start` up to `end` to `words`, unless it is
/// there already.
fn add_word(words: &mut Vec<String>, s: &str, start: usize, end: usize)
    requires
        word_at(s@, start as int, end as int),
        forall|a: int, b: int|
            0 <= a < b < old(words)@.len() ==> (#[trigger] old(words)@[a])@ != (
            #[trigger] old(words)@[b])@,
        forall|k: int| 0 <= k < old(words)@.len() ==> has_word(s@, (#[trigger] old(words)@[k])@),
    ensures
        forall|a: int, b: int|
            0 <= a < b < final(words)@.len() ==> (#[trigger] final(words)@[a])@ != (
            #[trigger] final(words)@[b])@,
        forall|k: int|
            0 <= k < final(words)@.len() ==> has_word(s@, (#[trigger] final(words)@[k])@),
        forall|w: Seq<char>|
            holds(final(words)@, w) <==> holds(old(words)@, w) || w == s@.subrange(
                start as int,
                end as int,
            ),
{
    let word: String = s.substring_char(start, end).to_owned();
    let ghost before = words@;
    if !contains(words, &word) {
        words.push(word);
        assert forall|w: Seq<char>|
            holds(words@, w) <==> holds(before, w) || w == s@.subrange(
                start as int,
                end as int,
            ) by {
            if holds(before, w) {
                let k = choose|k: int| 0 <= k < before.len() && (#[trigger] before[k])@ == w;
                assert(words@[k]@ == w);
            }
            if w == s@.subrange(start as int, end as int) {
                assert(words@[before.len() as int]@ == w);
            }
            if holds(words@, w) {
                let k = choose|k: int| 0 <= k < words@.len() && (#[trigger] words@[k])@ == w;
                if k < before.len() {
                    assert(before[k]@ == w);
                }
            }
        }
    }
}

/// A word that ends before `limit`, where the characters from `start` up
/// to `limit` hold no whitespace and `start` begins a word, ends before
/// `start` or is the word from `start` up to `limit`.
proof fn lemma_word_before(s: Seq<char>, start: int, limit: int, a: int, b: int)
    requires
        0 <= start <= limit <= s.len(),
        start == 0 || is_whitespace(s[start - 1]),
        forall|k: int| start <= k < limit ==> !is_whitespace(#[trigger] s[k]),
        word_at(s, a, b),
        b <= limit,
    ensures
        b < start || (a == start && b == limit),
{
    if b >= start {
        if b < limit {
            assert(!is_whitespace(s[b]));
        }
        if a < start {
            assert(!is_whitespace(s[start - 1]));
        }
        if a > start {
            assert(!is_whitespace(s[a - 1]));
        }
    }
}

/// The words that whitespace separates in `s`, each once.
pub fn words(s: &str) -> (r: Vec<String>)
    ensures
        forall|w: Seq<char>| has_word(s@, w) <==> holds(r@, w),
        forall|a: int, b: int|
            0 <= a < b < r@.len() ==> (#[trigger] r@[a])@ != (#[trigger] r@[b])@,
{
    let n: usize = s.unicode_len();
    let mut out: Vec<String> = Vec::new();
    let mut start: usize = 0;
    let mut i: usize = 0;
    for c in it: s.chars()
        invariant
            it.seq() == s@,
            n == s@.len(),
            i == it.index(),
            start <= i <= n,
            start == 0 || is_whitespace(s@[start - 1]),
            forall|k: int| start <= k < i ==> !is_whitespace(#[trigger] s@[k]),
            forall|a: int, b: int|
                word_at(s@, a, b) && b < start ==> holds(out@, #[trigger] s@.subrange(a, b)),
            forall|k: int| 0 <= k < out@.len() ==> has_word(s@, (#[trigger] out@[k])@),
            forall|a: int, b: int|
                0 <= a < b < out@.len() ==> (#[trigger] out@[a])@ != (#[trigger] out@[b])@,
    {
        if whitespace(c) {
            let ghost before = out@;
            if start < i {
                add_word(&mut out, s, start, i);
            }
            assert forall|a: int, b: int| word_at(s@, a, b) && b < i + 1 implies holds(
                out@,
                #[trigger] s@.subrange(a, b),
            ) by {
                lemma_word_before(s@, start as int, i as int, a, b);
                if b < start {
                    assert(holds(before, s@.subrange(a, b)));
                }
            }
            start = i + 1;
        }
        i += 1;
    }
    let ghost before = out@;
    if start < n {
        add_word(&mut out, s, start, n);
    }
    assert forall|w: Seq<char>| has_word(s@, w) implies holds(out@, w) by {
        let (a, b) = choose|a: int, b: int| word_at(s@, a, b) && #[trigger] s@.subrange(a, b) == w;
        lemma_word_before(s@, start as int, n as int, a, b);
        if b < start {
            assert(holds(before, s@.subrange(a, b)));
        }
    }
    assert forall|w: Seq<char>| holds(out@, w) implies has_word(s@, w) by {
        let k = choose|k: int| 0 <= k < out@.len() && (#[trigger] out@[k])@ == w;
        assert(has_word(s@, out@[k]@));
    }
    out
}

/// `String::push` of the standard library: the string afterwards is the
/// string before with the character added at its end.
pub assume_specification[ String::push ](s: &mut String, c: char)
    ensures
        final(s)@ == old(s)@.push(c),
;

/// The end of the longest run of characters, from `pos` on, that `allowed`
/// admits.
pub open spec fn run_end(input: Seq<char>, pos: int, allowed: spec_fn(char) -> bool) -> int
    decreases input.len() - pos,
{
    if 0 <= pos < input.len() && allowed(input[pos]) {
        run_end(input, pos + 1, allowed)
    } else {
        pos
    }
}

/// A run ends inside the input, holds admitted characters only, and stops
/// at the end of the input or before a character that is not admitted.
pub proof fn lemma_run_end(input: Seq<char>, pos: int, allowed: spec_fn(char) -> bool)
    requires
        0 <= pos <= input.len(),
    ensures
        pos <= run_end(input, pos, allowed) <= input.len(),
        forall|k: int| pos <= k < run_end(input, pos, allowed) ==> allowed(#[trigger] input[k]),
        run_end(input, pos, allowed) < input.len() ==> !allowed(
            input[run_end(input, pos, allowed)],
        ),
    decreases input.len() - pos,
{
    if pos < input.len() && allowed(input[pos]) {
        lemma_run_end(input, pos + 1, allowed);
    }
}

/// The run from `pos` ends at `end` where every character up to `end` is
/// admitted and the one at `end`, if there is one, is not.
pub proof fn lemma_run_ends_at(
    input: Seq<char>,
    pos: int,
    allowed: spec_fn(char) -> bool,
    end: int,
)
    requires
        0 <= pos <= end <= input.len(),
        forall|k: int| pos <= k < end ==> allowed(#[trigger] input[k]),
        end < input.len() ==> !allowed(input[end]),
    ensures
        run_end(input, pos, allowed) == end,
    decreases end - pos,
{
    if pos < end {
        assert(allowed(input[pos]));
        lemma_run_ends_at(input, pos + 1, allowed, end);
    }
}

/// Whether the character `c` stands at `pos`.
pub open spec fn stands_here(input: Seq<char>, pos: int, c: char) -> bool {
    0 <= pos < input.len() && input[pos] == c
}

/// Where whitespace from `pos` on ends.
pub open spec fn whitespace_end(input: Seq<char>, pos: int) -> int {
    run_end(input, pos, |c: char| is_whitespace(c))
}

/// The characters of a string, in order.
pub fn chars_of(s: &str) -> (r: Vec<char>)
    ensures
        r@ == s@,
{
    let mut chars: Vec<char> = Vec::new();
    for c in it: s.chars()
        invariant
            it.seq() == s@,
            chars@ == it.seq().take(it.index() as int),
    {
        chars.push(c);
    }
    chars
}

} // verus!
