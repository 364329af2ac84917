//! Provide wordlists.
//!
//! This module contains the built-in list of words, and provides helpers to
//! collect statistics about a wordlist.
//!
//! The built-in list is a diceware-style list of 7776 pronounceable words:
//! every word is five lowercase letters alternating consonant and vowel, and
//! each of the six consonants and six vowels at each position encodes one
//! roll of a six-sided die.  The list is pairwise distinct by construction,
//! holds no empty entry and no whitespace.

use crate::is_ascii_alphanumeric_char;
use crate::word_views;
use vstd::arithmetic::div_mod::lemma_fundamental_div_mod;
use vstd::arithmetic::div_mod::lemma_mod_mod;
use vstd::arithmetic::mul::lemma_mul_inequality;
use vstd::prelude::*;
use vstd::relations::sorted_by;
use vstd::relations::total_ordering;
use vstd::seq_lib::lemma_sorted_unique;
use vstd::seq_lib::to_multiset_insert;

verus! {

/// `c` is an ASCII whitespace character.
pub open spec fn is_whitespace_char(c: char) -> bool {
    c == ' ' || c == '\t' || c == '\n' || c == '\r'
}

/// `c` is an ASCII lowercase letter.
pub open spec fn is_lowercase_letter(c: char) -> bool {
    ('a' as u32) <= (c as u32) <= ('z' as u32)
}

/// A usable wordlist: non-empty, no empty entry, no whitespace inside an
/// entry, and no duplicate entries.
pub open spec fn wordlist_valid(ws: Seq<Seq<char>>) -> bool {
    &&& ws.len() > 0
    &&& forall|p: int| 0 <= p < ws.len() ==> (#[trigger] ws[p]).len() > 0
    &&& forall|p: int, i: int|
        0 <= p < ws.len() && 0 <= i < ws[p].len() ==> !is_whitespace_char(#[trigger] ws[p][i])
    &&& forall|p: int, q: int| 0 <= p < q < ws.len() ==> ws[p] != ws[q]
}

/// Number of entries in the built-in wordlist.
pub const WORDLIST_SIZE: usize = 7776;

/// The consonant that encodes one die roll.
pub open spec fn consonant_char(d: int) -> char {
    if d == 0 {
        'b'
    } else if d == 1 {
        'd'
    } else if d == 2 {
        'k'
    } else if d == 3 {
        'm'
    } else if d == 4 {
        'r'
    } else {
        's'
    }
}

/// The vowel that encodes one die roll.
pub open spec fn vowel_char(d: int) -> char {
    if d == 0 {
        'a'
    } else if d == 1 {
        'e'
    } else if d == 2 {
        'i'
    } else if d == 3 {
        'o'
    } else if d == 4 {
        'u'
    } else {
        'y'
    }
}

/// The word at position `i` of the built-in list: five letters, alternating
/// consonant and vowel, whose die rolls are the base-six digits of `i`.
pub open spec fn builtin_word(i: int) -> Seq<char> {
    seq![
        consonant_char(i / 1296),
        vowel_char((i % 1296) / 216),
        consonant_char((i % 216) / 36),
        vowel_char((i % 36) / 6),
        consonant_char(i % 6),
    ]
}

/// Every letter of the alphabet used by the built-in list is lowercase.
proof fn lemma_letter_chars()
    ensures
        forall|d: int| is_lowercase_letter(#[trigger] consonant_char(d)),
        forall|d: int| is_lowercase_letter(#[trigger] vowel_char(d)),
{
}

/// Within one die roll, distinct outcomes give distinct consonants.
proof fn lemma_consonant_injective(a: int, b: int)
    requires
        0 <= a < 6,
        0 <= b < 6,
        consonant_char(a) == consonant_char(b),
    ensures
        a == b,
{
}

/// Within one die roll, distinct outcomes give distinct vowels.
proof fn lemma_vowel_injective(a: int, b: int)
    requires
        0 <= a < 6,
        0 <= b < 6,
        vowel_char(a) == vowel_char(b),
    ensures
        a == b,
{
}

/// Distinct positions of the built-in list hold distinct words: a word spells
/// out the five base-six digits of its position.
proof fn lemma_builtin_word_injective(i: int, j: int)
    requires
        0 <= i < WORDLIST_SIZE,
        0 <= j < WORDLIST_SIZE,
        builtin_word(i) == builtin_word(j),
    ensures
        i == j,
{
    assert(builtin_word(i)[0] == builtin_word(j)[0]);
    assert(builtin_word(i)[1] == builtin_word(j)[1]);
    assert(builtin_word(i)[2] == builtin_word(j)[2]);
    assert(builtin_word(i)[3] == builtin_word(j)[3]);
    assert(builtin_word(i)[4] == builtin_word(j)[4]);
    lemma_consonant_injective(i / 1296, j / 1296);
    lemma_vowel_injective((i % 1296) / 216, (j % 1296) / 216);
    lemma_consonant_injective((i % 216) / 36, (j % 216) / 36);
    lemma_vowel_injective((i % 36) / 6, (j % 36) / 6);
    lemma_consonant_injective(i % 6, j % 6);
    lemma_digits_rebuild(i);
    lemma_digits_rebuild(j);
}

/// A position below the list size is rebuilt from its five base-six digits.
proof fn lemma_digits_rebuild(i: int)
    requires
        0 <= i < WORDLIST_SIZE,
    ensures
        i == 1296 * (i / 1296) + 216 * ((i % 1296) / 216) + 36 * ((i % 216) / 36) + 6 * ((i % 36)
            / 6) + (i % 6),
{
    lemma_fundamental_div_mod(i, 1296);
    lemma_fundamental_div_mod(i % 1296, 216);
    lemma_fundamental_div_mod(i % 216, 36);
    lemma_fundamental_div_mod(i % 36, 6);
    lemma_mod_mod(i, 216, 6);
    lemma_mod_mod(i, 36, 6);
    lemma_mod_mod(i, 6, 6);
    assert(216 * 6 == 1296);
    assert(36 * 6 == 216);
    assert(6 * 6 == 36);
}

fn consonant(d: usize) -> (letter: &'static str)
    requires
        d < 6,
    ensures
        letter@ =~= seq![consonant_char(d as int)],
{
    proof {
        reveal_strlit("b");
        reveal_strlit("d");
        reveal_strlit("k");
        reveal_strlit("m");
        reveal_strlit("r");
        reveal_strlit("s");
    }
    if d == 0 {
        "b"
    } else if d == 1 {
        "d"
    } else if d == 2 {
        "k"
    } else if d == 3 {
        "m"
    } else if d == 4 {
        "r"
    } else {
        "s"
    }
}

fn vowel(d: usize) -> (letter: &'static str)
    requires
        d < 6,
    ensures
        letter@ =~= seq![vowel_char(d as int)],
{
    proof {
        reveal_strlit("a");
        reveal_strlit("e");
        reveal_strlit("i");
        reveal_strlit("o");
        reveal_strlit("u");
        reveal_strlit("y");
    }
    if d == 0 {
        "a"
    } else if d == 1 {
        "e"
    } else if d == 2 {
        "i"
    } else if d == 3 {
        "o"
    } else if d == 4 {
        "u"
    } else {
        "y"
    }
}

fn build_word(i: usize) -> (word: String)
    requires
        i < WORDLIST_SIZE,
    ensures
        word@ == builtin_word(i as int),
{
    let mut word = String::new();
    word.append(consonant(i / 1296));
    word.append(vowel((i % 1296) / 216));
    word.append(consonant((i % 216) / 36));
    word.append(vowel((i % 36) / 6));
    word.append(consonant(i % 6));
    proof {
        assert(word@ =~= builtin_word(i as int));
    }
    word
}

/// Get the list of built-in words.
///
/// This function returns the built-in diceware-style wordlist.  The list
/// contains 7776 pronounceable words of five lowercase letters each: one
/// word per outcome of five rolls of a six-sided die.
pub fn builtin_words() -> (words: Vec<String>)
    ensures
        words@.len() == WORDLIST_SIZE,
        forall|k: int| 0 <= k < words@.len() ==> (#[trigger] words@[k])@ == builtin_word(k),
        wordlist_valid(word_views(words@)),
{
    let mut words: Vec<String> = Vec::new();
    let mut i: usize = 0;
    while i < WORDLIST_SIZE
        invariant
            i <= WORDLIST_SIZE,
            words@.len() == i,
            forall|k: int| 0 <= k < i ==> (#[trigger] words@[k])@ == builtin_word(k),
        decreases WORDLIST_SIZE - i,
    {
        words.push(build_word(i));
        i = i + 1;
    }
    proof {
        lemma_builtin_list_valid(words@);
    }
    words
}

/// The length of each word, in characters (Unicode scalar values, not bytes).
pub open spec fn word_lengths(ws: Seq<Seq<char>>) -> Seq<usize> {
    ws.map(|i: int, w: Seq<char>| w.len() as usize)
}

/// The ordering by which word lengths are sorted for the median.
pub open spec fn length_leq() -> spec_fn(usize, usize) -> bool {
    |a: usize, b: usize| a <= b
}

/// The smallest element of a sequence of lengths, or zero for an empty one.
pub open spec fn seq_min(s: Seq<usize>) -> usize
    decreases s.len(),
{
    if s.len() == 0 {
        0
    } else if s.len() == 1 {
        s.last()
    } else if s.last() < seq_min(s.drop_last()) {
        s.last()
    } else {
        seq_min(s.drop_last())
    }
}

/// The largest element of a sequence of lengths, or zero for an empty one.
pub open spec fn seq_max(s: Seq<usize>) -> usize
    decreases s.len(),
{
    if s.len() == 0 {
        0
    } else if s.last() > seq_max(s.drop_last()) {
        s.last()
    } else {
        seq_max(s.drop_last())
    }
}

/// The sum of a sequence of lengths.
pub open spec fn seq_sum(s: Seq<usize>) -> int
    decreases s.len(),
{
    if s.len() == 0 {
        0
    } else {
        seq_sum(s.drop_last()) + s.last()
    }
}

/// The median of a sequence of lengths under the truncating convention:
/// the middle element of the sorted sequence for an odd count, the floor of
/// the average of the two middle elements for an even count, zero for an
/// empty sequence.
pub open spec fn median_of(s: Seq<usize>) -> int {
    let sorted = s.sort_by(length_leq());
    if s.len() == 0 {
        0
    } else if s.len() % 2 == 1 {
        sorted[s.len() as int / 2] as int
    } else {
        (sorted[s.len() as int / 2 - 1] as int + sorted[s.len() as int / 2] as int) / 2
    }
}

/// Descriptive statistics over a wordlist, derived from a snapshot of it.
/// Lengths are counted in characters (Unicode scalar values), not bytes.
#[derive(Clone, Copy, Debug, PartialEq, Eq)]
pub struct WordlistStatistics {
    /// Number of words in the list.
    pub count: usize,
    /// Length of the shortest word; zero for an empty list.
    pub min: usize,
    /// Length of the longest word; zero for an empty list.
    pub max: usize,
    /// Sum of all word lengths; the mean length is this sum divided by
    /// `count`.
    pub total_length: u128,
    /// Median word length under the truncating convention.
    pub median: usize,
}

/// The comparison by which lengths are sorted is a total order.
proof fn lemma_length_leq_total_ordering()
    ensures
        total_ordering(length_leq()),
{
}

/// Insert `x` into a sorted vector of lengths, keeping it sorted.
fn insert_sorted(sorted: &mut Vec<usize>, x: usize)
    requires
        sorted_by(old(sorted)@, length_leq()),
    ensures
        final(sorted)@.len() == old(sorted)@.len() + 1,
        final(sorted)@.to_multiset() == old(sorted)@.to_multiset().insert(x),
        sorted_by(final(sorted)@, length_leq()),
{
    let ghost orig = sorted@;
    let mut pos: usize = 0;
    while pos < sorted.len() && sorted[pos] <= x
        invariant
            pos <= sorted@.len(),
            sorted@ == orig,
            forall|r: int| 0 <= r < pos ==> sorted@[r] <= x,
        decreases sorted@.len() - pos,
    {
        pos = pos + 1;
    }
    sorted.insert(pos, x);
    proof {
        to_multiset_insert(orig, pos as int, x);
        orig.insert_ensures(pos as int, x);
        let updated = sorted@;
        assert forall|i: int, j: int| 0 <= i < j < updated.len() implies length_leq()(
            updated[i],
            updated[j],
        ) by {
            if j < pos {
                assert(updated[i] == orig[i] && updated[j] == orig[j]);
            } else if i > pos {
                assert(updated[i] == orig[i - 1] && updated[j] == orig[j - 1]);
            } else if i < pos && j == pos {
                assert(updated[i] == orig[i] && updated[j] == x);
                assert(orig[i] <= x);
            } else if i < pos && j > pos {
                assert(updated[i] == orig[i] && updated[j] == orig[j - 1]);
            } else if i == pos && j > pos {
                assert(updated[i] == x && updated[j] == orig[j - 1]);
                if pos < orig.len() {
                    assert(!(orig[pos as int] <= x));
                    assert(length_leq()(orig[pos as int], orig[j - 1]) || pos == j - 1);
                }
            }
        }
    }
}

/// Sort a copy of the lengths ascending; the result is the unique sorted
/// arrangement of them.
fn sorted_lengths(lens: &Vec<usize>) -> (sorted: Vec<usize>)
    ensures
        sorted@.len() == lens@.len(),
        sorted@ == lens@.sort_by(length_leq()),
{
    let mut sorted: Vec<usize> = Vec::new();
    proof {
        assert(sorted@ =~= lens@.take(0));
    }
    let mut k: usize = 0;
    while k < lens.len()
        invariant
            k <= lens@.len(),
            sorted@.len() == k,
            sorted@.to_multiset() == lens@.take(k as int).to_multiset(),
            sorted_by(sorted@, length_leq()),
        decreases lens@.len() - k,
    {
        let x = lens[k];
        insert_sorted(&mut sorted, x);
        proof {
            broadcast use vstd::seq_lib::group_to_multiset_ensures;

            assert(lens@.take(k as int + 1) =~= lens@.take(k as int).push(x));
        }
        k = k + 1;
    }
    proof {
        assert(lens@.take(lens@.len() as int) =~= lens@);
        lens@.lemma_sort_by_ensures(length_leq());
        lemma_length_leq_total_ordering();
        lemma_sorted_unique(sorted@, lens@.sort_by(length_leq()), length_leq());
    }
    sorted
}

impl WordlistStatistics {
    /// Compute the statistics of a wordlist: how many words it holds, the
    /// shortest, longest and median word length, and the summed length from
    /// which the mean follows.  An empty list yields all-zero statistics.
    pub fn from_words(words: &Vec<String>) -> (stats: WordlistStatistics)
        ensures
            stats.count == words@.len(),
            stats.min == seq_min(word_lengths(word_views(words@))),
            stats.max == seq_max(word_lengths(word_views(words@))),
            stats.total_length as int == seq_sum(word_lengths(word_views(words@))),
            stats.median as int == median_of(word_lengths(word_views(words@))),
    {
        let ghost lens_spec = word_lengths(word_views(words@));
        let mut lens: Vec<usize> = Vec::new();
        let mut k: usize = 0;
        while k < words.len()
            invariant
                k <= words@.len(),
                lens@.len() == k,
                lens_spec == word_lengths(word_views(words@)),
                forall|t: int| 0 <= t < k ==> lens@[t] == lens_spec[t],
            decreases words@.len() - k,
        {
            lens.push(words[k].as_str().unicode_len());
            k = k + 1;
        }
        proof {
            assert(lens@ =~= lens_spec);
        }
        let mut min_len: usize = 0;
        let mut max_len: usize = 0;
        let mut total: u128 = 0;
        let mut t: usize = 0;
        while t < lens.len()
            invariant
                t <= lens@.len(),
                lens@ == lens_spec,
                min_len == seq_min(lens_spec.take(t as int)),
                max_len == seq_max(lens_spec.take(t as int)),
                total as int == seq_sum(lens_spec.take(t as int)),
                total as int <= (t as int) * (usize::MAX as int),
            decreases lens@.len() - t,
        {
            let l = lens[t];
            proof {
                assert(lens_spec.take(t as int + 1).drop_last() =~= lens_spec.take(t as int));
                assert(lens_spec.take(t as int + 1).last() == lens_spec[t as int]);
                lemma_mul_inequality(t as int + 1, lens_spec.len() as int, usize::MAX as int);
                lemma_mul_inequality(lens_spec.len() as int, usize::MAX as int, usize::MAX as int);
            }
            min_len = if t == 0 {
                l
            } else if l < min_len {
                l
            } else {
                min_len
            };
            max_len = if l > max_len {
                l
            } else {
                max_len
            };
            total = total + (l as u128);
            t = t + 1;
        }
        proof {
            assert(lens_spec.take(lens_spec.len() as int) =~= lens_spec);
        }
        let sorted = sorted_lengths(&lens);
        let count = lens.len();
        let median: usize = if count == 0 {
            0
        } else if count % 2 == 1 {
            sorted[count / 2]
        } else {
            let a = sorted[count / 2 - 1];
            let b = sorted[count / 2];
            (((a as u128) + (b as u128)) / 2) as usize
        };
        WordlistStatistics { count, min: min_len, max: max_len, total_length: total, median }
    }
}

/// Law: a list whose entry at each position is the built-in word for that
/// position, with one entry per possible word, is a valid wordlist: no
/// entry is empty, none holds whitespace, and no two entries are equal.
pub proof fn lemma_builtin_list_valid(words: Seq<String>)
    requires
        words.len() == WORDLIST_SIZE,
        forall|k: int| 0 <= k < words.len() ==> (#[trigger] words[k])@ == builtin_word(k),
    ensures
        wordlist_valid(word_views(words)),
{
    let ws = word_views(words);
    lemma_letter_chars();
    assert forall|p: int| 0 <= p < ws.len() implies (#[trigger] ws[p]).len() > 0 by {
        assert(ws[p] == builtin_word(p));
    }
    assert forall|p: int, i: int|
        0 <= p < ws.len() && 0 <= i < ws[p].len() implies !is_whitespace_char(
        #[trigger] ws[p][i],
    ) by {
        assert(ws[p] == builtin_word(p));
        assert(is_lowercase_letter(builtin_word(p)[i]));
    }
    assert forall|p: int, q: int| 0 <= p < q < ws.len() implies ws[p] != ws[q] by {
        assert(ws[p] == builtin_word(p));
        assert(ws[q] == builtin_word(q));
        if builtin_word(p) == builtin_word(q) {
            lemma_builtin_word_injective(p, q);
        }
    }
}

/// Law: every character of every built-in word is an ASCII letter, so any
/// separator that holds some other character stays unambiguous.
pub proof fn lemma_builtin_list_alphanumeric(words: Seq<String>)
    requires
        forall|k: int| 0 <= k < words.len() ==> (#[trigger] words[k])@ == builtin_word(k),
    ensures
        forall|w: int, i: int|
            0 <= w < words.len() && 0 <= i < words[w]@.len() ==> is_ascii_alphanumeric_char(
                #[trigger] words[w]@[i],
            ),
{
    lemma_letter_chars();
    assert forall|w: int, i: int|
        0 <= w < words.len() && 0 <= i < words[w]@.len() implies is_ascii_alphanumeric_char(
        #[trigger] words[w]@[i],
    ) by {
        assert(words[w]@ == builtin_word(w));
        assert(is_lowercase_letter(builtin_word(w)[i]));
    }
}

} // verus!
