//! Generate XKCD 936 passphrases.
//!
//! A passphrase is a fixed number of distinct words, drawn uniformly at
//! random without replacement from a wordlist and joined with a separator.
//! [`generate_password`] produces a single passphrase and
//! [`generate_passwords`] a whole batch; the `wordlist` module supplies the
//! built-in wordlist and descriptive statistics over any wordlist.

use vstd::prelude::*;

pub mod wordlist;

verus! {

/// Number of words per passphrase when the caller does not choose one.
pub const DEFAULT_LENGTH: usize = 4;

/// Number of passphrases per run when the caller does not choose one.
pub const DEFAULT_NUMBER: usize = 5;

/// Reasons why a passphrase cannot be generated.
#[derive(Clone, Copy, Debug, PartialEq, Eq)]
pub enum PasswordError {
    /// More distinct words were requested than the wordlist holds.  Sampling
    /// is without replacement, so such a request fails instead of silently
    /// repeating or truncating.
    InsufficientWords {
        /// The number of words that was requested.
        requested: usize,
        /// The number of words the wordlist holds.
        available: usize,
    },
}

/// The words of a list, each as its sequence of characters.
pub open spec fn word_views(words: Seq<String>) -> Seq<Seq<char>> {
    words.map(|i: int, w: String| w@)
}

/// The words of `words` at the positions listed in `indices`, in that order.
pub open spec fn chosen_views(words: Seq<String>, indices: Seq<usize>) -> Seq<Seq<char>> {
    Seq::new(indices.len(), |p: int| words[indices[p] as int]@)
}

/// `parts` joined into one sequence with `sep` between consecutive parts:
/// no leading or trailing separator, and none at all for fewer than two parts.
pub open spec fn join_with(parts: Seq<Seq<char>>, sep: Seq<char>) -> Seq<char>
    decreases parts.len(),
{
    if parts.len() == 0 {
        Seq::empty()
    } else if parts.len() == 1 {
        parts[0]
    } else {
        parts[0] + sep + join_with(parts.drop_first(), sep)
    }
}

/// `indices` holds pairwise distinct positions of a list of `n` words.
pub open spec fn distinct_indices_below(indices: Seq<usize>, n: int) -> bool {
    &&& forall|p: int| 0 <= p < indices.len() ==> indices[p] < n
    &&& forall|p: int, q: int| 0 <= p < q < indices.len() ==> indices[p] != indices[q]
}

/// `password` is `length` words of `words`, drawn at pairwise distinct
/// positions and joined with `sep`.
pub open spec fn is_sampled_password(
    password: Seq<char>,
    words: Seq<String>,
    length: int,
    sep: Seq<char>,
) -> bool {
    exists|indices: Seq<usize>|
        {
            &&& indices.len() == length
            &&& distinct_indices_below(indices, words.len() as int)
            &&& password == join_with(#[trigger] chosen_views(words, indices), sep)
        }
}

/// `c` is an ASCII letter or digit.  Separators made only of such characters
/// can also occur inside words, so the guarantees on separator counts are
/// stated for separators that contain at least one other character.
pub open spec fn is_ascii_alphanumeric_char(c: char) -> bool {
    ||| ('a' as u32) <= (c as u32) <= ('z' as u32)
    ||| ('A' as u32) <= (c as u32) <= ('Z' as u32)
    ||| ('0' as u32) <= (c as u32) <= ('9' as u32)
}

/// Number of non-overlapping occurrences of `needle` in `hay`, scanning from
/// the left, as `str::matches` counts them.
pub open spec fn count_matches(hay: Seq<char>, needle: Seq<char>) -> nat
    decreases hay.len(),
{
    if needle.len() == 0 || hay.len() < needle.len() {
        0
    } else if hay.subrange(0, needle.len() as int) == needle {
        1 + count_matches(hay.skip(needle.len() as int), needle)
    } else {
        count_matches(hay.skip(1), needle)
    }
}

/// `sep` holds at least one character that is not a letter or digit.
pub open spec fn has_special_char(sep: Seq<char>) -> bool {
    exists|j: int| 0 <= j < sep.len() && !is_ascii_alphanumeric_char(#[trigger] sep[j])
}

/// The position of the first character of `sep` at or after `k` that is not
/// a letter or digit; the length of `sep` when there is none.
spec fn first_special_from(sep: Seq<char>, k: int) -> int
    decreases sep.len() - k when 0 <= k <= sep.len()
{
    if k >= sep.len() {
        sep.len() as int
    } else if !is_ascii_alphanumeric_char(sep[k]) {
        k
    } else {
        first_special_from(sep, k + 1)
    }
}

/// The first special position carries a special character, everything before
/// it is a letter or digit, and it exists whenever some special position does.
proof fn lemma_first_special_from(sep: Seq<char>, k: int)
    requires
        0 <= k <= sep.len(),
    ensures
        k <= first_special_from(sep, k) <= sep.len(),
        first_special_from(sep, k) < sep.len() ==> !is_ascii_alphanumeric_char(
            sep[first_special_from(sep, k)],
        ),
        forall|i: int|
            k <= i < first_special_from(sep, k) ==> is_ascii_alphanumeric_char(#[trigger] sep[i]),
        (exists|j: int| k <= j < sep.len() && !is_ascii_alphanumeric_char(#[trigger] sep[j]))
            ==> first_special_from(sep, k) < sep.len(),
    decreases sep.len() - k,
{
    if k < sep.len() && is_ascii_alphanumeric_char(sep[k]) {
        lemma_first_special_from(sep, k + 1);
    }
}

/// No occurrence of `sep` can start inside a word that a copy of `sep`
/// follows: the first special character of `sep` cannot land on a letter of
/// the word, and landing inside the copy would place an even earlier special
/// character before it.
proof fn lemma_no_match_into_word(word: Seq<char>, sep: Seq<char>, rest: Seq<char>, p: int)
    requires
        forall|i: int| 0 <= i < word.len() ==> is_ascii_alphanumeric_char(#[trigger] word[i]),
        sep.len() >= 1,
        has_special_char(sep),
        0 <= p < word.len(),
    ensures
        (word + sep + rest).subrange(p, p + sep.len()) != sep,
{
    let hay = word + sep + rest;
    let m = sep.len() as int;
    lemma_first_special_from(sep, 0);
    let j0 = first_special_from(sep, 0);
    if hay.subrange(p, p + m) == sep {
        assert(hay.subrange(p, p + m)[j0] == hay[p + j0]);
        if p + j0 < word.len() {
            assert(hay[p + j0] == word[p + j0]);
        } else {
            let d = word.len() - p;
            assert(hay[p + j0] == sep[j0 - d]);
            assert(!is_ascii_alphanumeric_char(sep[j0 - d]));
        }
    }
}

/// A word made only of letters and digits holds no occurrence of a separator
/// with a special character.
proof fn lemma_count_word_alone(word: Seq<char>, sep: Seq<char>)
    requires
        forall|i: int| 0 <= i < word.len() ==> is_ascii_alphanumeric_char(#[trigger] word[i]),
        sep.len() >= 1,
        has_special_char(sep),
    ensures
        count_matches(word, sep) == 0,
    decreases word.len(),
{
    if word.len() >= sep.len() {
        lemma_first_special_from(sep, 0);
        let j0 = first_special_from(sep, 0);
        assert(word.subrange(0, sep.len() as int) != sep) by {
            assert(word.subrange(0, sep.len() as int)[j0] == word[j0]);
        }
        assert(forall|i: int|
            0 <= i < word.skip(1).len() ==> is_ascii_alphanumeric_char(
                #[trigger] word.skip(1)[i],
            ));
        lemma_count_word_alone(word.skip(1), sep);
    }
}

/// Scanning a word followed by a copy of the separator finds its first
/// occurrence exactly at the copy.
proof fn lemma_count_word_sep(word: Seq<char>, sep: Seq<char>, tail: Seq<char>)
    requires
        forall|i: int| 0 <= i < word.len() ==> is_ascii_alphanumeric_char(#[trigger] word[i]),
        sep.len() >= 1,
        has_special_char(sep),
    ensures
        count_matches(word + (sep + tail), sep) == 1 + count_matches(tail, sep),
    decreases word.len(),
{
    let hay = word + (sep + tail);
    let m = sep.len() as int;
    if word.len() == 0 {
        assert(hay =~= sep + tail);
        assert((sep + tail).subrange(0, m) =~= sep);
        assert((sep + tail).skip(m) =~= tail);
    } else {
        lemma_no_match_into_word(word, sep, tail, 0);
        assert(word + sep + tail =~= hay);
        assert(hay.subrange(0, m) != sep);
        assert(hay.skip(1) =~= word.skip(1) + (sep + tail));
        assert(forall|i: int|
            0 <= i < word.skip(1).len() ==> is_ascii_alphanumeric_char(
                #[trigger] word.skip(1)[i],
            ));
        lemma_count_word_sep(word.skip(1), sep, tail);
    }
}

/// Law: joining words made only of ASCII letters and digits with a non-empty
/// separator that is not alphanumeric-only puts exactly one occurrence of the
/// separator between consecutive words, and none anywhere else.
pub proof fn lemma_separator_count(parts: Seq<Seq<char>>, sep: Seq<char>)
    requires
        parts.len() >= 1,
        sep.len() >= 1,
        has_special_char(sep),
        forall|p: int, i: int|
            0 <= p < parts.len() && 0 <= i < parts[p].len() ==> is_ascii_alphanumeric_char(
                #[trigger] parts[p][i],
            ),
    ensures
        count_matches(join_with(parts, sep), sep) == parts.len() - 1,
    decreases parts.len(),
{
    if parts.len() == 1 {
        lemma_count_word_alone(parts[0], sep);
    } else {
        let tail = join_with(parts.drop_first(), sep);
        assert(join_with(parts, sep) =~= parts[0] + (sep + tail));
        lemma_count_word_sep(parts[0], sep, tail);
        lemma_separator_count(parts.drop_first(), sep);
    }
}

/// The words at pairwise distinct positions of a duplicate-free wordlist are
/// themselves pairwise distinct, and all of them come from the wordlist.
proof fn lemma_chosen_words_distinct(words: Seq<String>, indices: Seq<usize>)
    requires
        distinct_indices_below(indices, words.len() as int),
        forall|i: int, j: int|
            0 <= i < j < words.len() ==> word_views(words)[i] != word_views(words)[j],
    ensures
        chosen_views(words, indices).len() == indices.len(),
        forall|p: int|
            0 <= p < indices.len() ==> word_views(words).contains(
                #[trigger] chosen_views(words, indices)[p],
            ),
        forall|p: int, q: int|
            0 <= p < q < indices.len() ==> chosen_views(words, indices)[p] != chosen_views(
                words,
                indices,
            )[q],
{
    let chosen = chosen_views(words, indices);
    assert forall|p: int| 0 <= p < indices.len() implies word_views(words).contains(
        #[trigger] chosen[p],
    ) by {
        assert(word_views(words)[indices[p] as int] == chosen[p]);
    }
    assert forall|p: int, q: int| 0 <= p < q < indices.len() implies chosen[p] != chosen[q] by {
        let ip = indices[p] as int;
        let iq = indices[q] as int;
        if ip < iq {
            assert(word_views(words)[ip] != word_views(words)[iq]);
        } else {
            assert(word_views(words)[iq] != word_views(words)[ip]);
        }
    }
}

/// Law: a passphrase sampled from a duplicate-free wordlist is a join of
/// exactly `length` words, all present in the wordlist and pairwise distinct.
pub proof fn lemma_password_is_distinct_words(
    password: Seq<char>,
    words: Seq<String>,
    length: int,
    sep: Seq<char>,
)
    requires
        is_sampled_password(password, words, length, sep),
        forall|i: int, j: int|
            0 <= i < j < words.len() ==> word_views(words)[i] != word_views(words)[j],
    ensures
        exists|parts: Seq<Seq<char>>|
            {
                &&& parts.len() == length
                &&& password == #[trigger] join_with(parts, sep)
                &&& forall|p: int| 0 <= p < parts.len() ==> word_views(words).contains(#[trigger] parts[p])
                &&& forall|p: int, q: int| 0 <= p < q < parts.len() ==> parts[p] != parts[q]
            },
{
    let indices = choose|indices: Seq<usize>|
        {
            &&& indices.len() == length
            &&& distinct_indices_below(indices, words.len() as int)
            &&& password == join_with(#[trigger] chosen_views(words, indices), sep)
        };
    lemma_chosen_words_distinct(words, indices);
    let parts = chosen_views(words, indices);
    assert(parts.len() == length && password == join_with(parts, sep) && (forall|p: int|
        0 <= p < parts.len() ==> word_views(words).contains(#[trigger] parts[p])) && (forall|
        p: int,
        q: int,
    |
        0 <= p < q < parts.len() ==> parts[p] != parts[q]));
}

/// Law: a passphrase of `length` words, sampled from a wordlist whose words
/// hold only ASCII letters and digits, contains the separator exactly
/// `length - 1` times, counted as `str::matches` counts, provided the
/// separator is non-empty and not made of letters and digits alone.
pub proof fn lemma_password_separator_count(
    password: Seq<char>,
    words: Seq<String>,
    length: int,
    sep: Seq<char>,
)
    requires
        is_sampled_password(password, words, length, sep),
        length >= 1,
        sep.len() >= 1,
        has_special_char(sep),
        forall|w: int, i: int|
            0 <= w < words.len() && 0 <= i < words[w]@.len() ==> is_ascii_alphanumeric_char(
                #[trigger] words[w]@[i],
            ),
    ensures
        count_matches(password, sep) == length - 1,
{
    let indices = choose|indices: Seq<usize>|
        {
            &&& indices.len() == length
            &&& distinct_indices_below(indices, words.len() as int)
            &&& password == join_with(#[trigger] chosen_views(words, indices), sep)
        };
    let parts = chosen_views(words, indices);
    assert forall|p: int, i: int|
        0 <= p < parts.len() && 0 <= i < parts[p].len() implies is_ascii_alphanumeric_char(
        #[trigger] parts[p][i],
    ) by {
        let w = indices[p] as int;
        assert(parts[p] == words[w]@);
        assert(is_ascii_alphanumeric_char(words[w]@[i]));
    }
    lemma_separator_count(parts, sep);
}

/// Relies on `rand::seq::index::sample`: it returns exactly `amount` distinct
/// indices drawn uniformly from `0..length`, and panics only when
/// `amount > length`, which the precondition rules out.  Randomness comes from
/// `rand::thread_rng`, a cryptographically secure generator seeded by the
/// operating system; if the operating system cannot supply entropy the
/// process aborts rather than fall back to a weaker source.
#[verifier::external_body]
fn sample_indices(length: usize, amount: usize) -> (indices: Vec<usize>)
    requires
        amount <= length,
    ensures
        indices@.len() == amount,
        distinct_indices_below(indices@, length as int),
{
    rand::seq::index::sample(&mut rand::thread_rng(), length, amount).into_vec()
}

/// Appending one part to a joined sequence extends it by one separator (when
/// something was already there) and the new part.
proof fn lemma_join_with_push(parts: Seq<Seq<char>>, sep: Seq<char>, last: Seq<char>)
    ensures
        join_with(parts.push(last), sep) == if parts.len() == 0 {
            last
        } else {
            join_with(parts, sep) + sep + last
        },
    decreases parts.len(),
{
    if parts.len() == 0 {
        assert(parts.push(last).len() == 1);
        assert(parts.push(last)[0] == last);
    } else {
        assert(parts.push(last).drop_first() =~= parts.drop_first().push(last));
        lemma_join_with_push(parts.drop_first(), sep, last);
        if parts.len() == 1 {
            assert(join_with(parts, sep) == parts[0]);
        } else {
            assert(join_with(parts, sep) == parts[0] + sep + join_with(parts.drop_first(), sep));
            assert((parts[0] + sep + join_with(parts.drop_first(), sep)) + sep + last =~= parts[0]
                + sep + (join_with(parts.drop_first(), sep) + sep + last));
        }
    }
}

/// Join the words of `words` found at the positions in `indices`, in that
/// order, with `separator` strictly between consecutive words.
pub fn password_from_indices(
    words: &Vec<String>,
    indices: &Vec<usize>,
    separator: &str,
) -> (password: String)
    requires
        forall|p: int| 0 <= p < indices@.len() ==> (indices@[p] as int) < words@.len(),
    ensures
        password@ == join_with(chosen_views(words@, indices@), separator@),
{
    let ghost all_parts = chosen_views(words@, indices@);
    let mut out = String::new();
    let mut p: usize = 0;
    while p < indices.len()
        invariant
            p <= indices@.len(),
            forall|q: int| 0 <= q < indices@.len() ==> (indices@[q] as int) < words@.len(),
            all_parts == chosen_views(words@, indices@),
            out@ == join_with(all_parts.take(p as int), separator@),
        decreases indices@.len() - p,
    {
        if p > 0 {
            out.append(separator);
        }
        let ix = indices[p];
        out.append(words[ix].as_str());
        proof {
            lemma_join_with_push(all_parts.take(p as int), separator@, words@[ix as int]@);
            assert(all_parts.take(p as int + 1) =~= all_parts.take(p as int).push(
                words@[ix as int]@,
            ));
            if p > 0 {
                assert((join_with(all_parts.take(p as int), separator@) + separator@)
                    + words@[ix as int]@ =~= join_with(all_parts.take(p as int), separator@)
                    + separator@ + words@[ix as int]@);
            } else {
                assert(out@ =~= words@[ix as int]@);
            }
        }
        p = p + 1;
    }
    proof {
        assert(all_parts.take(indices@.len() as int) =~= all_parts);
    }
    out
}

/// Generate a single passphrase from a wordlist.
///
/// Draw `length` distinct words uniformly at random from `words` and join
/// them with `separator`.  A request for more words than the list holds is
/// refused; a request for zero words yields the empty string.
pub fn generate_password(words: &Vec<String>, length: usize, separator: &str) -> (result: Result<
    String,
    PasswordError,
>)
    ensures
        result is Ok <==> length <= words@.len(),
        result matches Ok(password) ==> is_sampled_password(
            password@,
            words@,
            length as int,
            separator@,
        ),
        length == 0 ==> (result matches Ok(password) && password@ == Seq::<char>::empty()),
        result matches Err(e) ==> e == (PasswordError::InsufficientWords {
            requested: length,
            available: words@.len() as usize,
        }),
{
    if length > words.len() {
        return Err(PasswordError::InsufficientWords { requested: length, available: words.len() });
    }
    let indices = sample_indices(words.len(), length);
    let password = password_from_indices(words, &indices, separator);
    proof {
        assert(is_sampled_password(password@, words@, length as int, separator@)) by {
            assert(chosen_views(words@, indices@).len() == length);
        }
    }
    Ok(password)
}

/// Generate a batch of passphrases, each drawn independently from `words`.
pub fn generate_passwords(
    words: &Vec<String>,
    number: usize,
    length: usize,
    separator: &str,
) -> (result: Result<Vec<String>, PasswordError>)
    ensures
        result is Ok <==> length <= words@.len(),
        result matches Ok(passwords) ==> {
            &&& passwords@.len() == number
            &&& forall|i: int|
                0 <= i < number ==> is_sampled_password(
                    #[trigger] passwords@[i]@,
                    words@,
                    length as int,
                    separator@,
                )
        },
        result matches Err(e) ==> e == (PasswordError::InsufficientWords {
            requested: length,
            available: words@.len() as usize,
        }),
{
    if length > words.len() {
        return Err(PasswordError::InsufficientWords { requested: length, available: words.len() });
    }
    let mut passwords: Vec<String> = Vec::new();
    let mut i: usize = 0;
    while i < number
        invariant
            i <= number,
            length <= words@.len(),
            passwords@.len() == i,
            forall|k: int|
                0 <= k < i ==> is_sampled_password(
                    #[trigger] passwords@[k]@,
                    words@,
                    length as int,
                    separator@,
                ),
        decreases number - i,
    {
        match generate_password(words, length, separator) {
            Ok(password) => {
                passwords.push(password);
            },
            Err(e) => {
                proof {
                    assert(false);
                }
                return Err(e);
            },
        }
        i = i + 1;
    }
    Ok(passwords)
}

} // verus!
