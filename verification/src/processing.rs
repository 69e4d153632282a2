//! From text to a vocabulary and to sentences: cutting text into words,
//! counting words, and reading and writing lists of words with their counts.
use vstd::prelude::*;
use vstd::hash_map::StringHashMap;
use crate::sort::{in_order, sort_pairs};
use crate::models::{counted, BuilderView, LanguageModelBuilder};
use crate::error::{Error, ErrorView};
use crate::parser::{digit_value, is_digit, is_lower, number_value};
use crate::text::{
    chars_of, decimal_digits, digits, lowercase, string_from_utf8, string_of, to_lowercase,
};
use vstd::slice::{slice_subrange, slice_to_vec};
use vstd::utf8::{decode_utf8, valid_utf8};
use crate::window::{cooccurrences, Cooccurrence};

verus! {

/// A letter of the English alphabet, in either case.
pub open spec fn is_letter(c: char) -> bool {
    is_lower(c) || ('A' <= c <= 'Z')
}

/// The lower-case form of a letter of the English alphabet; any other
/// character as it is.
pub open spec fn folded(c: char) -> char {
    if 'A' <= c <= 'Z' {
        ((c as u8 + 32) as u8) as char
    } else {
        c
    }
}

/// The character belongs to a word: any letter where both cases count, and
/// else only a lower-case letter.
pub open spec fn in_word(any_case: bool, c: char) -> bool {
    if any_case {
        is_letter(c)
    } else {
        is_lower(c)
    }
}

/// The first place at or behind `pos` that holds a character of a word.
pub open spec fn gap_end(chars: Seq<char>, pos: int, any_case: bool) -> int
    decreases chars.len() - pos,
{
    if 0 <= pos < chars.len() && !in_word(any_case, chars[pos]) {
        gap_end(chars, pos + 1, any_case)
    } else {
        pos
    }
}

/// The first place at or behind `pos` that holds no character of a word.
pub open spec fn run_end(chars: Seq<char>, pos: int, any_case: bool) -> int
    decreases chars.len() - pos,
{
    if 0 <= pos < chars.len() && in_word(any_case, chars[pos]) {
        run_end(chars, pos + 1, any_case)
    } else {
        pos
    }
}

/// The words of a text from `pos` on: its longest runs of word characters,
/// in lower case.
pub open spec fn words_from(chars: Seq<char>, pos: int, any_case: bool) -> Seq<Seq<char>>
    decreases chars.len() - pos,
    via words_from_decreases
{
    let start = gap_end(chars, pos, any_case);
    if 0 <= start < chars.len() {
        let end = run_end(chars, start, any_case);
        seq![chars.subrange(start, end).map_values(|c: char| folded(c))] + words_from(
            chars,
            end,
            any_case,
        )
    } else {
        Seq::empty()
    }
}

#[via_fn]
proof fn words_from_decreases(chars: Seq<char>, pos: int, any_case: bool) {
    lemma_gap_end(chars, pos, any_case);
    lemma_run_end(chars, gap_end(chars, pos, any_case), any_case);
}

/// The words of a text.
pub open spec fn words_of(chars: Seq<char>, any_case: bool) -> Seq<Seq<char>> {
    words_from(chars, 0, any_case)
}

proof fn lemma_gap_end(chars: Seq<char>, pos: int, any_case: bool)
    ensures
        pos <= gap_end(chars, pos, any_case),
        0 <= pos <= chars.len() ==> gap_end(chars, pos, any_case) <= chars.len(),
        0 <= gap_end(chars, pos, any_case) < chars.len() ==> in_word(
            any_case,
            chars[gap_end(chars, pos, any_case)],
        ),
    decreases chars.len() - pos,
{
    if 0 <= pos < chars.len() && !in_word(any_case, chars[pos]) {
        lemma_gap_end(chars, pos + 1, any_case);
    }
}

proof fn lemma_run_end(chars: Seq<char>, pos: int, any_case: bool)
    ensures
        pos <= run_end(chars, pos, any_case),
        0 <= pos <= chars.len() ==> run_end(chars, pos, any_case) <= chars.len(),
        0 <= pos < chars.len() && in_word(any_case, chars[pos]) ==> pos < run_end(
            chars,
            pos,
            any_case,
        ),
    decreases chars.len() - pos,
{
    if 0 <= pos < chars.len() && in_word(any_case, chars[pos]) {
        lemma_run_end(chars, pos + 1, any_case);
    }
}

fn word_char(any_case: bool, c: char) -> (r: bool)
    ensures
        r == in_word(any_case, c),
{
    ('a' <= c && c <= 'z') || (any_case && 'A' <= c && c <= 'Z')
}

fn fold(c: char) -> (r: char)
    ensures
        r == folded(c),
{
    if 'A' <= c && c <= 'Z' {
        (c as u8 + 32) as char
    } else {
        c
    }
}

/// The views of the strings of a vector.
pub open spec fn texts(words: Seq<String>) -> Seq<Seq<char>> {
    words.map_values(|w: String| w@)
}

/// The words of a text: its longest runs of letters, in lower case. Where
/// `any_case` is false, upper-case letters separate words like any other
/// character.
pub fn split_words(text: &str, any_case: bool) -> (out: Vec<String>)
    ensures
        texts(out@) == words_of(text@, any_case),
{
    let chars = chars_of(text);
    let mut out: Vec<String> = Vec::new();
    let mut pos: usize = 0;
    let ghost all = words_of(chars@, any_case);
    assert(texts(out@) + words_from(chars@, 0, any_case) =~= all);
    loop
        invariant
            pos <= chars.len(),
            texts(out@) + words_from(chars@, pos as int, any_case) == all,
        ensures
            texts(out@) == all,
        decreases chars.len() - pos,
    {
        let ghost from = pos as int;
        while pos < chars.len() && !word_char(any_case, chars[pos])
            invariant
                from <= pos <= chars.len(),
                gap_end(chars@, from, any_case) == gap_end(chars@, pos as int, any_case),
            decreases chars.len() - pos,
        {
            pos += 1;
        }
        if pos >= chars.len() {
            assert(texts(out@) + Seq::<Seq<char>>::empty() =~= texts(out@));
            break ;
        }
        let start = pos;
        let mut word = String::new();
        assert(chars@.subrange(start as int, start as int).map_values(|c: char| folded(c))
            =~= Seq::<char>::empty());
        proof {
            lemma_run_end(chars@, start as int, any_case);
        }
        while pos < chars.len() && word_char(any_case, chars[pos])
            invariant
                start <= pos <= chars.len(),
                run_end(chars@, start as int, any_case) == run_end(chars@, pos as int, any_case),
                word@ == chars@.subrange(start as int, pos as int).map_values(|c: char| folded(c)),
            decreases chars.len() - pos,
        {
            word.push(fold(chars[pos]));
            assert(chars@.subrange(start as int, pos + 1).map_values(|c: char| folded(c))
                =~= chars@.subrange(start as int, pos as int).map_values(|c: char| folded(c)).push(
                folded(chars@[pos as int]),
            ));
            pos += 1;
        }
        proof {
            let rest = words_from(chars@, pos as int, any_case);
            assert(texts(out@.push(word)) + rest =~= texts(out@) + (seq![word@] + rest));
        }
        out.push(word);
    }
    out
}

/// The words of several lines, line by line.
pub open spec fn words_of_lines(lines: Seq<Seq<char>>) -> Seq<Seq<char>>
    decreases lines.len(),
{
    if lines.len() == 0 {
        Seq::empty()
    } else {
        words_of_lines(lines.drop_last()) + words_of(lines.last(), true)
    }
}

/// The words of the lines of a text, in lower case: the longest runs of
/// letters of either case.
pub fn read_words(lines: &Vec<String>) -> (out: Vec<String>)
    ensures
        texts(out@) == words_of_lines(texts(lines@)),
{
    let mut out: Vec<String> = Vec::new();
    let mut i: usize = 0;
    assert(texts(lines@).take(0) =~= Seq::<Seq<char>>::empty());
    assert(texts(out@) =~= Seq::<Seq<char>>::empty());
    while i < lines.len()
        invariant
            i <= lines.len(),
            texts(out@) == words_of_lines(texts(lines@).take(i as int)),
        decreases lines.len() - i,
    {
        let mut words = split_words(lines[i].as_str(), true);
        proof {
            let done = texts(lines@).take(i as int);
            let more = texts(lines@).take(i + 1);
            assert(more.drop_last() =~= done);
            assert(more.last() == lines@[i as int]@);
            assert(texts(out@ + words@) =~= texts(out@) + texts(words@));
        }
        out.append(&mut words);
        i += 1;
    }
    assert(texts(lines@).take(lines.len() as int) =~= texts(lines@));
    out
}

/// Each word as its place in the index, or `None` for a word that the
/// index does not hold.
pub open spec fn resolved(index: Map<Seq<char>, usize>, words: Seq<Seq<char>>) -> Seq<
    Option<usize>,
> {
    words.map_values(
        |w: Seq<char>|
            if index.contains_key(w) {
                Some(index[w])
            } else {
                None
            },
    )
}

/// Reads one sentence into the builder: its words are its longest runs of
/// lower-case letters. Counts its co-occurrences and hands them out.
pub fn read_sentence(builder: &mut LanguageModelBuilder, sentence: &str) -> (pairs: Vec<
    Cooccurrence,
>)
    requires
        old(builder).wf(),
    ensures
        final(builder).wf(),
        pairs@ == cooccurrences(
            resolved(old(builder).index(), words_of(sentence@, false)),
            old(builder)@.radius as int,
        ),
        final(builder)@ == (BuilderView {
            occurrences: counted(old(builder)@.occurrences, pairs@),
            pending: Seq::empty(),
            ..old(builder)@
        }),
        forall|k: int|
            0 <= k < pairs@.len() ==> (#[trigger] pairs@[k]).from < old(builder)@.vectors.len()
                && pairs@[k].to < old(builder)@.vectors.len(),
{
    let words = split_words(sentence, false);
    let ghost index = builder.index();
    let ghost before = builder@;
    let ghost after = *final(builder);
    let mut acc = builder.new_sentence();
    let mut i: usize = 0;
    assert(resolved(index, texts(words@).take(0)) =~= Seq::<Option<usize>>::empty());
    while i < words.len()
        invariant
            i <= words.len(),
            acc.builder.wf(),
            acc.builder.index() == index,
            acc.builder@ == (BuilderView {
                pending: resolved(index, texts(words@).take(i as int)),
                ..before
            }),
            after == *final(acc.builder),
        decreases words.len() - i,
    {
        acc.add_word(words[i].as_str());
        proof {
            assert(resolved(index, texts(words@).take(i + 1)) =~= resolved(
                index,
                texts(words@).take(i as int),
            ).push(
                if index.contains_key(words@[i as int]@) {
                    Some(index[words@[i as int]@])
                } else {
                    None
                },
            ));
        }
        i += 1;
    }
    assert(texts(words@).take(words.len() as int) =~= texts(words@));
    acc.commit()
}

/// How often `word` stands among `words`.
pub open spec fn count_of(words: Seq<Seq<char>>, word: Seq<char>) -> nat
    decreases words.len(),
{
    if words.len() == 0 {
        0
    } else {
        count_of(words.drop_last(), word) + if words.last() == word {
            1nat
        } else {
            0nat
        }
    }
}

/// A word stands among the words at most as often as there are words, and
/// at least once if it stands among them.
pub proof fn lemma_count_of(words: Seq<Seq<char>>, word: Seq<char>)
    ensures
        count_of(words, word) <= words.len(),
        words.contains(word) <==> count_of(words, word) > 0,
    decreases words.len(),
{
    if words.len() > 0 {
        lemma_count_of(words.drop_last(), word);
        if words.last() == word {
            assert(words[words.len() - 1] == word);
        } else {
            if words.contains(word) {
                let i = choose|i: int| 0 <= i < words.len() && words[i] == word;
                assert(words.drop_last()[i] == word);
            }
            if words.drop_last().contains(word) {
                let i = choose|i: int|
                    0 <= i < words.drop_last().len() && words.drop_last()[i] == word;
                assert(words[i] == word);
            }
        }
    }
}

/// The words of a list of counted words.
pub open spec fn counted_words(list: Seq<(String, u64)>) -> Seq<Seq<char>> {
    list.map_values(|e: (String, u64)| e.0@)
}

/// `list` is a list of the most common words among `words`, of at most
/// `num` entries: each of its entries is a word with the number of times it
/// stands among `words`, no word has two entries, the counts do not rise
/// along the list, and a word without an entry is left out only of a full
/// list and stands among `words` at most as often as any word of the list.
pub open spec fn most_common(list: Seq<(String, u64)>, words: Seq<Seq<char>>, num: int) -> bool {
    &&& list.len() <= num
    &&& forall|j: int|
        0 <= j < list.len() ==> (#[trigger] list[j]).1 > 0 && list[j].1 == count_of(
            words,
            list[j].0@,
        )
    &&& forall|i: int, j: int|
        0 <= i < j < list.len() ==> (#[trigger] list[i]).0@ != (#[trigger] list[j]).0@
    &&& forall|i: int, j: int|
        0 <= i < j < list.len() ==> (#[trigger] list[i]).1 >= (#[trigger] list[j]).1
    &&& forall|k: int|
        0 <= k < words.len() && !counted_words(list).contains(#[trigger] words[k]) ==> list.len()
            == num && forall|j: int|
            0 <= j < list.len() ==> count_of(words, words[k]) <= (#[trigger] list[j]).1
}

/// The distinct words among `words`, in the order in which they first
/// stand there, each with the number of times it stands there.
fn tally(words: &Vec<String>) -> (r: (Vec<String>, Vec<u64>))
    ensures
        r.0.len() == r.1.len(),
        forall|j: int|
            0 <= j < r.0.len() ==> (#[trigger] r.1[j]) > 0 && r.1[j] == count_of(
                texts(words@),
                r.0[j]@,
            ),
        forall|i: int, j: int| 0 <= i < j < r.0.len() ==> (#[trigger] r.0[i])@ != (#[trigger] r.0[j])@,
        forall|k: int| 0 <= k < words.len() ==> texts(r.0@).contains(#[trigger] words[k]@),
{
    let mut index: StringHashMap<usize> = StringHashMap::new();
    let mut names: Vec<String> = Vec::new();
    let mut counts: Vec<u64> = Vec::new();
    let mut k: usize = 0;
    let ghost all = texts(words@);
    while k < words.len()
        invariant
            k <= words.len(),
            all == texts(words@),
            names.len() == counts.len(),
            forall|j: int|
                0 <= j < names.len() ==> (#[trigger] counts[j]) > 0 && counts[j] == count_of(
                    all.take(k as int),
                    names[j]@,
                ),
            forall|j: int|
                0 <= j < names.len() ==> index@.contains_key((#[trigger] names[j])@)
                    && index@[names[j]@] == j,
            forall|w: Seq<char>|
                index@.contains_key(w) ==> (#[trigger] index@[w]) < names.len()
                    && names[index@[w] as int]@ == w,
            forall|i: int| 0 <= i < k ==> index@.contains_key(#[trigger] all[i]),
        decreases words.len() - k,
    {
        let word = &words[k];
        let ghost done = all.take(k as int);
        let ghost more = all.take(k + 1);
        proof {
            assert(more.drop_last() =~= done);
            assert(more.last() == word@);
            assert(all[k as int] == word@);
        }
        let found = match index.get(word.as_str()) {
            Some(j) => Some(*j),
            None => None,
        };
        match found {
            Some(j) => {
                proof {
                    lemma_count_of(done, word@);
                }
                counts[j] = counts[j] + 1;
            },
            None => {
                proof {
                    lemma_count_of(done, word@);
                    if done.contains(word@) {
                        let i = choose|i: int| 0 <= i < done.len() && done[i] == word@;
                        assert(all[i] == word@);
                    }
                }
                index.insert(word.clone(), names.len());
                names.push(word.clone());
                counts.push(1);
            },
        }
        k += 1;
    }
    proof {
        assert(all.take(words.len() as int) =~= all);
        assert forall|k: int| 0 <= k < words.len() implies texts(names@).contains(
            #[trigger] words[k]@,
        ) by {
            assert(all[k] == words[k]@);
            let j = index@[all[k]] as int;
            assert(texts(names@)[j] == words[k]@);
        }
    }
    (names, counts)
}

/// The `num` most common words among `words`, the most common first, each
/// with the number of times it stands among them. Where fewer words are
/// there, all of them.
pub fn find_most_common_words(words: &Vec<String>, num: usize) -> (list: Vec<(String, u64)>)
    ensures
        most_common(list@, texts(words@), num as int),
{
    let (names, counts) = tally(words);
    let n = names.len();
    let mut keys: Vec<(u64, usize)> = Vec::new();
    let mut j: usize = 0;
    while j < n
        invariant
            j <= n,
            n == names.len(),
            n == counts.len(),
            keys.len() == j,
            forall|i: int| 0 <= i < j ==> #[trigger] keys[i] == ((u64::MAX - counts[i]) as u64, i as usize),
        decreases n - j,
    {
        keys.push((u64::MAX - counts[j], j));
        j += 1;
    }
    let order = sort_pairs(&keys);
    let m = if num < n { num } else { n };
    let mut list: Vec<(String, u64)> = Vec::new();
    let mut k: usize = 0;
    proof {
        assert forall|p: int| 0 <= p < order.len() implies (#[trigger] order[p]).1 < n && order[p]
            == keys[order[p].1 as int] by {
            vstd::seq_lib::to_multiset_contains(order@, order[p]);
            vstd::seq_lib::to_multiset_contains(keys@, order[p]);
            assert(order@.contains(order[p]));
            let i = choose|i: int| 0 <= i < keys.len() && keys[i] == order[p];
        }
    }
    while k < m
        invariant
            k <= m <= n,
            n == names.len(),
            n == counts.len(),
            order.len() == n,
            list.len() == k,
            forall|p: int|
                0 <= p < order.len() ==> (#[trigger] order[p]).1 < n && order[p] == keys[order[p].1 as int],
            forall|p: int|
                0 <= p < k ==> (#[trigger] list[p]).0@ == names[order[p].1 as int]@ && list[p].1
                    == counts[order[p].1 as int],
        decreases m - k,
    {
        let i = order[k].1;
        list.push((names[i].clone(), counts[i]));
        k += 1;
    }
    proof {
        let all = texts(words@);
        // two places of the order hold two different words
        assert forall|p: int, q: int| 0 <= p < q < order.len() implies (#[trigger] order[p]).1
            != (#[trigger] order[q]).1 by {
            if order[p].1 == order[q].1 {
                assert(order[p] == order[q]);
                vstd::seq_lib::to_multiset_contains(keys@, order[p]);
                keys@.lemma_multiset_has_no_duplicates();
                order@.lemma_multiset_has_no_duplicates_conv();
            }
        }
        assert forall|i: int, j: int| 0 <= i < j < list.len() implies (#[trigger] list[i]).1 >= (
        #[trigger] list[j]).1 by {
            assert(in_order(order[i], order[j]));
        }
        assert forall|k: int|
            0 <= k < words.len() && !counted_words(list@).contains(
                #[trigger] all[k],
            ) implies list.len() == num && forall|j: int|
            0 <= j < list.len() ==> count_of(all, all[k]) <= (#[trigger] list[j]).1 by {
            assert(all[k] == words[k]@);
            assert(texts(names@).contains(words[k]@));
            let i = choose|i: int| 0 <= i < names.len() && texts(names@)[i] == words[k]@;
            vstd::seq_lib::to_multiset_contains(keys@, keys[i]);
            vstd::seq_lib::to_multiset_contains(order@, keys[i]);
            assert(keys@.contains(keys[i]));
            let p = choose|p: int| 0 <= p < order.len() && order[p] == keys[i];
            if p < m {
                assert(counted_words(list@)[p] == all[k]);
            }
            assert forall|j: int| 0 <= j < list.len() implies count_of(all, all[k]) <= (
            #[trigger] list[j]).1 by {
                assert(in_order(order[j], order[p]));
            }
        }
    }
    list
}

/// White space, as Unicode defines it.
pub open spec fn is_space(c: char) -> bool {
    ||| '\u{9}' <= c <= '\u{d}'
    ||| c == ' '
    ||| c == '\u{85}'
    ||| c == '\u{a0}'
    ||| c == '\u{1680}'
    ||| '\u{2000}' <= c <= '\u{200a}'
    ||| c == '\u{2028}'
    ||| c == '\u{2029}'
    ||| c == '\u{202f}'
    ||| c == '\u{205f}'
    ||| c == '\u{3000}'
}

/// The first place from `lo` up to `hi` that holds no white space; `hi`
/// where there is none.
pub open spec fn trim_start(chars: Seq<char>, lo: int, hi: int) -> int
    decreases hi - lo,
{
    if 0 <= lo < hi <= chars.len() && is_space(chars[lo]) {
        trim_start(chars, lo + 1, hi)
    } else {
        lo
    }
}

/// The place behind the last one from `lo` up to `hi` that holds no white
/// space; `lo` where there is none.
pub open spec fn trim_end(chars: Seq<char>, lo: int, hi: int) -> int
    decreases hi - lo,
{
    if 0 <= lo < hi <= chars.len() && is_space(chars[hi - 1]) {
        trim_end(chars, lo, hi - 1)
    } else {
        hi
    }
}

/// The text from `lo` up to `hi` without the white space at its ends.
pub open spec fn trimmed(chars: Seq<char>, lo: int, hi: int) -> Seq<char> {
    let start = trim_start(chars, lo, hi);
    chars.subrange(start, trim_end(chars, start, hi))
}

/// The place of the first comma at or behind `pos`; the length of the text
/// where there is none.
pub open spec fn comma_at(chars: Seq<char>, pos: int) -> int
    decreases chars.len() - pos,
{
    if 0 <= pos < chars.len() && chars[pos] != ',' {
        comma_at(chars, pos + 1)
    } else {
        pos
    }
}

/// Why a text is no number.
pub ghost enum NumberError {
    Empty,
    InvalidDigit,
    TooLarge,
}

impl NumberError {
    /// The sentence that describes the error.
    pub open spec fn message(self) -> Seq<char> {
        match self {
            NumberError::Empty => "cannot parse integer from empty string"@,
            NumberError::InvalidDigit => "invalid digit found in string"@,
            NumberError::TooLarge => "number too large to fit in target type"@,
        }
    }
}

/// The number that the digits denote, read from the left: the first
/// character that is no digit, or with which the number passes 64 bits,
/// decides the error.
pub open spec fn read_digits(text: Seq<char>, upto: int) -> Result<u64, NumberError>
    decreases upto,
{
    if upto <= 0 {
        Ok(0)
    } else {
        match read_digits(text, upto - 1) {
            Err(e) => Err(e),
            Ok(_) => if !is_digit(text[upto - 1]) {
                Err(NumberError::InvalidDigit)
            } else if number_value(text.take(upto)) > u64::MAX {
                Err(NumberError::TooLarge)
            } else {
                Ok(number_value(text.take(upto)) as u64)
            },
        }
    }
}

/// The number that a text denotes: decimal digits, with or without a plus
/// sign before them.
pub open spec fn unsigned(text: Seq<char>) -> Result<u64, NumberError> {
    if text.len() == 0 {
        Err(NumberError::Empty)
    } else {
        let body = if text[0] == '+' {
            text.drop_first()
        } else {
            text
        };
        if body.len() == 0 {
            Err(NumberError::InvalidDigit)
        } else {
            read_digits(body, body.len() as int)
        }
    }
}

/// What a line of a list of words says: the word before the first comma and
/// the count behind it, up to the next comma if there is one, both without
/// the white space around them. A line without a comma is malformed.
pub open spec fn word_line(line: Seq<char>) -> Result<(Seq<char>, u64), ErrorView> {
    let first = comma_at(line, 0);
    if first >= line.len() {
        Err(ErrorView::FormatError)
    } else {
        let second = comma_at(line, first + 1);
        match unsigned(trimmed(line, first + 1, second)) {
            Ok(n) => Ok((trimmed(line, 0, first), n)),
            Err(e) => Err(ErrorView::Other(e.message())),
        }
    }
}

fn space(c: char) -> (r: bool)
    ensures
        r == is_space(c),
{
    ('\u{9}' <= c && c <= '\u{d}') || c == ' ' || c == '\u{85}' || c == '\u{a0}' || c
        == '\u{1680}' || ('\u{2000}' <= c && c <= '\u{200a}') || c == '\u{2028}' || c
        == '\u{2029}' || c == '\u{202f}' || c == '\u{205f}' || c == '\u{3000}'
}

/// The ends of the text from `lo` up to `hi` without the white space at
/// its ends.
fn trim(chars: &Vec<char>, lo: usize, hi: usize) -> (r: (usize, usize))
    requires
        lo <= hi <= chars.len(),
    ensures
        r.0 == trim_start(chars@, lo as int, hi as int),
        r.1 == trim_end(chars@, r.0 as int, hi as int),
        lo <= r.0 <= r.1 <= hi,
{
    let mut start = lo;
    while start < hi && space(chars[start])
        invariant
            lo <= start <= hi <= chars.len(),
            trim_start(chars@, lo as int, hi as int) == trim_start(chars@, start as int, hi as int),
        decreases hi - start,
    {
        start += 1;
    }
    let mut end = hi;
    while start < end && space(chars[end - 1])
        invariant
            start <= end <= hi <= chars.len(),
            trim_end(chars@, start as int, hi as int) == trim_end(chars@, start as int, end as int),
        decreases end - start,
    {
        end -= 1;
    }
    (start, end)
}

/// The place of the first comma at or behind `pos`.
fn find_comma(chars: &Vec<char>, pos: usize) -> (r: usize)
    requires
        pos <= chars.len(),
    ensures
        r == comma_at(chars@, pos as int),
        pos <= r <= chars.len(),
{
    let mut k = pos;
    while k < chars.len() && chars[k] != ','
        invariant
            pos <= k <= chars.len(),
            comma_at(chars@, pos as int) == comma_at(chars@, k as int),
        decreases chars.len() - k,
    {
        k += 1;
    }
    k
}

/// The description of the reason why a text is no number.
fn number_error(Ghost(e): Ghost<NumberError>, kind: u8) -> (r: Error)
    requires
        kind == 0 <==> e is Empty,
        kind == 1 <==> e is InvalidDigit,
    ensures
        r@ == ErrorView::Other(e.message()),
{
    if kind == 0 {
        Error::Other("cannot parse integer from empty string".to_string())
    } else if kind == 1 {
        Error::Other("invalid digit found in string".to_string())
    } else {
        Error::Other("number too large to fit in target type".to_string())
    }
}

/// The number that the text from `lo` up to `hi` denotes.
#[verifier::loop_isolation(false)]
fn parse_unsigned(chars: &Vec<char>, lo: usize, hi: usize) -> (r: Result<u64, Error>)
    requires
        lo <= hi <= chars.len(),
    ensures
        match unsigned(chars@.subrange(lo as int, hi as int)) {
            Ok(n) => r == Ok::<u64, Error>(n),
            Err(e) => r matches Err(x) && x@ == ErrorView::Other(e.message()),
        },
{
    let ghost text = chars@.subrange(lo as int, hi as int);
    if lo == hi {
        return Err(number_error(Ghost(NumberError::Empty), 0));
    }
    let begin = if chars[lo] == '+' { lo + 1 } else { lo };
    let ghost body = chars@.subrange(begin as int, hi as int);
    proof {
        assert(text[0] == chars@[lo as int]);
        if text[0] == '+' {
            assert(text.drop_first() =~= body);
        } else {
            assert(text =~= body);
        }
    }
    if begin == hi {
        return Err(number_error(Ghost(NumberError::InvalidDigit), 1));
    }
    let mut value: u64 = 0;
    let mut k: usize = begin;
    assert(body.take(0) =~= Seq::<char>::empty());
    while k < hi
        invariant
            begin <= k <= hi <= chars.len(),
            body == chars@.subrange(begin as int, hi as int),
            read_digits(body, k - begin) == Ok::<u64, NumberError>(value),
            value == number_value(body.take(k - begin)),
        decreases hi - k,
    {
        let c = chars[k];
        proof {
            let n = k - begin + 1;
            assert(body[n - 1] == c);
            assert(body.take(n).drop_last() =~= body.take(n - 1));
            assert(body.take(n).last() == c);
        }
        if !('0' <= c && c <= '9') {
            proof {
                lemma_read_digits_fails(body, k - begin + 1, body.len() as int);
            }
            return Err(number_error(Ghost(NumberError::InvalidDigit), 1));
        }
        let d: u64 = (c as u32 - '0' as u32) as u64;
        assert(d == digit_value(c));
        if value > (u64::MAX - d) / 10 {
            proof {
                lemma_read_digits_fails(body, k - begin + 1, body.len() as int);
            }
            return Err(number_error(Ghost(NumberError::TooLarge), 2));
        }
        value = value * 10 + d;
        k += 1;
    }
    Ok(value)
}

/// Where the reading of digits has failed, it stays failed, with the same
/// error, however far the reading goes on.
proof fn lemma_read_digits_fails(text: Seq<char>, at: int, upto: int)
    requires
        read_digits(text, at) is Err,
        at <= upto,
    ensures
        read_digits(text, upto) == read_digits(text, at),
    decreases upto - at,
{
    if at < upto {
        lemma_read_digits_fails(text, at, upto - 1);
    }
}

/// Reads a line of a list of words.
pub fn parse_word_line(line: &str) -> (r: Result<(String, u64), Error>)
    ensures
        match word_line(line@) {
            Ok((word, n)) => r matches Ok(x) && x.0@ == word && x.1 == n,
            Err(e) => r matches Err(x) && x@ == e,
        },
{
    let chars = chars_of(line);
    let first = find_comma(&chars, 0);
    if first >= chars.len() {
        return Err(Error::FormatError);
    }
    let second = find_comma(&chars, first + 1);
    let (a, b) = trim(&chars, first + 1, second);
    let n = match parse_unsigned(&chars, a, b) {
        Ok(n) => n,
        Err(e) => {
            return Err(e);
        },
    };
    let (c, d) = trim(&chars, 0, first);
    Ok((string_of(&chars, c, d), n))
}

/// The line of a list of words for a word and its count.
pub open spec fn line_of(word: Seq<char>, count: u64) -> Seq<char> {
    word + seq![',', ' '] + digits(count as nat) + seq!['\n']
}

/// The lines of a list of words, one after another.
pub open spec fn lines_of(list: Seq<(String, u64)>) -> Seq<char>
    decreases list.len(),
{
    if list.len() == 0 {
        Seq::empty()
    } else {
        lines_of(list.drop_last()) + line_of(list.last().0@, list.last().1)
    }
}

/// The text of the file that stores a list of words with their counts: one
/// line for each, the word, a comma, a space and the count.
pub fn save_words(words: &Vec<(String, u64)>) -> (out: String)
    ensures
        out@ == lines_of(words@),
{
    let mut out = String::new();
    let mut i: usize = 0;
    assert(words@.take(0) =~= Seq::<(String, u64)>::empty());
    while i < words.len()
        invariant
            i <= words.len(),
            out@ == lines_of(words@.take(i as int)),
        decreases words.len() - i,
    {
        let ghost before = out@;
        out.append(words[i].0.as_str());
        out.push(',');
        out.push(' ');
        out.append(decimal_digits(words[i].1).as_str());
        out.push('\n');
        proof {
            assert(words@.take(i + 1).drop_last() =~= words@.take(i as int));
            assert(words@.take(i + 1).last() == words@[i as int]);
            assert(out@ =~= before + line_of(words@[i as int].0@, words@[i as int].1));
        }
        i += 1;
    }
    assert(words@.take(words.len() as int) =~= words@);
    out
}

/// No line before the line at `upto` is malformed.
pub open spec fn lines_well_formed(lines: Seq<Seq<char>>, upto: int) -> bool {
    forall|i: int| 0 <= i < upto ==> #[trigger] word_line(lines[i]) is Ok
}

/// Reads the first `num` lines of a list of words, or all where there are
/// fewer. Fails with what is wrong with the first line that is malformed.
pub fn load_most_common_words(lines: &Vec<String>, num: usize) -> (r: Result<
    Vec<(String, u64)>,
    Error,
>)
    ensures
        match r {
            Ok(list) => {
                &&& list.len() == if num < lines.len() {
                    num
                } else {
                    lines.len()
                }
                &&& forall|i: int|
                    0 <= i < list.len() ==> word_line(lines[i]@) == Ok::<_, ErrorView>(
                        ((#[trigger] list[i]).0@, list[i].1),
                    )
            },
            Err(e) => exists|k: int|
                {
                    &&& 0 <= k < lines.len()
                    &&& k < num
                    &&& lines_well_formed(texts(lines@), k)
                    &&& #[trigger] word_line(lines[k]@) == Err::<(Seq<char>, u64), _>(e@)
                },
        },
{
    let m = if num < lines.len() { num } else { lines.len() };
    let mut list: Vec<(String, u64)> = Vec::new();
    let mut i: usize = 0;
    while i < m
        invariant
            i <= m <= lines.len(),
            m <= num,
            list.len() == i,
            forall|j: int|
                0 <= j < i ==> word_line(lines[j]@) == Ok::<_, ErrorView>(
                    ((#[trigger] list[j]).0@, list[j].1),
                ),
        decreases m - i,
    {
        match parse_word_line(lines[i].as_str()) {
            Ok(entry) => {
                list.push(entry);
            },
            Err(e) => {
                proof {
                    assert forall|j: int| 0 <= j < i implies #[trigger] word_line(
                        texts(lines@)[j],
                    ) is Ok by {
                        assert(texts(lines@)[j] == lines[j]@);
                        assert(word_line(lines[j]@) == Ok::<_, ErrorView>((list[j].0@, list[j].1)));
                    }
                    assert(word_line(lines[i as int]@) == Err::<(Seq<char>, u64), _>(e@));
                }
                return Err(e);
            },
        }
        i += 1;
    }
    Ok(list)
}

/// The byte of a full stop.
pub const FULL_STOP: u8 = 46;

/// The radius of the window of a model that is made from a corpus.
pub const WINDOW_RADIUS: usize = 10;

/// The place of the first full stop at or behind `pos`; the length of the
/// text where there is none.
pub open spec fn stop_at(bytes: Seq<u8>, pos: int) -> int
    decreases bytes.len() - pos,
{
    if 0 <= pos < bytes.len() && bytes[pos] != FULL_STOP {
        stop_at(bytes, pos + 1)
    } else {
        pos
    }
}

proof fn lemma_stop_at(bytes: Seq<u8>, pos: int)
    ensures
        pos <= stop_at(bytes, pos),
        0 <= pos <= bytes.len() ==> stop_at(bytes, pos) <= bytes.len(),
    decreases bytes.len() - pos,
{
    if 0 <= pos < bytes.len() && bytes[pos] != FULL_STOP {
        lemma_stop_at(bytes, pos + 1);
    }
}

/// The sentences of a text from `pos` on: the pieces between its full
/// stops that are well-formed UTF-8, in lower case. A text that ends with
/// a full stop has no empty sentence behind it.
pub open spec fn sentences_from(bytes: Seq<u8>, pos: int) -> Seq<Seq<char>>
    decreases bytes.len() + 1 - pos,
    via sentences_from_decreases
{
    if 0 <= pos < bytes.len() {
        let piece = bytes.subrange(pos, stop_at(bytes, pos));
        if valid_utf8(piece) {
            seq![lowercase(decode_utf8(piece))] + sentences_from(bytes, stop_at(bytes, pos) + 1)
        } else {
            sentences_from(bytes, stop_at(bytes, pos) + 1)
        }
    } else {
        Seq::empty()
    }
}

#[via_fn]
proof fn sentences_from_decreases(bytes: Seq<u8>, pos: int) {
    lemma_stop_at(bytes, pos);
}

/// The sentences of a text, in lower case.
pub fn sentences(bytes: &[u8]) -> (out: Vec<String>)
    ensures
        texts(out@) == sentences_from(bytes@, 0),
{
    let mut out: Vec<String> = Vec::new();
    let mut pos: usize = 0;
    let ghost all = sentences_from(bytes@, 0);
    assert(texts(out@) + sentences_from(bytes@, 0) =~= all);
    while pos < bytes.len()
        invariant
            all == sentences_from(bytes@, 0),
            texts(out@) + sentences_from(bytes@, pos as int) == all,
        decreases bytes.len() - pos,
    {
        let mut stop = pos;
        while stop < bytes.len() && bytes[stop] != FULL_STOP
            invariant
                pos <= stop <= bytes.len(),
                stop_at(bytes@, pos as int) == stop_at(bytes@, stop as int),
            decreases bytes.len() - stop,
        {
            stop += 1;
        }
        let piece = slice_to_vec(slice_subrange(bytes, pos, stop));
        assert(piece@ =~= bytes@.subrange(pos as int, stop as int));
        let ghost rest = sentences_from(bytes@, stop + 1);
        let ghost before = texts(out@);
        assert(stop == stop_at(bytes@, pos as int));
        assert(sentences_from(bytes@, pos as int) == if valid_utf8(piece@) {
            seq![lowercase(decode_utf8(piece@))] + rest
        } else {
            rest
        });
        match string_from_utf8(piece) {
            Some(text) => {
                let sentence = to_lowercase(text.as_str());
                assert(texts(out@.push(sentence)) + rest =~= texts(out@) + (seq![sentence@] + rest));
                out.push(sentence);
            },
            None => {},
        }
        assert(texts(out@) + rest == all);
        if stop == bytes.len() {
            assert(rest =~= Seq::<Seq<char>>::empty());
            assert(texts(out@) + Seq::<Seq<char>>::empty() =~= texts(out@));
            return out;
        }
        pos = stop + 1;
    }
    assert(texts(out@) + Seq::<Seq<char>>::empty() =~= texts(out@));
    out
}

/// The builder of a model that is made from a corpus: blank, for the given
/// vocabulary, with a window of ten positions to either side.
pub fn create_model(words: Vec<String>) -> (b: LanguageModelBuilder)
    ensures
        b.wf(),
        b@ == (BuilderView {
            radius: WINDOW_RADIUS,
            vectors: crate::models::blank(words@),
            occurrences: Seq::new(words.len() as nat, |i: int| 0u64),
            pending: Seq::empty(),
        }),
{
    LanguageModelBuilder::new(WINDOW_RADIUS, words)
}

} // verus!
