use gauntlet::error::Error;
use gauntlet::processing::{create_model, find_most_common_words, load_most_common_words,
                           parse_word_line, read_sentence, read_words, save_words, sentences,
                           split_words};
use gauntlet::window::Cooccurrence;

fn strings(words: &[&str]) -> Vec<String> {
    words.iter().map(|w| w.to_string()).collect()
}

fn entry(word: &str, count: u64) -> (String, u64) {
    (word.to_string(), count)
}

#[test]
fn words_of_a_line_of_mixed_case() {
    assert_eq!(split_words("The quick-brown Fox, 42 times!", true),
               strings(&["the", "quick", "brown", "fox", "times"]));
    assert_eq!(split_words("", true), strings(&[]));
    assert_eq!(split_words("...", true), strings(&[]));
    assert_eq!(split_words("AZaz", true), strings(&["azaz"]));
    assert_eq!(split_words("naïve Émile", true), strings(&["na", "ve", "mile"]));
    assert_eq!(split_words("@[`{", true), strings(&[]));
}

#[test]
fn words_of_a_sentence_in_lower_case() {
    assert_eq!(split_words(" the quick-brown fox", false), strings(&["the", "quick", "brown", "fox"]));
    assert_eq!(split_words("aBc", false), strings(&["a", "c"]));
    assert_eq!(split_words("x", false), strings(&["x"]));
}

#[test]
fn words_of_lines() {
    let lines = strings(&["One two", "", "three, FOUR", "5"]);
    assert_eq!(read_words(&lines), strings(&["one", "two", "three", "four"]));
    assert_eq!(read_words(&vec![]), strings(&[]));
}

#[test]
fn sentences_end_at_full_stops() {
    assert_eq!(sentences(b"One. Two\nthree.FOUR"), strings(&["one", " two\nthree", "four"]));
    assert_eq!(sentences(b"abc."), strings(&["abc"]));
    assert_eq!(sentences(b"."), strings(&[""]));
    assert_eq!(sentences(b"a.."), strings(&["a", ""]));
    assert_eq!(sentences(b"..a"), strings(&["", "", "a"]));
    assert_eq!(sentences(b""), strings(&[]));
}

#[test]
fn sentences_that_are_not_text_are_dropped() {
    assert_eq!(sentences(b"good.\xff\xfe.fine"), strings(&["good", "fine"]));
    assert_eq!(sentences(b"\xc3."), strings(&[]));
}

#[test]
fn sentences_are_in_lower_case() {
    assert_eq!(sentences("ÉCOLE. Straße".as_bytes()), strings(&["école", " straße"]));
}

#[test]
fn most_common_words_come_first() {
    let words = strings(&["b", "a", "c", "a", "b", "a", "d"]);
    assert_eq!(find_most_common_words(&words, 2), vec![entry("a", 3), entry("b", 2)]);
    assert_eq!(find_most_common_words(&words, 1), vec![entry("a", 3)]);
    assert_eq!(find_most_common_words(&words, 0), vec![]);
    let all = find_most_common_words(&words, 10);
    assert_eq!(all.len(), 4);
    assert_eq!(all[0], entry("a", 3));
    assert_eq!(all[1], entry("b", 2));
    assert_eq!(all[2].1, 1);
    assert_eq!(all[3].1, 1);
    assert_eq!(find_most_common_words(&vec![], 3), vec![]);
}

#[test]
fn every_word_is_counted_once() {
    let words = split_words("to be or not to be that is the question to be", false);
    let list = find_most_common_words(&words, 100);
    let total: u64 = list.iter().map(|e| e.1).sum();
    assert_eq!(total, words.len() as u64);
    for (i, a) in list.iter().enumerate() {
        assert_eq!(a.1, words.iter().filter(|w| **w == a.0).count() as u64);
        for b in &list[i + 1..] {
            assert!(a.0 != b.0);
            assert!(a.1 >= b.1);
        }
    }
    assert_eq!(list[0].1, 3);
}

#[test]
fn lines_of_a_list_of_words() {
    assert_eq!(parse_word_line("the, 120"), Ok(entry("the", 120)));
    assert_eq!(parse_word_line("  the  ,120  "), Ok(entry("the", 120)));
    assert_eq!(parse_word_line("the,\t+7\u{a0}, ignored, too"), Ok(entry("the", 7)));
    assert_eq!(parse_word_line(",0"), Ok(entry("", 0)));
    assert_eq!(parse_word_line("a b, 18446744073709551615"), Ok(entry("a b", u64::MAX)));
    assert_eq!(parse_word_line("w, 007"), Ok(entry("w", 7)));
}

#[test]
fn a_line_without_a_comma_is_a_format_error() {
    assert_eq!(parse_word_line("the 120"), Err(Error::FormatError));
    assert_eq!(parse_word_line(""), Err(Error::FormatError));
}

#[test]
fn a_count_that_is_no_number_is_reported() {
    let other = |text: &str| Err(Error::Other(text.to_string()));
    assert_eq!(parse_word_line("the,"), other("cannot parse integer from empty string"));
    assert_eq!(parse_word_line("the,   ,5"), other("cannot parse integer from empty string"));
    assert_eq!(parse_word_line("the, x"), other("invalid digit found in string"));
    assert_eq!(parse_word_line("the, -1"), other("invalid digit found in string"));
    assert_eq!(parse_word_line("the, +"), other("invalid digit found in string"));
    assert_eq!(parse_word_line("the, 1 2"), other("invalid digit found in string"));
    assert_eq!(parse_word_line("the, 18446744073709551616"),
               other("number too large to fit in target type"));
    assert_eq!(parse_word_line("the, 99999999999999999999x"),
               other("number too large to fit in target type"));
    assert_eq!(parse_word_line("the, 9x9999999999999999999999"),
               other("invalid digit found in string"));
}

#[test]
fn counts_are_read_as_the_standard_library_reads_them() {
    for text in ["", "0", "+0", "+", "-", "-0", "12", " 12", "1_000", "18446744073709551615",
                 "18446744073709551616", "0000000000000000000000000000001", "٣", "1e3"] {
        let line = format!("w,{}", text);
        match text.trim().parse::<u64>() {
            Ok(n) => assert_eq!(parse_word_line(&line), Ok(entry("w", n))),
            Err(e) => assert_eq!(parse_word_line(&line), Err(Error::Other(e.to_string()))),
        }
    }
}

#[test]
fn white_space_is_trimmed_as_the_standard_library_trims_it() {
    for code in 0..0x3100u32 {
        if let Some(c) = char::from_u32(code) {
            if c == ',' {
                continue;
            }
            let line = format!("{}w{},{}5{}", c, c, c, c);
            let word = format!("{}w{}", c, c).trim().to_string();
            match format!("{}5{}", c, c).trim().parse::<u64>() {
                Ok(n) => assert_eq!(parse_word_line(&line), Ok((word, n))),
                Err(e) => assert_eq!(parse_word_line(&line), Err(Error::Other(e.to_string()))),
            }
        }
    }
}

#[test]
fn loading_a_list_of_words() {
    let lines = strings(&["the, 10", "of, 7", "and, 7", "broken"]);
    assert_eq!(load_most_common_words(&lines, 2), Ok(vec![entry("the", 10), entry("of", 7)]));
    assert_eq!(load_most_common_words(&lines, 3),
               Ok(vec![entry("the", 10), entry("of", 7), entry("and", 7)]));
    assert_eq!(load_most_common_words(&lines, 0), Ok(vec![]));
    assert_eq!(load_most_common_words(&lines, 4), Err(Error::FormatError));
    assert_eq!(load_most_common_words(&lines, 100), Err(Error::FormatError));
    let lines = strings(&["the, 10", "of, many", "broken"]);
    assert_eq!(load_most_common_words(&lines, 3),
               Err(Error::Other("invalid digit found in string".to_string())));
    assert_eq!(load_most_common_words(&lines[..1].to_vec(), 3), Ok(vec![entry("the", 10)]));
}

#[test]
fn saving_a_list_of_words() {
    let list = vec![entry("the", 10), entry("of", 0), entry("x", u64::MAX)];
    assert_eq!(save_words(&list), "the, 10\nof, 0\nx, 18446744073709551615\n");
    assert_eq!(save_words(&vec![]), "");
}

#[test]
fn a_saved_list_is_loaded_again() {
    let list = find_most_common_words(&split_words("a b a c b a", false), 3);
    let text = save_words(&list);
    let lines: Vec<String> = text.lines().map(|l| l.to_string()).collect();
    assert_eq!(load_most_common_words(&lines, 10), Ok(list));
}

#[test]
fn a_model_from_a_corpus_has_a_window_of_ten() {
    let mut builder = create_model(strings(&["a", "b"]));
    assert_eq!(builder.len(), 2);
    let pairs = read_sentence(&mut builder, "a x x x x x x x x x b");
    assert_eq!(pairs,
               vec![Cooccurrence { from: 0, to: 1, dist: 10 },
                    Cooccurrence { from: 1, to: 0, dist: 10 }]);
    let pairs = read_sentence(&mut builder, "a x x x x x x x x x x b");
    assert_eq!(pairs, vec![]);
    let pairs = read_sentence(&mut builder, "a 1 2 3 b");
    assert_eq!(pairs,
               vec![Cooccurrence { from: 0, to: 1, dist: 1 },
                    Cooccurrence { from: 1, to: 0, dist: 1 }]);
    assert_eq!(builder.occurrences(0), 2);
}

#[test]
fn a_sentence_is_cut_at_everything_but_lower_case_letters() {
    let mut builder = create_model(strings(&["a", "b", "c"]));
    let pairs = read_sentence(&mut builder, "a,b  C");
    assert_eq!(pairs,
               vec![Cooccurrence { from: 0, to: 1, dist: 1 },
                    Cooccurrence { from: 1, to: 0, dist: 1 }]);
    assert_eq!(read_sentence(&mut builder, ""), vec![]);
}
