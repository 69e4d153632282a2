use gauntlet::error::Error;
use gauntlet::models::{LanguageModel, LanguageModelBuilder, WordVec};
use gauntlet::window::Cooccurrence;

fn words(text: &str) -> Vec<String> {
    text.split(' ').map(|w| w.to_string()).collect()
}

fn add_weight(builder: &mut LanguageModelBuilder, pair: &Cooccurrence) {
    let old = f32::from_bits(builder.row(pair.from).vec[pair.to]);
    let new = old + 1.0 / pair.dist as f32;
    builder.set_weight(pair.from, pair.to, new.to_bits());
}

fn feed(builder: &mut LanguageModelBuilder, sentence: &str) -> Vec<Cooccurrence> {
    let pairs = {
        let mut acc = builder.new_sentence();
        for word in sentence.split(' ') {
            acc.add_word(word);
        }
        acc.commit()
    };
    for pair in &pairs {
        add_weight(builder, pair);
    }
    pairs
}

fn normalize(builder: &mut LanguageModelBuilder) {
    for i in 0..builder.len() {
        let row: Vec<f32> = builder.row(i).vec.iter().map(|b| f32::from_bits(*b)).collect();
        let sum = row.iter().fold(0f32, |x, y| x + *y);
        for (j, v) in row.iter().enumerate() {
            builder.set_weight(i, j, (v / (sum + 1.0)).to_bits());
        }
    }
}

fn finish(mut builder: LanguageModelBuilder) -> LanguageModel {
    normalize(&mut builder);
    builder.build()
}

fn distance(a: &WordVec, b: &WordVec) -> f32 {
    a.vec
        .iter()
        .zip(b.vec.iter())
        .map(|(x, y)| {
            let d = f32::from_bits(*x) - f32::from_bits(*y);
            d * d
        })
        .fold(0.0, |x, y| x + y)
        .sqrt()
}

fn distances(model: &LanguageModel, query: &WordVec) -> Vec<u32> {
    (0..model.len()).map(|i| distance(model.vector(i), query).to_bits()).collect()
}

fn floats(w: &WordVec) -> Vec<f32> {
    w.vec.iter().map(|b| f32::from_bits(*b)).collect()
}

fn pair(from: usize, to: usize, dist: usize) -> Cooccurrence {
    Cooccurrence { from, to, dist }
}

fn get_builder() -> LanguageModelBuilder {
    let mut builder = LanguageModelBuilder::new(1, words("foo bar baz blort"));
    feed(&mut builder, "x foo bar baz x x x x x x x blort");
    builder
}

#[test]
fn test_accept_sentences() {
    let model = finish(get_builder());
    let foo = model.get("foo").unwrap();
    let baz = model.get("baz").unwrap();
    let bar = model.get("bar").unwrap();
    let blort = model.get("blort").unwrap();

    assert!(distance(foo, baz) < distance(foo, blort));
    assert!(distance(foo, bar) == distance(bar, baz));
}

#[test]
fn test_serialization() {
    let builder = get_builder();
    let bytes = builder.save();

    let loaded_model = finish(LanguageModelBuilder::load(&bytes).unwrap());
    assert!(finish(builder) == loaded_model);
}

#[test]
fn distance_is_symmetric() {
    let model = finish(get_builder());
    for i in 0..model.len() {
        for j in 0..model.len() {
            let (a, b) = (model.vector(i), model.vector(j));
            assert!(distance(a, b) == distance(b, a));
        }
    }
}

#[test]
fn new_builder_is_blank() {
    let builder = LanguageModelBuilder::new(3, words("a b c"));
    assert_eq!(builder.len(), 3);
    for i in 0..3 {
        assert_eq!(builder.row(i).vec, vec![0u32, 0, 0]);
        assert_eq!(builder.occurrences(i), 0);
    }
    assert_eq!(builder.row(0).word, "a");
    assert_eq!(builder.row(2).word, "c");
    assert_eq!(builder.lookup("b"), Some(1));
    assert_eq!(builder.lookup("d"), None);
}

#[test]
fn empty_vocabulary() {
    let mut builder = LanguageModelBuilder::new(2, vec![]);
    assert_eq!(builder.len(), 0);
    assert_eq!(feed(&mut builder, "a b c"), vec![]);
    let bytes = builder.save();
    assert_eq!(bytes, vec![0, 0, 0, 0, 0, 0, 0, 0, 10]);
    let model = builder.build();
    assert!(model.get("a").is_none());
    assert!(LanguageModelBuilder::load(&bytes).unwrap().build() == model);
}

#[test]
fn window_of_radius_one() {
    let mut builder = LanguageModelBuilder::new(1, words("foo bar baz blort"));
    let pairs = feed(&mut builder, "x foo bar baz x x x x x x x blort");
    assert_eq!(pairs, vec![pair(0, 1, 1), pair(1, 0, 1), pair(1, 2, 1), pair(2, 1, 1)]);
    assert_eq!(floats(builder.row(0)), vec![0.0, 1.0, 0.0, 0.0]);
    assert_eq!(floats(builder.row(1)), vec![1.0, 0.0, 1.0, 0.0]);
    assert_eq!(floats(builder.row(2)), vec![0.0, 1.0, 0.0, 0.0]);
    assert_eq!(floats(builder.row(3)), vec![0.0, 0.0, 0.0, 0.0]);
    assert_eq!(builder.occurrences(0), 1);
    assert_eq!(builder.occurrences(1), 2);
    assert_eq!(builder.occurrences(2), 1);
    assert_eq!(builder.occurrences(3), 0);
}

#[test]
fn weights_fall_with_distance() {
    let mut builder = LanguageModelBuilder::new(3, words("a b"));
    let pairs = feed(&mut builder, "a x x b");
    assert_eq!(pairs, vec![pair(0, 1, 3), pair(1, 0, 3)]);
    assert_eq!(floats(builder.row(0)), vec![0.0, 1.0 / 3.0]);
    let pairs = feed(&mut builder, "a x b");
    assert_eq!(pairs, vec![pair(0, 1, 2), pair(1, 0, 2)]);
    assert_eq!(floats(builder.row(0)), vec![0.0, 1.0f32 / 3.0 + 0.5]);
    let pairs = feed(&mut builder, "a x x x b");
    assert_eq!(pairs, vec![]);
}

#[test]
fn window_order_and_unknown_tokens() {
    let mut builder = LanguageModelBuilder::new(2, words("a b c"));
    let pairs = feed(&mut builder, "a b ? c a");
    assert_eq!(pairs,
               vec![pair(0, 1, 1),
                    pair(1, 0, 1),
                    pair(1, 2, 2),
                    pair(2, 1, 2),
                    pair(2, 0, 1),
                    pair(0, 2, 1)]);
    assert_eq!(builder.occurrences(0), 2);
    assert_eq!(builder.occurrences(1), 2);
    assert_eq!(builder.occurrences(2), 2);
}

#[test]
fn radius_zero_and_huge_radius() {
    let mut builder = LanguageModelBuilder::new(0, words("a b"));
    assert_eq!(feed(&mut builder, "a b a b"), vec![]);
    let mut builder = LanguageModelBuilder::new(usize::MAX, words("a b"));
    assert_eq!(feed(&mut builder, "a b a"),
               vec![pair(0, 1, 1), pair(0, 0, 2), pair(1, 0, 1), pair(1, 0, 1), pair(0, 0, 2),
                    pair(0, 1, 1)]);
}

#[test]
fn sentences_do_not_mix() {
    let mut builder = LanguageModelBuilder::new(5, words("a b"));
    assert_eq!(feed(&mut builder, "a"), vec![]);
    assert_eq!(feed(&mut builder, "b"), vec![]);
    {
        let mut acc = builder.new_sentence();
        acc.add_word("a");
    }
    assert_eq!(feed(&mut builder, "b"), vec![]);
    assert_eq!(floats(builder.row(0)), vec![0.0, 0.0]);
}

#[test]
fn counting_is_symmetric() {
    let mut builder = LanguageModelBuilder::new(3, words("a b c d"));
    feed(&mut builder, "a b x c d a a c b z d");
    feed(&mut builder, "d d c a");
    for i in 0..4 {
        for j in 0..4 {
            assert_eq!(builder.row(i).vec[j], builder.row(j).vec[i]);
        }
    }
}

#[test]
fn rows_are_divided_by_their_sum_plus_one() {
    let mut builder = LanguageModelBuilder::new(1, words("a b c"));
    feed(&mut builder, "x x a a b a c b x x");
    assert_eq!(floats(builder.row(0)), vec![2.0, 2.0, 1.0]);
    assert_eq!(floats(builder.row(1)), vec![2.0, 0.0, 1.0]);
    assert_eq!(floats(builder.row(2)), vec![1.0, 1.0, 0.0]);
    let model = finish(builder);
    assert_eq!(floats(model.vector(0)), vec![2.0f32 / 6.0, 2.0 / 6.0, 1.0 / 6.0]);
    assert_eq!(floats(model.vector(1)), vec![0.5, 0.0, 0.25]);
    assert_eq!(floats(model.vector(2)), vec![1.0f32 / 3.0, 1.0 / 3.0, 0.0]);
    assert_eq!(model.validate(), Ok(()));
}

#[test]
fn last_of_equal_words_wins() {
    let builder = LanguageModelBuilder::new(1, words("a b a"));
    assert_eq!(builder.lookup("a"), Some(2));
    assert_eq!(builder.lookup("b"), Some(1));
    let model = builder.build();
    assert_eq!(model.lookup("a"), Some(2));
}

#[test]
fn stored_bytes() {
    let mut builder = LanguageModelBuilder::new(1, words("a bc"));
    builder.set_weight(0, 1, 1.0f32.to_bits());
    builder.set_weight(1, 0, 0x0102_0304);
    let bytes = builder.save();
    assert_eq!(bytes,
               vec![2, 0, 0, 0, 0, 0, 0, 0, b'\n',
                    b'a', b':', 0, 0, 0, 0, 0, 0, 0x80, 0x3f, b'\n',
                    b'b', b'c', b':', 4, 3, 2, 1, 0, 0, 0, 0, b'\n']);
    let loaded = LanguageModelBuilder::load(&bytes).unwrap();
    assert_eq!(loaded.len(), 2);
    assert_eq!(loaded.row(0).word, "a");
    assert_eq!(loaded.row(1).word, "bc");
    assert_eq!(loaded.row(0).vec, vec![0, 0x3f80_0000]);
    assert_eq!(loaded.row(1).vec, vec![0x0102_0304, 0]);
    assert_eq!(loaded.lookup("bc"), Some(1));
    assert_eq!(loaded.occurrences(1), 0);
}

#[test]
fn words_beyond_ascii_are_stored() {
    let builder = LanguageModelBuilder::new(1, vec!["né".to_string()]);
    let bytes = builder.save();
    assert_eq!(bytes, vec![1, 0, 0, 0, 0, 0, 0, 0, 10, b'n', 0xc3, 0xa9, b':', 0, 0, 0, 0, 10]);
    let loaded = LanguageModelBuilder::load(&bytes).unwrap();
    assert_eq!(loaded.row(0).word, "né");
}

#[test]
fn truncated_float_block_is_a_format_error() {
    let mut builder = LanguageModelBuilder::new(1, words("a b"));
    builder.set_weight(0, 0, 7);
    let bytes = builder.save();
    for cut in 0..bytes.len() {
        assert!(matches!(LanguageModelBuilder::load(&bytes[..cut]), Err(Error::FormatError)));
    }
    assert!(LanguageModelBuilder::load(&bytes).is_ok());
}

#[test]
fn malformed_files_are_format_errors() {
    let good = LanguageModelBuilder::new(1, words("a b")).save();
    let bad = |bytes: Vec<u8>| matches!(LanguageModelBuilder::load(&bytes), Err(Error::FormatError));
    // no newline behind the header
    let mut bytes = good.clone();
    bytes[8] = b' ';
    assert!(bad(bytes));
    // more records announced than present
    let mut bytes = good.clone();
    bytes[0] = 3;
    assert!(bad(bytes));
    // fewer records announced than present
    let mut bytes = good.clone();
    bytes[0] = 1;
    assert!(bad(bytes));
    // bytes behind the last record
    let mut bytes = good.clone();
    bytes.push(b'\n');
    assert!(bad(bytes));
    // no colon behind the word
    let mut bytes = good.clone();
    bytes[10] = b';';
    assert!(bad(bytes));
    // no newline behind the floats
    let mut bytes = good.clone();
    let last = bytes.len() - 1;
    bytes[last] = 0;
    assert!(bad(bytes));
    // a word that is not UTF-8
    let mut bytes = good.clone();
    bytes[9] = 0xff;
    assert!(bad(bytes));
    // a size that no file can hold
    let mut bytes = good.clone();
    for b in &mut bytes[..8] {
        *b = 0xff;
    }
    assert!(bad(bytes));
    assert!(bad(vec![]));
}

#[test]
fn a_word_with_a_colon_does_not_come_back() {
    let builder = LanguageModelBuilder::new(1, vec!["a:b".to_string()]);
    assert!(!builder.storable());
    assert!(LanguageModelBuilder::load(&builder.save()).is_err());
}

#[test]
fn words_that_can_be_stored() {
    assert!(LanguageModelBuilder::new(1, words("a bc d")).storable());
    assert!(LanguageModelBuilder::new(1, vec![]).storable());
    assert!(LanguageModelBuilder::new(1, vec!["".to_string(), "né".to_string()]).storable());
    assert!(!LanguageModelBuilder::new(1, vec!["a".to_string(), "b\n".to_string()]).storable());
    assert!(!LanguageModelBuilder::new(1, vec![":".to_string()]).storable());
    assert!(LanguageModelBuilder::new(1, words("a b")).build().storable());
    assert!(!LanguageModelBuilder::new(1, vec!["a:".to_string()]).build().storable());
}

#[test]
fn nearest_words_are_ordered_by_distance() {
    let model = finish(get_builder());
    let foo = model.get("foo").unwrap();
    let d = distances(&model, foo);
    let near = model.nearest_words(foo, &d).unwrap();
    let names: Vec<&str> = near.iter().map(|w| w.word.as_str()).collect();
    assert_eq!(names, vec!["baz", "blort", "bar"]);
}

#[test]
fn nearest_words_keep_vocabulary_order_among_equals() {
    let model = LanguageModelBuilder::new(1, words("a b c d e")).build();
    let query = WordVec::new("c".to_string(), 5);
    let d = vec![2.0f32.to_bits(), 1.0f32.to_bits(), 0.0f32.to_bits(), 1.0f32.to_bits(),
                 (-0.0f32).to_bits()];
    let near = model.nearest_words(&query, &d).unwrap();
    let names: Vec<&str> = near.iter().map(|w| w.word.as_str()).collect();
    assert_eq!(names, vec!["e", "b", "d", "a"]);
    let d = vec![0u32; 5];
    let near = model.nearest_words(&query, &d).unwrap();
    let names: Vec<&str> = near.iter().map(|w| w.word.as_str()).collect();
    assert_eq!(names, vec!["a", "b", "d", "e"]);
}

#[test]
fn nearest_up_to_a_limit() {
    let model = LanguageModelBuilder::new(1, words("a b c d e")).build();
    let query = WordVec::new("c".to_string(), 5);
    let d = vec![2.0f32.to_bits(), 1.0f32.to_bits(), 0.0f32.to_bits(), 1.0f32.to_bits(),
                 0.5f32.to_bits()];
    let names = |limit: usize| -> Vec<String> {
        model.nearest(&query, &d, limit).unwrap().iter().map(|w| w.word.clone()).collect()
    };
    assert_eq!(names(0), Vec::<String>::new());
    assert_eq!(names(1), vec!["e"]);
    assert_eq!(names(3), vec!["e", "b", "d"]);
    assert_eq!(names(4), vec!["e", "b", "d", "a"]);
    assert_eq!(names(usize::MAX), vec!["e", "b", "d", "a"]);
    let d = vec![f32::NAN.to_bits(); 5];
    assert!(matches!(model.nearest(&query, &d, 0), Err(Error::InvalidVector)));
}

#[test]
fn models_are_stored_like_builders() {
    let builder = get_builder();
    let bytes = builder.save();
    let model = builder.build();
    assert_eq!(model.save(), bytes);
    assert!(LanguageModel::load(&bytes).unwrap() == model);
    assert!(matches!(LanguageModel::load(&bytes[1..]), Err(Error::FormatError)));
}

#[test]
fn nearest_words_of_a_derived_vector_are_all_words() {
    let model = LanguageModelBuilder::new(1, words("a b")).build();
    let query = WordVec::new("a + b".to_string(), 2);
    let d = vec![f32::INFINITY.to_bits(), 3.5f32.to_bits()];
    let near = model.nearest_words(&query, &d).unwrap();
    let names: Vec<&str> = near.iter().map(|w| w.word.as_str()).collect();
    assert_eq!(names, vec!["b", "a"]);
}

#[test]
fn a_distance_that_is_no_number_is_an_invalid_vector() {
    let model = LanguageModelBuilder::new(1, words("a b c")).build();
    let query = WordVec::new("a".to_string(), 3);
    let d = vec![0, f32::NAN.to_bits(), 0];
    assert!(matches!(model.nearest_words(&query, &d), Err(Error::InvalidVector)));
    // the distance of the query's own word does not count
    let d = vec![f32::NAN.to_bits(), 0, 0];
    assert!(model.nearest_words(&query, &d).is_ok());
}

#[test]
fn validate_rejects_what_is_not_finite() {
    let mut builder = LanguageModelBuilder::new(1, words("a b"));
    builder.set_weight(1, 0, f32::NAN.to_bits());
    assert_eq!(builder.build().validate(), Err(Error::InvalidVector));
    let mut builder = LanguageModelBuilder::new(1, words("a b"));
    builder.set_weight(0, 1, f32::NEG_INFINITY.to_bits());
    assert_eq!(builder.build().validate(), Err(Error::InvalidVector));
    let mut builder = LanguageModelBuilder::new(1, words("a b"));
    builder.set_weight(0, 1, f32::MAX.to_bits());
    builder.set_weight(1, 1, (-0.0f32).to_bits());
    assert_eq!(builder.build().validate(), Ok(()));
}

#[test]
fn vectors_are_equal_as_numbers() {
    let mut a = WordVec::new("a".to_string(), 2);
    let mut b = WordVec::new("b".to_string(), 2);
    assert!(a == b);
    a.vec[0] = (-0.0f32).to_bits();
    assert!(a == b);
    b.vec[1] = 1.5f32.to_bits();
    assert!(a != b);
    a.vec[1] = f32::NAN.to_bits();
    b.vec[1] = f32::NAN.to_bits();
    assert!(a != b);
    assert!(WordVec::new("a".to_string(), 2) != WordVec::new("a".to_string(), 3));
}

#[test]
fn models_are_equal_by_words_and_numbers() {
    let a = LanguageModelBuilder::new(1, words("a b")).build();
    let b = LanguageModelBuilder::new(7, words("a b")).build();
    let c = LanguageModelBuilder::new(1, words("a c")).build();
    let d = LanguageModelBuilder::new(1, words("a b c")).build();
    assert!(a == b);
    assert!(a != c);
    assert!(a != d);
}

#[test]
fn error_messages() {
    assert_eq!(Error::FormatError.message(), "Invalid format for vocabulary file");
    assert_eq!(Error::UnknownWord("queen".to_string()).message(),
               "'queen' is not present in the language model");
    assert_eq!(Error::Other("disk full".to_string()).message(), "disk full");
}
