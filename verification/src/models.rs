use vstd::prelude::*;
use vstd::hash_map::StringHashMap;
use crate::codec::{
    can_store, decode, encode, lemma_decode_encode, lemma_decode_square, read_model, square,
    storable, views, write_model,
};
use crate::error::{Error, ErrorView};
use crate::ieee::{equal, finite, is_finite, same_number, same_numbers};
use crate::ranking::{candidate, is_ranking, rank_neighbours, ranking, unordered};
use crate::window::{cooccurrences, window_pairs, Cooccurrence, lemma_pairs_bounded};

verus! {

/// A labelled vector. Its components are held as the bit patterns of
/// IEEE-754 single-precision numbers.
#[derive(Clone, Debug)]
pub struct WordVec {
    pub word: String,
    pub vec: Vec<u32>,
}

/// A `WordVec` as a label and a sequence of bit patterns.
pub ghost struct WordVecView {
    pub word: Seq<char>,
    pub bits: Seq<u32>,
}

impl View for WordVec {
    type V = WordVecView;

    open spec fn view(&self) -> WordVecView {
        WordVecView { word: self.word@, bits: self.vec@ }
    }
}

impl WordVec {
    /// The vector of `num_words` components that are all zero.
    pub fn new(word: String, num_words: usize) -> (w: WordVec)
        ensures
            w@.word == word@,
            w@.bits == Seq::new(num_words as nat, |i: int| 0u32),
    {
        let mut vec: Vec<u32> = Vec::new();
        let mut i: usize = 0;
        while i < num_words
            invariant
                i <= num_words,
                vec@ == Seq::new(i as nat, |i: int| 0u32),
            decreases num_words - i,
        {
            vec.push(0u32);
            assert(vec@ =~= Seq::new((i + 1) as nat, |i: int| 0u32));
            i += 1;
        }
        WordVec { word, vec }
    }
}

impl PartialEq for WordVec {
    /// Two vectors are equal when they have the same components as numbers;
    /// the labels do not count.
    fn eq(&self, other: &WordVec) -> (r: bool) {
        if self.vec.len() != other.vec.len() {
            return false;
        }
        let mut i: usize = 0;
        while i < self.vec.len()
            invariant
                i <= self.vec.len(),
                self.vec.len() == other.vec.len(),
                forall|j: int| 0 <= j < i ==> same_number(#[trigger] self.vec@[j], other.vec@[j]),
            decreases self.vec.len() - i,
        {
            if !equal(self.vec[i], other.vec[i]) {
                return false;
            }
            i += 1;
        }
        true
    }
}

impl vstd::std_specs::cmp::PartialEqSpecImpl for WordVec {
    open spec fn obeys_eq_spec() -> bool {
        true
    }

    open spec fn eq_spec(&self, other: &WordVec) -> bool {
        same_numbers(self.vec@, other.vec@)
    }
}

/// The labels of the records, in order.
pub open spec fn labels(records: Seq<WordVecView>) -> Seq<Seq<char>> {
    records.map_values(|r: WordVecView| r.word)
}

/// The map from each label to the place where it stands; of a label that
/// stands at several places, the last one.
pub open spec fn index_of(labels: Seq<Seq<char>>) -> Map<Seq<char>, usize>
    decreases labels.len(),
{
    if labels.len() == 0 {
        Map::empty()
    } else {
        index_of(labels.drop_last()).insert(labels.last(), (labels.len() - 1) as usize)
    }
}

/// A label is in the index exactly when it is among the labels, and the
/// index then gives the last place where it stands.
pub proof fn lemma_index_of(labels: Seq<Seq<char>>, word: Seq<char>)
    requires
        labels.len() <= usize::MAX,
    ensures
        index_of(labels).contains_key(word) <==> labels.contains(word),
        index_of(labels).contains_key(word) ==> ({
            let i = index_of(labels)[word] as int;
            &&& 0 <= i < labels.len()
            &&& labels[i] == word
            &&& forall|j: int| i < j < labels.len() ==> labels[j] != word
        }),
    decreases labels.len(),
{
    if labels.len() > 0 {
        let front = labels.drop_last();
        lemma_index_of(front, word);
        if labels.last() == word {
            assert(labels[labels.len() - 1] == word);
        } else {
            if front.contains(word) {
                let i = choose|i: int| 0 <= i < front.len() && front[i] == word;
                assert(labels[i] == word);
            }
            if labels.contains(word) {
                let i = choose|i: int| 0 <= i < labels.len() && labels[i] == word;
                assert(front[i] == word);
            }
            if index_of(labels).contains_key(word) {
                let i = index_of(front)[word] as int;
                assert(labels[i] == front[i]);
                assert forall|j: int| i < j < labels.len() implies labels[j] != word by {
                    if j < front.len() {
                        assert(front[j] == labels[j]);
                    }
                }
            }
        }
    }
}

/// A vector of `n` zeros.
pub open spec fn zeros(n: nat) -> Seq<u32> {
    Seq::new(n, |i: int| 0u32)
}

/// One zero vector per word, each with as many components as there are words.
pub open spec fn blank(words: Seq<String>) -> Seq<WordVecView> {
    Seq::new(words.len(), |i: int| WordVecView { word: words[i]@, bits: zeros(words.len()) })
}

/// How many of the co-occurrences have the word `c` in the centre.
pub open spec fn tally(pairs: Seq<Cooccurrence>, c: int) -> nat
    decreases pairs.len(),
{
    if pairs.len() == 0 {
        0
    } else {
        tally(pairs.drop_last(), c) + if pairs.last().from == c {
            1nat
        } else {
            0nat
        }
    }
}

/// A count raised by `by`, and held at the largest value where it would pass it.
pub open spec fn raised(count: u64, by: nat) -> u64 {
    if count + by > u64::MAX {
        u64::MAX
    } else {
        (count + by) as u64
    }
}

/// The counts after the co-occurrences were counted in, each for the word
/// in its centre.
pub open spec fn counted(counts: Seq<u64>, pairs: Seq<Cooccurrence>) -> Seq<u64> {
    Seq::new(counts.len(), |c: int| raised(counts[c], tally(pairs, c)))
}

/// The state of a `LanguageModelBuilder`.
pub ghost struct BuilderView {
    /// How far apart two words may stand and still co-occur.
    pub radius: usize,
    /// The co-occurrence row of each word, in the order of the vocabulary.
    pub vectors: Seq<WordVecView>,
    /// How often each word stood in the centre of a co-occurrence.
    pub occurrences: Seq<u64>,
    /// The tokens of the open sentence, each as its word or as `None`.
    pub pending: Seq<Option<usize>>,
}

/// The accumulator of co-occurrences: a vocabulary that is fixed at
/// construction, with one row of weights and one count per word.
pub struct LanguageModelBuilder {
    window_radius: usize,
    words: StringHashMap<usize>,
    word_vecs: Vec<WordVec>,
    counts: Vec<u64>,
    sentence: Vec<Option<usize>>,
}

/// A sentence that is being read into a builder. Its co-occurrences are
/// counted and handed out by `commit`; a sentence that is let go without it
/// leaves nothing behind.
#[must_use]
pub struct WordAcceptor<'a> {
    /// The builder that the sentence is read into.
    pub builder: &'a mut LanguageModelBuilder,
}

/// A finished model: the vocabulary with one vector per word.
pub struct LanguageModel {
    words: StringHashMap<usize>,
    word_vecs: Vec<WordVec>,
}

/// The index holds each word with its place, and every vector has one
/// component per word.
pub open spec fn coherent(index: Map<Seq<char>, usize>, vectors: Seq<WordVecView>) -> bool {
    &&& index == index_of(labels(vectors))
    &&& square(vectors)
}

impl View for LanguageModelBuilder {
    type V = BuilderView;

    closed spec fn view(&self) -> BuilderView {
        BuilderView {
            radius: self.window_radius,
            vectors: views(self.word_vecs@),
            occurrences: self.counts@,
            pending: self.sentence@,
        }
    }
}

/// Makes the index of the given words.
fn make_index(word_vecs: &Vec<WordVec>) -> (index: StringHashMap<usize>)
    ensures
        index@ == index_of(labels(views(word_vecs@))),
{
    let mut index: StringHashMap<usize> = StringHashMap::new();
    let mut i: usize = 0;
    let ghost all = labels(views(word_vecs@));
    assert(all.take(0) =~= Seq::<Seq<char>>::empty());
    while i < word_vecs.len()
        invariant
            i <= word_vecs.len(),
            all == labels(views(word_vecs@)),
            index@ == index_of(all.take(i as int)),
        decreases word_vecs.len() - i,
    {
        index.insert(word_vecs[i].word.clone(), i);
        proof {
            assert(all.take(i + 1).drop_last() =~= all.take(i as int));
            assert(all.take(i + 1).last() == word_vecs@[i as int].word@);
        }
        i += 1;
    }
    assert(all.take(word_vecs.len() as int) =~= all);
    index
}

impl LanguageModelBuilder {
    /// The builder is well formed: the index agrees with the words, every
    /// row has one weight per word, there is one count per word, and every
    /// resolved token of the open sentence is a place in the vocabulary.
    pub closed spec fn wf(&self) -> bool {
        &&& coherent(self.words@, views(self.word_vecs@))
        &&& self.word_vecs@.len() <= usize::MAX
        &&& self.counts.len() == self.word_vecs.len()
        &&& forall|k: int|
            0 <= k < self.sentence@.len() ==> (#[trigger] self.sentence@[k] matches Some(x)
                ==> x < self.word_vecs.len())
    }

    /// The place of each word of the vocabulary.
    pub open spec fn index(&self) -> Map<Seq<char>, usize> {
        index_of(labels(self@.vectors))
    }

    /// What a well-formed builder holds: one row and one count per word,
    /// one weight per word in every row, and in the open sentence only
    /// places of the vocabulary.
    pub proof fn lemma_wf(&self)
        requires
            self.wf(),
        ensures
            square(self@.vectors),
            self@.vectors.len() <= usize::MAX,
            self@.occurrences.len() == self@.vectors.len(),
            forall|k: int|
                0 <= k < self@.pending.len() ==> (#[trigger] self@.pending[k] matches Some(x)
                    ==> x < self@.vectors.len()),
    {
    }

    /// What a well-formed builder stores is read back as it is: the same
    /// words in the same order, each with the same row bit for bit. This
    /// holds where no word holds a colon.
    pub proof fn lemma_save_load(&self)
        requires
            self.wf(),
            forall|i: int|
                0 <= i < self@.vectors.len() ==> !(#[trigger] self@.vectors[i]).word.contains(':'),
        ensures
            decode(encode(self@.vectors)) == Some(self@.vectors),
    {
        self.lemma_wf();
        lemma_decode_encode(self@.vectors);
    }

    /// A builder for the given vocabulary: every weight and every count is
    /// zero, and no sentence is open.
    pub fn new(window_radius: usize, words: Vec<String>) -> (b: LanguageModelBuilder)
        ensures
            b.wf(),
            b@ == (BuilderView {
                radius: window_radius,
                vectors: blank(words@),
                occurrences: Seq::new(words.len() as nat, |i: int| 0u64),
                pending: Seq::empty(),
            }),
    {
        let n = words.len();
        let mut word_vecs: Vec<WordVec> = Vec::new();
        let mut counts: Vec<u64> = Vec::new();
        let mut i: usize = 0;
        while i < n
            invariant
                i <= n,
                n == words.len(),
                word_vecs.len() == i,
                counts@ == Seq::new(i as nat, |i: int| 0u64),
                forall|k: int|
                    0 <= k < i ==> (#[trigger] word_vecs@[k])@ == (WordVecView {
                        word: words@[k]@,
                        bits: zeros(n as nat),
                    }),
            decreases n - i,
        {
            word_vecs.push(WordVec::new(words[i].clone(), n));
            counts.push(0u64);
            assert(counts@ =~= Seq::new((i + 1) as nat, |i: int| 0u64));
            i += 1;
        }
        assert(views(word_vecs@) =~= blank(words@));
        let index = make_index(&word_vecs);
        LanguageModelBuilder {
            window_radius,
            words: index,
            word_vecs,
            counts,
            sentence: Vec::new(),
        }
    }

    /// The number of words in the vocabulary.
    pub fn len(&self) -> (n: usize)
        ensures
            n == self@.vectors.len(),
    {
        self.word_vecs.len()
    }

    /// The place of a word in the vocabulary, if it is one of its words.
    pub fn lookup(&self, word: &str) -> (r: Option<usize>)
        requires
            self.wf(),
        ensures
            r == if self.index().contains_key(word@) {
                Some(self.index()[word@])
            } else {
                None
            },
            r matches Some(i) ==> i < self@.vectors.len() && self@.vectors[i as int].word == word@,
    {
        proof {
            assert(labels(self@.vectors).len() == self.word_vecs.len());
            lemma_index_of(labels(self@.vectors), word@);
        }
        match self.words.get(word) {
            Some(i) => Some(*i),
            None => None,
        }
    }

    /// How often the word at place `i` stood in the centre of a co-occurrence.
    pub fn occurrences(&self, i: usize) -> (n: u64)
        requires
            self.wf(),
            i < self@.vectors.len(),
        ensures
            n == self@.occurrences[i as int],
    {
        self.counts[i]
    }

    /// The row of the word at place `i`.
    pub fn row(&self, i: usize) -> (w: &WordVec)
        requires
            i < self@.vectors.len(),
        ensures
            w@ == self@.vectors[i as int],
            self.wf() ==> w@.bits.len() == self@.vectors.len(),
    {
        assert(views(self.word_vecs@)[i as int] == self.word_vecs@[i as int]@);
        &self.word_vecs[i]
    }

    /// Replaces the weight between the word at `from` and the word at `to`.
    pub fn set_weight(&mut self, from: usize, to: usize, bits: u32)
        requires
            old(self).wf(),
            from < old(self)@.vectors.len(),
            to < old(self)@.vectors.len(),
        ensures
            final(self).wf(),
            final(self)@ == (BuilderView {
                vectors: old(self)@.vectors.update(
                    from as int,
                    WordVecView {
                        word: old(self)@.vectors[from as int].word,
                        bits: old(self)@.vectors[from as int].bits.update(to as int, bits),
                    },
                ),
                ..old(self)@
            }),
    {
        let ghost before = views(self.word_vecs@);
        assert(before[from as int].bits.len() == before.len());
        self.word_vecs[from].vec[to] = bits;
        proof {
            let after = views(self.word_vecs@);
            assert(after =~= before.update(
                from as int,
                WordVecView {
                    word: before[from as int].word,
                    bits: before[from as int].bits.update(to as int, bits),
                },
            ));
            assert(labels(after) =~= labels(before));
        }
    }

    /// Opens a sentence. Tokens of a sentence that was left open are dropped.
    pub fn new_sentence<'a>(&'a mut self) -> (acc: WordAcceptor<'a>)
        requires
            old(self).wf(),
        ensures
            acc.builder.wf(),
            acc.builder@ == (BuilderView { pending: Seq::empty(), ..old(self)@ }),
            *final(self) == *final(acc.builder),
    {
        self.sentence.clear();
        WordAcceptor { builder: self }
    }

    /// The model of the rows as they stand.
    pub fn build(self) -> (model: LanguageModel)
        requires
            self.wf(),
        ensures
            model@ == self@.vectors,
    {
        LanguageModel { words: self.words, word_vecs: self.word_vecs }
    }

    /// Whether the vocabulary can be stored: no word holds a colon or a
    /// newline. What is stored of any other vocabulary is not read back as
    /// it was.
    pub fn storable(&self) -> (r: bool)
        ensures
            r == storable(self@.vectors),
    {
        can_store(&self.word_vecs)
    }

    /// The bytes of the file that stores the vocabulary and its rows.
    pub fn save(&self) -> (out: Vec<u8>)
        ensures
            out@ == encode(self@.vectors),
    {
        write_model(&self.word_vecs)
    }

    /// The builder that the bytes of a file store, with radius 0, every
    /// count zero and no sentence open. Fails with `FormatError` exactly
    /// when the bytes are not a well-formed file.
    pub fn load(bytes: &[u8]) -> (r: Result<LanguageModelBuilder, Error>)
        ensures
            match r {
                Ok(b) => {
                    &&& b.wf()
                    &&& decode(bytes@) == Some(b@.vectors)
                    &&& b@.radius == 0
                    &&& b@.occurrences == Seq::new(b@.vectors.len(), |i: int| 0u64)
                    &&& b@.pending == Seq::<Option<usize>>::empty()
                },
                Err(e) => e@ == ErrorView::FormatError && decode(bytes@) is None,
            },
    {
        let word_vecs = match read_model(bytes) {
            Ok(v) => v,
            Err(e) => {
                return Err(e);
            },
        };
        proof {
            lemma_decode_square(bytes@);
        }
        let index = make_index(&word_vecs);
        let mut counts: Vec<u64> = Vec::new();
        let mut i: usize = 0;
        while i < word_vecs.len()
            invariant
                i <= word_vecs.len(),
                counts@ == Seq::new(i as nat, |i: int| 0u64),
            decreases word_vecs.len() - i,
        {
            counts.push(0u64);
            assert(counts@ =~= Seq::new((i + 1) as nat, |i: int| 0u64));
            i += 1;
        }
        Ok(
            LanguageModelBuilder {
                window_radius: 0,
                words: index,
                word_vecs,
                counts,
                sentence: Vec::new(),
            },
        )
    }
}

impl<'a> WordAcceptor<'a> {
    /// Takes the next token of the sentence: its place in the vocabulary if
    /// it is a word of it, and `None` if not.
    pub fn add_word(&mut self, word: &str)
        requires
            old(self).builder.wf(),
        ensures
            final(self).builder.wf(),
            final(self).builder@ == (BuilderView {
                pending: old(self).builder@.pending.push(
                    if old(self).builder.index().contains_key(word@) {
                        Some(old(self).builder.index()[word@])
                    } else {
                        None
                    },
                ),
                ..old(self).builder@
            }),
            *final(final(self).builder) == *final(old(self).builder),
    {
        let idx = self.builder.lookup(word);
        self.builder.sentence.push(idx);
    }

    /// Closes the sentence: counts each of its co-occurrences for the word
    /// in its centre, forgets its tokens, and hands out the co-occurrences
    /// in their order, for their weights to be added to the rows.
    #[verifier::loop_isolation(false)]
    pub fn commit(self) -> (pairs: Vec<Cooccurrence>)
        requires
            old(self.builder).wf(),
        ensures
            pairs@ == cooccurrences(old(self.builder)@.pending, old(self.builder)@.radius as int),
            final(self.builder).wf(),
            final(self.builder)@ == (BuilderView {
                occurrences: counted(old(self.builder)@.occurrences, pairs@),
                pending: Seq::empty(),
                ..old(self.builder)@
            }),
            forall|k: int|
                0 <= k < pairs@.len() ==> (#[trigger] pairs@[k]).from < old(
                    self.builder,
                )@.vectors.len() && pairs@[k].to < old(self.builder)@.vectors.len(),
    {
        let builder = self.builder;
        let pairs = window_pairs(&builder.sentence, builder.window_radius);
        proof {
            assert(builder.sentence.len() <= usize::MAX);
            lemma_pairs_bounded(
                builder.sentence@,
                builder.window_radius as int,
                builder.word_vecs.len() as int,
            );
        }
        let ghost before = builder.counts@;
        let mut k: usize = 0;
        assert(builder.counts@ =~= counted(before, pairs@.take(0)));
        while k < pairs.len()
            invariant
                k <= pairs.len(),
                builder.words == old(self.builder).words,
                builder.word_vecs == old(self.builder).word_vecs,
                builder.window_radius == old(self.builder).window_radius,
                builder.counts.len() == before.len(),
                builder.counts@ == counted(before, pairs@.take(k as int)),
            decreases pairs.len() - k,
        {
            let c = pairs[k].from;
            let n = builder.counts[c];
            builder.counts[c] = if n < u64::MAX { n + 1 } else { n };
            proof {
                let done = pairs@.take(k as int);
                let more = pairs@.take(k + 1);
                assert(more.drop_last() =~= done);
                assert(more.last() == pairs@[k as int]);
                assert(builder.counts@ =~= counted(before, more));
            }
            k += 1;
        }
        assert(pairs@.take(pairs.len() as int) =~= pairs@);
        builder.sentence.clear();
        pairs
    }
}

impl View for LanguageModel {
    type V = Seq<WordVecView>;

    closed spec fn view(&self) -> Seq<WordVecView> {
        views(self.word_vecs@)
    }
}

impl LanguageModel {
    #[verifier::type_invariant]
    spec fn inv(self) -> bool {
        coherent(self.words@, views(self.word_vecs@))
    }

    /// The place of each word of the vocabulary.
    pub open spec fn index(&self) -> Map<Seq<char>, usize> {
        index_of(labels(self@))
    }

    /// A word is in the index exactly when it is a word of the vocabulary,
    /// and the index then gives the last place where it stands.
    pub proof fn lemma_index(&self, word: Seq<char>)
        requires
            self@.len() <= usize::MAX,
        ensures
            self.index().contains_key(word) <==> labels(self@).contains(word),
            self.index().contains_key(word) ==> ({
                let i = self.index()[word] as int;
                &&& 0 <= i < self@.len()
                &&& self@[i].word == word
                &&& forall|j: int| i < j < self@.len() ==> self@[j].word != word
            }),
    {
        lemma_index_of(labels(self@), word);
        if self.index().contains_key(word) {
            let i = self.index()[word] as int;
            assert(labels(self@)[i] == self@[i].word);
            assert forall|j: int| i < j < self@.len() implies self@[j].word != word by {
                assert(labels(self@)[j] == self@[j].word);
            }
        }
    }

    /// The number of words in the vocabulary.
    pub fn len(&self) -> (n: usize)
        ensures
            n == self@.len(),
    {
        self.word_vecs.len()
    }

    /// The place of a word in the vocabulary, if it is one of its words.
    pub fn lookup(&self, word: &str) -> (r: Option<usize>)
        ensures
            r == if self.index().contains_key(word@) {
                Some(self.index()[word@])
            } else {
                None
            },
            r matches Some(i) ==> i < self@.len() && self@[i as int].word == word@,
    {
        proof {
            use_type_invariant(self);
            assert(labels(self@).len() == self.word_vecs.len());
            lemma_index_of(labels(self@), word@);
        }
        match self.words.get(word) {
            Some(i) => Some(*i),
            None => None,
        }
    }

    /// The vector of the word at place `i`.
    pub fn vector(&self, i: usize) -> (w: &WordVec)
        requires
            i < self@.len(),
        ensures
            w@ == self@[i as int],
            w@.bits.len() == self@.len(),
    {
        proof {
            use_type_invariant(self);
            assert(views(self.word_vecs@)[i as int] == self.word_vecs@[i as int]@);
        }
        &self.word_vecs[i]
    }

    /// The vector of a word, if it is a word of the vocabulary.
    pub fn get(&self, word: &str) -> (r: Option<&WordVec>)
        ensures
            match r {
                Some(w) => self.index().contains_key(word@) && w@ == self@[self.index()[word@] as int]
                    && w@.word == word@,
                None => !self.index().contains_key(word@),
            },
    {
        match self.lookup(word) {
            Some(i) => Some(&self.word_vecs[i]),
            None => None,
        }
    }

    /// The vectors of the other words, nearest first and, of two that are as
    /// near, the one that stands earlier in the vocabulary first. `word` is
    /// the query, and `distances` holds for each word of the vocabulary the
    /// distance between its vector and the query. The words with the label
    /// of the query are left out. Fails with `InvalidVector` exactly when
    /// the distance of one of the others is not a number.
    pub fn nearest_words(&self, word: &WordVec, distances: &Vec<u32>) -> (r: Result<
        Vec<&WordVec>,
        Error,
    >)
        requires
            distances.len() == self@.len(),
        ensures
            match r {
                Ok(out) => {
                    let order = ranking(labels(self@), word@.word, distances@);
                    &&& !unordered(labels(self@), word@.word, distances@)
                    &&& is_ranking(order, labels(self@), word@.word, distances@)
                    &&& out@.len() == order.len()
                    &&& forall|k: int|
                        0 <= k < out@.len() ==> order[k] < self@.len() && (#[trigger] out@[k])@
                            == self@[order[k] as int]
                },
                Err(e) => e@ == ErrorView::InvalidVector && unordered(
                    labels(self@),
                    word@.word,
                    distances@,
                ),
            },
    {
        let n = self.word_vecs.len();
        let mut others: Vec<bool> = Vec::new();
        let mut i: usize = 0;
        while i < n
            invariant
                i <= n,
                n == self.word_vecs.len(),
                others.len() == i,
                forall|j: int|
                    0 <= j < i ==> #[trigger] others[j] == candidate(labels(self@), word@.word, j),
            decreases n - i,
        {
            let same = self.word_vecs[i].word == word.word;
            assert(labels(self@)[i as int] == self.word_vecs@[i as int].word@);
            others.push(!same);
            i += 1;
        }
        let order = match rank_neighbours(
            &others,
            distances,
            Ghost(labels(self@)),
            Ghost(word@.word),
        ) {
            Some(order) => order,
            None => {
                return Err(Error::InvalidVector);
            },
        };
        let mut out: Vec<&WordVec> = Vec::new();
        let mut k: usize = 0;
        while k < order.len()
            invariant
                k <= order.len(),
                out.len() == k,
                order@ == ranking(labels(self@), word@.word, distances@),
                is_ranking(order@, labels(self@), word@.word, distances@),
                forall|j: int|
                    0 <= j < k ==> order@[j] < self@.len() && (#[trigger] out@[j])@
                        == self@[order@[j] as int],
            decreases order.len() - k,
        {
            assert(order@[k as int] < labels(self@).len());
            out.push(&self.word_vecs[order[k]]);
            k += 1;
        }
        Ok(out)
    }

    /// The first `limit` of the vectors of the other words in the order
    /// of `nearest_words`, or all of them where they are fewer.
    pub fn nearest(&self, word: &WordVec, distances: &Vec<u32>, limit: usize) -> (r: Result<
        Vec<&WordVec>,
        Error,
    >)
        requires
            distances.len() == self@.len(),
        ensures
            match r {
                Ok(out) => {
                    let order = ranking(labels(self@), word@.word, distances@);
                    &&& !unordered(labels(self@), word@.word, distances@)
                    &&& is_ranking(order, labels(self@), word@.word, distances@)
                    &&& out@.len() == if limit < order.len() {
                        limit as int
                    } else {
                        order.len() as int
                    }
                    &&& forall|k: int|
                        0 <= k < out@.len() ==> order[k] < self@.len() && (#[trigger] out@[k])@
                            == self@[order[k] as int]
                },
                Err(e) => e@ == ErrorView::InvalidVector && unordered(
                    labels(self@),
                    word@.word,
                    distances@,
                ),
            },
    {
        let mut out = match self.nearest_words(word, distances) {
            Ok(out) => out,
            Err(e) => {
                return Err(e);
            },
        };
        if limit < out.len() {
            out.truncate(limit);
        }
        Ok(out)
    }

    /// Whether the vocabulary can be stored: no word holds a colon or a
    /// newline.
    pub fn storable(&self) -> (r: bool)
        ensures
            r == storable(self@),
    {
        can_store(&self.word_vecs)
    }

    /// The bytes of the file that stores the vocabulary and its vectors.
    pub fn save(&self) -> (out: Vec<u8>)
        ensures
            out@ == encode(self@),
    {
        write_model(&self.word_vecs)
    }

    /// The model that the bytes of a file store. Fails with `FormatError`
    /// exactly when the bytes are not a well-formed file.
    pub fn load(bytes: &[u8]) -> (r: Result<LanguageModel, Error>)
        ensures
            match r {
                Ok(model) => decode(bytes@) == Some(model@),
                Err(e) => e@ == ErrorView::FormatError && decode(bytes@) is None,
            },
    {
        let word_vecs = match read_model(bytes) {
            Ok(v) => v,
            Err(e) => {
                return Err(e);
            },
        };
        proof {
            lemma_decode_square(bytes@);
        }
        let words = make_index(&word_vecs);
        Ok(LanguageModel { words, word_vecs })
    }

    /// Checks that every component of every vector is a finite number.
    /// Fails with `InvalidVector` exactly when one is not.
    pub fn validate(&self) -> (r: Result<(), Error>)
        ensures
            match r {
                Ok(_) => forall|i: int, j: int|
                    0 <= i < self@.len() && 0 <= j < self@[i].bits.len() ==> is_finite(
                        #[trigger] self@[i].bits[j],
                    ),
                Err(e) => e@ == ErrorView::InvalidVector && exists|i: int, j: int|
                    0 <= i < self@.len() && 0 <= j < self@[i].bits.len() && !is_finite(
                        #[trigger] self@[i].bits[j],
                    ),
            },
    {
        let mut i: usize = 0;
        while i < self.word_vecs.len()
            invariant
                i <= self.word_vecs.len(),
                forall|a: int, j: int|
                    0 <= a < i && 0 <= j < self@[a].bits.len() ==> is_finite(
                        #[trigger] self@[a].bits[j],
                    ),
            decreases self.word_vecs.len() - i,
        {
            let row = &self.word_vecs[i].vec;
            assert(self@[i as int].bits == row@);
            let mut j: usize = 0;
            while j < row.len()
                invariant
                    j <= row.len(),
                    i < self.word_vecs.len(),
                    self@[i as int].bits == row@,
                    forall|b: int| 0 <= b < j ==> is_finite(#[trigger] row@[b]),
                decreases row.len() - j,
            {
                if !finite(row[j]) {
                    assert(!is_finite(self@[i as int].bits[j as int]));
                    return Err(Error::InvalidVector);
                }
                j += 1;
            }
            i += 1;
        }
        Ok(())
    }
}

/// The two sequences hold the same words in the same order, each with the
/// same vector as numbers.
pub open spec fn same_vectors(a: Seq<WordVecView>, b: Seq<WordVecView>) -> bool {
    &&& a.len() == b.len()
    &&& forall|i: int|
        0 <= i < a.len() ==> (#[trigger] a[i]).word == b[i].word && same_numbers(a[i].bits, b[i].bits)
}

impl PartialEq for LanguageModel {
    /// Two models are equal when they hold the same words in the same
    /// order, each with the same vector as numbers.
    fn eq(&self, other: &LanguageModel) -> (r: bool) {
        if self.word_vecs.len() != other.word_vecs.len() {
            return false;
        }
        let mut i: usize = 0;
        while i < self.word_vecs.len()
            invariant
                i <= self.word_vecs.len(),
                self.word_vecs.len() == other.word_vecs.len(),
                forall|j: int|
                    0 <= j < i ==> (#[trigger] self@[j]).word == other@[j].word && same_numbers(
                        self@[j].bits,
                        other@[j].bits,
                    ),
            decreases self.word_vecs.len() - i,
        {
            let a = &self.word_vecs[i];
            let b = &other.word_vecs[i];
            assert(a@ == self@[i as int] && b@ == other@[i as int]);
            if !(a.word == b.word) || !(a == b) {
                return false;
            }
            i += 1;
        }
        true
    }
}

impl vstd::std_specs::cmp::PartialEqSpecImpl for LanguageModel {
    open spec fn obeys_eq_spec() -> bool {
        true
    }

    open spec fn eq_spec(&self, other: &LanguageModel) -> bool {
        same_vectors(self@, other@)
    }
}

} // verus!
