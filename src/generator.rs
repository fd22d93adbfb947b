use crate::corpus::{normalize, normalized, tokenize, views, words};
use crate::cyclic_array::{lemma_slot_back, lemma_slots_distinct, slot_of, CyclicArray};
use crate::error::MarkovError;
use crate::random_number_generator::RandomNumberGenerator;
use crate::model::{build_outcome, join_words, scan, transitions_for, is_terminator, TransitionView};
use vstd::prelude::*;
use vstd::string::*;

verus! {

/// A walk grows a sentence to at most this many words.
pub const MAX_WORD_COUNT: usize = 1000;

/// The first of `draws`, or zero where there is none.
pub open spec fn first_draw(draws: Seq<u32>) -> u32 {
    if draws.len() > 0 {
        draws[0]
    } else {
        0
    }
}

/// The draws after the first one; none where there are none.
pub open spec fn later_draws(draws: Seq<u32>) -> Seq<u32> {
    if draws.len() > 0 {
        draws.drop_first()
    } else {
        draws
    }
}

/// Whether `r` is what a walk that ended in `o` returns.
pub open spec fn returns_outcome(
    r: Result<String, MarkovError>,
    o: Result<Seq<char>, (nat, Seq<char>)>,
) -> bool {
    match o {
        Ok(t) => r matches Ok(s) && s@ == t,
        Err((c, t)) => r matches Err(MarkovError::WordLimitExceeded { word_count, partial }) && word_count == c
            && partial@ == t,
    }
}

/// The views of a list of transitions.
pub open spec fn pair_views(v: Seq<(String, String)>) -> Seq<TransitionView> {
    v.map_values(|p: (String, String)| (p.0@, p.1@))
}

/// Whether the phrase table `keys`/`lists` holds exactly the transitions of `links`.
pub open spec fn table_holds(
    keys: Seq<String>,
    lists: Seq<Vec<(String, String)>>,
    links: Seq<(Seq<char>, TransitionView)>,
) -> bool {
    &&& keys.len() == lists.len()
    &&& forall|i: int, j: int| 0 <= i < j < keys.len() ==> keys[i]@ != keys[j]@
    &&& forall|i: int|
        0 <= i < keys.len() ==> pair_views(#[trigger] lists[i]@) == transitions_for(links, keys[i]@)
    &&& forall|i: int| 0 <= i < keys.len() ==> (#[trigger] lists[i]@).len() > 0
    &&& forall|k: Seq<char>|
        #![trigger transitions_for(links, k)]
        transitions_for(links, k).len() > 0 ==> exists|i: int|
            0 <= i < keys.len() && (#[trigger] keys[i]@) == k
}

/// A model of phrase transitions, built from a corpus, that generates sentences.
pub struct StringBasedMarkovTextGenerator {
    order: usize,
    sentences_starter_phrases: Vec<String>,
    phrase_keys: Vec<String>,
    phrase_transitions: Vec<Vec<(String, String)>>,
}

/// The position of `key` among `keys`, if it is there.
fn find_key(keys: &Vec<String>, key: &String) -> (r: Option<usize>)
    ensures
        r matches Some(i) ==> i < keys@.len() && keys@[i as int]@ == key@,
        r is None ==> forall|i: int| 0 <= i < keys@.len() ==> keys@[i]@ != key@,
{
    let mut i: usize = 0;
    while i < keys.len()
        invariant
            i <= keys@.len(),
            forall|j: int| 0 <= j < i ==> keys@[j]@ != key@,
        decreases keys.len() - i,
    {
        if keys[i] == *key {
            return Some(i);
        }
        i += 1;
    }
    None
}

/// Whether `w` ends a sentence.
pub fn is_sentence_terminator(w: &String) -> (r: bool)
    ensures
        r == is_terminator(w@),
{
    let s = w.as_str();
    let n = s.unicode_len();
    if n == 0 {
        return false;
    }
    let c = s.get_char(n - 1);
    c == ',' || c == '.' || c == '!'
}

/// The words of `ws` joined by single spaces.
pub fn join_phrase(ws: &Vec<String>) -> (r: String)
    ensures
        r@ == join_words(views(ws@)),
{
    let mut r = String::new();
    let mut i: usize = 0;
    while i < ws.len()
        invariant
            i <= ws@.len(),
            r@ == join_words(views(ws@).take(i as int)),
        decreases ws.len() - i,
    {
        let ghost pre = views(ws@).take(i as int);
        let ghost next = views(ws@).take(i + 1);
        assert(next.drop_last() =~= pre);
        if i > 0 {
            r.append(" ");
            proof {
                reveal_strlit(" ");
            }
        } else {
            assert(pre =~= Seq::<Seq<char>>::empty());
        }
        r.append(ws[i].as_str());
        i += 1;
        assert(r@ =~= join_words(next));
    }
    assert(views(ws@).take(i as int) =~= views(ws@));
    r
}

/// Adding a link adds its transition to its source phrase's list alone.
proof fn lemma_transitions_push(
    links: Seq<(Seq<char>, TransitionView)>,
    l: (Seq<char>, TransitionView),
    k: Seq<char>,
)
    ensures
        transitions_for(links.push(l), k) == if l.0 == k {
            transitions_for(links, k).push(l.1)
        } else {
            transitions_for(links, k)
        },
{
    assert(links.push(l).drop_last() =~= links);
}

/// Appends the transition `(next, word)` to the list of `key`, creating the entry if absent.
fn add_transition(
    keys: &mut Vec<String>,
    lists: &mut Vec<Vec<(String, String)>>,
    key: String,
    next: String,
    word: String,
    Ghost(links): Ghost<Seq<(Seq<char>, TransitionView)>>,
)
    requires
        table_holds(old(keys)@, old(lists)@, links),
    ensures
        table_holds(final(keys)@, final(lists)@, links.push((key@, (next@, word@)))),
{
    let ghost l = (key@, (next@, word@));
    let ghost new_links = links.push(l);
    assert forall|k: Seq<char>| #[trigger]
        transitions_for(new_links, k) == if l.0 == k {
            transitions_for(links, k).push(l.1)
        } else {
            transitions_for(links, k)
        } by {
        lemma_transitions_push(links, l, k);
    }
    match find_key(keys, &key) {
        Some(idx) => {
            let ghost old_lists = lists@;
            let mut list: Vec<(String, String)> = Vec::new();
            lists.set_and_swap(idx, &mut list);
            list.push((next, word));
            assert(pair_views(list@) =~= pair_views(old_lists[idx as int]@).push(l.1));
            lists.set_and_swap(idx, &mut list);
            assert forall|k: Seq<char>|
                #![trigger transitions_for(new_links, k)]
                transitions_for(new_links, k).len() > 0 implies exists|i: int|
                    0 <= i < keys@.len() && (#[trigger] keys@[i]@) == k by {
                if k != l.0 {
                    assert(transitions_for(links, k).len() > 0);
                }
            }
        },
        None => {
            let ghost old_keys = keys@;
            let ghost old_lists = lists@;
            keys.push(key);
            let mut list: Vec<(String, String)> = Vec::new();
            list.push((next, word));
            assert(pair_views(list@) =~= seq![l.1]);
            lists.push(list);
            assert(transitions_for(links, l.0).len() == 0) by {
                if transitions_for(links, l.0).len() > 0 {
                    let i = choose|i: int| 0 <= i < old_keys.len() && (#[trigger] old_keys[i]@) == l.0;
                    assert(old_keys[i]@ != l.0);
                }
            }
            assert(transitions_for(links, l.0).push(l.1) =~= seq![l.1]);
            assert forall|i: int|
                0 <= i < keys@.len() implies pair_views(#[trigger] lists@[i]@) == transitions_for(new_links, keys@[i]@) by {
                if i < old_keys.len() {
                    assert(old_keys[i]@ != l.0);
                }
            }
            assert forall|k: Seq<char>|
                #![trigger transitions_for(new_links, k)]
                transitions_for(new_links, k).len() > 0 implies exists|i: int|
                    0 <= i < keys@.len() && (#[trigger] keys@[i]@) == k by {
                if k != l.0 {
                    assert(transitions_for(links, k).len() > 0);
                    let i = choose|i: int| 0 <= i < old_keys.len() && (#[trigger] old_keys[i]@) == k;
                    assert(keys@[i]@ == k);
                } else {
                    assert(keys@[old_keys.len() as int]@ == k);
                }
            }
        },
    }
}

impl StringBasedMarkovTextGenerator {
    /// The phrase length of the model.
    pub closed spec fn spec_order(&self) -> nat {
        self.order as nat
    }

    /// The phrases that may begin a sentence, with repeats.
    pub closed spec fn starters(&self) -> Seq<Seq<char>> {
        views(self.sentences_starter_phrases@)
    }

    /// Whether `key` has transitions.
    pub closed spec fn has_key(&self, key: Seq<char>) -> bool {
        exists|i: int| 0 <= i < self.phrase_keys@.len() && (#[trigger] self.phrase_keys@[i])@ == key
    }

    /// The transitions recorded for `key`; empty where it has none.
    pub closed spec fn transitions(&self, key: Seq<char>) -> Seq<TransitionView> {
        if self.has_key(key) {
            let i = choose|i: int|
                0 <= i < self.phrase_keys@.len() && (#[trigger] self.phrase_keys@[i])@ == key;
            pair_views(self.phrase_transitions@[i]@)
        } else {
            Seq::empty()
        }
    }

    /// The phrase table is consistent: one entry per key, none empty.
    pub closed spec fn wf(&self) -> bool {
        &&& self.phrase_keys@.len() == self.phrase_transitions@.len()
        &&& forall|i: int, j: int|
            0 <= i < j < self.phrase_keys@.len() ==> self.phrase_keys@[i]@
                != self.phrase_keys@[j]@
        &&& forall|i: int|
            0 <= i < self.phrase_keys@.len() ==> (#[trigger] self.phrase_transitions@[i]@).len()
                > 0
    }

    /// The model is the one that a scan of `ws` with phrase length `order` records.
    pub open spec fn holds_scan(&self, ws: Seq<Seq<char>>, order: nat) -> bool {
        &&& self.wf()
        &&& self.spec_order() == order
        &&& self.starters() == scan(ws, order).starters
        &&& forall|k: Seq<char>|
            #![trigger self.transitions(k)]
            self.transitions(k) == transitions_for(scan(ws, order).links, k)
    }

    /// The model holds no phrase.
    pub open spec fn is_empty_model(&self) -> bool {
        &&& self.wf()
        &&& self.starters().len() == 0
        &&& forall|k: Seq<char>| !self.has_key(k)
    }

    /// An empty model.
    pub fn new() -> (r: StringBasedMarkovTextGenerator)
        ensures
            r.is_empty_model(),
            r.spec_order() == 0,
    {
        StringBasedMarkovTextGenerator {
            order: 0,
            sentences_starter_phrases: Vec::new(),
            phrase_keys: Vec::new(),
            phrase_transitions: Vec::new(),
        }
    }

    /// Replaces the model with the one that a scan of `ws` records, with phrase length
    /// `self.order`; fails without a model where that length is zero.
    pub fn analyze_words(&mut self, ws: &Vec<String>) -> (r: Result<(), MarkovError>)
        ensures
            old(self).spec_order() == 0 ==> r == Err::<(), MarkovError>(
                MarkovError::InvalidBufferSize,
            ) && final(self).is_empty_model() && final(self).spec_order() == 0,
            old(self).spec_order() > 0 ==> r is Ok && final(self).holds_scan(
                views(ws@),
                old(self).spec_order(),
            ),
    {
        let order = self.order;
        let mut window: CyclicArray<String> = match CyclicArray::new(order) {
            Ok(a) => a,
            Err(e) => {
                self.sentences_starter_phrases = Vec::new();
                self.phrase_keys = Vec::new();
                self.phrase_transitions = Vec::new();
                return Err(e);
            },
        };
        let ghost all = views(ws@);
        let ghost n = order as int;
        let mut count: usize = 0;
        let mut prev: Option<String> = None;
        let mut starters: Vec<String> = Vec::new();
        let mut keys: Vec<String> = Vec::new();
        let mut lists: Vec<Vec<(String, String)>> = Vec::new();
        let mut i: usize = 0;
        assert(all.take(0) =~= Seq::<Seq<char>>::empty());
        assert(views(starters@) =~= Seq::<Seq<char>>::empty());
        while i < ws.len()
            invariant
                n == order,
                order > 0,
                window.wf(),
                window.capacity() == order,
                all == views(ws@),
                i <= ws@.len(),
                count <= i,
                count == scan(all.take(i as int), order as nat).seg.len(),
                forall|t: int|
                    0 <= t < count && count - n <= t ==> (#[trigger] window@[slot_of(t, n)])@
                        == scan(all.take(i as int), order as nat).seg[t],
                match prev {
                    Some(p) => scan(all.take(i as int), order as nat).prev == Some(p@),
                    None => scan(all.take(i as int), order as nat).prev is None,
                },
                views(starters@) == scan(all.take(i as int), order as nat).starters,
                table_holds(keys@, lists@, scan(all.take(i as int), order as nat).links),
            decreases ws.len() - i,
        {
            let ghost st = scan(all.take(i as int), order as nat);
            let ghost st2 = scan(all.take(i + 1), order as nat);
            assert(all.take(i + 1).drop_last() =~= all.take(i as int));
            let w = ws[i].clone();
            assert(st2 == crate::model::scan_step(st, w@, order as nat));
            let ghost seg2 = st.seg.push(w@);
            let ghost old_window = window@;
            window.write(count, w.clone());
            assert forall|t: int|
                0 <= t < count + 1 && count + 1 - n <= t implies (#[trigger] window@[slot_of(
                    t,
                    n,
                )])@ == seg2[t] by {
                if t < count {
                    lemma_slots_distinct(t, count as int, n);
                }
            }
            count += 1;
            let term = is_sentence_terminator(&w);
            if count < order {
                if term {
                    prev = None;
                    count = 0;
                }
            } else {
                let phrase_words = window.create_offset_array(count);
                assert(views(phrase_words@) =~= seg2.subrange(count - n, count as int)) by {
                    assert forall|j: int| 0 <= j < n implies views(phrase_words@)[j] == seg2[count - n + j] by {
                        lemma_slot_back(count - n + j, n);
                        assert(crate::cyclic_array::offset_read(window@, count as int)[j] == window@[slot_of(count - n + j, n)]);
                    }
                }
                let phrase = join_phrase(&phrase_words);
                match prev {
                    None => {
                        starters.push(phrase.clone());
                        assert(views(starters@) =~= st.starters.push(phrase@));
                    },
                    Some(q) => {
                        add_transition(&mut keys, &mut lists, q, phrase.clone(), w.clone(), Ghost(st.links));
                    },
                }
                prev = Some(phrase);
                if term {
                    prev = None;
                    count = 0;
                }
            }
            i += 1;
        }
        assert(all.take(ws@.len() as int) =~= all);
        self.sentences_starter_phrases = starters;
        self.phrase_keys = keys;
        self.phrase_transitions = lists;
        proof {
            self.lemma_table_view(scan(all, order as nat).links);
        }
        Ok(())
    }

    /// The model's transitions are those of `links` where its table holds them.
    proof fn lemma_table_view(&self, links: Seq<(Seq<char>, TransitionView)>)
        requires
            table_holds(self.phrase_keys@, self.phrase_transitions@, links),
        ensures
            self.wf(),
            forall|k: Seq<char>| #![trigger self.transitions(k)] self.transitions(k) == transitions_for(links, k),
    {
        assert forall|k: Seq<char>| #![trigger self.transitions(k)] self.transitions(k) == transitions_for(links, k) by {
            if !self.has_key(k) {
                if transitions_for(links, k).len() > 0 {
                    let i = choose|i: int| 0 <= i < self.phrase_keys@.len() && (#[trigger] self.phrase_keys@[i]@) == k;
                    assert(self.phrase_keys@[i]@ == k);
                }
                assert(transitions_for(links, k) =~= Seq::<TransitionView>::empty());
            }
        }
    }
    /// Drops every phrase; the order stays.
    fn clear(&mut self)
        ensures
            final(self).is_empty_model(),
            final(self).spec_order() == old(self).spec_order(),
    {
        self.sentences_starter_phrases = Vec::new();
        self.phrase_keys = Vec::new();
        self.phrase_transitions = Vec::new();
    }

    /// Keeps a scanned model that can start and extend a sentence, and drops any other.
    fn check_model(&mut self, Ghost(ws): Ghost<Seq<Seq<char>>>) -> (r: Result<(), MarkovError>)
        requires
            old(self).spec_order() > 0,
            old(self).holds_scan(ws, old(self).spec_order()),
        ensures
            r == build_outcome(ws, old(self).spec_order()),
            final(self).spec_order() == old(self).spec_order(),
            r is Ok ==> final(self).holds_scan(ws, old(self).spec_order()),
            r is Err ==> final(self).is_empty_model(),
    {
        let ghost links = scan(ws, self.order as nat).links;
        if self.sentences_starter_phrases.len() == 0 {
            self.clear();
            return Err(MarkovError::NoStarterPhrases);
        }
        if self.phrase_keys.len() == 0 {
            proof {
                if links.len() > 0 {
                    let k = links.last().0;
                    assert(transitions_for(links, k).len() > 0);
                    assert(self.transitions(k).len() > 0);
                }
            }
            self.clear();
            return Err(MarkovError::NoPhrasesFound);
        }
        proof {
            let k = self.phrase_keys@[0]@;
            assert(self.has_key(k));
            if links.len() == 0 {
                assert(self.transitions(k).len() > 0);
            }
        }
        Ok(())
    }

    /// Builds the model of `order` from an already normalised text.
    pub fn build_from_normalized(&mut self, text: &str, order: usize) -> (r: Result<(), MarkovError>)
        ensures
            r == build_outcome(words(text@), order as nat),
            final(self).spec_order() == order,
            r is Ok ==> final(self).holds_scan(words(text@), order as nat),
            r is Err ==> final(self).is_empty_model(),
    {
        self.order = order;
        let ws = tokenize(text);
        match self.analyze_words(&ws) {
            Err(e) => Err(e),
            Ok(()) => self.check_model(Ghost(views(ws@))),
        }
    }

    /// Replaces the model with the one that the normalised `corpus` gives with phrase
    /// length `self.order`.
    pub fn analyze_corpus(&mut self, corpus: &str) -> (r: Result<(), MarkovError>)
        ensures
            final(self).spec_order() == old(self).spec_order(),
            old(self).spec_order() == 0 ==> r == Err::<(), MarkovError>(
                MarkovError::InvalidBufferSize,
            ) && final(self).is_empty_model(),
            old(self).spec_order() > 0 ==> r is Ok && final(self).holds_scan(
                words(normalized(corpus@)),
                old(self).spec_order(),
            ),
    {
        let text = normalize(corpus);
        let ws = tokenize(text.as_str());
        self.analyze_words(&ws)
    }

    /// Builds the model of `order` from a raw corpus, replacing any earlier one.
    pub fn build_markov_model(&mut self, corpus: &str, order: usize) -> (r: Result<(), MarkovError>)
        ensures
            final(self).spec_order() == order,
            r is Ok ==> final(self).holds_scan(words(normalized(corpus@)), order as nat),
            r is Err ==> final(self).is_empty_model(),
            r == build_outcome(words(normalized(corpus@)), order as nat),
    {
        self.order = order;
        match self.analyze_corpus(corpus) {
            Err(e) => Err(e),
            Ok(()) => self.check_model(Ghost(words(normalized(corpus@)))),
        }
    }

    /// The end of a walk from `phrase`, with `text` written and `count` words counted,
    /// where `draws` picks each transition: the text, or the count and text at the limit.
    pub open spec fn walk_from(
        &self,
        phrase: Seq<char>,
        text: Seq<char>,
        count: nat,
        draws: Seq<u32>,
    ) -> Result<Seq<char>, (nat, Seq<char>)>
        decreases MAX_WORD_COUNT - count,
    {
        let ts = self.transitions(phrase);
        if ts.len() == 0 {
            Ok(text)
        } else if count + 1 >= MAX_WORD_COUNT {
            Err((count + 1, text))
        } else {
            let t = ts[(first_draw(draws) as nat % ts.len()) as int];
            self.walk_from(t.0, text + seq![' '] + t.1, count + 1, later_draws(draws))
        }
    }

    /// The starter phrase that the draw `d` picks.
    pub open spec fn starter_for(&self, d: u32) -> Seq<char> {
        self.starters()[(d as nat % self.starters().len()) as int]
    }

    /// The end of the walk in which `draws` picks the starter phrase and then each transition.
    pub open spec fn generated(&self, draws: Seq<u32>) -> Result<Seq<char>, (nat, Seq<char>)> {
        let p = self.starter_for(first_draw(draws));
        self.walk_from(p, p, self.spec_order(), later_draws(draws))
    }

    /// The transitions of `phrase`: the index of its entry, if it has one.
    fn find_transitions(&self, phrase: &String) -> (r: Option<usize>)
        requires
            self.wf(),
        ensures
            r is None ==> self.transitions(phrase@).len() == 0,
            r matches Some(i) ==> i < self.phrase_transitions@.len() && pair_views(
                self.phrase_transitions@[i as int]@,
            ) == self.transitions(phrase@) && self.transitions(phrase@).len() > 0,
    {
        let r = find_key(&self.phrase_keys, phrase);
        proof {
            if let Some(i) = r {
                assert(self.has_key(phrase@));
                let j = choose|j: int|
                    0 <= j < self.phrase_keys@.len() && (#[trigger] self.phrase_keys@[j])@
                        == phrase@;
                if i != j {
                    if i < j {
                        assert(self.phrase_keys@[i as int]@ != self.phrase_keys@[j]@);
                    } else {
                        assert(self.phrase_keys@[j]@ != self.phrase_keys@[i as int]@);
                    }
                }
            }
        }
        r
    }

    /// A sentence made by a random walk: a starter phrase, then one transition after
    /// another until a phrase has none; fails at the word limit, or where no model was built.
    pub fn generate_sentence<R: RandomNumberGenerator>(&self, random: R) -> (r: Result<
        String,
        MarkovError,
    >)
        requires
            self.wf(),
            self.spec_order() < usize::MAX,
        ensures
            self.starters().len() == 0 ==> r == Err::<String, MarkovError>(MarkovError::NoModel),
            self.starters().len() > 0 ==> exists|draws: Seq<u32>|
                returns_outcome(r, #[trigger] self.generated(draws)),
    {
        let mut random = random;
        let n = self.sentences_starter_phrases.len();
        if n == 0 {
            return Err(MarkovError::NoModel);
        }
        let d0 = random.next_u32();
        let idx = (d0 as usize) % n;
        let mut phrase = self.sentences_starter_phrases[idx].clone();
        let mut text = phrase.clone();
        let mut word_count = self.order;
        let ghost p0 = phrase@;
        let ghost mut drawn: Seq<u32> = Seq::empty();
        assert(p0 == self.starter_for(d0));
        loop
            invariant
                self.wf(),
                self.starters().len() > 0,
                word_count < usize::MAX,
                word_count < MAX_WORD_COUNT || word_count == self.order,
                p0 == self.starter_for(d0),
                forall|f: Seq<u32>|
                    #![trigger drawn + f]
                    self.walk_from(p0, p0, self.spec_order(), drawn + f) == self.walk_from(
                        phrase@,
                        text@,
                        word_count as nat,
                        f,
                    ),
            decreases MAX_WORD_COUNT - word_count,
        {
            match self.find_transitions(&phrase) {
                None => {
                    let ghost draws = seq![d0] + drawn;
                    assert(later_draws(draws) =~= drawn + Seq::<u32>::empty());
                    assert(returns_outcome(Ok(text), self.generated(draws)));
                    return Ok(text);
                },
                Some(i) => {
                    if word_count >= MAX_WORD_COUNT - 1 {
                        let ghost draws = seq![d0] + drawn;
                        assert(later_draws(draws) =~= drawn + Seq::<u32>::empty());
                        let r = Err(
                            MarkovError::WordLimitExceeded { word_count: word_count + 1, partial: text },
                        );
                        assert(returns_outcome(r, self.generated(draws)));
                        return r;
                    }
                    let d = random.next_u32();
                    let list = &self.phrase_transitions[i];
                    let k = (d as usize) % list.len();
                    let ghost old_phrase = phrase@;
                    let ghost old_text = text@;
                    phrase = list[k].0.clone();
                    text.append(" ");
                    text.append(list[k].1.as_str());
                    proof {
                        reveal_strlit(" ");
                        assert(text@ =~= old_text + seq![' '] + list@[k as int].1@);
                        assert forall|f: Seq<u32>|
                            #![trigger drawn.push(d) + f]
                            self.walk_from(p0, p0, self.spec_order(), drawn.push(d) + f)
                                == self.walk_from(phrase@, text@, (word_count + 1) as nat, f) by {
                            assert(drawn.push(d) + f =~= drawn + (seq![d] + f));
                            assert(later_draws(seq![d] + f) =~= f);
                        }
                        drawn = drawn.push(d);
                    }
                    word_count += 1;
                },
            }
        }
    }
    /// The sentence that the walk makes where `draws` picks the starter phrase and then
    /// each transition, in order; a draw past the end counts as zero.
    pub fn generate_sentence_from_draws(&self, draws: &Vec<u32>) -> (r: Result<String, MarkovError>)
        requires
            self.wf(),
            self.spec_order() < usize::MAX,
        ensures
            self.starters().len() == 0 ==> r == Err::<String, MarkovError>(MarkovError::NoModel),
            self.starters().len() > 0 ==> returns_outcome(r, self.generated(draws@)),
    {
        let n = self.sentences_starter_phrases.len();
        if n == 0 {
            return Err(MarkovError::NoModel);
        }
        let d0 = if draws.len() > 0 {
            draws[0]
        } else {
            0
        };
        let idx = (d0 as usize) % n;
        let mut phrase = self.sentences_starter_phrases[idx].clone();
        let mut text = phrase.clone();
        let mut word_count = self.order;
        let mut k: usize = if draws.len() > 0 {
            1
        } else {
            0
        };
        assert(later_draws(draws@) =~= draws@.subrange(k as int, draws@.len() as int));
        loop
            invariant
                self.wf(),
                self.starters().len() > 0,
                word_count < usize::MAX,
                word_count < MAX_WORD_COUNT || word_count == self.order,
                k <= draws@.len(),
                self.generated(draws@) == self.walk_from(
                    phrase@,
                    text@,
                    word_count as nat,
                    draws@.subrange(k as int, draws@.len() as int),
                ),
            decreases MAX_WORD_COUNT - word_count,
        {
            let ghost rest = draws@.subrange(k as int, draws@.len() as int);
            match self.find_transitions(&phrase) {
                None => {
                    return Ok(text);
                },
                Some(i) => {
                    if word_count >= MAX_WORD_COUNT - 1 {
                        return Err(
                            MarkovError::WordLimitExceeded { word_count: word_count + 1, partial: text },
                        );
                    }
                    let d = if k < draws.len() {
                        draws[k]
                    } else {
                        0
                    };
                    assert(d == first_draw(rest));
                    let list = &self.phrase_transitions[i];
                    let j = (d as usize) % list.len();
                    let ghost old_text = text@;
                    phrase = list[j].0.clone();
                    text.append(" ");
                    text.append(list[j].1.as_str());
                    proof {
                        reveal_strlit(" ");
                        assert(text@ =~= old_text + seq![' '] + list@[j as int].1@);
                    }
                    if k < draws.len() {
                        k += 1;
                    }
                    assert(later_draws(rest) =~= draws@.subrange(k as int, draws@.len() as int));
                    word_count += 1;
                },
            }
        }
    }

    /// The phrase length of the model.
    pub fn order(&self) -> (r: usize)
        ensures
            r == self.spec_order(),
    {
        self.order
    }

    /// The phrases that may begin a sentence, with repeats.
    pub fn starter_phrases(&self) -> (r: &Vec<String>)
        ensures
            views(r@) == self.starters(),
    {
        &self.sentences_starter_phrases
    }

    /// The transitions recorded for `phrase`, where it has any.
    pub fn transitions_for_phrase(&self, phrase: &String) -> (r: Option<&Vec<(String, String)>>)
        requires
            self.wf(),
        ensures
            r is None <==> self.transitions(phrase@).len() == 0,
            r matches Some(v) ==> pair_views(v@) == self.transitions(phrase@),
    {
        match self.find_transitions(phrase) {
            None => None,
            Some(i) => Some(&self.phrase_transitions[i]),
        }
    }
}

/// In a built model, every phrase with an entry in the transition table has at least one
/// transition.
pub proof fn lemma_transition_lists_nonempty(
    m: &StringBasedMarkovTextGenerator,
    ws: Seq<Seq<char>>,
    order: nat,
    k: Seq<char>,
)
    requires
        m.holds_scan(ws, order),
        m.has_key(k),
    ensures
        m.transitions(k).len() > 0,
{
    let i = choose|i: int| 0 <= i < m.phrase_keys@.len() && (#[trigger] m.phrase_keys@[i])@ == k;
    assert(m.phrase_transitions@[i]@.len() > 0);
}

/// A walk from a starter phrase that has no transitions returns that phrase unchanged.
pub proof fn lemma_dead_start(m: &StringBasedMarkovTextGenerator, draws: Seq<u32>)
    requires
        m.starters().len() > 0,
        m.transitions(m.starter_for(first_draw(draws))).len() == 0,
    ensures
        m.generated(draws) == Ok::<Seq<char>, (nat, Seq<char>)>(m.starter_for(first_draw(draws))),
{
}

/// Where every phrase reached has transitions, a walk runs until its counter reaches
/// the word limit (or one past the order, where that is larger).
pub proof fn lemma_walk_hits_limit(
    m: &StringBasedMarkovTextGenerator,
    phrase: Seq<char>,
    text: Seq<char>,
    count: nat,
    draws: Seq<u32>,
)
    requires
        m.transitions(phrase).len() > 0,
        forall|k: Seq<char>, j: int|
            0 <= j < m.transitions(k).len() ==> m.transitions(
                (#[trigger] m.transitions(k)[j]).0,
            ).len() > 0,
    ensures
        m.walk_from(phrase, text, count, draws) matches Err((c, _)) && c == if count + 1
            >= MAX_WORD_COUNT {
            count + 1
        } else {
            MAX_WORD_COUNT as nat
        },
    decreases MAX_WORD_COUNT - count,
{
    let ts = m.transitions(phrase);
    if count + 1 < MAX_WORD_COUNT {
        let t = ts[(first_draw(draws) as nat % ts.len()) as int];
        lemma_walk_hits_limit(m, t.0, text + seq![' '] + t.1, count + 1, later_draws(draws));
    }
}

/// Where the walk can always go on, generation fails at the word limit.
pub proof fn lemma_cycle_hits_limit(m: &StringBasedMarkovTextGenerator, draws: Seq<u32>)
    requires
        m.starters().len() > 0,
        m.spec_order() + 1 < MAX_WORD_COUNT,
        m.transitions(m.starter_for(first_draw(draws))).len() > 0,
        forall|k: Seq<char>, j: int|
            0 <= j < m.transitions(k).len() ==> m.transitions(
                (#[trigger] m.transitions(k)[j]).0,
            ).len() > 0,
    ensures
        m.generated(draws) matches Err((c, _)) && c == MAX_WORD_COUNT,
{
    let p = m.starter_for(first_draw(draws));
    lemma_walk_hits_limit(m, p, p, m.spec_order(), later_draws(draws));
}

/// Where each transition leads to a phrase of lower rank, a walk from `phrase` ends
/// before the word limit when its count plus the rank of `phrase` stays below it.
pub proof fn lemma_walk_ends(
    m: &StringBasedMarkovTextGenerator,
    rank: spec_fn(Seq<char>) -> nat,
    phrase: Seq<char>,
    text: Seq<char>,
    count: nat,
    draws: Seq<u32>,
)
    requires
        count + rank(phrase) < MAX_WORD_COUNT,
        forall|k: Seq<char>, j: int|
            0 <= j < m.transitions(k).len() ==> rank((#[trigger] m.transitions(k)[j]).0) < rank(
                k,
            ),
    ensures
        m.walk_from(phrase, text, count, draws) is Ok,
    decreases rank(phrase),
{
    let ts = m.transitions(phrase);
    if ts.len() > 0 {
        let j = (first_draw(draws) as nat % ts.len()) as int;
        let t = ts[j];
        assert(rank(m.transitions(phrase)[j].0) < rank(phrase));
        lemma_walk_ends(m, rank, t.0, text + seq![' '] + t.1, count + 1, later_draws(draws));
    }
}

/// With an acyclic transition graph, ranked so that every transition lowers the rank,
/// generation ends without reaching the word limit when the order plus the starter's
/// rank stays below it.
pub proof fn lemma_acyclic_ends(
    m: &StringBasedMarkovTextGenerator,
    rank: spec_fn(Seq<char>) -> nat,
    draws: Seq<u32>,
)
    requires
        m.starters().len() > 0,
        m.spec_order() + rank(m.starter_for(first_draw(draws))) < MAX_WORD_COUNT,
        forall|k: Seq<char>, j: int|
            0 <= j < m.transitions(k).len() ==> rank((#[trigger] m.transitions(k)[j]).0) < rank(
                k,
            ),
    ensures
        m.generated(draws) is Ok,
{
    let p = m.starter_for(first_draw(draws));
    lemma_walk_ends(m, rank, p, p, m.spec_order(), later_draws(draws));
}

} // verus!
