use vstd::prelude::*;

verus! {

/// The characters that end a sentence.
pub open spec fn is_delimiter(c: char) -> bool {
    c == ',' || c == '.' || c == '!'
}

/// A word ends a sentence when its last character is a delimiter.
pub open spec fn is_terminator(w: Seq<char>) -> bool {
    w.len() > 0 && is_delimiter(w.last())
}

/// Words joined by single spaces.
pub open spec fn join_words(ws: Seq<Seq<char>>) -> Seq<char>
    decreases ws.len(),
{
    if ws.len() == 0 {
        Seq::empty()
    } else if ws.len() == 1 {
        ws[0]
    } else {
        join_words(ws.drop_last()) + seq![' '] + ws.last()
    }
}

/// A transition from a phrase: the phrase that follows and the word appended.
pub type TransitionView = (Seq<char>, Seq<char>);

/// The state of a scan over a word stream.
pub struct Scan {
    /// The words placed since the last sentence end.
    pub seg: Seq<Seq<char>>,
    /// The phrase formed last in the current sentence.
    pub prev: Option<Seq<char>>,
    /// The phrases that began a sentence, in order.
    pub starters: Seq<Seq<char>>,
    /// Each observed transition with its source phrase, in order.
    pub links: Seq<(Seq<char>, TransitionView)>,
}

pub open spec fn empty_scan() -> Scan {
    Scan { seg: Seq::empty(), prev: None, starters: Seq::empty(), links: Seq::empty() }
}

/// The scan after one more word.
pub open spec fn scan_step(st: Scan, w: Seq<char>, order: nat) -> Scan {
    let seg = st.seg.push(w);
    if seg.len() < order {
        if is_terminator(w) {
            Scan { seg: Seq::empty(), prev: None, ..st }
        } else {
            Scan { seg, ..st }
        }
    } else {
        let p = join_words(seg.subrange(seg.len() - order, seg.len() as int));
        let starters = if st.prev is None {
            st.starters.push(p)
        } else {
            st.starters
        };
        let links = match st.prev {
            Some(q) => st.links.push((q, (p, w))),
            None => st.links,
        };
        if is_terminator(w) {
            Scan { seg: Seq::empty(), prev: None, starters, links }
        } else {
            Scan { seg, prev: Some(p), starters, links }
        }
    }
}

/// The scan over a whole word stream.
pub open spec fn scan(words: Seq<Seq<char>>, order: nat) -> Scan
    decreases words.len(),
{
    if words.len() == 0 {
        empty_scan()
    } else {
        scan_step(scan(words.drop_last(), order), words.last(), order)
    }
}

/// The transitions recorded for `key`, in the order observed.
pub open spec fn transitions_for(links: Seq<(Seq<char>, TransitionView)>, key: Seq<char>) -> Seq<
    TransitionView,
>
    decreases links.len(),
{
    if links.len() == 0 {
        Seq::empty()
    } else {
        let rest = transitions_for(links.drop_last(), key);
        if links.last().0 == key {
            rest.push(links.last().1)
        } else {
            rest
        }
    }
}

/// What building a model of `order` over `words` returns.
pub open spec fn build_outcome(words: Seq<Seq<char>>, order: nat) -> Result<(), crate::error::MarkovError> {
    if order == 0 {
        Err(crate::error::MarkovError::InvalidBufferSize)
    } else if scan(words, order).starters.len() == 0 {
        Err(crate::error::MarkovError::NoStarterPhrases)
    } else if scan(words, order).links.len() == 0 {
        Err(crate::error::MarkovError::NoPhrasesFound)
    } else {
        Ok(())
    }
}

/// A sentence ends among the `order - 1` words from position `j`.
pub open spec fn ends_within(ws: Seq<Seq<char>>, j: int, order: nat) -> bool {
    exists|m: int| j <= m < j + order - 1 && is_terminator(#[trigger] ws[m])
}

/// Every run of `order` consecutive words has a sentence end among its first `order - 1`.
pub open spec fn sentences_shorter_than(ws: Seq<Seq<char>>, order: nat) -> bool {
    forall|j: int| 0 <= j && j + order <= ws.len() ==> #[trigger] ends_within(ws, j, order)
}

/// Over such words the scan never fills a window: the current sentence is a run of
/// words without an end, shorter than `order`, and no starter was recorded.
proof fn lemma_short_scan(ws: Seq<Seq<char>>, order: nat, i: int)
    requires
        order >= 1,
        0 <= i <= ws.len(),
        sentences_shorter_than(ws, order),
    ensures
        scan(ws.take(i), order).starters.len() == 0,
        scan(ws.take(i), order).links.len() == 0,
        scan(ws.take(i), order).seg.len() < order,
        scan(ws.take(i), order).seg.len() <= i,
        forall|t: int|
            0 <= t < scan(ws.take(i), order).seg.len() ==> scan(ws.take(i), order).seg[t] == ws[i
                - scan(ws.take(i), order).seg.len() + t] && !is_terminator(ws[i - scan(ws.take(i), order).seg.len() + t]),
    decreases i,
{
    if i > 0 {
        lemma_short_scan(ws, order, i - 1);
        assert(ws.take(i).drop_last() =~= ws.take(i - 1));
        let st = scan(ws.take(i - 1), order);
        let w = ws[i - 1];
        if st.seg.len() + 1 >= order {
            let j = i - order;
            assert(ends_within(ws, j, order));
            let m = choose|m: int| j <= m < j + order - 1 && is_terminator(#[trigger] ws[m]);
            let t = m - (i - 1 - st.seg.len());
            assert(st.seg[t] == ws[m]);
        }
    }
}

/// Where no sentence is as long as the order, building fails for want of a starter phrase.
pub proof fn lemma_short_sentences_no_starter(ws: Seq<Seq<char>>, order: nat)
    requires
        order >= 1,
        sentences_shorter_than(ws, order),
    ensures
        build_outcome(ws, order) == Err::<(), crate::error::MarkovError>(
            crate::error::MarkovError::NoStarterPhrases,
        ),
{
    lemma_short_scan(ws, order, ws.len() as int);
    assert(ws.take(ws.len() as int) =~= ws);
}

} // verus!
