use vstd::prelude::*;
use vstd::string::*;

verus! {

/// Matches bracketed annotations, quotation marks, parentheses, apostrophes
/// and underscores.
pub const ANNOTATION_PATTERN: &'static str = "\\[.+?\\]|\"|\\)|\\(|'|“|”|’|_";

/// Matches a run of whitespace.
pub const WHITESPACE_PATTERN: &'static str = "\\s+";

/// What a regular expression search and replace makes of `text`.
pub uninterp spec fn regex_replaced(pattern: Seq<char>, text: Seq<char>, rep: Seq<char>) -> Seq<char>;

/// Relies on regex::Regex::new, which fails only where `pattern` does not compile (the
/// two patterns of this module are valid syntax), and on regex::Regex::replace_all,
/// whose result depends on its arguments alone.
#[verifier::external_body]
fn regex_replace_all(pattern: &str, text: &str, rep: &str) -> (r: Option<String>)
    ensures
        pattern@ == ANNOTATION_PATTERN@ || pattern@ == WHITESPACE_PATTERN@ ==> r is Some,
        r matches Some(t) ==> t@ == regex_replaced(pattern@, text@, rep@),
{
    regex::Regex::new(pattern).ok().map(|re| re.replace_all(text, rep).into_owned())
}

/// `s` with every newline turned into a space.
pub open spec fn newlines_to_spaces(s: Seq<char>) -> Seq<char> {
    s.map_values(|c: char| if c == '\n' { ' ' } else { c })
}

/// Relies on str::replace: each '\n' becomes a space and every other character stays.
#[verifier::external_body]
fn replace_newlines(s: &str) -> (r: String)
    ensures
        r@ == newlines_to_spaces(s@),
{
    s.replace('\n', " ")
}

/// Relies on str::chars: the characters of `s`, in order.
#[verifier::external_body]
fn chars_of(s: &str) -> (r: Vec<char>)
    ensures
        r@ == s@,
{
    s.chars().collect()
}

/// Relies on String's FromIterator<char>: the string of the characters of `v`.
#[verifier::external_body]
fn string_of(v: &Vec<char>) -> (r: String)
    ensures
        r@ == v@,
{
    v.iter().collect()
}

/// The normalised form of a raw corpus.
pub open spec fn normalized(corpus: Seq<char>) -> Seq<char> {
    regex_replaced(
        WHITESPACE_PATTERN@,
        regex_replaced(ANNOTATION_PATTERN@, newlines_to_spaces(corpus), ""@),
        " "@,
    )
}

/// Turns newlines into spaces, removes annotations and quoting characters, and
/// collapses whitespace runs into one space.
pub fn normalize(corpus: &str) -> (r: String)
    ensures
        r@ == normalized(corpus@),
{
    let spaced = replace_newlines(corpus);
    let stripped = match regex_replace_all(ANNOTATION_PATTERN, spaced.as_str(), "") {
        Some(s) => s,
        None => {
            proof {
                assert(false);
            }
            String::new()
        },
    };
    match regex_replace_all(WHITESPACE_PATTERN, stripped.as_str(), " ") {
        Some(s) => s,
        None => {
            proof {
                assert(false);
            }
            String::new()
        },
    }
}

/// Unicode white space.
pub open spec fn is_space(c: char) -> bool {
    ('\u{9}' <= c && c <= '\u{d}') || c == ' ' || c == '\u{85}' || c == '\u{a0}' || c
        == '\u{1680}' || ('\u{2000}' <= c && c <= '\u{200a}') || c == '\u{2028}' || c
        == '\u{2029}' || c == '\u{202f}' || c == '\u{205f}' || c == '\u{3000}'
}

/// Whether `c` is Unicode white space.
pub fn is_space_char(c: char) -> (r: bool)
    ensures
        r == is_space(c),
{
    ('\u{9}' <= c && c <= '\u{d}') || c == ' ' || c == '\u{85}' || c == '\u{a0}' || c
        == '\u{1680}' || ('\u{2000}' <= c && c <= '\u{200a}') || c == '\u{2028}' || c
        == '\u{2029}' || c == '\u{202f}' || c == '\u{205f}' || c == '\u{3000}'
}

/// The words in `s` after `cur`, a word begun, and `done`, the words ended so far.
pub open spec fn words_from(s: Seq<char>, cur: Seq<char>, done: Seq<Seq<char>>) -> Seq<
    Seq<char>,
>
    decreases s.len(),
{
    let flushed = if cur.len() > 0 {
        done.push(cur)
    } else {
        done
    };
    if s.len() == 0 {
        flushed
    } else if is_space(s[0]) {
        words_from(s.drop_first(), Seq::empty(), flushed)
    } else {
        words_from(s.drop_first(), cur.push(s[0]), done)
    }
}

/// The maximal runs of non-space characters of `s`, in order.
pub open spec fn words(s: Seq<char>) -> Seq<Seq<char>> {
    words_from(s, Seq::empty(), Seq::empty())
}

/// The views of a sequence of strings.
pub open spec fn views(v: Seq<String>) -> Seq<Seq<char>> {
    v.map_values(|w: String| w@)
}

/// Splits `s` into its words; no word is empty.
pub fn tokenize(s: &str) -> (r: Vec<String>)
    ensures
        views(r@) == words(s@),
{
    let chars = chars_of(s);
    let mut result: Vec<String> = Vec::new();
    let mut cur: Vec<char> = Vec::new();
    let mut i: usize = 0;
    assert(chars@.subrange(0, chars@.len() as int) =~= s@);
    assert(views(result@) =~= Seq::<Seq<char>>::empty());
    assert(cur@ =~= Seq::<char>::empty());
    while i < chars.len()
        invariant
            chars@ == s@,
            i <= chars@.len(),
            words_from(chars@.subrange(i as int, chars@.len() as int), cur@, views(result@))
                == words(s@),
        decreases chars.len() - i,
    {
        let c = chars[i];
        let ghost rest = chars@.subrange(i as int, chars@.len() as int);
        assert(rest.drop_first() =~= chars@.subrange(i + 1, chars@.len() as int));
        if is_space_char(c) {
            if cur.len() > 0 {
                let ghost before = result@;
                let w = string_of(&cur);
                result.push(w);
                assert(views(result@) =~= views(before).push(cur@));
            }
            cur = Vec::new();
        } else {
            cur.push(c);
        }
        i += 1;
    }
    let ghost before = result@;
    if cur.len() > 0 {
        let w = string_of(&cur);
        result.push(w);
        assert(views(result@) =~= views(before).push(cur@));
    }
    assert(chars@.subrange(i as int, chars@.len() as int).len() == 0);
    result
}

} // verus!
