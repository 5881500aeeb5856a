//! From a query to the terms that it searches for: lower-case words, stemmed and counted.

use crate::error::Error;
use rust_stemmers::{Algorithm, Stemmer};
use vstd::prelude::*;
use vstd::string::StrSliceExecFns;
use vstd::utf8;

verus! {

/// What `char::is_alphanumeric` says of a character: whether it is alphabetic or numeric
/// in the sense of Unicode.
pub uninterp spec fn alphanumeric(c: char) -> bool;

/// Calls `char::is_alphanumeric`. Which characters it holds of is left to the Unicode
/// tables of the standard library.
#[verifier::external_body]
fn is_alphanumeric(c: char) -> (r: bool)
    ensures
        r == alphanumeric(c),
{
    c.is_alphanumeric()
}

/// What `str::to_lowercase` makes of a text.
pub uninterp spec fn lowercased(s: Seq<char>) -> Seq<char>;

/// Calls `str::to_lowercase`. What it makes of which text is left to the Unicode tables of
/// the standard library.
#[verifier::external_body]
fn to_lowercase(s: &str) -> (r: String)
    ensures
        r@ == lowercased(s@),
{
    s.to_lowercase()
}

/// What the English stemmer of `rust_stemmers` makes of a lower-case word.
pub uninterp spec fn stemmed(word: Seq<char>) -> Seq<char>;

/// The most bytes of a word that is stemmed: the stemmer computes with 32-bit offsets, and
/// hands back a longer word as it is.
pub const MAX_WORD: u64 = 0x7fff_ffff;

/// Whether the stemmer can be given a word of `n` bytes. The length of a longer word than
/// it stems must come out below three when it is cut to a signed 32-bit number.
pub open spec fn stemmer_takes(n: nat) -> bool {
    n <= MAX_WORD || n as int % 0x1_0000_0000 > MAX_WORD || n as int % 0x1_0000_0000 < 3
}

/// Stems a word with `rust_stemmers::Stemmer::stem`, made for `Algorithm::English`. Which
/// word it makes of which is left to the stemmer. It cuts the word's length in bytes to an
/// `i32` before it looks for three characters to stem: a length above `i32::MAX` that comes
/// out below three makes it stop there, with the word unchanged. Other lengths above
/// `i32::MAX` are left out: the stemmer then goes on with a wrong length, and on some words
/// (such as those that end in "ing") takes an offset below zero, which panics where
/// overflow is checked.
#[verifier::external_body]
fn stem(word: &str) -> (r: String)
    requires
        stemmer_takes(utf8::encode_utf8(word@).len()),
    ensures
        r@ == stemmed(word@),
        utf8::encode_utf8(word@).len() > MAX_WORD ==> r@ == word@,
{
    Stemmer::create(Algorithm::English).stem(word).into_owned()
}

/// The end of the run of alphanumeric characters that starts at `i`.
pub open spec fn word_end(s: Seq<char>, i: int) -> int
    decreases s.len() - i,
{
    if i < 0 || i >= s.len() || !alphanumeric(s[i]) {
        i
    } else {
        word_end(s, i + 1)
    }
}

/// The maximal runs of alphanumeric characters from `i` on, in order.
pub open spec fn words_from(s: Seq<char>, i: int) -> Seq<Seq<char>>
    decreases s.len() - i,
{
    if i < 0 || i >= s.len() {
        Seq::empty()
    } else if !alphanumeric(s[i]) {
        words_from(s, i + 1)
    } else {
        proof {
            lemma_word_end(s, i + 1);
        }
        seq![s.subrange(i, word_end(s, i + 1))] + words_from(s, word_end(s, i + 1))
    }
}

/// The words of a text: its maximal runs of alphanumeric characters, in order.
pub open spec fn words(s: Seq<char>) -> Seq<Seq<char>> {
    words_from(s, 0)
}

/// The words of a text in lower case.
pub open spec fn tokens(s: Seq<char>) -> Seq<Seq<char>> {
    words(s).map_values(|w: Seq<char>| lowercased(w))
}

/// A word ends inside the text, and it ends there because no alphanumeric character
/// follows.
pub proof fn lemma_word_end(s: Seq<char>, i: int)
    requires
        0 <= i <= s.len(),
    ensures
        i <= word_end(s, i) <= s.len(),
        word_end(s, i) < s.len() ==> !alphanumeric(s[word_end(s, i)]),
        forall|k: int| i <= k < word_end(s, i) ==> alphanumeric(#[trigger] s[k]),
    decreases s.len() - i,
{
    if i < s.len() && alphanumeric(s[i]) {
        lemma_word_end(s, i + 1);
    }
}

/// Whether texts are those that strings hold.
pub open spec fn texts_are(v: Seq<String>, texts: Seq<Seq<char>>) -> bool {
    v.len() == texts.len() && forall|k: int| 0 <= k < texts.len() ==> (#[trigger] v[k])@ == texts[k]
}

/// Lowercase and split on non-alphanumeric characters.
pub fn tokenize(s: &str) -> (r: Vec<String>)
    ensures
        texts_are(r@, tokens(s@)),
{
    let mut chars: Vec<char> = Vec::new();
    for c in it: s.chars()
        invariant
            it.seq() == s@,
            chars@ == s@.take(it.index() as int),
    {
        chars.push(c);
    }
    assert(chars@ =~= s@);
    let mut out: Vec<String> = Vec::new();
    let mut i: usize = 0;
    let ghost all = words(s@);
    assert(all.skip(0) =~= all);
    while i < chars.len()
        invariant
            chars@ == s@,
            i <= chars.len(),
            all == words(s@),
            out.len() <= all.len(),
            all.skip(out.len() as int) == words_from(s@, i as int),
            forall|k: int| 0 <= k < out.len() ==> (#[trigger] out@[k])@ == lowercased(all[k]),
        decreases chars.len() - i,
    {
        if !is_alphanumeric(chars[i]) {
            i += 1;
            continue ;
        }
        let start: usize = i;
        i += 1;
        while i < chars.len() && is_alphanumeric(chars[i])
            invariant
                chars@ == s@,
                start < i <= chars.len(),
                word_end(s@, start + 1) == word_end(s@, i as int),
            decreases chars.len() - i,
        {
            i += 1;
        }
        proof {
            let left = all.skip(out.len() as int);
            assert(left[0] == s@.subrange(start as int, i as int));
            assert(left == seq![left[0]] + words_from(s@, i as int));
            assert(left.len() == all.len() - out.len());
            assert(all[out.len() as int] == all.skip(out.len() as int)[0]);
            assert(all.skip(out.len() + 1) =~= left.drop_first());
            assert(left.drop_first() =~= words_from(s@, i as int));
        }
        out.push(to_lowercase(s.substring_char(start, i)));
    }
    assert(out.len() == all.len()) by {
        assert(words_from(s@, i as int).len() == 0);
    }
    out
}

/// The stem of a word; a word that is too long to be stemmed stands for itself.
pub open spec fn stem_of(word: Seq<char>) -> Seq<char> {
    if utf8::encode_utf8(word).len() > MAX_WORD {
        word
    } else {
        stemmed(word)
    }
}

/// The stems of words, or a failure where the stemmer cannot be given one of them.
pub open spec fn stems_of(words: Seq<Seq<char>>) -> Result<Seq<Seq<char>>, Error> {
    if exists|k: int|
        0 <= k < words.len() && !stemmer_takes(utf8::encode_utf8(#[trigger] words[k]).len()) {
        Err(Error::Malformed)
    } else {
        Ok(words.map_values(|w: Seq<char>| stem_of(w)))
    }
}

/// Stem each of the given words.
pub fn stem_all(words: &Vec<String>) -> (r: Result<Vec<String>, Error>)
    ensures
        match stems_of(words@.map_values(|w: String| w@)) {
            Ok(stems) => r matches Ok(out) && texts_are(out@, stems),
            Err(e) => r == Err::<Vec<String>, Error>(e),
        },
{
    let ghost texts = words@.map_values(|w: String| w@);
    let mut out: Vec<String> = Vec::new();
    let mut i: usize = 0;
    while i < words.len()
        invariant
            texts == words@.map_values(|w: String| w@),
            i <= words.len(),
            out.len() == i,
            forall|k: int|
                0 <= k < i ==> stemmer_takes(utf8::encode_utf8(#[trigger] texts[k]).len()),
            forall|k: int| 0 <= k < i ==> (#[trigger] out@[k])@ == stem_of(texts[k]),
        decreases words.len() - i,
    {
        let word: &str = words[i].as_str();
        assert(texts[i as int] == word@);
        let n: u64 = word.as_bytes().len() as u64;
        let cut: u64 = n % 0x1_0000_0000;
        if n > MAX_WORD && cut >= 3 && cut <= MAX_WORD {
            return Err(Error::Malformed);
        }
        out.push(stem(word));
        i += 1;
    }
    Ok(out)
}

/// The place of `term` in a list of counted terms, or the list's length.
pub open spec fn place_of(list: Seq<(Seq<char>, nat)>, term: Seq<char>) -> int
    decreases list.len(),
{
    if list.len() == 0 {
        0
    } else if list[0].0 == term {
        0
    } else {
        1 + place_of(list.drop_first(), term)
    }
}

/// A list of counted terms with one more `term`.
pub open spec fn with_one_more(list: Seq<(Seq<char>, nat)>, term: Seq<char>) -> Seq<
    (Seq<char>, nat),
> {
    let k = place_of(list, term);
    if k < list.len() {
        list.update(k, (term, list[k].1 + 1))
    } else {
        list.push((term, 1))
    }
}

/// The distinct terms among `stems`, in the order in which they first occur, each with the
/// number of its occurrences.
pub open spec fn counted(stems: Seq<Seq<char>>) -> Seq<(Seq<char>, nat)>
    decreases stems.len(),
{
    if stems.len() == 0 {
        Seq::empty()
    } else {
        with_one_more(counted(stems.drop_last()), stems.last())
    }
}

/// The counted terms that pairs of a string and a number hold.
pub open spec fn counts_of(v: Seq<(String, usize)>) -> Seq<(Seq<char>, nat)> {
    v.map_values(|p: (String, usize)| (p.0@, p.1 as nat))
}

/// Whether counted terms are those that pairs of a string and a number hold.
pub open spec fn counts_are(v: Seq<(String, usize)>, list: Seq<(Seq<char>, nat)>) -> bool {
    v.len() == list.len() && forall|k: int|
        0 <= k < list.len() ==> (#[trigger] v[k]).0@ == list[k].0 && v[k].1 == list[k].1
}

proof fn lemma_place_of(list: Seq<(Seq<char>, nat)>, term: Seq<char>, k: int)
    requires
        0 <= k <= list.len(),
        forall|i: int| 0 <= i < k ==> (#[trigger] list[i]).0 != term,
        k < list.len() ==> list[k].0 == term,
    ensures
        place_of(list, term) == k,
    decreases list.len(),
{
    if k > 0 {
        assert(list[0].0 != term);
        assert forall|i: int| 0 <= i < k - 1 implies (#[trigger] list.drop_first()[i]).0
            != term by {
            assert(list.drop_first()[i] == list[i + 1]);
        }
        lemma_place_of(list.drop_first(), term, k - 1);
    }
}

/// Count how often each distinct term occurs.
pub fn count_terms(stems: Vec<String>) -> (r: Vec<(String, usize)>)
    ensures
        counts_are(r@, counted(stems@.map_values(|w: String| w@))),
{
    let ghost texts = stems@.map_values(|w: String| w@);
    let mut out: Vec<(String, usize)> = Vec::new();
    let mut i: usize = 0;
    while i < stems.len()
        invariant
            texts == stems@.map_values(|w: String| w@),
            i <= stems.len(),
            counts_are(out@, counted(texts.take(i as int))),
            forall|k: int| 0 <= k < out.len() ==> (#[trigger] out@[k]).1 <= i,
        decreases stems.len() - i,
    {
        let ghost list = counted(texts.take(i as int));
        let ghost term = texts[i as int];
        let mut j: usize = 0;
        while j < out.len() && out[j].0 != stems[i]
            invariant
                i < stems.len(),
                term == stems@[i as int]@,
                j <= out.len(),
                counts_are(out@, list),
                forall|k: int| 0 <= k < j ==> (#[trigger] list[k]).0 != term,
            decreases out.len() - j,
        {
            j += 1;
        }
        proof {
            assert(texts.take(i + 1).drop_last() =~= texts.take(i as int));
            assert(j < out.len() ==> list[j as int].0 == term);
            lemma_place_of(list, term, j as int);
        }
        if j < out.len() {
            let n: usize = out[j].1;
            out[j] = (stems[i].clone(), n + 1);
        } else {
            out.push((stems[i].clone(), 1));
        }
        i += 1;
    }
    assert(texts.take(i as int) =~= texts);
    out
}

/// The terms that a query searches for, each with the number of its occurrences in the
/// query.
pub open spec fn query_terms_of(query: Seq<char>) -> Result<Seq<(Seq<char>, nat)>, Error> {
    match stems_of(tokens(query)) {
        Ok(stems) => Ok(counted(stems)),
        Err(e) => Err(e),
    }
}

/// The distinct terms that a query searches for: the stems of its lower-case words, in
/// the order in which they first occur, each with the number of its occurrences.
pub fn query_terms(query: &str) -> (r: Result<Vec<(String, usize)>, Error>)
    ensures
        match query_terms_of(query@) {
            Ok(terms) => r matches Ok(out) && counts_are(out@, terms),
            Err(e) => r == Err::<Vec<(String, usize)>, Error>(e),
        },
{
    let words: Vec<String> = tokenize(query);
    assert(words@.map_values(|w: String| w@) =~= tokens(query@));
    match stem_all(&words) {
        Ok(stems) => {
            proof {
                if let Ok(texts) = stems_of(tokens(query@)) {
                    assert(stems@.map_values(|w: String| w@) =~= texts);
                }
            }
            Ok(count_terms(stems))
        },
        Err(e) => Err(e),
    }
}

/// How often `term` occurs among `stems`.
pub open spec fn occurrences(stems: Seq<Seq<char>>, term: Seq<char>) -> nat
    decreases stems.len(),
{
    if stems.len() == 0 {
        0
    } else {
        occurrences(stems.drop_last(), term) + (if stems.last() == term {
            1nat
        } else {
            0nat
        })
    }
}

/// A place in a list is that of its first match, or the list's length.
pub proof fn lemma_place_bounds(list: Seq<(Seq<char>, nat)>, term: Seq<char>)
    ensures
        0 <= place_of(list, term) <= list.len(),
        place_of(list, term) < list.len() ==> list[place_of(list, term)].0 == term,
        forall|i: int| 0 <= i < place_of(list, term) ==> (#[trigger] list[i]).0 != term,
    decreases list.len(),
{
    if list.len() > 0 && list[0].0 != term {
        let rest = list.drop_first();
        lemma_place_bounds(rest, term);
        assert forall|i: int| 0 <= i < place_of(list, term) implies (#[trigger] list[i]).0
            != term by {
            if i > 0 {
                assert(rest[i - 1] == list[i]);
            }
        }
    }
}

/// Counting lists every term that occurs once, with the number of its occurrences, and
/// no other.
pub proof fn law_counts(stems: Seq<Seq<char>>)
    ensures
        forall|i: int, j: int|
            0 <= i < j < counted(stems).len() ==> (#[trigger] counted(stems)[i]).0 != (
            #[trigger] counted(stems)[j]).0,
        forall|i: int|
            0 <= i < counted(stems).len() ==> (#[trigger] counted(stems)[i]).1 > 0 && counted(
                stems,
            )[i].1 == occurrences(stems, counted(stems)[i].0),
        forall|k: int|
            0 <= k < stems.len() ==> place_of(counted(stems), #[trigger] stems[k]) < counted(
                stems,
            ).len(),
    decreases stems.len(),
{
    if stems.len() > 0 {
        let before = stems.drop_last();
        let old_list = counted(before);
        let list = counted(stems);
        let term = stems.last();
        let at = place_of(old_list, term);
        law_counts(before);
        lemma_place_bounds(old_list, term);
        if at == old_list.len() {
            lemma_absent(before, term);
        }
        assert forall|k: int| 0 <= k < stems.len() implies place_of(list, #[trigger] stems[k])
            < list.len() by {
            lemma_place_bounds(list, stems[k]);
            if k < before.len() {
                assert(before[k] == stems[k]);
                lemma_place_bounds(old_list, before[k]);
                let p = place_of(old_list, before[k]);
                assert(list[p].0 == stems[k]);
            } else {
                assert(list[at].0 == term);
            }
        }
    }
}

/// A term that is not listed does not occur.
proof fn lemma_absent(stems: Seq<Seq<char>>, term: Seq<char>)
    requires
        place_of(counted(stems), term) == counted(stems).len(),
    ensures
        occurrences(stems, term) == 0,
    decreases stems.len(),
{
    if stems.len() > 0 {
        let before = stems.drop_last();
        let old_list = counted(before);
        let list = counted(stems);
        lemma_place_bounds(list, term);
        lemma_place_bounds(old_list, stems.last());
        assert(list[place_of(old_list, stems.last())].0 == stems.last());
        assert forall|i: int| 0 <= i < old_list.len() implies (#[trigger] old_list[i]).0
            != term by {
            assert(list[i].0 == old_list[i].0);
        }
        lemma_place_of(old_list, term, old_list.len() as int);
        lemma_absent(before, term);
    }
}

proof fn lemma_words_from(s: Seq<char>, i: int)
    requires
        0 <= i <= s.len(),
    ensures
        words_from(s, i).flatten() == s.skip(i).filter(|c: char| alphanumeric(c)),
        forall|k: int|
            0 <= k < words_from(s, i).len() ==> (#[trigger] words_from(s, i)[k]).len() > 0,
    decreases s.len() - i,
{
    let pred = |c: char| alphanumeric(c);
    if i < s.len() {
        if !alphanumeric(s[i]) {
            lemma_words_from(s, i + 1);
            assert(s.skip(i) =~= seq![s[i]] + s.skip(i + 1));
            Seq::filter_distributes_over_add(seq![s[i]], s.skip(i + 1), pred);
            lemma_filter_none(seq![s[i]]);
            assert(Seq::<char>::empty() + s.skip(i + 1).filter(pred) =~= s.skip(i + 1).filter(
                pred,
            ));
        } else {
            let e = word_end(s, i + 1);
            lemma_word_end(s, i + 1);
            lemma_words_from(s, e);
            let word = s.subrange(i, e);
            assert(s.skip(i) =~= word + s.skip(e));
            Seq::filter_distributes_over_add(word, s.skip(e), pred);
            lemma_filter_all(word);
            let rest = words_from(s, e);
            assert(words_from(s, i) == seq![word] + rest);
            assert((seq![word] + rest).drop_first() =~= rest);
            assert((seq![word] + rest).flatten() == word + rest.flatten());
        }
    } else {
        assert(s.skip(i) =~= Seq::<char>::empty());
        lemma_filter_none(s.skip(i));
        assert(words_from(s, i).flatten() =~= Seq::<char>::empty());
    }
}

proof fn lemma_filter_all(s: Seq<char>)
    requires
        forall|k: int| 0 <= k < s.len() ==> alphanumeric(#[trigger] s[k]),
    ensures
        s.filter(|c: char| alphanumeric(c)) == s,
    decreases s.len(),
{
    reveal(Seq::filter);
    if s.len() > 0 {
        lemma_filter_all(s.drop_last());
        assert(alphanumeric(s.last()));
        assert(s =~= s.drop_last().push(s.last()));
    } else {
        assert(s =~= Seq::<char>::empty());
    }
}

proof fn lemma_filter_none(s: Seq<char>)
    requires
        forall|k: int| 0 <= k < s.len() ==> !alphanumeric(#[trigger] s[k]),
    ensures
        s.filter(|c: char| alphanumeric(c)) == Seq::<char>::empty(),
    decreases s.len(),
{
    reveal(Seq::filter);
    if s.len() > 0 {
        lemma_filter_none(s.drop_last());
        assert(!alphanumeric(s.last()));
    }
}

/// Splitting into words loses nothing but the characters that are not alphanumeric: the
/// words, joined, are the alphanumeric characters of the text, and no word is empty.
pub proof fn law_words(s: Seq<char>)
    ensures
        words(s).flatten() == s.filter(|c: char| alphanumeric(c)),
        forall|k: int| 0 <= k < words(s).len() ==> (#[trigger] words(s)[k]).len() > 0,
{
    lemma_words_from(s, 0);
    assert(s.skip(0) =~= s);
}

} // verus!
