//! Letter and anagram helpers: alphabet positions summed over a word, an
//! anagram test by sorted letters, a dictionary of words keyed by their
//! sorted letters, and removal of letters from words and sentences.

use crate::text::{char_index, chars_of, lemma_char_index_none, string_of};
use itertools::Itertools;
use vstd::prelude::*;
use vstd::relations::{sorted_by, total_ordering};
use vstd::seq_lib::lemma_sorted_unique;

verus! {

/// Descending order on characters.
pub open spec fn ge_chars() -> spec_fn(char, char) -> bool {
    |x: char, y: char| x >= y
}

/// Descending character order is total.
proof fn lemma_ge_chars_total()
    ensures
        total_ordering(ge_chars()),
{
}

/// Relies on itertools' `sorted`, a stable sort by `Ord`, reversed: the
/// result holds the same characters in descending order.
#[verifier::external_body]
fn sorted_desc_chars(s: &str) -> (r: String)
    ensures
        r@.to_multiset() == s@.to_multiset(),
        sorted_by(r@, ge_chars()),
{
    s.chars().sorted().rev().collect()
}

/// The alphabet position of a lower-case letter, zero for anything else.
pub open spec fn ord_m(c: char) -> int {
    if 'a' <= c <= 'z' {
        c as int - 97
    } else {
        0
    }
}

/// The sum of the alphabet positions of a text's characters.
pub open spec fn str_ord_m(s: Seq<char>) -> int
    decreases s.len(),
{
    if s.len() == 0 {
        0
    } else {
        str_ord_m(s.drop_last()) + ord_m(s.last())
    }
}

/// The alphabet position of a letter; anything outside `a` to `z` counts
/// zero.
fn ord(ch: char) -> (r: usize)
    ensures
        r as int == ord_m(ch),
{
    if 'a' <= ch && ch <= 'z' {
        (ch as u32 - 97) as usize
    } else {
        0
    }
}

/// The sum over a word of each letter's alphabet position.
pub fn str_ord(s: &str) -> (r: usize)
    requires
        26 * s@.len() <= usize::MAX,
    ensures
        r as int == str_ord_m(s@),
{
    let chars = chars_of(s);
    let n = chars.len();
    let mut acc: usize = 0;
    let mut i: usize = 0;
    proof {
        assert(s@.take(0) =~= Seq::<char>::empty());
    }
    while i < n
        invariant
            chars@ == s@,
            n == s@.len(),
            26 * s@.len() <= usize::MAX,
            i <= n,
            acc as int == str_ord_m(s@.take(i as int)),
            acc <= 26 * i,
        decreases n - i,
    {
        let v = ord(chars[i]);
        proof {
            assert(s@.take(i + 1).drop_last() =~= s@.take(i as int));
            assert(s@.take(i + 1).last() == s@[i as int]);
        }
        acc = acc + v;
        i = i + 1;
    }
    proof {
        assert(s@.take(n as int) =~= s@);
    }
    acc
}

/// Whether two words are anagrams: they hold exactly the same characters,
/// counted with multiplicity.
pub fn are_anagrams(a: &str, b: &str) -> (r: bool)
    ensures
        r == (a@.to_multiset() == b@.to_multiset()),
{
    let sa = sorted_desc_chars(a);
    let sb = sorted_desc_chars(b);
    let r = sa == sb;
    proof {
        lemma_ge_chars_total();
        if a@.to_multiset() == b@.to_multiset() {
            lemma_sorted_unique(sa@, sb@, ge_chars());
        }
    }
    r
}

/// What removing the first occurrence of a letter leaves of a word:
/// nothing new when the letter is absent.
pub open spec fn wol_m(w: Seq<char>, c: char) -> Option<Seq<char>> {
    let i = char_index(w, c);
    if i < 0 {
        None
    } else {
        Some(w.subrange(0, i).add(w.subrange(i + 1, w.len() as int)))
    }
}

/// A new word with the first occurrence of the letter removed, or nothing
/// when the word does not hold the letter.
pub fn without_letter(word: &str, letter: char) -> (r: Option<String>)
    ensures
        wol_m(word@, letter) is None ==> r is None,
        wol_m(word@, letter) matches Some(s) ==> r matches Some(out) && out@ == s,
{
    let chars = chars_of(word);
    let n = chars.len();
    let mut i: usize = 0;
    while i < n
        invariant
            chars@ == word@,
            n == word@.len(),
            i <= n,
            forall|j: int| 0 <= j < i ==> word@[j] != letter,
        decreases n - i,
    {
        if chars[i] == letter {
            proof {
                crate::text::lemma_char_index_is(word@, letter, i as int);
            }
            let mut out: Vec<char> = Vec::new();
            let mut k: usize = 0;
            while k < n
                invariant
                    chars@ == word@,
                    n == word@.len(),
                    i < n,
                    k <= n,
                    out@ == (if k <= i {
                        word@.subrange(0, k as int)
                    } else {
                        word@.subrange(0, i as int).add(word@.subrange(i + 1, k as int))
                    }),
                decreases n - k,
            {
                if k != i {
                    out.push(chars[k]);
                }
                k = k + 1;
                proof {
                    if k <= i {
                        assert(out@ =~= word@.subrange(0, k as int));
                    } else {
                        assert(out@ =~= word@.subrange(0, i as int).add(
                            word@.subrange(i + 1, k as int),
                        ));
                    }
                }
            }
            return Some(string_of(&out));
        }
        i = i + 1;
    }
    proof {
        lemma_char_index_none(word@, letter);
    }
    None
}

/// What removing each letter of a list, from a starting position on,
/// leaves of a word: letters the word does not hold change nothing.
pub open spec fn wols_m(w: Seq<char>, ls: Seq<char>, start: int) -> Seq<char>
    decreases ls.len() - start,
{
    if start < 0 || start >= ls.len() {
        w
    } else {
        match wol_m(w, ls[start]) {
            Some(rem) => wols_m(rem, ls, start + 1),
            None => wols_m(w, ls, start + 1),
        }
    }
}

/// The letters of the list actually used — removed from the word — from a
/// starting position on, in order.
pub open spec fn used_m(w: Seq<char>, ls: Seq<char>, start: int) -> Seq<char>
    decreases ls.len() - start,
{
    if start < 0 || start >= ls.len() {
        Seq::empty()
    } else {
        match wol_m(w, ls[start]) {
            Some(rem) => seq![ls[start]].add(used_m(rem, ls, start + 1)),
            None => used_m(w, ls, start + 1),
        }
    }
}

/// A new word with the first occurrence of each listed letter, from the
/// starting position on, removed; letters the word does not hold are
/// passed over.
pub fn without_letters(word: &str, letters: &[char], start: usize) -> (r: String)
    requires
        start <= letters@.len(),
    ensures
        r@ == wols_m(word@, letters@, start as int),
    decreases letters@.len() - start,
{
    if start == letters.len() {
        let chars = chars_of(word);
        return string_of(&chars);
    }
    match without_letter(word, letters[start]) {
        Some(remaining) => without_letters(remaining.as_str(), letters, start + 1),
        None => without_letters(word, letters, start + 1),
    }
}

/// As `without_letters`, and also appends each letter actually removed to
/// the given list.
fn without_letters_returned(
    word: &str,
    letters: &[char],
    letters_used: &mut Vec<char>,
    start: usize,
) -> (r: String)
    requires
        start <= letters@.len(),
    ensures
        r@ == wols_m(word@, letters@, start as int),
        final(letters_used)@ == old(letters_used)@.add(used_m(word@, letters@, start as int)),
    decreases letters@.len() - start,
{
    if start == letters.len() {
        let chars = chars_of(word);
        proof {
            assert(old(letters_used)@.add(Seq::<char>::empty()) =~= old(letters_used)@);
        }
        return string_of(&chars);
    }
    match without_letter(word, letters[start]) {
        Some(rem) => {
            letters_used.push(letters[start]);
            let r = without_letters_returned(rem.as_str(), letters, letters_used, start + 1);
            proof {
                assert(old(letters_used)@.push(letters@[start as int]).add(
                    used_m(rem@, letters@, start + 1),
                ) =~= old(letters_used)@.add(
                    seq![letters@[start as int]].add(used_m(rem@, letters@, start + 1)),
                ));
            }
            r
        },
        None => without_letters_returned(word, letters, letters_used, start + 1),
    }
}

/// Removing a letter's first occurrence from a letter list, when it is
/// there.
pub open spec fn remove_one(ls: Seq<char>, c: char) -> Seq<char> {
    let i = char_index(ls, c);
    if i >= 0 {
        ls.remove(i)
    } else {
        ls
    }
}

/// Removing, in order, each of the used letters from a letter list.
pub open spec fn remove_each(ls: Seq<char>, used: Seq<char>) -> Seq<char>
    decreases used.len(),
{
    if used.len() == 0 {
        ls
    } else {
        remove_each(remove_one(ls, used[0]), used.drop_first())
    }
}

/// The views of a sequence of string slices.
pub open spec fn strs_of(ss: Seq<&str>) -> Seq<Seq<char>> {
    ss.map_values(|s: &str| s@)
}

/// What removing the letters from a sentence leaves: each word loses the
/// first occurrence of each still-available letter; a word that lost a
/// letter consumes the letters it used; words with nothing left are
/// dropped.
pub open spec fn rls_m(sent: Seq<Seq<char>>, ls: Seq<char>) -> Seq<Seq<char>>
    decreases sent.len(),
{
    if sent.len() == 0 {
        Seq::empty()
    } else {
        let w = sent[0];
        let res = wols_m(w, ls, 0);
        let used = used_m(w, ls, 0);
        let ls2 = if res.len() < w.len() {
            remove_each(ls, used)
        } else {
            ls
        };
        let rest = rls_m(sent.drop_first(), ls2);
        if res.len() > 0 {
            seq![res].add(rest)
        } else {
            rest
        }
    }
}

/// Removes from the list the letter at its first occurrence, if any.
fn remove_one_letter(ls: &mut Vec<char>, c: char)
    ensures
        final(ls)@ == remove_one(old(ls)@, c),
{
    let n = ls.len();
    let mut i: usize = 0;
    while i < n
        invariant
            n == ls@.len(),
            i <= n,
            ls@ == old(ls)@,
            forall|j: int| 0 <= j < i ==> ls@[j] != c,
        decreases n - i,
    {
        if ls[i] == c {
            proof {
                crate::text::lemma_char_index_is(ls@, c, i as int);
            }
            ls.remove(i);
            return ;
        }
        i = i + 1;
    }
    proof {
        lemma_char_index_none(ls@, c);
    }
}

/// A new sentence in which each word loses the first occurrence of each
/// remaining listed letter; a word that lost letters uses them up for the
/// words after it, and words with nothing left are dropped.
#[verifier::loop_isolation(false)]
pub fn remove_letters_from_sentence(sentence: &[&str], letters: &[char]) -> (r: Vec<String>)
    ensures
        r.deep_view() == rls_m(strs_of(sentence@), letters@),
{
    let ghost sent = strs_of(sentence@);
    let mut remaining_sentence: Vec<String> = Vec::new();
    let mut letters_vec: Vec<char> = vstd::slice::slice_to_vec(letters);
    let n = sentence.len();
    let mut i: usize = 0;
    proof {
        assert(remaining_sentence.deep_view() =~= Seq::<Seq<char>>::empty());
        assert(Seq::<Seq<char>>::empty().add(rls_m(sent.skip(0), letters@)) =~= rls_m(
            sent.skip(0),
            letters@,
        ));
        assert(sent.skip(0) =~= sent);
    }
    while i < n
        invariant
            n == sentence@.len(),
            i <= n,
            rls_m(sent, letters@) == remaining_sentence.deep_view().add(
                rls_m(sent.skip(i as int), letters_vec@),
            ),
        decreases n - i,
    {
        let word: &str = sentence[i];
        let ghost cur_ls = letters_vec@;
        let mut letters_used: Vec<char> = Vec::new();
        let result = without_letters_returned(word, letters_vec.as_slice(), &mut letters_used, 0);
        proof {
            assert(letters_used@ =~= used_m(word@, cur_ls, 0));
            assert(sent.skip(i as int)[0] == word@);
            assert(sent.skip(i as int).drop_first() =~= sent.skip(i + 1));
        }
        let rl = result.as_str().unicode_len();
        let wl = word.unicode_len();
        if rl < wl {
            let m = letters_used.len();
            let mut j: usize = 0;
            proof {
                assert(letters_used@.skip(0) =~= letters_used@);
            }
            while j < m
                invariant
                    m == letters_used@.len(),
                    j <= m,
                    remove_each(cur_ls, letters_used@) == remove_each(
                        letters_vec@,
                        letters_used@.skip(j as int),
                    ),
                decreases m - j,
            {
                let ghost before = letters_vec@;
                remove_one_letter(&mut letters_vec, letters_used[j]);
                proof {
                    assert(letters_used@.skip(j as int)[0] == letters_used@[j as int]);
                    assert(letters_used@.skip(j as int).drop_first() =~= letters_used@.skip(j + 1));
                }
                j = j + 1;
            }
            proof {
                assert(letters_used@.skip(m as int) =~= Seq::<char>::empty());
                assert(letters_vec@ == remove_each(cur_ls, letters_used@));
            }
        }
        if rl > 0 {
            let ghost out_before = remaining_sentence.deep_view();
            remaining_sentence.push(result);
            proof {
                assert(remaining_sentence.deep_view() =~= out_before.push(
                    wols_m(word@, cur_ls, 0),
                ));
                assert(out_before.push(wols_m(word@, cur_ls, 0)).add(
                    rls_m(sent.skip(i + 1), letters_vec@),
                ) =~= out_before.add(
                    seq![wols_m(word@, cur_ls, 0)].add(rls_m(sent.skip(i + 1), letters_vec@)),
                ));
            }
        }
        i = i + 1;
    }
    proof {
        assert(sent.skip(n as int) =~= Seq::<Seq<char>>::empty());
        assert(remaining_sentence.deep_view().add(Seq::<Seq<char>>::empty())
            =~= remaining_sentence.deep_view());
    }
    remaining_sentence
}

/// The anagram test one input poses: same letters, different word.
pub open spec fn anagram_pred(input: Seq<char>) -> spec_fn(Seq<char>) -> bool {
    |w: Seq<char>| w.to_multiset() == input.to_multiset() && w != input
}

/// A dictionary of words, each stored with its letters sorted descending
/// as an anagram key.
pub struct Dict {
    entries: Vec<(String, String)>,
}

impl Dict {
    /// The words the dictionary holds, in insertion order.
    pub closed spec fn words(self) -> Seq<Seq<char>> {
        self.entries@.map_values(|e: (String, String)| e.0@)
    }

    /// Every stored key is its word's letters in descending order.
    pub closed spec fn wf(self) -> bool {
        forall|i: int|
            0 <= i < self.entries@.len() ==> sorted_by(#[trigger] self.entries@[i].1@, ge_chars())
                && self.entries@[i].1@.to_multiset() == self.entries@[i].0@.to_multiset()
    }

    /// An empty dictionary.
    pub fn new() -> (d: Dict)
        ensures
            d.words() == Seq::<Seq<char>>::empty(),
            d.wf(),
    {
        let d = Dict { entries: Vec::new() };
        proof {
            assert(d.words() =~= Seq::<Seq<char>>::empty());
        }
        d
    }

    /// Stores a copy of the word, keyed by its sorted letters.
    pub fn load(&mut self, word: &str)
        requires
            old(self).wf(),
        ensures
            final(self).wf(),
            final(self).words() == old(self).words().push(word@),
    {
        let key = sorted_desc_chars(word);
        let owned = String::from_str(word);
        self.entries.push((owned, key));
        proof {
            assert(self.words() =~= old(self).words().push(word@));
            assert forall|i: int| 0 <= i < self.entries@.len() implies sorted_by(
                #[trigger] self.entries@[i].1@,
                ge_chars(),
            ) && self.entries@[i].1@.to_multiset() == self.entries@[i].0@.to_multiset() by {
                if i < self.entries@.len() - 1 {
                    assert(self.entries@[i] == old(self).entries@[i]);
                }
            }
        }
    }

    /// The stored words that are anagrams of the input — same letters,
    /// different word — in insertion order.
    #[verifier::loop_isolation(false)]
    pub fn anagrams<'a>(&'a self, input: &str) -> (r: Vec<&'a str>)
        requires
            self.wf(),
        ensures
            strs_of(r@) == self.words().filter(anagram_pred(input@)),
    {
        let ghost pred = anagram_pred(input@);
        let mut res: Vec<&str> = Vec::new();
        let sorted_input = sorted_desc_chars(input);
        let n = self.entries.len();
        let mut i: usize = 0;
        proof {
            reveal(Seq::filter);
            assert(self.words().take(0) =~= Seq::<Seq<char>>::empty());
            assert(strs_of(res@) =~= self.words().take(0).filter(pred));
        }
        while i < n
            invariant
                n == self.entries@.len(),
                i <= n,
                self.wf(),
                sorted_input@.to_multiset() == input@.to_multiset(),
                sorted_by(sorted_input@, ge_chars()),
                strs_of(res@) == self.words().take(i as int).filter(pred),
            decreases n - i,
        {
            let entry = &self.entries[i];
            let same_key = entry.1 == sorted_input;
            let same_word = crate::text::eq_str(entry.0.as_str(), input);
            proof {
                reveal(Seq::filter);
                lemma_ge_chars_total();
                assert(self.entries@[i as int].1@.to_multiset() == self.entries@[
                    i as int
                ].0@.to_multiset());
                assert(sorted_by(self.entries@[i as int].1@, ge_chars()));
                if entry.1@ == sorted_input@ {
                    assert(entry.0@.to_multiset() == input@.to_multiset());
                } else {
                    if entry.0@.to_multiset() == input@.to_multiset() {
                        lemma_sorted_unique(entry.1@, sorted_input@, ge_chars());
                    }
                }
                assert(self.words().take(i + 1).drop_last() =~= self.words().take(i as int));
                assert(self.words().take(i + 1).last() == entry.0@);
            }
            if same_key && !same_word {
                let ghost before = strs_of(res@);
                res.push(entry.0.as_str());
                proof {
                    assert(strs_of(res@) =~= before.push(entry.0@));
                    assert(entry.0@.to_multiset() == input@.to_multiset());
                    assert(entry.0@ != input@);
                    assert(pred(entry.0@));
                    assert(self.words().take(i + 1).filter(pred) == self.words().take(
                        i as int,
                    ).filter(pred).push(entry.0@));
                }
            } else {
                proof {
                    assert(!pred(entry.0@));
                    assert(self.words().take(i + 1).filter(pred) == self.words().take(
                        i as int,
                    ).filter(pred));
                }
            }
            i = i + 1;
        }
        proof {
            assert(self.words().take(n as int) =~= self.words());
        }
        res
    }
}

/// The test for one word's anagrams: equal letter multisets.
pub open spec fn same_letters(w: Seq<char>) -> spec_fn(Seq<char>) -> bool {
    |d: Seq<char>| d.to_multiset() == w.to_multiset()
}

/// The dictionary row one word selects: the dictionary entries that are
/// its anagrams.
pub open spec fn anagram_row(w: Seq<char>, ds: Seq<Seq<char>>) -> Seq<Seq<char>> {
    ds.filter(same_letters(w))
}

/// All dictionary anagrams of a list of words: the rows of the words, in
/// order.
pub open spec fn swa_m(ws: Seq<Seq<char>>, ds: Seq<Seq<char>>) -> Seq<Seq<char>>
    decreases ws.len(),
{
    if ws.len() == 0 {
        Seq::empty()
    } else {
        swa_m(ws.drop_last(), ds).add(anagram_row(ws.last(), ds))
    }
}

/// Every dictionary word that is an anagram of one of the given words,
/// listed word by word in dictionary order.
#[verifier::loop_isolation(false)]
pub fn single_word_anagrams<'a>(words: &[&str], dict: &'a [&str]) -> (r: Vec<&'a str>)
    ensures
        strs_of(r@) == swa_m(strs_of(words@), strs_of(dict@)),
{
    let ghost ws = strs_of(words@);
    let ghost ds = strs_of(dict@);
    let mut anagrams: Vec<&str> = Vec::new();
    let nw = words.len();
    let nd = dict.len();
    let mut i: usize = 0;
    proof {
        assert(ws.take(0) =~= Seq::<Seq<char>>::empty());
        assert(strs_of(anagrams@) =~= swa_m(ws.take(0), ds));
    }
    while i < nw
        invariant
            i <= nw,
            strs_of(anagrams@) == swa_m(ws.take(i as int), ds),
        decreases nw - i,
    {
        let w: &str = words[i];
        let ghost row_pred = same_letters(w@);
        let mut j: usize = 0;
        proof {
            reveal(Seq::filter);
            assert(ds.take(0) =~= Seq::<Seq<char>>::empty());
            assert(strs_of(anagrams@) =~= swa_m(ws.take(i as int), ds).add(
                ds.take(0).filter(row_pred),
            ));
        }
        while j < nd
            invariant
                j <= nd,
                strs_of(anagrams@) == swa_m(ws.take(i as int), ds).add(
                    ds.take(j as int).filter(row_pred),
                ),
            decreases nd - j,
        {
            let d: &str = dict[j];
            let hit = are_anagrams(w, d);
            proof {
                reveal(Seq::filter);
                assert(ds.take(j + 1).drop_last() =~= ds.take(j as int));
                assert(ds.take(j + 1).last() == d@);
            }
            if hit {
                let ghost before = strs_of(anagrams@);
                anagrams.push(d);
                proof {
                    assert(strs_of(anagrams@) =~= before.push(d@));
                }
            }
            j = j + 1;
        }
        proof {
            assert(ds.take(nd as int) =~= ds);
            assert(ws.take(i + 1).drop_last() =~= ws.take(i as int));
            assert(ws.take(i + 1).last() == w@);
            assert(anagram_row(ws.take(i + 1).last(), ds) == ds.filter(row_pred));
        }
        i = i + 1;
    }
    proof {
        assert(ws.take(nw as int) =~= ws);
    }
    anagrams
}

} // verus!
