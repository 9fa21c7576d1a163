//! A slimmer anagram helper: words are compared by the sum of their
//! letters' alphabet positions alone, so two words count as anagrams here
//! whenever their sums agree. Only lower-case letters are accepted.

use crate::gram::{ord_m, str_ord_m, strs_of};
use crate::text::chars_of;
use vstd::prelude::*;

verus! {

/// Whether every character is a lower-case letter.
pub open spec fn lowercase_ok(s: Seq<char>) -> bool {
    forall|i: int| 0 <= i < s.len() ==> 'a' <= #[trigger] s[i] <= 'z'
}

/// The test one word poses on the dictionary: an equal alphabet-position
/// sum.
pub open spec fn same_ord(w: Seq<char>) -> spec_fn(Seq<char>) -> bool {
    |d: Seq<char>| str_ord_m(d) == str_ord_m(w)
}

/// The dictionary entries whose sums match each word, word by word.
pub open spec fn swa_ord_m(ws: Seq<Seq<char>>, ds: Seq<Seq<char>>) -> Seq<Seq<char>>
    decreases ws.len(),
{
    if ws.len() == 0 {
        Seq::empty()
    } else {
        swa_ord_m(ws.drop_last(), ds).add(ds.filter(same_ord(ws.last())))
    }
}

/// The alphabet position of a lower-case letter.
fn ord(ch: char) -> (r: usize)
    requires
        'a' <= ch <= 'z',
    ensures
        r as int == ord_m(ch),
{
    (ch as u32 - 97) as usize
}

/// The sum over a word of each letter's alphabet position. The word must
/// be all lower-case letters.
pub fn str_ord(s: &str) -> (r: usize)
    requires
        lowercase_ok(s@),
        26 * s@.len() <= usize::MAX,
    ensures
        r as int == str_ord_m(s@),
{
    let chars = chars_of(s);
    let n = chars.len();
    let mut acc: usize = 0;
    let mut i: usize = 0;
    proof {
        assert(s@.take(0) =~= Seq::<char>::empty());
    }
    while i < n
        invariant
            chars@ == s@,
            n == s@.len(),
            lowercase_ok(s@),
            26 * s@.len() <= usize::MAX,
            i <= n,
            acc as int == str_ord_m(s@.take(i as int)),
            acc <= 26 * i,
        decreases n - i,
    {
        let v = ord(chars[i]);
        proof {
            assert(s@.take(i + 1).drop_last() =~= s@.take(i as int));
            assert(s@.take(i + 1).last() == s@[i as int]);
        }
        acc = acc + v;
        i = i + 1;
    }
    proof {
        assert(s@.take(n as int) =~= s@);
    }
    acc
}

/// Every dictionary word whose alphabet-position sum matches one of the
/// given words, listed word by word in dictionary order. All words must
/// be lower-case letters.
#[verifier::loop_isolation(false)]
pub fn single_word_anagrams(words: &Vec<&str>, dict: &Vec<&str>) -> (r: Vec<String>)
    requires
        forall|i: int|
            0 <= i < words@.len() ==> lowercase_ok(#[trigger] words@[i]@) && 26 * words@[i]@.len()
                <= usize::MAX,
        forall|i: int|
            0 <= i < dict@.len() ==> lowercase_ok(#[trigger] dict@[i]@) && 26 * dict@[i]@.len()
                <= usize::MAX,
    ensures
        r.deep_view() == swa_ord_m(strs_of(words@), strs_of(dict@)),
{
    let ghost ws = strs_of(words@);
    let ghost ds = strs_of(dict@);
    let mut anagrams: Vec<String> = Vec::new();
    let nd = dict.len();
    let mut dict_ords: Vec<usize> = Vec::new();
    let mut k: usize = 0;
    while k < nd
        invariant
            k <= nd,
            dict_ords@.len() == k,
            forall|j: int| 0 <= j < k ==> #[trigger] dict_ords@[j] as int == str_ord_m(ds[j]),
        decreases nd - k,
    {
        dict_ords.push(str_ord(dict[k]));
        k = k + 1;
    }
    let nw = words.len();
    let mut i: usize = 0;
    proof {
        assert(ws.take(0) =~= Seq::<Seq<char>>::empty());
        assert(anagrams.deep_view() =~= swa_ord_m(ws.take(0), ds));
    }
    while i < nw
        invariant
            i <= nw,
            anagrams.deep_view() == swa_ord_m(ws.take(i as int), ds),
        decreases nw - i,
    {
        let n = str_ord(words[i]);
        let ghost pred = same_ord(ws[i as int]);
        let mut j: usize = 0;
        proof {
            reveal(Seq::filter);
            assert(ds.take(0) =~= Seq::<Seq<char>>::empty());
            assert(anagrams.deep_view() =~= swa_ord_m(ws.take(i as int), ds).add(
                ds.take(0).filter(pred),
            ));
        }
        while j < nd
            invariant
                j <= nd,
                anagrams.deep_view() == swa_ord_m(ws.take(i as int), ds).add(
                    ds.take(j as int).filter(pred),
                ),
            decreases nd - j,
        {
            proof {
                reveal(Seq::filter);
                assert(ds.take(j + 1).drop_last() =~= ds.take(j as int));
                assert(ds.take(j + 1).last() == ds[j as int]);
            }
            if dict_ords[j] == n {
                let ghost before = anagrams.deep_view();
                anagrams.push(String::from_str(dict[j]));
                proof {
                    assert(anagrams.deep_view() =~= before.push(ds[j as int]));
                }
            }
            j = j + 1;
        }
        proof {
            assert(ds.take(nd as int) =~= ds);
            assert(ws.take(i + 1).drop_last() =~= ws.take(i as int));
            assert(ws.take(i + 1).last() == ws[i as int]);
        }
        i = i + 1;
    }
    proof {
        assert(ws.take(nw as int) =~= ws);
    }
    anagrams
}

} // verus!
