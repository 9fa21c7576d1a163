//! Primitivization: counting a word's letters, spelling the count in
//! English, and repeating until the count settles at four. With it come
//! the English spelling of numbers up to the hundreds groups, the reverse
//! reading of spelled-out numbers, and the primitive discrepancy of a
//! number.

use crate::text::{chars_of, eq_str, push_char};
use crate::tokens::is_space_c;
use vstd::prelude::*;

verus! {

/// The English word of a digit.
pub open spec fn ones_m(n: int) -> Seq<char> {
    if n == 0 {
        "zero"@
    } else if n == 1 {
        "one"@
    } else if n == 2 {
        "two"@
    } else if n == 3 {
        "three"@
    } else if n == 4 {
        "four"@
    } else if n == 5 {
        "five"@
    } else if n == 6 {
        "six"@
    } else if n == 7 {
        "seven"@
    } else if n == 8 {
        "eight"@
    } else {
        "nine"@
    }
}

/// The English word of ten through nineteen, by the final digit.
pub open spec fn teens_m(n: int) -> Seq<char> {
    if n == 0 {
        "ten"@
    } else if n == 1 {
        "eleven"@
    } else if n == 2 {
        "twelve"@
    } else if n == 3 {
        "thirteen"@
    } else if n == 4 {
        "fourteen"@
    } else if n == 5 {
        "fifteen"@
    } else if n == 6 {
        "sixteen"@
    } else if n == 7 {
        "seventeen"@
    } else if n == 8 {
        "eighteen"@
    } else {
        "nineteen"@
    }
}

/// The English word of a tens digit from two to nine.
pub open spec fn tens_word_m(d: int) -> Seq<char> {
    if d == 2 {
        "twenty"@
    } else if d == 3 {
        "thirty"@
    } else if d == 4 {
        "fourty"@
    } else if d == 5 {
        "fifty"@
    } else if d == 6 {
        "sixty"@
    } else if d == 7 {
        "seventy"@
    } else if d == 8 {
        "eighty"@
    } else {
        "ninety"@
    }
}

/// The English spelling of a number from ten to ninety-nine.
pub open spec fn tens_m(n: int) -> Seq<char> {
    if n / 10 == 1 {
        teens_m(n % 10)
    } else {
        tens_word_m(n / 10).add(
            if n % 10 != 0 {
                seq![' '].add(ones_m(n % 10))
            } else {
                Seq::empty()
            },
        )
    }
}

/// The hundreds part of a spelling: the digit's word and `hundred`.
pub open spec fn hundreds_m(n: int) -> Seq<char> {
    ones_m((n / 100) % 10).add(" hundred "@)
}

/// The English spelling of one group of three digits: the hundreds part
/// when there is one; then the tens if the tens digit is set — and
/// nothing more; otherwise the final digit if it is set.
pub open spec fn t3_m(n: int) -> Seq<char> {
    let h = if (n / 100) % 10 != 0 {
        hundreds_m(n)
    } else {
        Seq::empty()
    };
    if (n / 10) % 10 != 0 {
        h.add(tens_m(n % 100))
    } else if n % 10 != 0 {
        h.add(ones_m(n % 10))
    } else {
        h
    }
}

/// The English spelling of a positive number, group of three digits by
/// group, the lowest group first.
pub open spec fn ang_m(n: int) -> Seq<char>
    decreases n,
{
    if n <= 0 {
        Seq::empty()
    } else {
        (if n % 1000 != 0 {
            t3_m(n % 1000)
        } else {
            Seq::empty()
        }).add(ang_m(n / 1000))
    }
}

/// An ASCII letter.
pub open spec fn is_alpha_char(c: char) -> bool {
    ('a' <= c <= 'z') || ('A' <= c <= 'Z')
}

/// The count of letters in a text.
pub open spec fn tally_m(s: Seq<char>) -> int
    decreases s.len(),
{
    if s.len() == 0 {
        0
    } else {
        tally_m(s.drop_last()) + if is_alpha_char(s.last()) {
            1int
        } else {
            0int
        }
    }
}

/// A letter count is non-negative and at most the text's length.
pub proof fn lemma_tally_bounds(s: Seq<char>)
    ensures
        0 <= tally_m(s) <= s.len(),
    decreases s.len(),
{
    if s.len() > 0 {
        lemma_tally_bounds(s.drop_last());
    }
}

/// The English word of a digit.
pub fn ones(n: i32) -> (r: &'static str)
    requires
        0 <= n <= 9,
    ensures
        r@ == ones_m(n as int),
{
    if n == 0 {
        "zero"
    } else if n == 1 {
        "one"
    } else if n == 2 {
        "two"
    } else if n == 3 {
        "three"
    } else if n == 4 {
        "four"
    } else if n == 5 {
        "five"
    } else if n == 6 {
        "six"
    } else if n == 7 {
        "seven"
    } else if n == 8 {
        "eight"
    } else {
        "nine"
    }
}

/// The English word of ten through nineteen, by the final digit.
pub fn teens(n: i32) -> (r: &'static str)
    requires
        0 <= n <= 9,
    ensures
        r@ == teens_m(n as int),
{
    if n == 0 {
        "ten"
    } else if n == 1 {
        "eleven"
    } else if n == 2 {
        "twelve"
    } else if n == 3 {
        "thirteen"
    } else if n == 4 {
        "fourteen"
    } else if n == 5 {
        "fifteen"
    } else if n == 6 {
        "sixteen"
    } else if n == 7 {
        "seventeen"
    } else if n == 8 {
        "eighteen"
    } else {
        "nineteen"
    }
}

/// The English spelling of a number from ten to ninety-nine.
pub fn tens(n: i32) -> (r: String)
    requires
        10 <= n <= 99,
    ensures
        r@ == tens_m(n as int),
{
    let m = n as u32;
    let tens_digit = m / 10;
    let ones_digit = m % 10;
    if tens_digit == 1 {
        return String::from_str(teens((ones_digit) as i32));
    }
    let word = if tens_digit == 2 {
        "twenty"
    } else if tens_digit == 3 {
        "thirty"
    } else if tens_digit == 4 {
        "fourty"
    } else if tens_digit == 5 {
        "fifty"
    } else if tens_digit == 6 {
        "sixty"
    } else if tens_digit == 7 {
        "seventy"
    } else if tens_digit == 8 {
        "eighty"
    } else {
        "ninety"
    };
    let mut out = String::from_str(word);
    if ones_digit != 0 {
        push_char(&mut out, ' ');
        let out2 = out.concat(ones(ones_digit as i32));
        proof {
            assert(out2@ =~= tens_m(n as int));
        }
        return out2;
    }
    proof {
        assert(out@ =~= tens_m(n as int));
    }
    out
}

/// The hundreds part of a spelling: the digit's word and `hundred`.
pub fn hundreds(n: i32) -> (r: String)
    requires
        n >= 0,
    ensures
        r@ == hundreds_m(n as int),
{
    let m = n as u32;
    let digit = ((m / 100) % 10) as i32;
    let out = String::from_str(ones(digit));
    let out = out.concat(" hundred ");
    proof {
        assert(out@ =~= hundreds_m(n as int));
    }
    out
}

/// The English spelling of one group of three digits. The tens, when
/// present, close the spelling: a set tens digit hides the final digit.
pub fn translate_three_digits(n: i32) -> (r: String)
    requires
        n >= 0,
    ensures
        r@ == t3_m(n as int),
{
    let m = n as u32;
    let mut output = String::new();
    if (m / 100) % 10 != 0 {
        let h = hundreds(n);
        let merged = output.concat(h.as_str());
        output = merged;
    }
    if (m / 10) % 10 != 0 {
        let t = tens((m % 100) as i32);
        let merged = output.concat(t.as_str());
        proof {
            assert(merged@ =~= t3_m(n as int));
        }
        return merged;
    }
    if m % 10 != 0 {
        let merged = output.concat(ones((m % 10) as i32));
        proof {
            assert(merged@ =~= t3_m(n as int));
        }
        return merged;
    }
    proof {
        assert(output@ =~= t3_m(n as int));
    }
    output
}

/// The English spelling of a number: nothing for zero and below, else
/// each group of three digits in turn, the lowest group spelled first.
pub fn anglicize(prim: &i32) -> (r: String)
    ensures
        r@ == ang_m(*prim as int),
{
    let mut out = String::new();
    if *prim <= 0 {
        return out;
    }
    let ghost n0 = *prim as int;
    let mut m: u32 = *prim as u32;
    proof {
        assert(Seq::<char>::empty().add(ang_m(n0)) =~= ang_m(n0));
    }
    while m > 0
        invariant
            ang_m(n0) == out@.add(ang_m(m as int)),
        decreases m,
    {
        if m % 1000 != 0 {
            let part = translate_three_digits((m % 1000) as i32);
            let merged = out.concat(part.as_str());
            out = merged;
        }
        proof {
            assert(ang_m(m as int) == (if (m as int) % 1000 != 0 {
                t3_m((m as int) % 1000)
            } else {
                Seq::<char>::empty()
            }).add(ang_m((m as int) / 1000)));
            assert(out@.add(Seq::<char>::empty()) =~= out@);
        }
        m = m / 1000;
    }
    proof {
        assert(out@.add(ang_m(0)) =~= out@);
    }
    out
}

/// Counts the ASCII letters in a word, passing everything else over.
pub fn tally(word: &str) -> (r: i32)
    requires
        word@.len() <= i32::MAX,
    ensures
        r as int == tally_m(word@),
{
    let chars = chars_of(word);
    let n = chars.len();
    let mut count: i32 = 0;
    let mut i: usize = 0;
    proof {
        assert(word@.take(0) =~= Seq::<char>::empty());
        lemma_tally_bounds(word@.take(0));
    }
    while i < n
        invariant
            chars@ == word@,
            n == word@.len(),
            n <= i32::MAX,
            i <= n,
            count as int == tally_m(word@.take(i as int)),
            0 <= count <= i,
        decreases n - i,
    {
        let c = chars[i];
        proof {
            assert(word@.take(i + 1).drop_last() =~= word@.take(i as int));
            assert(word@.take(i + 1).last() == word@[i as int]);
        }
        if ('a' <= c && c <= 'z') || ('A' <= c && c <= 'Z') {
            count = count + 1;
        }
        i = i + 1;
    }
    proof {
        assert(word@.take(n as int) =~= word@);
    }
    count
}


/// The words of the digits and the teens, each at its value.
pub open spec fn numonym_idx(p: Seq<char>) -> int {
    if p == "zero"@ {
        0
    } else if p == "one"@ {
        1
    } else if p == "two"@ {
        2
    } else if p == "three"@ {
        3
    } else if p == "four"@ {
        4
    } else if p == "five"@ {
        5
    } else if p == "six"@ {
        6
    } else if p == "seven"@ {
        7
    } else if p == "eight"@ {
        8
    } else if p == "nine"@ {
        9
    } else if p == "ten"@ {
        10
    } else if p == "eleven"@ {
        11
    } else if p == "twelve"@ {
        12
    } else if p == "thirteen"@ {
        13
    } else if p == "fourteen"@ {
        14
    } else if p == "fifteen"@ {
        15
    } else if p == "sixteen"@ {
        16
    } else if p == "seventeen"@ {
        17
    } else if p == "eighteen"@ {
        18
    } else if p == "nineteen"@ {
        19
    } else {
        -1
    }
}

/// The value of a tens word, `-1` for anything else.
pub open spec fn tens_val_m(p: Seq<char>) -> int {
    if p == "twenty"@ {
        20
    } else if p == "thirty"@ {
        30
    } else if p == "fourty"@ {
        40
    } else if p == "fifty"@ {
        50
    } else if p == "sixty"@ {
        60
    } else if p == "seventy"@ {
        70
    } else if p == "eighty"@ {
        80
    } else if p == "ninety"@ {
        90
    } else {
        -1
    }
}

/// A place-holder word of a spelled number.
pub open spec fn is_ph(p: Seq<char>) -> bool {
    p == "hundred"@ || p == "thousand"@ || p == "million"@ || p == "billion"@
}

/// A spelled part the reader understands.
pub open spec fn part_valid(p: Seq<char>) -> bool {
    is_ph(p) || tens_val_m(p) >= 0 || numonym_idx(p) >= 0
}

/// The leading whitespace of a text stripped.
pub open spec fn trim_front_m(s: Seq<char>) -> Seq<char>
    decreases s.len(),
{
    if s.len() > 0 && is_space_c(s[0]) {
        trim_front_m(s.drop_first())
    } else {
        s
    }
}

/// The trailing whitespace of a text stripped.
pub open spec fn trim_back_m(s: Seq<char>) -> Seq<char>
    decreases s.len(),
{
    if s.len() > 0 && is_space_c(s.last()) {
        trim_back_m(s.drop_last())
    } else {
        s
    }
}

/// The whitespace at both ends of a text stripped.
pub open spec fn trim_m(s: Seq<char>) -> Seq<char> {
    trim_back_m(trim_front_m(s))
}

#[via_fn]
proof fn split_sp_via(s: Seq<char>) {
    crate::text::lemma_char_index_bound(s, ' ');
}

/// A text split at every single space, keeping empty pieces.
pub open spec fn split_sp(s: Seq<char>) -> Seq<Seq<char>>
    decreases s.len(),
        via split_sp_via
{
    let i = crate::text::char_index(s, ' ');
    if i < 0 {
        seq![s]
    } else {
        seq![s.take(i)].add(split_sp(s.skip(i + 1)))
    }
}

/// Powers of ten.
pub open spec fn pow10_m(e: int) -> int
    decreases e,
{
    if e <= 0 {
        1
    } else {
        10 * pow10_m(e - 1)
    }
}

/// A value in the machine's 32-bit signed range.
pub open spec fn in_i32(x: int) -> bool {
    i32::MIN <= x <= i32::MAX
}

/// The value of a spelled-out number read left to right: a place-holder
/// subtracts one; a tens word adds its value; any other numonym adds its
/// value scaled by a power of ten for the positions still to come, which
/// only the non-place-holder words count down.
pub open spec fn nmf(parts: Seq<Seq<char>>, i: int, rem: int, res: int) -> int
    decreases parts.len() - i,
{
    if i < 0 || i >= parts.len() {
        res
    } else {
        let p = trim_m(parts[i]);
        if is_ph(p) {
            nmf(parts, i + 1, rem, res - 1)
        } else if tens_val_m(p) >= 0 {
            nmf(parts, i + 1, rem - 1, res + tens_val_m(p))
        } else {
            nmf(parts, i + 1, rem - 1, res + numonym_idx(p) * pow10_m(rem - 1))
        }
    }
}

/// Whether the left-to-right reading stays understood and within the
/// machine's integers at every step.
pub open spec fn nmf_ok(parts: Seq<Seq<char>>, i: int, rem: int, res: int) -> bool
    decreases parts.len() - i,
{
    if i < 0 || i >= parts.len() {
        true
    } else {
        let p = trim_m(parts[i]);
        &&& part_valid(p)
        &&& if is_ph(p) {
            in_i32(res - 1) && nmf_ok(parts, i + 1, rem, res - 1)
        } else if tens_val_m(p) >= 0 {
            rem >= 1 && in_i32(res + tens_val_m(p)) && nmf_ok(
                parts,
                i + 1,
                rem - 1,
                res + tens_val_m(p),
            )
        } else {
            &&& rem >= 1
            &&& in_i32(numonym_idx(p) * pow10_m(rem - 1))
            &&& in_i32(res + numonym_idx(p) * pow10_m(rem - 1))
            &&& nmf_ok(parts, i + 1, rem - 1, res + numonym_idx(p) * pow10_m(rem - 1))
        }
    }
}

/// Every spelled word is short.
proof fn lemma_word_lens()
    ensures
        forall|n: int| (#[trigger] ones_m(n)).len() <= 5,
        forall|n: int| (#[trigger] teens_m(n)).len() <= 9,
        forall|d: int| (#[trigger] tens_word_m(d)).len() <= 7,
        " hundred "@.len() == 9,
        seq![' '].len() == 1,
{
    reveal_strlit("zero");
    reveal_strlit("one");
    reveal_strlit("two");
    reveal_strlit("three");
    reveal_strlit("four");
    reveal_strlit("five");
    reveal_strlit("six");
    reveal_strlit("seven");
    reveal_strlit("eight");
    reveal_strlit("nine");
    reveal_strlit("ten");
    reveal_strlit("eleven");
    reveal_strlit("twelve");
    reveal_strlit("thirteen");
    reveal_strlit("fourteen");
    reveal_strlit("fifteen");
    reveal_strlit("sixteen");
    reveal_strlit("seventeen");
    reveal_strlit("eighteen");
    reveal_strlit("nineteen");
    reveal_strlit("twenty");
    reveal_strlit("thirty");
    reveal_strlit("fourty");
    reveal_strlit("fifty");
    reveal_strlit("sixty");
    reveal_strlit("seventy");
    reveal_strlit("eighty");
    reveal_strlit("ninety");
    reveal_strlit(" hundred ");
}

/// One spelled group of three digits is at most 27 characters.
pub proof fn lemma_t3_len(n: int)
    ensures
        t3_m(n).len() <= 27,
{
    lemma_word_lens();
}

/// The spelling of a number within the machine's integers is at most 108
/// characters.
pub proof fn lemma_ang_len(n: int)
    requires
        n <= 0xFFFF_FFFF,
    ensures
        ang_m(n).len() <= 108,
{
    if n > 0 {
        let n1 = n / 1000;
        let n2 = n1 / 1000;
        let n3 = n2 / 1000;
        let n4 = n3 / 1000;
        assert(n1 <= 4294968);
        assert(n2 <= 4295);
        assert(n3 <= 5);
        assert(n4 <= 0);
        assert(ang_m(n4).len() == 0);
        lemma_t3_len(n % 1000);
        lemma_t3_len(n1 % 1000);
        lemma_t3_len(n2 % 1000);
        lemma_t3_len(n3 % 1000);
        assert(ang_m(n3).len() <= 27);
        assert(ang_m(n2).len() <= 54);
        assert(ang_m(n1).len() <= 81);
        assert(ang_m(n).len() <= 108);
    }
}

/// The primitive discrepancy of a number: the number less the letter
/// count of its spelling.
pub fn pd(n: i32) -> (r: i32)
    ensures
        r as int == n - tally_m(ang_m(n as int)),
{
    let eng = anglicize(&n);
    proof {
        lemma_ang_len(n as int);
        lemma_tally_bounds(eng@);
        if n <= 0 {
            assert(ang_m(n as int).len() == 0);
        }
    }
    let t = tally(eng.as_str());
    n - t
}

/// Strips the whitespace at both ends of a word.
fn trim_str(word: &str) -> (r: String)
    ensures
        r@ == trim_m(word@),
{
    let v = chars_of(word);
    let n = v.len();
    let mut i: usize = 0;
    proof {
        assert(word@.skip(0) =~= word@);
    }
    while i < n && crate::tokens::is_space(v[i])
        invariant
            n == v@.len(),
            v@ == word@,
            i <= n,
            trim_front_m(word@) == trim_front_m(word@.skip(i as int)),
        decreases n - i,
    {
        proof {
            assert(word@.skip(i as int).drop_first() =~= word@.skip(i + 1));
        }
        i = i + 1;
    }
    proof {
        assert(trim_front_m(word@.skip(i as int)) == word@.skip(i as int));
    }
    let mut j: usize = n;
    while j > i && crate::tokens::is_space(v[j - 1])
        invariant
            n == v@.len(),
            v@ == word@,
            i <= j <= n,
            trim_front_m(word@) == word@.skip(i as int),
            trim_back_m(word@.skip(i as int)) == trim_back_m(word@.subrange(i as int, j as int)),
        decreases j,
    {
        proof {
            assert(word@.subrange(i as int, j as int).drop_last() =~= word@.subrange(
                i as int,
                j - 1,
            ));
        }
        j = j - 1;
    }
    proof {
        assert(trim_back_m(word@.subrange(i as int, j as int)) == word@.subrange(
            i as int,
            j as int,
        ));
    }
    let mut out: Vec<char> = Vec::new();
    let mut k: usize = i;
    while k < j
        invariant
            n == v@.len(),
            v@ == word@,
            i <= k <= j <= n,
            out@ == word@.subrange(i as int, k as int),
        decreases j - k,
    {
        out.push(v[k]);
        k = k + 1;
        proof {
            assert(out@ =~= word@.subrange(i as int, k as int));
        }
    }
    crate::text::string_of(&out)
}

/// The numonym value of a word, `-1` for anything not a digit's or
/// teen's word.
fn numonym_value(p: &str) -> (r: i32)
    ensures
        r as int == numonym_idx(p@),
{
    if eq_str(p, "zero") {
        0
    } else if eq_str(p, "one") {
        1
    } else if eq_str(p, "two") {
        2
    } else if eq_str(p, "three") {
        3
    } else if eq_str(p, "four") {
        4
    } else if eq_str(p, "five") {
        5
    } else if eq_str(p, "six") {
        6
    } else if eq_str(p, "seven") {
        7
    } else if eq_str(p, "eight") {
        8
    } else if eq_str(p, "nine") {
        9
    } else if eq_str(p, "ten") {
        10
    } else if eq_str(p, "eleven") {
        11
    } else if eq_str(p, "twelve") {
        12
    } else if eq_str(p, "thirteen") {
        13
    } else if eq_str(p, "fourteen") {
        14
    } else if eq_str(p, "fifteen") {
        15
    } else if eq_str(p, "sixteen") {
        16
    } else if eq_str(p, "seventeen") {
        17
    } else if eq_str(p, "eighteen") {
        18
    } else if eq_str(p, "nineteen") {
        19
    } else {
        -1
    }
}

/// The value of a tens word, `-1` for anything else.
fn tens_value(p: &str) -> (r: i32)
    ensures
        r as int == tens_val_m(p@),
{
    if eq_str(p, "twenty") {
        20
    } else if eq_str(p, "thirty") {
        30
    } else if eq_str(p, "fourty") {
        40
    } else if eq_str(p, "fifty") {
        50
    } else if eq_str(p, "sixty") {
        60
    } else if eq_str(p, "seventy") {
        70
    } else if eq_str(p, "eighty") {
        80
    } else if eq_str(p, "ninety") {
        90
    } else {
        -1
    }
}

/// Whether a word is a place-holder of a spelled number.
fn placeholder(p: &str) -> (r: bool)
    ensures
        r == is_ph(p@),
{
    eq_str(p, "hundred") || eq_str(p, "thousand") || eq_str(p, "million") || eq_str(p, "billion")
}

/// The position of a word in a list of words, if it is there.
pub fn get_num_index(num: &String, array: &Vec<String>) -> (r: Option<usize>)
    ensures
        r matches Some(i) ==> i < array@.len() && array@[i as int]@ == num@ && (forall|j: int|
            0 <= j < i ==> array@[j]@ != num@),
        r is None ==> (forall|j: int| 0 <= j < array@.len() ==> #[trigger] array@[j]@ != num@),
{
    let n = array.len();
    let mut i: usize = 0;
    while i < n
        invariant
            n == array@.len(),
            i <= n,
            forall|j: int| 0 <= j < i ==> #[trigger] array@[j]@ != num@,
        decreases n - i,
    {
        if eq_str(array[i].as_str(), num.as_str()) {
            return Some(i);
        }
        i = i + 1;
    }
    None
}

/// The value a numonym stands for, looked up first among the digits and
/// teens and then among the tens words. Only known numonyms are accepted.
pub fn index_into_numonym(num: &str) -> (r: i32)
    requires
        numonym_idx(num@) >= 0 || tens_val_m(num@) >= 0,
    ensures
        r as int == (if numonym_idx(num@) >= 0 {
            numonym_idx(num@)
        } else {
            tens_val_m(num@)
        }),
{
    let v = numonym_value(num);
    if v >= 0 {
        return v;
    }
    tens_value(num)
}

/// Ten raised to a small power.
fn pow10(e: u32) -> (r: i32)
    requires
        e <= 9,
    ensures
        r as int == pow10_m(e as int),
        r >= 1,
    decreases e,
{
    if e == 0 {
        1
    } else {
        proof {
            lemma_pow10_bound(e as int);
        }
        10 * pow10(e - 1)
    }
}

/// Powers of ten up to the ninth stay within the machine's integers.
proof fn lemma_pow10_bound(e: int)
    requires
        e <= 9,
    ensures
        pow10_m(e) <= 1000000000,
        pow10_m(e) >= 1,
{
    reveal_with_fuel(pow10_m, 11);
    if e <= 0 {
    } else if e == 1 {
    } else if e == 2 {
    } else if e == 3 {
    } else if e == 4 {
    } else if e == 5 {
    } else if e == 6 {
    } else if e == 7 {
    } else if e == 8 {
    } else {
        assert(e == 9);
    }
}

/// Reads a spelled-out number: the words are split on single spaces,
/// trimmed, and folded left to right, each scaled by a power of ten for
/// the positions still to come. An empty query reads as zero.
#[verifier::loop_isolation(false)]
#[verifier::rlimit(100)]
pub fn nummify(query: &str) -> (r: i32)
    requires
        split_sp(query@).len() <= 10,
        query@.len() > 0 ==> nmf_ok(split_sp(query@), 0, split_sp(query@).len() as int, 0),
    ensures
        query@.len() == 0 ==> r == 0,
        query@.len() > 0 ==> r as int == nmf(split_sp(query@), 0, split_sp(query@).len() as int, 0),
{
    if query.unicode_len() == 0 {
        return 0;
    }
    let ghost sp = split_sp(query@);
    let parts = split_spaces(query);
    let m = parts.len();
    proof {
        assert(parts.deep_view().len() == parts@.len());
    }
    let mut rem: u32 = m as u32;
    let mut res: i32 = 0;
    let mut t: usize = 0;
    while t < m
        invariant
            m == sp.len(),
            parts.deep_view() == sp,
            m == parts@.len(),
            t <= m,
            rem <= 10,
            nmf_ok(sp, t as int, rem as int, res as int),
            nmf(sp, 0, m as int, 0) == nmf(sp, t as int, rem as int, res as int),
        decreases m - t,
    {
        let trimmed = trim_str(parts[t].as_str());
        proof {
            assert(parts@[t as int].deep_view() == sp[t as int]);
            assert(trimmed@ == trim_m(sp[t as int]));
        }
        if placeholder(trimmed.as_str()) {
            res = res - 1;
        } else {
            let tv = tens_value(trimmed.as_str());
            if tv >= 0 {
                res = res + tv;
            } else {
                let idx = numonym_value(trimmed.as_str());
                let scale = pow10(rem - 1);
                res = res + idx * scale;
            }
            rem = rem - 1;
        }
        t = t + 1;
    }
    res
}

/// One row of a primitivization: the letter count, its spelling, and the
/// primitive discrepancy of the spelling read back as a number.
pub struct PrimResult {
    pub prim: i32,
    pub eng: String,
    pub pd: i32,
}

/// Builds one row.
pub fn build_prim_result(prim: i32, eng: &String, pd: i32) -> (r: PrimResult)
    ensures
        r.prim == prim,
        r.eng@ == eng@,
        r.pd == pd,
{
    PrimResult { prim, eng: eng.clone(), pd }
}

/// Whether a spelling reads back cleanly: few enough words, every word
/// understood, and every step of the reading within the machine's
/// integers.
pub open spec fn spelling_ok(s: Seq<char>) -> bool {
    &&& split_sp(s).len() <= 10
    &&& (s.len() > 0 ==> nmf_ok(split_sp(s), 0, split_sp(s).len() as int, 0))
}

/// The number a spelling reads back as; an empty spelling reads as zero.
pub open spec fn nummify_m(s: Seq<char>) -> int {
    if s.len() == 0 {
        0
    } else {
        nmf(split_sp(s), 0, split_sp(s).len() as int, 0)
    }
}

/// The primitive discrepancy of a number.
pub open spec fn pd_m(n: int) -> int {
    n - tally_m(ang_m(n))
}

/// Reads a spelled-out number, first testing that the spelling reads back
/// cleanly; a spelling that does not gives nothing.
pub fn nummify_checked(query: &str) -> (r: Option<i32>)
    ensures
        spelling_ok(query@) ==> (r matches Some(v) && v as int == nummify_m(query@)),
        !spelling_ok(query@) ==> r is None,
{
    if check_spelling(query) {
        proof {
            assert(split_sp(query@).len() <= 10);
        }
        Some(nummify(query))
    } else {
        None
    }
}

/// Splits a text at every single space, keeping empty pieces.
#[verifier::loop_isolation(false)]
fn split_spaces(query: &str) -> (parts: Vec<String>)
    ensures
        parts.deep_view() == split_sp(query@),
{
    let v = chars_of(query);
    let n = v.len();
    let mut parts: Vec<String> = Vec::new();
    let mut i: usize = 0;
    let mut done = false;
    proof {
        assert(parts.deep_view() =~~= Seq::<Seq<char>>::empty());
        assert(v@.skip(0) =~= v@);
        assert(Seq::<Seq<char>>::empty().add(split_sp(v@.skip(0))) =~~= split_sp(v@));
    }
    while !done
        invariant
            n == v@.len(),
            v@ == query@,
            i <= n,
            !done ==> split_sp(query@) == parts.deep_view().add(split_sp(v@.skip(i as int))),
            done ==> split_sp(query@) == parts.deep_view(),
        decreases n - i, (if done {
            0int
        } else {
            1int
        }),
    {
        let mut j: usize = i;
        while j < n && v[j] != ' '
            invariant
                i <= j <= n,
                forall|t: int| i <= t < j ==> v@[t] != ' ',
            decreases n - j,
        {
            j = j + 1;
        }
        let mut frag: Vec<char> = Vec::new();
        let mut k: usize = i;
        while k < j
            invariant
                i <= k <= j <= n,
                frag@ == v@.subrange(i as int, k as int),
            decreases j - k,
        {
            frag.push(v[k]);
            k = k + 1;
            proof {
                assert(frag@ =~= v@.subrange(i as int, k as int));
            }
        }
        let ghost before = parts.deep_view();
        parts.push(crate::text::string_of(&frag));
        proof {
            assert(parts.deep_view() =~~= before.push(v@.subrange(i as int, j as int)));
            let rest = v@.skip(i as int);
            if j < n {
                crate::text::lemma_char_index_is(rest, ' ', j - i);
                assert(rest.take(j - i) =~= v@.subrange(i as int, j as int));
                assert(rest.skip(j - i + 1) =~= v@.skip(j + 1));
                assert(split_sp(rest) == seq![v@.subrange(i as int, j as int)].add(
                    split_sp(v@.skip(j + 1)),
                ));
                assert(before.push(v@.subrange(i as int, j as int)).add(split_sp(v@.skip(j + 1)))
                    =~~= before.add(split_sp(rest)));
            } else {
                crate::text::lemma_char_index_none(rest, ' ');
                assert(rest =~= v@.subrange(i as int, j as int));
                assert(split_sp(rest) == seq![v@.subrange(i as int, j as int)]);
                assert(before.push(v@.subrange(i as int, j as int)) =~~= before.add(
                    split_sp(rest),
                ));
            }
        }
        if j < n {
            i = j + 1;
        } else {
            done = true;
        }
    }
    parts
}

/// Tests whether a spelling reads back cleanly.
#[verifier::loop_isolation(false)]
#[verifier::rlimit(100)]
fn check_spelling(query: &str) -> (r: bool)
    ensures
        r == spelling_ok(query@),
{
    if query.unicode_len() == 0 {
        let parts = split_spaces(query);
        proof {
            assert(split_sp(query@).len() == parts.deep_view().len());
        }
        return parts.len() <= 10;
    }
    let parts = split_spaces(query);
    let m = parts.len();
    proof {
        assert(parts.deep_view().len() == parts@.len());
    }
    if m > 10 {
        return false;
    }
    let ghost sp = split_sp(query@);
    let mut rem: u32 = m as u32;
    let mut res: i32 = 0;
    let mut t: usize = 0;
    while t < m
        invariant
            m == sp.len(),
            parts.deep_view() == sp,
            m == parts@.len(),
            t <= m,
            rem <= 10,
            nmf_ok(sp, 0, m as int, 0) == nmf_ok(sp, t as int, rem as int, res as int),
        decreases m - t,
    {
        let trimmed = trim_str(parts[t].as_str());
        proof {
            assert(parts@[t as int].deep_view() == sp[t as int]);
            assert(trimmed@ == trim_m(sp[t as int]));
        }
        if placeholder(trimmed.as_str()) {
            match res.checked_sub(1) {
                Some(v) => {
                    res = v;
                },
                None => {
                    return false;
                },
            }
        } else {
            let tv = tens_value(trimmed.as_str());
            if tv >= 0 {
                if rem == 0 {
                    return false;
                }
                match res.checked_add(tv) {
                    Some(v) => {
                        res = v;
                    },
                    None => {
                        return false;
                    },
                }
                rem = rem - 1;
            } else {
                let idx = numonym_value(trimmed.as_str());
                if idx < 0 {
                    return false;
                }
                if rem == 0 {
                    return false;
                }
                let scale = pow10(rem - 1);
                let scaled = match idx.checked_mul(scale) {
                    Some(v) => v,
                    None => {
                        return false;
                    },
                };
                match res.checked_add(scaled) {
                    Some(v) => {
                        res = v;
                    },
                    None => {
                        return false;
                    },
                }
                rem = rem - 1;
            }
        }
        t = t + 1;
    }
    true
}

/// How many rounds a primitivization is followed for at most.
pub const PRIM_ROUNDS: u32 = 1000;

/// The value view of a row.
pub open spec fn row_views(rs: Seq<PrimResult>) -> Seq<(int, Seq<char>, int)> {
    rs.map_values(|r: PrimResult| (r.prim as int, r.eng@, r.pd as int))
}

/// The rows a primitivization produces within a round bound: each round
/// counts the letters of the text so far, spells the count, and records
/// the count, the spelling, and the primitive discrepancy of the spelling
/// read back. The chain stops at a count of four, at a spelling that does
/// not read back cleanly, or when the rounds run out.
pub open spec fn prim_rows_m(out: Seq<char>, fuel: int) -> Seq<(int, Seq<char>, int)>
    decreases fuel,
{
    if fuel <= 0 {
        Seq::empty()
    } else {
        let prim = tally_m(out);
        let eng = ang_m(prim);
        if !spelling_ok(eng) {
            Seq::empty()
        } else {
            let row = (prim, eng, pd_m(nummify_m(eng)));
            if prim == 4 {
                seq![row]
            } else {
                seq![row].add(prim_rows_m(eng, fuel - 1))
            }
        }
    }
}

/// Tallies and anglicizes in turn until the tally settles at four, its
/// fixed point, recording each round. Rounds whose spelling does not read
/// back as a number end the chain early, as does the round bound.
#[verifier::loop_isolation(false)]
pub fn primitivize(query: &str) -> (rows: Vec<PrimResult>)
    requires
        query@.len() <= i32::MAX,
    ensures
        row_views(rows@) == prim_rows_m(query@, PRIM_ROUNDS as int),
{
    let mut res: Vec<PrimResult> = Vec::new();
    let mut prim: i32 = -1;
    let mut out = String::from_str(query);
    let mut fuel: u32 = PRIM_ROUNDS;
    let ghost full = prim_rows_m(query@, PRIM_ROUNDS as int);
    proof {
        assert(row_views(res@) =~= Seq::<(int, Seq<char>, int)>::empty());
        assert(Seq::<(int, Seq<char>, int)>::empty().add(prim_rows_m(query@, fuel as int))
            =~= full);
    }
    while prim != 4 && fuel > 0
        invariant
            out@.len() <= i32::MAX,
            prim != 4 ==> full == row_views(res@).add(prim_rows_m(out@, fuel as int)),
            prim == 4 ==> full == row_views(res@),
        decreases fuel,
    {
        let ghost out0 = out@;
        prim = tally(out.as_str());
        proof {
            lemma_tally_bounds(out@);
        }
        out = anglicize(&prim);
        proof {
            lemma_ang_len(prim as int);
        }
        let ghost eng = out@;
        match nummify_checked(out.as_str()) {
            Some(v) => {
                let row_pd = pd(v);
                let ghost before = row_views(res@);
                res.push(build_prim_result(prim, &out, row_pd));
                proof {
                    assert(row_views(res@) =~= before.push((prim as int, eng, row_pd as int)));
                    assert(prim_rows_m(out0, fuel as int) == (if prim == 4 {
                        seq![(prim as int, eng, pd_m(nummify_m(eng)))]
                    } else {
                        seq![(prim as int, eng, pd_m(nummify_m(eng)))].add(
                            prim_rows_m(eng, fuel - 1),
                        )
                    }));
                    assert(row_pd as int == pd_m(nummify_m(eng)));
                    if prim == 4 {
                        assert(before.push((prim as int, eng, row_pd as int)) =~= before.add(
                            seq![(prim as int, eng, row_pd as int)],
                        ));
                    } else {
                        assert(before.push((prim as int, eng, row_pd as int)).add(
                            prim_rows_m(eng, fuel - 1),
                        ) =~= before.add(
                            seq![(prim as int, eng, row_pd as int)].add(
                                prim_rows_m(eng, fuel - 1),
                            ),
                        ));
                    }
                }
            },
            None => {
                proof {
                    assert(prim_rows_m(out0, fuel as int) =~= Seq::<(int, Seq<char>, int)>::empty());
                    assert(row_views(res@).add(Seq::<(int, Seq<char>, int)>::empty()) =~= row_views(
                        res@,
                    ));
                }
                return res;
            },
        }
        fuel = fuel - 1;
    }
    proof {
        if prim != 4 {
            assert(fuel == 0);
            assert(prim_rows_m(out@, 0) =~= Seq::<(int, Seq<char>, int)>::empty());
            assert(row_views(res@).add(Seq::<(int, Seq<char>, int)>::empty()) =~= row_views(res@));
        }
    }
    res
}

} // verus!
