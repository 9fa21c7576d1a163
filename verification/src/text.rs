//! Character-level helpers shared by the other modules: reading a `&str` out
//! into its characters, appending characters to a `String`, and rendering
//! integers in decimal.

use vstd::prelude::*;

verus! {

/// Relies on `String::push`: appends one character at the end of the string.
#[verifier::external_body]
pub fn push_char(s: &mut String, c: char)
    ensures
        final(s)@ == old(s)@.push(c),
{
    s.push(c);
}

/// The characters of a string, as a vector.
pub fn chars_of(s: &str) -> (v: Vec<char>)
    ensures
        v@ == s@,
{
    let n = s.unicode_len();
    let mut v: Vec<char> = Vec::new();
    let mut i: usize = 0;
    while i < n
        invariant
            n == s@.len(),
            i <= n,
            v@ == s@.subrange(0, i as int),
        decreases n - i,
    {
        v.push(s.get_char(i));
        i = i + 1;
        proof {
            assert(v@ =~= s@.subrange(0, i as int));
        }
    }
    proof {
        assert(v@ =~= s@);
    }
    v
}

/// Builds the string holding exactly the given characters.
pub fn string_of(chars: &Vec<char>) -> (s: String)
    ensures
        s@ == chars@,
{
    let mut s = String::new();
    let mut i: usize = 0;
    while i < chars.len()
        invariant
            i <= chars@.len(),
            s@ == chars@.subrange(0, i as int),
        decreases chars@.len() - i,
    {
        push_char(&mut s, chars[i]);
        i = i + 1;
        proof {
            assert(s@ =~= chars@.subrange(0, i as int));
        }
    }
    proof {
        assert(s@ =~= chars@);
    }
    s
}

/// Whether two strings hold the same characters.
pub fn eq_str(a: &str, b: &str) -> (r: bool)
    ensures
        r == (a@ == b@),
{
    let na = a.unicode_len();
    let nb = b.unicode_len();
    if na != nb {
        return false;
    }
    let mut i: usize = 0;
    while i < na
        invariant
            na == a@.len(),
            na == b@.len(),
            i <= na,
            forall|j: int| 0 <= j < i ==> a@[j] == b@[j],
        decreases na - i,
    {
        if a.get_char(i) != b.get_char(i) {
            return false;
        }
        i = i + 1;
    }
    proof {
        assert(a@ =~= b@);
    }
    true
}

/// The character for a single decimal digit.
pub open spec fn digit_char(d: int) -> char
    recommends
        0 <= d <= 9,
{
    ((48 + d) as u8) as char
}

/// The decimal digits of a non-negative integer, most significant first.
pub open spec fn dec_digits(n: int) -> Seq<char>
    recommends
        n >= 0,
    decreases n,
{
    if n < 10 {
        seq![digit_char(n)]
    } else {
        dec_digits(n / 10).push(digit_char(n % 10))
    }
}

/// The decimal rendering of an integer, with a leading minus sign when
/// negative.
pub open spec fn dec_str(n: int) -> Seq<char> {
    if n >= 0 {
        dec_digits(n)
    } else {
        seq!['-'].add(dec_digits(-n))
    }
}

/// Renders a non-negative integer in decimal.
pub fn u64_to_string(n: u64) -> (s: String)
    ensures
        s@ == dec_digits(n as int),
{
    let mut digits: Vec<char> = Vec::new();
    let mut m: u64 = n;
    proof {
        assert(dec_digits(n as int) =~= dec_digits(m as int).add(digits@));
    }
    while m >= 10
        invariant
            dec_digits(n as int) == dec_digits(m as int).add(digits@),
        decreases m,
    {
        let d: u64 = m % 10;
        digits.insert(0, (48 + d as u8) as char);
        proof {
            assert(dec_digits(m as int) == dec_digits(m as int / 10).push(digit_char(
                m as int % 10,
            )));
            assert((48 + d as u8) as char == digit_char(m as int % 10));
            assert(dec_digits(m as int / 10).push(digit_char(m as int % 10)).add(
                digits@.drop_first(),
            ) =~= dec_digits(m as int / 10).add(digits@));
        }
        m = m / 10;
    }
    let mut all: Vec<char> = Vec::new();
    all.push((48 + m as u8) as char);
    proof {
        assert(all@ =~= dec_digits(m as int));
        assert(all@ =~= dec_digits(m as int).add(digits@.subrange(0, 0)));
    }
    let mut i: usize = 0;
    while i < digits.len()
        invariant
            i <= digits@.len(),
            all@ == dec_digits(m as int).add(digits@.subrange(0, i as int)),
            dec_digits(n as int) == dec_digits(m as int).add(digits@),
        decreases digits@.len() - i,
    {
        all.push(digits[i]);
        i = i + 1;
        proof {
            assert(all@ =~= dec_digits(m as int).add(digits@.subrange(0, i as int)));
        }
    }
    proof {
        assert(digits@.subrange(0, digits@.len() as int) =~= digits@);
        assert(all@ =~= dec_digits(n as int));
    }
    string_of(&all)
}

/// Renders an integer in decimal, with a minus sign when negative.
pub fn i64_to_string(n: i64) -> (s: String)
    ensures
        s@ == dec_str(n as int),
{
    if n >= 0 {
        u64_to_string(n as u64)
    } else {
        let mag: u64 = (-(n as i128)) as u64;
        proof {
            assert(mag as int == -(n as int));
        }
        let body = u64_to_string(mag);
        let mut s = String::new();
        push_char(&mut s, '-');
        let out = s.concat(body.as_str());
        proof {
            assert(out@ =~= dec_str(n as int));
        }
        out
    }
}


/// The first position of a character in a sequence, `-1` when absent.
pub open spec fn char_index(cipher: Seq<char>, c: char) -> int
    decreases cipher.len(),
{
    if cipher.len() == 0 {
        -1
    } else if cipher[0] == c {
        0
    } else {
        let r = char_index(cipher.drop_first(), c);
        if r < 0 {
            -1
        } else {
            r + 1
        }
    }
}

/// A position found in a sequence sits below its length.
pub proof fn lemma_char_index_bound(cipher: Seq<char>, c: char)
    ensures
        char_index(cipher, c) < cipher.len(),
        -1 <= char_index(cipher, c),
    decreases cipher.len(),
{
    if cipher.len() > 0 && cipher[0] != c {
        lemma_char_index_bound(cipher.drop_first(), c);
    }
}

/// A character that first appears at position `k` has that position as
/// its index.
pub proof fn lemma_char_index_is(cipher: Seq<char>, c: char, k: int)
    requires
        0 <= k < cipher.len(),
        cipher[k] == c,
        forall|j: int| 0 <= j < k ==> cipher[j] != c,
    ensures
        char_index(cipher, c) == k,
    decreases cipher.len(),
{
    if k > 0 {
        lemma_char_index_is(cipher.drop_first(), c, k - 1);
    }
}

/// A character nowhere in the cipher has no position.
pub proof fn lemma_char_index_none(cipher: Seq<char>, c: char)
    requires
        forall|j: int| 0 <= j < cipher.len() ==> cipher[j] != c,
    ensures
        char_index(cipher, c) == -1,
    decreases cipher.len(),
{
    if cipher.len() > 0 {
        lemma_char_index_none(cipher.drop_first(), c);
    }
}

} // verus!
