//! Gematria and decimation for the Anglossic Qabbala: a query string is
//! summed by the position of each character in the alphanumeric cipher
//! `0123456789ABCDEFGHIJKLMNOPQRSTUVWXYZ` (characters outside the cipher
//! count zero), and the sum is then digitally reduced to a single digit,
//! keeping every intermediate value.

use crate::text::{char_index, chars_of, lemma_char_index_bound, lemma_char_index_is, lemma_char_index_none, push_char};
use crate::tokens::is_space_c;
use vstd::prelude::*;

verus! {

/// The value a cipher gives a character: its position, or zero when the
/// character is not in the cipher.
pub open spec fn cipher_value(cipher: Seq<char>, c: char) -> int {
    if char_index(cipher, c) < 0 {
        0
    } else {
        char_index(cipher, c)
    }
}

/// The gematria of a text under a cipher: the sum of its characters'
/// values.
pub open spec fn gematria_m(cipher: Seq<char>, s: Seq<char>) -> int
    decreases s.len(),
{
    if s.len() == 0 {
        0
    } else {
        gematria_m(cipher, s.drop_last()) + cipher_value(cipher, s.last())
    }
}

/// The cipher of the Anglossic Qabbala.
pub open spec fn aq_cipher() -> Seq<char> {
    "0123456789ABCDEFGHIJKLMNOPQRSTUVWXYZ"@
}

/// The sum of the decimal digits of a non-negative number, the number
/// itself when it is a single digit.
pub open spec fn dsum(n: int) -> int
    recommends
        n >= 0,
    decreases n,
{
    if n < 10 {
        n
    } else {
        n % 10 + dsum(n / 10)
    }
}

#[via_fn]
proof fn nummif_seq_via(g: int) {
    if g >= 10 {
        lemma_dsum_lt(g);
    }
}

/// The chain of digital reductions: the number, then the reduction of its
/// digit sum, down to a single digit.
pub open spec fn nummif_seq(g: int) -> Seq<int>
    recommends
        g >= 0,
    decreases g when g >= 0 via nummif_seq_via
{
    if g < 10 {
        seq![g]
    } else {
        seq![g].add(nummif_seq(dsum(g)))
    }
}

/// The integers a vector holds.
pub open spec fn ints_of(v: Seq<i32>) -> Seq<int> {
    v.map_values(|x: i32| x as int)
}

/// A gematria sum is non-negative and at most the cipher length for every
/// character counted.
pub proof fn lemma_gematria_bounds(cipher: Seq<char>, s: Seq<char>)
    ensures
        0 <= gematria_m(cipher, s) <= s.len() * cipher.len(),
    decreases s.len(),
{
    if s.len() == 0 {
    } else {
        lemma_gematria_bounds(cipher, s.drop_last());
        lemma_char_index_bound(cipher, s.last());
        assert((s.len() - 1) * cipher.len() == s.len() * cipher.len() - cipher.len())
            by (nonlinear_arith);
    }
}

/// The digit sum of a non-negative number is non-negative and no larger
/// than the number.
pub proof fn lemma_dsum_le(n: int)
    requires
        n >= 0,
    ensures
        0 <= dsum(n) <= n,
    decreases n,
{
    if n >= 10 {
        lemma_dsum_le(n / 10);
    }
}

/// The digit sum of a multi-digit number is strictly smaller than the
/// number.
pub proof fn lemma_dsum_lt(n: int)
    requires
        n >= 10,
    ensures
        0 <= dsum(n) < n,
{
    lemma_dsum_le(n / 10);
}

/// The first position of a character in a cipher string, or zero when the
/// character is not there.
fn find_in(cipher: &str, c: char) -> (r: i32)
    requires
        cipher@.len() <= i32::MAX,
    ensures
        r as int == cipher_value(cipher@, c),
        0 <= r <= cipher@.len(),
{
    let chars = chars_of(cipher);
    let n = chars.len();
    let mut i: usize = 0;
    while i < n
        invariant
            chars@ == cipher@,
            n == cipher@.len(),
            n <= i32::MAX,
            i <= n,
            forall|j: int| 0 <= j < i ==> cipher@[j] != c,
        decreases n - i,
    {
        if chars[i] == c {
            proof {
                lemma_char_index_is(cipher@, c, i as int);
            }
            return i as i32;
        }
        i = i + 1;
    }
    proof {
        lemma_char_index_none(cipher@, c);
    }
    0
}

/// The gematria of a query under a cipher: each character counts its
/// position in the cipher, or zero when it is not there — lowercase and
/// anything non-alphanumeric are simply ignored by the cipher of the
/// Anglossic Qabbala.
pub fn gematria(query: &str, cipher: &str) -> (r: i32)
    requires
        query@.len() * cipher@.len() <= i32::MAX,
        cipher@.len() <= i32::MAX,
    ensures
        r as int == gematria_m(cipher@, query@),
{
    let chars = chars_of(query);
    let n = chars.len();
    let mut acc: i32 = 0;
    let mut i: usize = 0;
    proof {
        assert(chars@.take(0) =~= Seq::<char>::empty());
    }
    while i < n
        invariant
            chars@ == query@,
            n == query@.len(),
            query@.len() * cipher@.len() <= i32::MAX,
            cipher@.len() <= i32::MAX,
            i <= n,
            acc as int == gematria_m(cipher@, query@.take(i as int)),
            0 <= acc <= i * cipher@.len(),
        decreases n - i,
    {
        let v = find_in(cipher, chars[i]);
        proof {
            assert(query@.take(i + 1).drop_last() =~= query@.take(i as int));
            assert(query@.take(i + 1).last() == query@[i as int]);
            assert(i * cipher@.len() + cipher@.len() == (i + 1) * cipher@.len())
                by (nonlinear_arith);
            assert((i + 1) * cipher@.len() <= query@.len() * cipher@.len()) by (nonlinear_arith)
                requires
                    i + 1 <= query@.len(),
                    cipher@.len() >= 0,
            ;
        }
        acc = acc + v;
        i = i + 1;
    }
    proof {
        assert(query@.take(n as int) =~= query@);
    }
    acc
}

/// Whether a number stands at a single decimal digit (by absolute value).
pub fn is_single_digit(n: &i32) -> (r: bool)
    requires
        *n > i32::MIN,
    ensures
        r == (if *n >= 0 {
            *n < 10
        } else {
            -*n < 10
        }),
{
    if *n < 0 {
        -*n < 10
    } else {
        *n < 10
    }
}

/// One step of digital reduction: the sum of the decimal digits of the
/// number's absolute value.
pub fn decimate(n: &i32) -> (r: i32)
    requires
        *n > i32::MIN,
    ensures
        r as int == dsum(
            if *n >= 0 {
                *n as int
            } else {
                -(*n as int)
            },
        ),
    decreases (if *n >= 0 {
        *n as int
    } else {
        -(*n as int)
    }),
{
    if is_single_digit(n) {
        if *n < 0 {
            -*n
        } else {
            *n
        }
    } else {
        let mag: u32 = if *n < 0 {
            (-*n) as u32
        } else {
            *n as u32
        };
        let rest: i32 = (mag / 10) as i32;
        proof {
            lemma_dsum_le(rest as int);
        }
        (mag % 10) as i32 + decimate(&rest)
    }
}

/// The full digital reduction of a query under the cipher of the
/// Anglossic Qabbala: its gematria first, then each further digit sum
/// down to a single digit.
pub fn nummificate(query: &str) -> (res: Vec<i32>)
    requires
        36 * query@.len() <= i32::MAX,
    ensures
        ints_of(res@) == nummif_seq(gematria_m(aq_cipher(), query@)),
{
    proof {
        reveal_strlit("0123456789ABCDEFGHIJKLMNOPQRSTUVWXYZ");
        assert(aq_cipher().len() == 36);
    }
    let mut res: Vec<i32> = Vec::new();
    let mut n: i32 = gematria(query, "0123456789ABCDEFGHIJKLMNOPQRSTUVWXYZ");
    proof {
        lemma_gematria_bounds(aq_cipher(), query@);
    }
    let ghost g = n as int;
    res.push(n);
    proof {
        assert(ints_of(res@) =~= seq![g]);
        if g < 10 {
            assert(seq![g].add(Seq::<int>::empty()) =~= seq![g]);
        } else {
            lemma_dsum_le(g);
        }
    }
    while !(n >= 0 && n < 10)
        invariant
            0 <= n,
            res@.len() >= 1,
            res@.last() == n,
            g >= 0,
            nummif_seq(g) == ints_of(res@).add(
                if n < 10 {
                    Seq::<int>::empty()
                } else {
                    nummif_seq(dsum(n as int))
                },
            ),
        decreases n,
    {
        proof {
            lemma_dsum_lt(n as int);
        }
        let ghost res_old = res@;
        let next = decimate(&n);
        proof {
            lemma_dsum_le(dsum(n as int));
            assert(nummif_seq(dsum(n as int)) == seq![dsum(n as int)].add(
                if dsum(n as int) < 10 {
                    Seq::<int>::empty()
                } else {
                    nummif_seq(dsum(dsum(n as int)))
                },
            ));
        }
        n = next;
        res.push(n);
        proof {
            assert(ints_of(res@) =~= ints_of(res_old).push(n as int));
            assert(ints_of(res_old).add(
                seq![n as int].add(
                    if n < 10 {
                        Seq::<int>::empty()
                    } else {
                        nummif_seq(dsum(n as int))
                    },
                ),
            ) =~= ints_of(res@).add(
                if n < 10 {
                    Seq::<int>::empty()
                } else {
                    nummif_seq(dsum(n as int))
                },
            ));
        }
    }
    proof {
        assert(ints_of(res@).add(Seq::<int>::empty()) =~= ints_of(res@));
    }
    res
}

/// An ASCII letter or digit.
pub open spec fn is_alnum_c(c: char) -> bool {
    ('0' <= c <= '9') || ('a' <= c <= 'z') || ('A' <= c <= 'Z')
}

/// What the sanitizer keeps of a query: letters, digits and whitespace.
pub open spec fn keep_alnum_ws() -> spec_fn(char) -> bool {
    |c: char| is_alnum_c(c) || is_space_c(c)
}

/// A query reduced for valuation: everything but letters, digits and
/// whitespace is dropped, and what stays is mapped to upper case.
pub open spec fn sanitize_m(s: Seq<char>) -> Seq<char> {
    upper_m(s.filter(keep_alnum_ws()))
}

/// Drops every character that is not an ASCII letter, digit or
/// whitespace, and maps the rest to upper case. Characters beyond ASCII
/// are dropped rather than kept; the cipher would value them at zero
/// either way.
#[verifier::loop_isolation(false)]
pub fn sanitize_query(q: &str) -> (r: String)
    ensures
        r@ == sanitize_m(q@),
{
    let chars = chars_of(q);
    let n = chars.len();
    let mut kept: Vec<char> = Vec::new();
    let mut i: usize = 0;
    proof {
        reveal(Seq::filter);
        assert(q@.take(0) =~= Seq::<char>::empty());
        assert(kept@ =~= q@.take(0).filter(keep_alnum_ws()));
    }
    while i < n
        invariant
            i <= n,
            kept@ == q@.take(i as int).filter(keep_alnum_ws()),
        decreases n - i,
    {
        let c = chars[i];
        proof {
            reveal(Seq::filter);
            assert(q@.take(i + 1).drop_last() =~= q@.take(i as int));
            assert(q@.take(i + 1).last() == q@[i as int]);
        }
        let is_digit = '0' <= c && c <= '9';
        let is_lower = 'a' <= c && c <= 'z';
        let is_upper = 'A' <= c && c <= 'Z';
        let is_ws = crate::tokens::is_space(c);
        if is_digit || is_lower || is_upper || is_ws {
            kept.push(c);
            proof {
                assert(kept@ =~= q@.take(i + 1).filter(keep_alnum_ws()));
            }
        }
        i = i + 1;
    }
    proof {
        assert(q@.take(n as int) =~= q@);
    }
    let mut out = String::new();
    let mut k: usize = 0;
    while k < kept.len()
        invariant
            k <= kept@.len(),
            out@ == upper_m(kept@).take(k as int),
        decreases kept@.len() - k,
    {
        push_char(&mut out, upper_ascii(kept[k]));
        k = k + 1;
        proof {
            assert(out@ =~= upper_m(kept@).take(k as int));
        }
    }
    proof {
        assert(upper_m(kept@).take(kept@.len() as int) =~= upper_m(kept@));
    }
    out
}

} // verus!
// The hex-trinome views: every character is valued on its own, and the
// values are taken three at a time.

verus! {

/// A character mapped to upper case. Only the ASCII letters move; any
/// other character, Unicode letters included, stays as it is.
pub open spec fn upc_m(c: char) -> char {
    if 'a' <= c <= 'z' {
        ((c as u32) - 32) as char
    } else {
        c
    }
}

/// The characters of a text mapped to upper case.
pub open spec fn upper_m(s: Seq<char>) -> Seq<char> {
    s.map_values(|c: char| upc_m(c))
}

/// Relies on `char::to_ascii_uppercase`: maps the letters `a` to `z` to
/// their upper-case forms and leaves every other character unchanged.
#[verifier::external_body]
pub fn upper_ascii(c: char) -> (r: char)
    ensures
        r == upc_m(c),
{
    c.to_ascii_uppercase()
}

/// A query mapped to upper case, character by character.
pub fn upper_str(s: &str) -> (r: String)
    ensures
        r@ == upper_m(s@),
{
    let chars = chars_of(s);
    let mut out = String::new();
    let mut i: usize = 0;
    while i < chars.len()
        invariant
            chars@ == s@,
            i <= s@.len(),
            out@ == upper_m(s@).take(i as int),
        decreases s@.len() - i,
    {
        push_char(&mut out, upper_ascii(chars[i]));
        i = i + 1;
        proof {
            assert(out@ =~= upper_m(s@).take(i as int));
        }
    }
    proof {
        assert(upper_m(s@).take(s@.len() as int) =~= upper_m(s@));
    }
    out
}

/// The value one character contributes to a trinome: its upper-case
/// form's position in the cipher of the Anglossic Qabbala.
pub open spec fn trinome_val(c: char) -> int {
    cipher_value(aq_cipher(), upc_m(c))
}

/// The trinomes of a query: every three characters give one triple of
/// their values; one or two characters left at the end are dropped.
pub open spec fn triplets_m(s: Seq<char>) -> Seq<(u8, u8, u8)> {
    Seq::new(
        (s.len() / 3) as nat,
        |k: int|
            (
                trinome_val(s[3 * k]) as u8,
                trinome_val(s[3 * k + 1]) as u8,
                trinome_val(s[3 * k + 2]) as u8,
            ),
    )
}

/// Values a query three characters at a time: each character counts its
/// upper-cased position in the cipher of the Anglossic Qabbala; leftover
/// characters at the end, where the count is not a multiple of three, are
/// ignored.
pub fn hex_triplets(query: &str) -> (res: Vec<(u8, u8, u8)>)
    ensures
        res@ == triplets_m(query@),
{
    let chars = chars_of(query);
    let n = chars.len();
    let mut res: Vec<(u8, u8, u8)> = Vec::new();
    let mut buf: Vec<u8> = Vec::new();
    let mut i: usize = 0;
    proof {
        assert(res@ =~= triplets_m(query@).take(0));
    }
    while i < n
        invariant
            chars@ == query@,
            n == query@.len(),
            i <= n,
            buf@.len() == i % 3,
            res@ == triplets_m(query@).take(i as int / 3),
            forall|j: int|
                0 <= j < buf@.len() ==> #[trigger] buf@[j] as int == trinome_val(
                    query@[3 * (i as int / 3) + j],
                ),
        decreases n - i,
    {
        let u = upper_ascii(chars[i]);
        proof {
            reveal_strlit("0123456789ABCDEFGHIJKLMNOPQRSTUVWXYZ");
        }
        let v = find_in("0123456789ABCDEFGHIJKLMNOPQRSTUVWXYZ", u);
        proof {
            assert(v as int == trinome_val(query@[i as int]));
            assert(0 <= v <= 36);
        }
        buf.push(v as u8);
        i = i + 1;
        if buf.len() == 3 {
            let t = (buf[0], buf[1], buf[2]);
            res.push(t);
            buf = Vec::new();
            proof {
                assert(i as int / 3 == (i - 1) as int / 3 + 1);
                assert(t == triplets_m(query@)[i as int / 3 - 1]);
                assert(res@ =~= triplets_m(query@).take(i as int / 3));
            }
        } else {
            proof {
                assert(i as int / 3 == (i - 1) as int / 3);
            }
        }
    }
    proof {
        assert(triplets_m(query@).take(n as int / 3) =~= triplets_m(query@));
    }
    res
}

/// One trinome for a whole query: the query is upper-cased and summed
/// under the cipher of the Anglossic Qabbala, and each of the three
/// components reads the low byte of the sum — the shifts in the masking
/// formula bind tighter than the masks, so all three components coincide.
pub fn hex_trinome(query: &str) -> (res: (u8, u8, u8))
    requires
        36 * query@.len() <= i32::MAX,
    ensures
        res.0 as int == gematria_m(aq_cipher(), upper_m(query@)) % 256,
        res.1 as int == gematria_m(aq_cipher(), upper_m(query@)) % 256,
        res.2 as int == gematria_m(aq_cipher(), upper_m(query@)) % 256,
{
    let upper = upper_str(query);
    let reductions = nummificate(upper.as_str());
    let ghost g = gematria_m(aq_cipher(), upper_m(query@));
    proof {
        lemma_gematria_bounds(aq_cipher(), upper_m(query@));
        assert(nummif_seq(g).len() >= 1);
        assert(nummif_seq(g)[0] == g);
        assert(ints_of(reductions@)[0] == g);
    }
    let n: i32 = reductions[0];
    proof {
        assert(n & (0x00FF0000 >> 16) == n % 256) by (bit_vector)
            requires
                n >= 0,
        ;
        assert(n & (0x0000FF00 >> 8) == n % 256) by (bit_vector)
            requires
                n >= 0,
        ;
        assert(n & 0xFF == n % 256) by (bit_vector)
            requires
                n >= 0,
        ;
        assert(0 <= n % 256 < 256) by (bit_vector);
    }
    ((n & (0x00FF0000 >> 16)) as u8, (n & (0x0000FF00 >> 8)) as u8, (n & 0xFF) as u8)
}

} // verus!
