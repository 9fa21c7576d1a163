//! Command-line intake for the formula evaluator: the parsed arguments
//! and the sanitizer that reduces a raw query to the characters the
//! tokenizer reads.

use crate::text::{chars_of, push_char};
use crate::tokens::is_space_c;
use vstd::prelude::*;

verus! {

/// The arguments of one invocation: the query, any flags after it, and
/// whether nothing was given at all.
pub struct Config {
    pub query: String,
    pub flags: Vec<String>,
    pub none: bool,
}

/// An ASCII punctuation character.
pub open spec fn is_punct_c(c: char) -> bool {
    ('!' <= c <= '/') || (':' <= c <= '@') || ('[' <= c <= '`') || ('{' <= c <= '~')
}

/// What the sanitizer keeps of a formula: letters, digits, punctuation
/// and whitespace.
pub open spec fn keep_formula() -> spec_fn(char) -> bool {
    |c: char| crate::aq::is_alnum_c(c) || is_punct_c(c) || is_space_c(c)
}

/// A character mapped to lower case. Only the ASCII letters move; any
/// other character stays as it is.
pub open spec fn lowc_m(c: char) -> char {
    if 'A' <= c <= 'Z' {
        ((c as u32) + 32) as char
    } else {
        c
    }
}

/// A formula reduced for parsing: everything but letters, digits,
/// punctuation and whitespace is dropped, and what stays is mapped to
/// lower case.
pub open spec fn sanitize_formula_m(s: Seq<char>) -> Seq<char> {
    s.filter(keep_formula()).map_values(|c: char| lowc_m(c))
}

/// Relies on `char::to_ascii_lowercase`: maps the letters `A` to `Z` to
/// their lower-case forms and leaves every other character unchanged.
#[verifier::external_body]
fn lower_ascii(c: char) -> (r: char)
    ensures
        r == lowc_m(c),
{
    c.to_ascii_lowercase()
}

/// Drops every character that is not an ASCII letter, digit, punctuation
/// mark or whitespace — characters beyond ASCII among them — and maps
/// the rest to lower case.
#[verifier::loop_isolation(false)]
pub fn sanitize_query(query: &str) -> (r: String)
    ensures
        r@ == sanitize_formula_m(query@),
{
    let chars = chars_of(query);
    let n = chars.len();
    let mut kept: Vec<char> = Vec::new();
    let mut i: usize = 0;
    proof {
        reveal(Seq::filter);
        assert(query@.take(0) =~= Seq::<char>::empty());
        assert(kept@ =~= query@.take(0).filter(keep_formula()));
    }
    while i < n
        invariant
            i <= n,
            kept@ == query@.take(i as int).filter(keep_formula()),
        decreases n - i,
    {
        let c = chars[i];
        proof {
            reveal(Seq::filter);
            assert(query@.take(i + 1).drop_last() =~= query@.take(i as int));
            assert(query@.take(i + 1).last() == query@[i as int]);
        }
        let is_digit = '0' <= c && c <= '9';
        let is_lower = 'a' <= c && c <= 'z';
        let is_upper = 'A' <= c && c <= 'Z';
        let is_punct = ('!' <= c && c <= '/') || (':' <= c && c <= '@') || ('[' <= c && c <= '`')
            || ('{' <= c && c <= '~');
        let is_ws = crate::tokens::is_space(c);
        if is_digit || is_lower || is_upper || is_punct || is_ws {
            kept.push(c);
            proof {
                assert(kept@ =~= query@.take(i + 1).filter(keep_formula()));
            }
        }
        i = i + 1;
    }
    proof {
        assert(query@.take(n as int) =~= query@);
    }
    let mut out = String::new();
    let ghost lowered = kept@.map_values(|c: char| lowc_m(c));
    let mut k: usize = 0;
    while k < kept.len()
        invariant
            k <= kept@.len(),
            out@ == lowered.take(k as int),
        decreases kept@.len() - k,
    {
        push_char(&mut out, lower_ascii(kept[k]));
        k = k + 1;
        proof {
            assert(out@ =~= lowered.take(k as int));
        }
    }
    proof {
        assert(lowered.take(kept@.len() as int) =~= lowered);
    }
    out
}

impl Config {
    /// Reads an argument list: no argument past the program name leaves
    /// everything empty and marks that nothing was given; one argument is
    /// the query, sanitized; more leave the rest as flags.
    pub fn new(args: &Vec<String>) -> (r: Result<Config, &'static str>)
        requires
            args@.len() >= 1,
        ensures
            r matches Ok(c) ==> ({
                &&& args@.len() == 1 ==> c.query@ == Seq::<char>::empty() && c.flags@.len() == 0
                    && c.none == true
                &&& args@.len() >= 2 ==> c.query@ == sanitize_formula_m(args@[1]@) && c.none
                    == false && c.flags.deep_view() == args.deep_view().skip(2)
            }),
            r is Ok,
    {
        if args.len() == 1 {
            return Ok(Config { query: String::new(), flags: Vec::new(), none: true });
        }
        let query = sanitize_query(args[1].as_str());
        let mut flags: Vec<String> = Vec::new();
        let mut i: usize = 2;
        proof {
            assert(flags.deep_view() =~~= args.deep_view().skip(2).take(0));
        }
        while i < args.len()
            invariant
                2 <= i <= args@.len(),
                args@.len() >= 2,
                flags.deep_view() == args.deep_view().skip(2).take(i - 2),
            decreases args@.len() - i,
        {
            let item = args[i].clone();
            proof {
                assert(item@ == args@[i as int]@);
            }
            let ghost prev = flags.deep_view();
            flags.push(item);
            i = i + 1;
            proof {
                assert(flags.deep_view() =~~= prev.push(args@[i - 1]@));
                assert(flags.deep_view() =~~= args.deep_view().skip(2).take(i - 2));
            }
        }
        proof {
            assert(args.deep_view().skip(2).take(args@.len() - 2) =~~= args.deep_view().skip(2));
        }
        Ok(Config { query, flags, none: false })
    }
}

} // verus!
