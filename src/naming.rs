//! The names under which declared variants appear as subcommands.
use vstd::prelude::*;
use vstd::std_specs::iter::IteratorSpec;

verus! {

/// `c` in lowercase when it is an ASCII capital, else `c` itself.
pub open spec fn ascii_lower(c: char) -> char {
    if 65 <= (c as int) <= 90 {
        ((c as int) + 32) as char
    } else {
        c
    }
}

/// Whether `c` is a capital ASCII letter.
pub open spec fn is_upper(c: char) -> bool {
    65 <= (c as int) <= 90
}

/// Whether `c` is a small ASCII letter or a digit.
pub open spec fn is_lower_or_digit(c: char) -> bool {
    97 <= (c as int) <= 122 || 48 <= (c as int) <= 57
}

/// Whether a new word of identifier `s` starts at `i`: a capital after a
/// small letter or digit, or the last capital of a run that a small letter
/// follows (`HTTPServer` is `HTTP` and `Server`).
pub open spec fn word_starts(s: Seq<char>, i: int) -> bool {
    0 < i < s.len() && is_upper(s[i]) && (is_lower_or_digit(s[i - 1]) || (is_upper(s[i - 1])
        && i + 1 < s.len() && 97 <= (s[i + 1] as int) <= 122))
}

/// What character `i` of identifier `s` becomes in the derived name.
pub open spec fn name_piece(s: Seq<char>, i: int) -> Seq<char> {
    if s[i] == '_' {
        seq!['-']
    } else if word_starts(s, i) {
        seq!['-', ascii_lower(s[i])]
    } else {
        seq![ascii_lower(s[i])]
    }
}

/// The derived name of the first `k` characters of identifier `s`.
pub open spec fn name_prefix(s: Seq<char>, k: int) -> Seq<char>
    decreases k,
{
    if k <= 0 {
        Seq::empty()
    } else {
        name_prefix(s, k - 1) + name_piece(s, k - 1)
    }
}

/// The name derived from an identifier: its words in lowercase joined by
/// hyphens, where underscores and capitals start words (`AddCmd` and
/// `Add_Cmd` both give `add-cmd`).
pub open spec fn default_name(ident: Seq<char>) -> Seq<char> {
    name_prefix(ident, ident.len() as int)
}

/// The external name of a variant: the explicit name when there is one,
/// else the name derived from its identifier.
pub open spec fn external_name(ident: Seq<char>, explicit: Option<Seq<char>>) -> Seq<char> {
    match explicit {
        Some(n) => n,
        None => default_name(ident),
    }
}

/// The characters of `s`, in order.
pub(crate) fn chars_of(s: &str) -> (r: Vec<char>)
    ensures
        r@ == s@,
{
    broadcast use vstd::string::group_string_axioms;

    let mut it = s.chars();
    let mut r: Vec<char> = Vec::new();
    loop
        invariant
            r@ + IteratorSpec::remaining(&it) == s@,
            it.obeys_prophetic_iter_laws(),
            IteratorSpec::decrease(&it) is Some,
        decreases IteratorSpec::decrease(&it)->0,
    {
        match it.next() {
            Some(c) => {
                r.push(c);
                assert(r@ + IteratorSpec::remaining(&it) =~= s@);
            },
            None => {
                assert(r@ =~= s@);
                return r;
            },
        }
    }
}

/// Relies on `char::to_string`: the string holds exactly that character.
#[verifier::external_body]
pub(crate) fn char_string(c: char) -> (r: String)
    ensures
        r@ == seq![c],
{
    c.to_string()
}

/// The string of exactly these characters.
pub(crate) fn string_of(cs: &Vec<char>) -> (r: String)
    ensures
        r@ == cs@,
{
    let mut r = String::new();
    let mut i: usize = 0;
    while i < cs.len()
        invariant
            i <= cs.len(),
            r@ == cs@.subrange(0, i as int),
        decreases cs.len() - i,
    {
        let c = char_string(cs[i]);
        r.append(c.as_str());
        assert(r@ =~= cs@.subrange(0, i + 1));
        i = i + 1;
    }
    assert(cs@.subrange(0, cs.len() as int) =~= cs@);
    r
}

/// The name derived from the identifier `ident`.
pub fn derived_name(ident: &str) -> (r: String)
    ensures
        r@ == default_name(ident@),
{
    let cs = chars_of(ident);
    let n = cs.len();
    let mut out: Vec<char> = Vec::new();
    let mut i: usize = 0;
    while i < n
        invariant
            i <= n,
            n == cs.len(),
            cs@ == ident@,
            out@ == name_prefix(cs@, i as int),
        decreases n - i,
    {
        let c = cs[i];
        let upper = 'A' <= c && c <= 'Z';
        let starts = upper && i > 0 && ((('a' <= cs[i - 1] && cs[i - 1] <= 'z') || ('0' <= cs[i
            - 1] && cs[i - 1] <= '9')) || ('A' <= cs[i - 1] && cs[i - 1] <= 'Z' && i + 1 < n
            && 'a' <= cs[i + 1] && cs[i + 1] <= 'z'));
        assert(starts == word_starts(cs@, i as int));
        if c == '_' {
            out.push('-');
        } else {
            if starts {
                out.push('-');
            }
            let d = if upper {
                #[verifier::truncate]
                let b = c as u8;
                (b + 32) as char
            } else {
                c
            };
            out.push(d);
        }
        assert(out@ =~= name_prefix(cs@, i + 1));
        i = i + 1;
    }
    string_of(&out)
}

/// The external name of a variant with identifier `ident` and, possibly, an
/// explicit name.
pub fn external_name_of(ident: &str, explicit: Option<String>) -> (r: String)
    ensures
        r@ == external_name(
            ident@,
            match explicit {
                Some(n) => Some(n@),
                None => None,
            },
        ),
{
    match explicit {
        Some(n) => n,
        None => derived_name(ident),
    }
}

} // verus!
