//! Alphabetical order of command names and of short-flag characters.
use vstd::prelude::*;
use vstd::relations::{sorted_by, total_ordering};

verus! {

broadcast use vstd::seq_lib::group_to_multiset_ensures;

/// Ordinary lexicographic order on names, compared code point by code point.
pub open spec fn lex_le(a: Seq<char>, b: Seq<char>) -> bool
    decreases a.len(),
{
    if a.len() == 0 {
        true
    } else if b.len() == 0 {
        false
    } else if a[0] != b[0] {
        (a[0] as int) < (b[0] as int)
    } else {
        lex_le(a.drop_first(), b.drop_first())
    }
}

/// The name order as a relation.
pub open spec fn name_leq() -> spec_fn(Seq<char>, Seq<char>) -> bool {
    |a: Seq<char>, b: Seq<char>| lex_le(a, b)
}

/// True when `c` is a capital ASCII letter.
pub open spec fn is_ascii_upper(c: char) -> bool {
    65 <= (c as int) <= 90
}

/// Place of a short-flag character in the flag order: letters compare as
/// their lowercase form, and of two letters that differ only in case the
/// lowercase one comes first.
pub open spec fn short_rank(c: char) -> int {
    if is_ascii_upper(c) {
        2 * ((c as int) + 32) + 1
    } else {
        2 * (c as int)
    }
}

/// The short-flag order as a relation.
pub open spec fn short_leq() -> spec_fn(char, char) -> bool {
    |a: char, b: char| short_rank(a) <= short_rank(b)
}

/// The view of each string of a sequence.
pub open spec fn views(s: Seq<String>) -> Seq<Seq<char>> {
    s.map_values(|x: String| x@)
}

/// Views of a sequence grown by one string.
pub proof fn lemma_views_push(s: Seq<String>, x: String)
    ensures
        views(s.push(x)) == views(s).push(x@),
{
    assert(views(s.push(x)) =~= views(s).push(x@));
}

proof fn lemma_lex_reflexive(a: Seq<char>)
    ensures
        lex_le(a, a),
    decreases a.len(),
{
    if a.len() > 0 {
        lemma_lex_reflexive(a.drop_first());
    }
}

proof fn lemma_lex_total(a: Seq<char>, b: Seq<char>)
    ensures
        lex_le(a, b) || lex_le(b, a),
        lex_le(a, b) && lex_le(b, a) ==> a == b,
    decreases a.len(),
{
    if a.len() > 0 && b.len() > 0 && a[0] == b[0] {
        lemma_lex_total(a.drop_first(), b.drop_first());
        if lex_le(a, b) && lex_le(b, a) {
            assert(a =~= seq![a[0]] + a.drop_first());
            assert(b =~= seq![b[0]] + b.drop_first());
        }
    } else if a.len() == 0 && b.len() == 0 {
        assert(a =~= b);
    }
}

proof fn lemma_lex_transitive(a: Seq<char>, b: Seq<char>, c: Seq<char>)
    requires
        lex_le(a, b),
        lex_le(b, c),
    ensures
        lex_le(a, c),
    decreases a.len(),
{
    if a.len() > 0 && b.len() > 0 && c.len() > 0 && a[0] == b[0] && b[0] == c[0] {
        lemma_lex_transitive(a.drop_first(), b.drop_first(), c.drop_first());
    }
}

/// The name order is a total order.
pub proof fn lemma_name_order_total()
    ensures
        total_ordering(name_leq()),
{
    assert forall|a: Seq<char>| #[trigger] name_leq()(a, a) by {
        lemma_lex_reflexive(a);
    }
    assert forall|a: Seq<char>, b: Seq<char>|
        #[trigger] name_leq()(a, b) || #[trigger] name_leq()(b, a) by {
        lemma_lex_total(a, b);
    }
    assert forall|a: Seq<char>, b: Seq<char>|
        #[trigger] name_leq()(a, b) && #[trigger] name_leq()(b, a) implies a == b by {
        lemma_lex_total(a, b);
    }
    assert forall|a: Seq<char>, b: Seq<char>, c: Seq<char>|
        #[trigger] name_leq()(a, b) && #[trigger] name_leq()(b, c) implies name_leq()(a, c) by {
        lemma_lex_transitive(a, b, c);
    }
}

/// The short-flag order is a total order: no two characters share a place.
pub proof fn lemma_short_order_total()
    ensures
        total_ordering(short_leq()),
{
    assert forall|a: char, b: char|
        #[trigger] short_leq()(a, b) && #[trigger] short_leq()(b, a) implies a == b by {
        assert((a as int) == (b as int));
    }
}

/// Place of `c` in the short-flag order.
pub fn short_rank_of(c: char) -> (r: u32)
    ensures
        r as int == short_rank(c),
{
    let v = c as u32;
    if 65 <= v && v <= 90 {
        2 * (v + 32) + 1
    } else {
        2 * v
    }
}

/// Whether `a` comes no later than `b` in the name order.
pub fn name_le(a: &String, b: &String) -> (r: bool)
    ensures
        r == lex_le(a@, b@),
{
    let sa = a.as_str();
    let sb = b.as_str();
    let na = sa.unicode_len();
    let nb = sb.unicode_len();
    let mut i: usize = 0;
    assert(a@.subrange(0, na as int) =~= a@);
    assert(b@.subrange(0, nb as int) =~= b@);
    while i < na && i < nb
        invariant
            i <= na,
            i <= nb,
            na == a@.len(),
            nb == b@.len(),
            sa@ == a@,
            sb@ == b@,
            lex_le(a@, b@) == lex_le(a@.subrange(i as int, na as int), b@.subrange(i as int, nb as int)),
        decreases na - i,
    {
        let ca = sa.get_char(i);
        let cb = sb.get_char(i);
        if ca != cb {
            return (ca as u32) < (cb as u32);
        }
        assert(a@.subrange(i as int, na as int).drop_first() =~= a@.subrange(i + 1, na as int));
        assert(b@.subrange(i as int, nb as int).drop_first() =~= b@.subrange(i + 1, nb as int));
        i = i + 1;
    }
    i == na
}

/// Whether the names stand in the name order.
pub fn names_in_order(s: &Vec<String>) -> (r: bool)
    ensures
        r == sorted_by(views(s@), name_leq()),
{
    proof {
        lemma_name_order_total();
    }
    let ghost v = views(s@);
    if s.len() == 0 {
        return true;
    }
    let mut i: usize = 1;
    while i < s.len()
        invariant
            1 <= i <= s.len(),
            v == views(s@),
            total_ordering(name_leq()),
            forall|x: int, y: int| 0 <= x < y < i ==> #[trigger] name_leq()(v[x], v[y]),
        decreases s.len() - i,
    {
        if !name_le(&s[i - 1], &s[i]) {
            assert(!name_leq()(v[i - 1], v[i as int]));
            return false;
        }
        assert forall|x: int, y: int| 0 <= x < y < i + 1 implies #[trigger] name_leq()(v[x], v[y]) by {
            if y == i && x < i - 1 {
                assert(name_leq()(v[x], v[i - 1]));
                lemma_lex_transitive(v[x], v[i - 1], v[y]);
            }
        }
        i = i + 1;
    }
    true
}

/// Whether the characters stand in the short-flag order.
pub fn shorts_in_order(s: &Vec<char>) -> (r: bool)
    ensures
        r == sorted_by(s@, short_leq()),
{
    if s.len() == 0 {
        return true;
    }
    let mut i: usize = 1;
    while i < s.len()
        invariant
            1 <= i <= s.len(),
            forall|x: int, y: int| 0 <= x < y < i ==> #[trigger] short_leq()(s@[x], s@[y]),
        decreases s.len() - i,
    {
        if short_rank_of(s[i - 1]) > short_rank_of(s[i]) {
            assert(!short_leq()(s@[i - 1], s@[i as int]));
            return false;
        }
        assert forall|x: int, y: int| 0 <= x < y < i + 1 implies #[trigger] short_leq()(s@[x], s@[y]) by {
            if y == i && x < i - 1 {
                assert(short_leq()(s@[x], s@[i - 1]));
            }
        }
        i = i + 1;
    }
    true
}

/// Inserting an element between those below it and those above it keeps a
/// sequence sorted.
proof fn lemma_insert_sorted<A>(s: Seq<A>, p: int, x: A, leq: spec_fn(A, A) -> bool)
    requires
        total_ordering(leq),
        sorted_by(s, leq),
        0 <= p <= s.len(),
        forall|q: int| 0 <= q < p ==> #[trigger] leq(s[q], x),
        p < s.len() ==> !leq(s[p], x),
    ensures
        sorted_by(s.insert(p, x), leq),
{
    assert forall|q: int| p <= q < s.len() implies #[trigger] leq(x, s[q]) by {
        assert(leq(s[p], x) || leq(x, s[p]));
        if q > p {
            assert(leq(s[p], s[q]));
        }
    }
    let t = s.insert(p, x);
    assert forall|i: int, j: int| 0 <= i < j < t.len() implies #[trigger] leq(t[i], t[j]) by {
        if j < p {
            assert(leq(s[i], s[j]));
        } else if j == p {
            assert(leq(s[i], x));
        } else if i < p {
            assert(leq(s[i], x));
            assert(leq(x, s[j - 1]));
        } else if i == p {
            assert(leq(x, s[j - 1]));
        } else {
            assert(leq(s[i - 1], s[j - 1]));
        }
    }
}

/// The names in the name order: the same names, sorted.
pub fn sorted_names(s: &Vec<String>) -> (r: Vec<String>)
    ensures
        views(r@) == views(s@).sort_by(name_leq()),
{
    proof {
        lemma_name_order_total();
    }
    let mut r: Vec<String> = Vec::new();
    let mut i: usize = 0;
    while i < s.len()
        invariant
            i <= s.len(),
            total_ordering(name_leq()),
            sorted_by(views(r@), name_leq()),
            views(r@).to_multiset() == views(s@).subrange(0, i as int).to_multiset(),
        decreases s.len() - i,
    {
        let x = s[i].clone();
        let mut p: usize = 0;
        while p < r.len() && name_le(&r[p], &x)
            invariant
                p <= r.len(),
                forall|q: int| 0 <= q < p ==> #[trigger] name_leq()(views(r@)[q], x@),
            decreases r.len() - p,
        {
            p = p + 1;
        }
        let ghost old_v = views(r@);
        proof {
            lemma_insert_sorted(old_v, p as int, x@, name_leq());
        }
        r.insert(p, x);
        proof {
            assert(views(r@) =~= old_v.insert(p as int, s@[i as int]@));
            assert(views(s@).subrange(0, i + 1) =~= views(s@).subrange(0, i as int).push(
                s@[i as int]@,
            ));
        }
        i = i + 1;
    }
    proof {
        assert(views(s@).subrange(0, s.len() as int) =~= views(s@));
        views(s@).lemma_sort_by_ensures(name_leq());
        vstd::seq_lib::lemma_sorted_unique(views(r@), views(s@).sort_by(name_leq()), name_leq());
    }
    r
}

/// The characters in the short-flag order: the same characters, sorted.
pub fn sorted_shorts(s: &Vec<char>) -> (r: Vec<char>)
    ensures
        r@ == s@.sort_by(short_leq()),
{
    proof {
        lemma_short_order_total();
    }
    let mut r: Vec<char> = Vec::new();
    let mut i: usize = 0;
    while i < s.len()
        invariant
            i <= s.len(),
            total_ordering(short_leq()),
            sorted_by(r@, short_leq()),
            r@.to_multiset() == s@.subrange(0, i as int).to_multiset(),
        decreases s.len() - i,
    {
        let x = s[i];
        let k = short_rank_of(x);
        let mut p: usize = 0;
        while p < r.len() && short_rank_of(r[p]) <= k
            invariant
                p <= r.len(),
                k as int == short_rank(x),
                forall|q: int| 0 <= q < p ==> #[trigger] short_leq()(r@[q], x),
            decreases r.len() - p,
        {
            p = p + 1;
        }
        proof {
            lemma_insert_sorted(r@, p as int, x, short_leq());
        }
        r.insert(p, x);
        proof {
            assert(s@.subrange(0, i + 1) =~= s@.subrange(0, i as int).push(x));
        }
        i = i + 1;
    }
    proof {
        assert(s@.subrange(0, s.len() as int) =~= s@);
        s@.lemma_sort_by_ensures(short_leq());
        vstd::seq_lib::lemma_sorted_unique(r@, s@.sort_by(short_leq()), short_leq());
    }
    r
}

} // verus!
