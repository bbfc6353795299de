//! Human-readable diagnostics for ordering defects.
use vstd::prelude::*;
use crate::order::views;
use crate::tree::{tree_violations, CommandNode, Violation, ViolationKind, ViolationView};
use crate::walk::first_violation;

verus! {

/// How the standard debug format shows a string: quoted, with escapes.
pub uninterp spec fn debug_quoted(s: Seq<char>) -> Seq<char>;

/// Relies on the `Debug` impl of `str`: the quoted form depends on the
/// characters alone.
#[verifier::external_body]
fn quoted(s: &String) -> (r: String)
    ensures
        r@ == debug_quoted(s@),
{
    format!("{:?}", s)
}

/// The parts, with `sep` between each two.
pub open spec fn joined(parts: Seq<Seq<char>>, sep: Seq<char>) -> Seq<char>
    decreases parts.len(),
{
    if parts.len() == 0 {
        Seq::empty()
    } else if parts.len() == 1 {
        parts[0]
    } else {
        joined(parts.drop_last(), sep) + sep + parts.last()
    }
}

/// A list of names as the debug format shows it: `["a", "b"]`.
pub open spec fn list_text(items: Seq<Seq<char>>) -> Seq<char> {
    "["@ + joined(items.map_values(|s: Seq<char>| debug_quoted(s)), ", "@) + "]"@
}

/// The diagnostic for a violation: what is out of order, the full command
/// path, and the order found against the order wanted.
pub open spec fn message_text(v: ViolationView) -> Seq<char> {
    let place = joined(v.path, " "@);
    let actual = list_text(v.actual);
    let expected = list_text(v.expected);
    match v.kind {
        ViolationKind::SubcommandOrder => "Subcommands in '"@ + place
            + "' are not sorted alphabetically!\nActual order: "@ + actual
            + "\nExpected order: "@ + expected,
        ViolationKind::ShortFlagOrder => "Flags with short options in '"@ + place
            + "' are not sorted!\nActual: "@ + actual + "\nExpected: "@ + expected,
        ViolationKind::LongFlagOrder => "Long-only flags in '"@ + place
            + "' are not sorted!\nActual: "@ + actual + "\nExpected: "@ + expected,
        ViolationKind::ArgumentGroupOrder => "Arguments in '"@ + place
            + "' are not in correct group order!\nExpected: [positional, short flags, long-only flags]\nActual: "@
            + actual + "\nExpected: "@ + expected,
    }
}

/// The parts joined by `sep`.
pub fn join(parts: &Vec<String>, sep: &str) -> (r: String)
    ensures
        r@ == joined(views(parts@), sep@),
{
    let mut r = String::new();
    let mut i: usize = 0;
    while i < parts.len()
        invariant
            i <= parts.len(),
            r@ == joined(views(parts@).subrange(0, i as int), sep@),
        decreases parts.len() - i,
    {
        let ghost pre = views(parts@).subrange(0, i as int);
        let ghost next = views(parts@).subrange(0, i + 1);
        assert(next.drop_last() =~= pre);
        if i > 0 {
            r.append(sep);
        }
        r.append(parts[i].as_str());
        assert(r@ =~= joined(next, sep@));
        i = i + 1;
    }
    assert(views(parts@).subrange(0, parts.len() as int) =~= views(parts@));
    r
}

/// A list of names as the debug format shows it.
pub fn list_string(items: &Vec<String>) -> (r: String)
    ensures
        r@ == list_text(views(items@)),
{
    let ghost q = views(items@).map_values(|s: Seq<char>| debug_quoted(s));
    let mut r = String::from_str("[");
    let mut i: usize = 0;
    while i < items.len()
        invariant
            i <= items.len(),
            q == views(items@).map_values(|s: Seq<char>| debug_quoted(s)),
            r@ == "["@ + joined(q.subrange(0, i as int), ", "@),
        decreases items.len() - i,
    {
        let ghost pre = q.subrange(0, i as int);
        let ghost next = q.subrange(0, i + 1);
        assert(next.drop_last() =~= pre);
        if i > 0 {
            r.append(", ");
        }
        let t = quoted(&items[i]);
        r.append(t.as_str());
        assert(r@ =~= "["@ + joined(next, ", "@));
        i = i + 1;
    }
    assert(q.subrange(0, items.len() as int) =~= q);
    r.append("]");
    r
}

impl Violation {
    /// The diagnostic for this violation.
    pub fn message(&self) -> (r: String)
        ensures
            r@ == message_text(self@),
    {
        let place = join(&self.path, " ");
        let actual = list_string(&self.actual);
        let expected = list_string(&self.expected);
        let mut r = String::new();
        match self.kind {
            ViolationKind::SubcommandOrder => {
                r.append("Subcommands in '");
                r.append(place.as_str());
                r.append("' are not sorted alphabetically!\nActual order: ");
                r.append(actual.as_str());
                r.append("\nExpected order: ");
                r.append(expected.as_str());
            },
            ViolationKind::ShortFlagOrder => {
                r.append("Flags with short options in '");
                r.append(place.as_str());
                r.append("' are not sorted!\nActual: ");
                r.append(actual.as_str());
                r.append("\nExpected: ");
                r.append(expected.as_str());
            },
            ViolationKind::LongFlagOrder => {
                r.append("Long-only flags in '");
                r.append(place.as_str());
                r.append("' are not sorted!\nActual: ");
                r.append(actual.as_str());
                r.append("\nExpected: ");
                r.append(expected.as_str());
            },
            ViolationKind::ArgumentGroupOrder => {
                r.append("Arguments in '");
                r.append(place.as_str());
                r.append(
                    "' are not in correct group order!\nExpected: [positional, short flags, long-only flags]\nActual: ",
                );
                r.append(actual.as_str());
                r.append("\nExpected: ");
                r.append(expected.as_str());
            },
        }
        assert(r@ =~= message_text(self@));
        r
    }
}

/// Checks the whole tree under `cmd`, stopping at the first defect: `Ok`
/// when there is none, else that defect's diagnostic.
pub fn is_sorted(cmd: &CommandNode) -> (r: Result<(), String>)
    ensures
        r is Ok <==> tree_violations(*cmd, Seq::empty()).len() == 0,
        r matches Err(m) ==> m@ == message_text(tree_violations(*cmd, Seq::empty())[0]),
{
    match first_violation(cmd) {
        None => Ok(()),
        Some(v) => Err(v.message()),
    }
}

} // verus!
