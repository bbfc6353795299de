//! Command trees and the checks made at each of their nodes.
use vstd::prelude::*;
use vstd::relations::sorted_by;
use crate::args::{
    classified, declared_ids, group_ids, grouped_ids, ids, long_keys, long_switches, members,
    short_keys, short_switches, ArgGroup, ArgumentSpec,
};
use crate::naming::char_string;
use crate::order::{
    lemma_views_push, name_leq, names_in_order, short_leq, shorts_in_order, sorted_names,
    sorted_shorts, views,
};

verus! {

/// One command or subcommand, with its own arguments and its children in
/// declared order.
#[derive(Debug)]
pub struct CommandNode {
    /// Name, unique among siblings.
    pub name: String,
    /// Own arguments, in declared order.
    pub arguments: Vec<ArgumentSpec>,
    /// Subcommands, in declared order.
    pub children: Vec<CommandNode>,
}

/// The four orderings that are checked.
#[derive(PartialEq, Eq, Structural, Clone, Copy, Debug)]
pub enum ViolationKind {
    SubcommandOrder,
    ArgumentGroupOrder,
    ShortFlagOrder,
    LongFlagOrder,
}

/// One ordering defect: where it is, and the order found against the order
/// wanted.
#[derive(Debug)]
pub struct Violation {
    pub kind: ViolationKind,
    /// Names from the root command down to the offending command.
    pub path: Vec<String>,
    pub actual: Vec<String>,
    pub expected: Vec<String>,
}

/// A violation as plain sequences.
pub struct ViolationView {
    pub kind: ViolationKind,
    pub path: Seq<Seq<char>>,
    pub actual: Seq<Seq<char>>,
    pub expected: Seq<Seq<char>>,
}

impl View for Violation {
    type V = ViolationView;

    open spec fn view(&self) -> ViolationView {
        ViolationView {
            kind: self.kind,
            path: views(self.path@),
            actual: views(self.actual@),
            expected: views(self.expected@),
        }
    }
}

/// The view of each violation of a sequence.
pub open spec fn violation_views(s: Seq<Violation>) -> Seq<ViolationView> {
    s.map_values(|v: Violation| v@)
}

/// Names of the children of `n`, in declared order.
pub open spec fn child_names(n: CommandNode) -> Seq<Seq<char>> {
    n.children@.map_values(|c: CommandNode| c.name@)
}

/// How a short switch is shown: `-c`.
pub open spec fn flag_text(c: char) -> Seq<char> {
    seq!['-', c]
}

/// How a long switch is shown: `--name`.
pub open spec fn long_text(l: Seq<char>) -> Seq<char> {
    seq!['-', '-'] + l
}

/// The defect found in the order of a node's subcommands, if any.
pub open spec fn subcommand_findings(n: CommandNode, path: Seq<Seq<char>>) -> Seq<ViolationView> {
    let names = child_names(n);
    if sorted_by(names, name_leq()) {
        Seq::empty()
    } else {
        seq![
            ViolationView {
                kind: ViolationKind::SubcommandOrder,
                path,
                actual: names,
                expected: names.sort_by(name_leq()),
            },
        ]
    }
}

/// The defect found in the order of the short flags, if any.
pub open spec fn short_findings(args: Seq<ArgumentSpec>, path: Seq<Seq<char>>) -> Seq<
    ViolationView,
> {
    let keys = short_keys(members(args, ArgGroup::ShortFlag));
    if sorted_by(keys, short_leq()) {
        Seq::empty()
    } else {
        seq![
            ViolationView {
                kind: ViolationKind::ShortFlagOrder,
                path,
                actual: keys.map_values(|c: char| flag_text(c)),
                expected: keys.sort_by(short_leq()).map_values(|c: char| flag_text(c)),
            },
        ]
    }
}

/// The defect found in the order of the long-only flags, if any.
pub open spec fn long_findings(args: Seq<ArgumentSpec>, path: Seq<Seq<char>>) -> Seq<
    ViolationView,
> {
    let keys = long_keys(members(args, ArgGroup::LongOnly));
    if sorted_by(keys, name_leq()) {
        Seq::empty()
    } else {
        seq![
            ViolationView {
                kind: ViolationKind::LongFlagOrder,
                path,
                actual: keys.map_values(|l: Seq<char>| long_text(l)),
                expected: keys.sort_by(name_leq()).map_values(|l: Seq<char>| long_text(l)),
            },
        ]
    }
}

/// The defect found in the order of the groups, if any.
pub open spec fn group_findings(args: Seq<ArgumentSpec>, path: Seq<Seq<char>>) -> Seq<
    ViolationView,
> {
    let actual = ids(classified(args));
    let expected = grouped_ids(args);
    if actual == expected {
        Seq::empty()
    } else {
        seq![
            ViolationView { kind: ViolationKind::ArgumentGroupOrder, path, actual, expected },
        ]
    }
}

/// Every defect at node `n` itself, in the order the checks are made;
/// `path` ends with the name of `n`.
pub open spec fn node_violations(n: CommandNode, path: Seq<Seq<char>>) -> Seq<ViolationView> {
    subcommand_findings(n, path) + short_findings(n.arguments@, path) + long_findings(
        n.arguments@,
        path,
    ) + group_findings(n.arguments@, path)
}

/// Every defect in the tree under `n`, depth first, each node before its
/// children; `parent` names the ancestors of `n`.
pub open spec fn tree_violations(n: CommandNode, parent: Seq<Seq<char>>) -> Seq<ViolationView>
    decreases n,
{
    let path = parent.push(n.name@);
    node_violations(n, path) + subtree_violations(n.children@, path, n.children@.len() as int)
}

/// Every defect in the trees under the first `k` commands of `cs`.
pub open spec fn subtree_violations(cs: Seq<CommandNode>, path: Seq<Seq<char>>, k: int) -> Seq<
    ViolationView,
>
    decreases cs, k,
{
    if k <= 0 || k > cs.len() {
        Seq::empty()
    } else {
        subtree_violations(cs, path, k - 1) + tree_violations(cs[k - 1], path)
    }
}

impl CommandNode {
    /// A command with no arguments and no subcommands.
    pub fn new(name: &str) -> (r: CommandNode)
        ensures
            r.name@ == name@,
            r.arguments@.len() == 0,
            r.children@.len() == 0,
    {
        CommandNode { name: String::from_str(name), arguments: Vec::new(), children: Vec::new() }
    }

    /// This command with `a` declared after its other arguments.
    pub fn arg(self, a: ArgumentSpec) -> (r: CommandNode)
        ensures
            r.name == self.name,
            r.arguments@ == self.arguments@.push(a),
            r.children@ == self.children@,
    {
        let mut r = self;
        r.arguments.push(a);
        r
    }

    /// This command with `c` declared after its other subcommands.
    pub fn subcommand(self, c: CommandNode) -> (r: CommandNode)
        ensures
            r.name == self.name,
            r.arguments@ == self.arguments@,
            r.children@ == self.children@.push(c),
    {
        let mut r = self;
        r.children.push(c);
        r
    }

    /// The subcommand named `name`, if there is one.
    pub fn find_subcommand(&self, name: &str) -> (r: Option<&CommandNode>)
        ensures
            r matches Some(c) ==> exists|i: int|
                0 <= i < self.children@.len() && self.children@[i] == *c && c.name@ == name@,
            r is None ==> forall|i: int|
                0 <= i < self.children@.len() ==> (#[trigger] self.children@[i]).name@ != name@,
    {
        let wanted = String::from_str(name);
        let mut i: usize = 0;
        while i < self.children.len()
            invariant
                i <= self.children@.len(),
                wanted@ == name@,
                forall|j: int| 0 <= j < i ==> (#[trigger] self.children@[j]).name@ != name@,
            decreases self.children.len() - i,
        {
            if self.children[i].name == wanted {
                return Some(&self.children[i]);
            }
            i = i + 1;
        }
        None
    }
}

/// A copy of the names.
fn copy_names(v: &Vec<String>) -> (r: Vec<String>)
    ensures
        views(r@) == views(v@),
{
    let mut r: Vec<String> = Vec::new();
    let mut i: usize = 0;
    while i < v.len()
        invariant
            i <= v.len(),
            views(r@) == views(v@).subrange(0, i as int),
        decreases v.len() - i,
    {
        proof {
            lemma_views_push(r@, v@[i as int]);
        }
        r.push(v[i].clone());
        assert(views(r@) =~= views(v@).subrange(0, i + 1));
        i = i + 1;
    }
    assert(views(v@).subrange(0, v.len() as int) =~= views(v@));
    r
}

/// Names of the children of `n`, in declared order.
fn names_of_children(n: &CommandNode) -> (r: Vec<String>)
    ensures
        views(r@) == child_names(*n),
{
    let mut r: Vec<String> = Vec::new();
    let mut i: usize = 0;
    while i < n.children.len()
        invariant
            i <= n.children.len(),
            views(r@) == child_names(*n).subrange(0, i as int),
        decreases n.children.len() - i,
    {
        proof {
            lemma_views_push(r@, n.children@[i as int].name);
        }
        r.push(n.children[i].name.clone());
        assert(views(r@) =~= child_names(*n).subrange(0, i + 1));
        i = i + 1;
    }
    assert(child_names(*n).subrange(0, n.children.len() as int) =~= child_names(*n));
    r
}

/// Each short switch shown as `-c`.
fn flag_texts(cs: &Vec<char>) -> (r: Vec<String>)
    ensures
        views(r@) == cs@.map_values(|c: char| flag_text(c)),
{
    let ghost want = cs@.map_values(|c: char| flag_text(c));
    let mut r: Vec<String> = Vec::new();
    let mut i: usize = 0;
    while i < cs.len()
        invariant
            i <= cs.len(),
            want == cs@.map_values(|c: char| flag_text(c)),
            views(r@) == want.subrange(0, i as int),
        decreases cs.len() - i,
    {
        let mut t = String::from_str("-");
        let c = char_string(cs[i]);
        t.append(c.as_str());
        proof {
            reveal_strlit("-");
            assert(t@ =~= flag_text(cs@[i as int]));
        }
        proof {
            lemma_views_push(r@, t);
        }
        r.push(t);
        assert(views(r@) =~= want.subrange(0, i + 1));
        i = i + 1;
    }
    assert(want.subrange(0, cs.len() as int) =~= want);
    r
}

/// Each long switch shown as `--name`.
fn long_texts(ls: &Vec<String>) -> (r: Vec<String>)
    ensures
        views(r@) == views(ls@).map_values(|l: Seq<char>| long_text(l)),
{
    let ghost want = views(ls@).map_values(|l: Seq<char>| long_text(l));
    let mut r: Vec<String> = Vec::new();
    let mut i: usize = 0;
    while i < ls.len()
        invariant
            i <= ls.len(),
            want == views(ls@).map_values(|l: Seq<char>| long_text(l)),
            views(r@) == want.subrange(0, i as int),
        decreases ls.len() - i,
    {
        let mut t = String::from_str("--");
        t.append(ls[i].as_str());
        proof {
            reveal_strlit("--");
            assert(t@ =~= long_text(ls@[i as int]@));
        }
        proof {
            lemma_views_push(r@, t);
        }
        r.push(t);
        assert(views(r@) =~= want.subrange(0, i + 1));
        i = i + 1;
    }
    assert(want.subrange(0, ls.len() as int) =~= want);
    r
}

/// Whether two lists hold the same names in the same order.
fn same_names(a: &Vec<String>, b: &Vec<String>) -> (r: bool)
    ensures
        r == (views(a@) == views(b@)),
{
    if a.len() != b.len() {
        assert(views(a@).len() != views(b@).len());
        return false;
    }
    let mut i: usize = 0;
    while i < a.len()
        invariant
            i <= a.len(),
            a.len() == b.len(),
            views(a@).subrange(0, i as int) == views(b@).subrange(0, i as int),
        decreases a.len() - i,
    {
        if a[i] != b[i] {
            assert(views(a@)[i as int] != views(b@)[i as int]);
            return false;
        }
        assert(views(a@).subrange(0, i + 1) =~= views(b@).subrange(0, i + 1)) by {
            assert(views(a@).subrange(0, i + 1) =~= views(a@).subrange(0, i as int).push(a@[i as int]@));
            assert(views(b@).subrange(0, i + 1) =~= views(b@).subrange(0, i as int).push(b@[i as int]@));
        }
        i = i + 1;
    }
    assert(views(a@).subrange(0, a.len() as int) =~= views(a@));
    assert(views(b@).subrange(0, b.len() as int) =~= views(b@));
    true
}

/// Appends to `out` the defect in the order of the subcommands of `n`, if
/// any.
fn check_subcommands(n: &CommandNode, path: &Vec<String>, out: &mut Vec<Violation>)
    ensures
        violation_views(final(out)@) == violation_views(old(out)@) + subcommand_findings(
            *n,
            views(path@),
        ),
{
    let ghost start = violation_views(out@);
    let names = names_of_children(n);
    if !names_in_order(&names) {
        let expected = sorted_names(&names);
        out.push(
            Violation {
                kind: ViolationKind::SubcommandOrder,
                path: copy_names(path),
                actual: names,
                expected,
            },
        );
    }
    assert(violation_views(out@) =~= start + subcommand_findings(*n, views(path@)));
}

/// Appends to `out` the defect in the order of the short flags of `n`, if
/// any.
fn check_short_flags(n: &CommandNode, path: &Vec<String>, out: &mut Vec<Violation>)
    ensures
        violation_views(final(out)@) == violation_views(old(out)@) + short_findings(
            n.arguments@,
            views(path@),
        ),
{
    let ghost start = violation_views(out@);
    let shorts = short_switches(&n.arguments);
    if !shorts_in_order(&shorts) {
        let sorted = sorted_shorts(&shorts);
        out.push(
            Violation {
                kind: ViolationKind::ShortFlagOrder,
                path: copy_names(path),
                actual: flag_texts(&shorts),
                expected: flag_texts(&sorted),
            },
        );
    }
    assert(violation_views(out@) =~= start + short_findings(n.arguments@, views(path@)));
}

/// Appends to `out` the defect in the order of the long-only flags of `n`,
/// if any.
fn check_long_flags(n: &CommandNode, path: &Vec<String>, out: &mut Vec<Violation>)
    ensures
        violation_views(final(out)@) == violation_views(old(out)@) + long_findings(
            n.arguments@,
            views(path@),
        ),
{
    let ghost start = violation_views(out@);
    let longs = long_switches(&n.arguments);
    if !names_in_order(&longs) {
        let sorted = sorted_names(&longs);
        out.push(
            Violation {
                kind: ViolationKind::LongFlagOrder,
                path: copy_names(path),
                actual: long_texts(&longs),
                expected: long_texts(&sorted),
            },
        );
    }
    assert(violation_views(out@) =~= start + long_findings(n.arguments@, views(path@)));
}

/// Appends to `out` the defect in the group order of the arguments of `n`,
/// if any.
fn check_groups(n: &CommandNode, path: &Vec<String>, out: &mut Vec<Violation>)
    ensures
        violation_views(final(out)@) == violation_views(old(out)@) + group_findings(
            n.arguments@,
            views(path@),
        ),
{
    let ghost start = violation_views(out@);
    let actual = declared_ids(&n.arguments);
    let mut expected = group_ids(&n.arguments, ArgGroup::Positional);
    let mut short_ids = group_ids(&n.arguments, ArgGroup::ShortFlag);
    let mut long_ids = group_ids(&n.arguments, ArgGroup::LongOnly);
    let ghost e0 = views(expected@);
    let ghost s0 = views(short_ids@);
    let ghost l0 = views(long_ids@);
    expected.append(&mut short_ids);
    expected.append(&mut long_ids);
    assert(views(expected@) =~= e0 + s0 + l0);
    if !same_names(&actual, &expected) {
        out.push(
            Violation {
                kind: ViolationKind::ArgumentGroupOrder,
                path: copy_names(path),
                actual,
                expected,
            },
        );
    }
    assert(violation_views(out@) =~= start + group_findings(n.arguments@, views(path@)));
}

/// Appends to `out` every defect at node `n` itself, where `path` names `n`
/// and its ancestors.
pub fn check_node(n: &CommandNode, path: &Vec<String>, out: &mut Vec<Violation>)
    ensures
        violation_views(final(out)@) == violation_views(old(out)@) + node_violations(
            *n,
            views(path@),
        ),
{
    let ghost start = violation_views(out@);
    check_subcommands(n, path, out);
    check_short_flags(n, path, out);
    check_long_flags(n, path, out);
    check_groups(n, path, out);
    assert(violation_views(out@) =~= start + node_violations(*n, views(path@)));
}

/// The first defect at node `n` itself, where `path` names `n` and its
/// ancestors; the checks after the first that fails are not made.
pub fn first_at_node(n: &CommandNode, path: &Vec<String>) -> (r: Option<Violation>)
    ensures
        ({
            let found = node_violations(*n, views(path@));
            match r {
                None => found.len() == 0,
                Some(v) => found.len() > 0 && v@ == found[0],
            }
        }),
{
    let ghost p = views(path@);
    let ghost s = subcommand_findings(*n, p);
    let ghost a = short_findings(n.arguments@, p);
    let ghost b = long_findings(n.arguments@, p);
    let ghost c = group_findings(n.arguments@, p);
    let mut out: Vec<Violation> = Vec::new();
    check_subcommands(n, path, &mut out);
    if out.len() == 0 {
        check_short_flags(n, path, &mut out);
    }
    if out.len() == 0 {
        check_long_flags(n, path, &mut out);
    }
    if out.len() == 0 {
        check_groups(n, path, &mut out);
    }
    assert(node_violations(*n, p) == s + a + b + c);
    if out.len() == 0 {
        assert(node_violations(*n, p) =~= Seq::empty());
        return None;
    }
    assert(violation_views(out@)[0] == out@[0]@);
    assert(node_violations(*n, p)[0] == violation_views(out@)[0]);
    Some(out.remove(0))
}

} // verus!
