//! General facts about the checks, proved over the whole tree.
use vstd::prelude::*;
use vstd::relations::sorted_by;
use crate::args::{
    classified, grouped_ids, ids, long_keys, members, short_keys, ArgGroup, ArgumentSpec,
};
use crate::order::{name_leq, short_leq, views};
use crate::source::{declaration_findings, Declaration};
use crate::tree::{
    child_names, group_findings, long_findings, node_violations, short_findings,
    subcommand_findings, subtree_violations, tree_violations, violation_views, CommandNode,
    Violation, ViolationKind,
};

verus! {

/// Whether the check of kind `k` finds node `m` out of order.
pub open spec fn fails(m: CommandNode, k: ViolationKind) -> bool {
    match k {
        ViolationKind::SubcommandOrder => !sorted_by(child_names(m), name_leq()),
        ViolationKind::ShortFlagOrder => !sorted_by(
            short_keys(members(m.arguments@, ArgGroup::ShortFlag)),
            short_leq(),
        ),
        ViolationKind::LongFlagOrder => !sorted_by(
            long_keys(members(m.arguments@, ArgGroup::LongOnly)),
            name_leq(),
        ),
        ViolationKind::ArgumentGroupOrder => ids(classified(m.arguments@)) != grouped_ids(
            m.arguments@,
        ),
    }
}

/// Number of checks that node `m` fails.
pub open spec fn node_defects(m: CommandNode) -> nat {
    (if fails(m, ViolationKind::SubcommandOrder) { 1nat } else { 0nat }) + (if fails(
        m,
        ViolationKind::ShortFlagOrder,
    ) {
        1nat
    } else {
        0nat
    }) + (if fails(m, ViolationKind::LongFlagOrder) { 1nat } else { 0nat }) + (if fails(
        m,
        ViolationKind::ArgumentGroupOrder,
    ) {
        1nat
    } else {
        0nat
    })
}

/// Number of failed checks over the whole tree under `n`.
pub open spec fn tree_defects(n: CommandNode) -> nat
    decreases n,
{
    node_defects(n) + children_defects(n, n.children@.len() as int)
}

/// Number of failed checks over the trees under the first `k` children of `n`.
pub open spec fn children_defects(n: CommandNode, k: int) -> nat
    decreases n.children@, k,
{
    if k <= 0 || k > n.children@.len() {
        0
    } else {
        children_defects(n, k - 1) + tree_defects(n.children@[k - 1])
    }
}

/// Whether every node of the tree under `n` has its subcommands, its short
/// flags and its long-only flags sorted, and its arguments in group order:
/// no node fails a check.
pub open spec fn tree_in_order(n: CommandNode) -> bool {
    tree_defects(n) == 0
}

/// Whether `m` is a node of the tree under `n` whose path, from the root
/// down to `m` itself, is `path`; `parent` names the ancestors of `n`.
pub open spec fn located(
    n: CommandNode,
    parent: Seq<Seq<char>>,
    path: Seq<Seq<char>>,
    m: CommandNode,
) -> bool
    decreases n,
{
    (path == parent.push(n.name@) && m == n) || located_among(
        n,
        parent,
        n.children@.len() as int,
        path,
        m,
    )
}

/// Whether `m` is a node, with path `path`, of the tree under one of the
/// first `k` children of `n`.
pub open spec fn located_among(
    n: CommandNode,
    parent: Seq<Seq<char>>,
    k: int,
    path: Seq<Seq<char>>,
    m: CommandNode,
) -> bool
    decreases n.children@, k,
{
    if k <= 0 || k > n.children@.len() {
        false
    } else {
        located_among(n, parent, k - 1, path, m) || located(
            n.children@[k - 1],
            parent.push(n.name@),
            path,
            m,
        )
    }
}

proof fn lemma_node_count(n: CommandNode, path: Seq<Seq<char>>)
    ensures
        node_violations(n, path).len() == node_defects(n),
{
}

/// The walk reports one violation for each failed check in the tree.
pub proof fn lemma_one_violation_per_defect(n: CommandNode, parent: Seq<Seq<char>>)
    ensures
        tree_violations(n, parent).len() == tree_defects(n),
    decreases n,
{
    lemma_node_count(n, parent.push(n.name@));
    lemma_children_count(n, parent, n.children@.len() as int);
}

proof fn lemma_children_count(n: CommandNode, parent: Seq<Seq<char>>, k: int)
    requires
        0 <= k <= n.children@.len(),
    ensures
        subtree_violations(n.children@, parent.push(n.name@), k).len() == children_defects(n, k),
    decreases n.children@, k,
{
    if k > 0 {
        lemma_children_count(n, parent, k - 1);
        lemma_one_violation_per_defect(n.children@[k - 1], parent.push(n.name@));
    }
}

/// Every reported violation names, by its path, a node of the tree that
/// fails the check of the violation's kind, and the path ends with that
/// node's name.
pub proof fn lemma_violations_located(n: CommandNode, parent: Seq<Seq<char>>)
    ensures
        forall|j: int|
            #![trigger tree_violations(n, parent)[j]]
            0 <= j < tree_violations(n, parent).len() ==> exists|m: CommandNode|
                #[trigger] located(n, parent, tree_violations(n, parent)[j].path, m) && fails(
                    m,
                    tree_violations(n, parent)[j].kind,
                ) && tree_violations(n, parent)[j].path.last() == m.name@,
    decreases n,
{
    let path = parent.push(n.name@);
    let nv = node_violations(n, path);
    let len = n.children@.len() as int;
    let sv = subtree_violations(n.children@, path, len);
    let tv = tree_violations(n, parent);
    lemma_children_located(n, parent, len);
    assert forall|j: int| #![trigger tv[j]] 0 <= j < tv.len() implies exists|m: CommandNode|
        #[trigger] located(n, parent, tv[j].path, m) && fails(m, tv[j].kind)
            && tv[j].path.last() == m.name@ by {
        assert(tv == nv + sv);
        if j < nv.len() {
            let s = subcommand_findings(n, path);
            let a = short_findings(n.arguments@, path);
            let b = long_findings(n.arguments@, path);
            let c = group_findings(n.arguments@, path);
            assert(nv == s + a + b + c);
            assert(tv[j] == nv[j]);
            assert(located(n, parent, tv[j].path, n));
        } else {
            assert(tv[j] == sv[j - nv.len()]);
            let m = choose|m: CommandNode|
                #[trigger] located_among(n, parent, len, sv[j - nv.len()].path, m) && fails(
                    m,
                    sv[j - nv.len()].kind,
                ) && sv[j - nv.len()].path.last() == m.name@;
            assert(located(n, parent, tv[j].path, m));
        }
    }
}

proof fn lemma_children_located(n: CommandNode, parent: Seq<Seq<char>>, k: int)
    requires
        0 <= k <= n.children@.len(),
    ensures
        forall|j: int|
            #![trigger subtree_violations(n.children@, parent.push(n.name@), k)[j]]
            0 <= j < subtree_violations(n.children@, parent.push(n.name@), k).len() ==> exists|
                m: CommandNode,
            |
                #[trigger] located_among(
                    n,
                    parent,
                    k,
                    subtree_violations(n.children@, parent.push(n.name@), k)[j].path,
                    m,
                ) && fails(m, subtree_violations(n.children@, parent.push(n.name@), k)[j].kind)
                    && subtree_violations(n.children@, parent.push(n.name@), k)[j].path.last()
                    == m.name@,
    decreases n.children@, k,
{
    let path = parent.push(n.name@);
    if k > 0 {
        lemma_children_located(n, parent, k - 1);
        let c = n.children@[k - 1];
        lemma_violations_located(c, path);
        let pre = subtree_violations(n.children@, path, k - 1);
        let cv = tree_violations(c, path);
        let all = subtree_violations(n.children@, path, k);
        assert(all == pre + cv);
        assert forall|j: int| #![trigger all[j]] 0 <= j < all.len() implies exists|m: CommandNode|
            #[trigger] located_among(n, parent, k, all[j].path, m) && fails(m, all[j].kind)
                && all[j].path.last() == m.name@ by {
            if j < pre.len() {
                assert(all[j] == pre[j]);
                let m = choose|m: CommandNode|
                    #[trigger] located_among(n, parent, k - 1, pre[j].path, m) && fails(
                        m,
                        pre[j].kind,
                    ) && pre[j].path.last() == m.name@;
                assert(located_among(n, parent, k, all[j].path, m));
            } else {
                assert(all[j] == cv[j - pre.len()]);
                let m = choose|m: CommandNode|
                    #[trigger] located(c, path, cv[j - pre.len()].path, m) && fails(
                        m,
                        cv[j - pre.len()].kind,
                    ) && cv[j - pre.len()].path.last() == m.name@;
                assert(located_among(n, parent, k, all[j].path, m));
            }
        }
    }
}

/// A tree in which every node is in order yields no violation.
pub proof fn lemma_ordered_tree_is_clean(n: CommandNode, parent: Seq<Seq<char>>)
    requires
        tree_in_order(n),
    ensures
        tree_violations(n, parent).len() == 0,
{
    lemma_one_violation_per_defect(n, parent);
}

/// A tree with exactly one failed check, at exactly one node, yields exactly
/// one violation: its path ends at that node's name and its kind is the
/// check that failed there.
pub proof fn lemma_single_defect(n: CommandNode, parent: Seq<Seq<char>>)
    requires
        tree_defects(n) == 1,
    ensures
        tree_violations(n, parent).len() == 1,
        exists|m: CommandNode|
            #[trigger] located(n, parent, tree_violations(n, parent)[0].path, m) && fails(
                m,
                tree_violations(n, parent)[0].kind,
            ) && tree_violations(n, parent)[0].path.last() == m.name@,
{
    lemma_one_violation_per_defect(n, parent);
    lemma_violations_located(n, parent);
}

proof fn lemma_positional_members(args: Seq<ArgumentSpec>)
    requires
        forall|i: int| 0 <= i < args.len() ==> (#[trigger] args[i]).positional,
    ensures
        members(args, ArgGroup::ShortFlag).len() == 0,
        members(args, ArgGroup::LongOnly).len() == 0,
        classified(args) == members(args, ArgGroup::Positional),
    decreases args.len(),
{
    if args.len() > 0 {
        assert(args.last().positional);
        lemma_positional_members(args.drop_last());
    }
}

/// Positional arguments are never checked for alphabetical order: a command
/// whose arguments are all positional yields no argument violation,
/// whatever their order.
pub proof fn lemma_positional_order_free(args: Seq<ArgumentSpec>, path: Seq<Seq<char>>)
    requires
        forall|i: int| 0 <= i < args.len() ==> (#[trigger] args[i]).positional,
    ensures
        short_findings(args, path).len() == 0,
        long_findings(args, path).len() == 0,
        group_findings(args, path).len() == 0,
{
    lemma_positional_members(args);
    let e = members(args, ArgGroup::ShortFlag);
    let f = members(args, ArgGroup::LongOnly);
    assert(short_keys(e) =~= Seq::<char>::empty());
    assert(long_keys(f) =~= Seq::<Seq<char>>::empty());
    assert(grouped_ids(args) =~= ids(classified(args)));
}

/// Validation is repeatable: two runs over the same tree report the same
/// violations.
pub proof fn lemma_validation_repeatable(cmd: CommandNode, first: Seq<Violation>, second: Seq<Violation>)
    requires
        violation_views(first) == tree_violations(cmd, Seq::empty()),
        violation_views(second) == tree_violations(cmd, Seq::empty()),
    ensures
        violation_views(first) == violation_views(second),
{
}

/// With no arguments, no argument check finds anything.
proof fn lemma_no_arguments(args: Seq<ArgumentSpec>, path: Seq<Seq<char>>)
    requires
        args.len() == 0,
    ensures
        short_findings(args, path) == Seq::<crate::tree::ViolationView>::empty(),
        long_findings(args, path) == Seq::<crate::tree::ViolationView>::empty(),
        group_findings(args, path) == Seq::<crate::tree::ViolationView>::empty(),
{
    assert(short_keys(members(args, ArgGroup::ShortFlag)) =~= Seq::<char>::empty());
    assert(long_keys(members(args, ArgGroup::LongOnly)) =~= Seq::<Seq<char>>::empty());
    assert(ids(classified(args)) =~= grouped_ids(args));
}

/// A command with no arguments and no subcommands yields no violation.
proof fn lemma_bare_leaf_clean(c: CommandNode, parent: Seq<Seq<char>>)
    requires
        c.arguments@.len() == 0,
        c.children@.len() == 0,
    ensures
        tree_violations(c, parent).len() == 0,
{
    let path = parent.push(c.name@);
    lemma_no_arguments(c.arguments@, path);
    assert(child_names(c) =~= Seq::<Seq<char>>::empty());
    assert(subcommand_findings(c, path).len() == 0);
}

proof fn lemma_bare_children_clean(n: CommandNode, path: Seq<Seq<char>>, k: int)
    requires
        0 <= k <= n.children@.len(),
        forall|i: int|
            0 <= i < n.children@.len() ==> (#[trigger] n.children@[i]).arguments@.len() == 0
                && n.children@[i].children@.len() == 0,
    ensures
        subtree_violations(n.children@, path, k).len() == 0,
    decreases k,
{
    if k > 0 {
        lemma_bare_children_clean(n, path, k - 1);
        lemma_bare_leaf_clean(n.children@[k - 1], path);
    }
}

/// The two modes agree: a subcommand-set declaration is judged exactly as
/// the command tree it stands for, a command named after the declaration
/// with one bare subcommand per variant, in declared order.
pub proof fn lemma_modes_agree(d: Declaration, n: CommandNode)
    requires
        n.name@ == d.name@,
        n.arguments@.len() == 0,
        child_names(n) == views(d.variants@),
        forall|i: int|
            0 <= i < n.children@.len() ==> (#[trigger] n.children@[i]).arguments@.len() == 0
                && n.children@[i].children@.len() == 0,
    ensures
        tree_violations(n, Seq::empty()) == declaration_findings(d@),
{
    let path = Seq::<Seq<char>>::empty().push(n.name@);
    assert(path =~= seq![d.name@]);
    lemma_no_arguments(n.arguments@, path);
    lemma_bare_children_clean(n, path, n.children@.len() as int);
    let sv = subtree_violations(n.children@, path, n.children@.len() as int);
    assert(sv =~= Seq::empty());
    let sf = subcommand_findings(n, path);
    assert(node_violations(n, path) =~= sf);
    assert(tree_violations(n, Seq::empty()) =~= sf);
}

/// Position of a group in the required order.
pub open spec fn group_rank(g: ArgGroup) -> int {
    match g {
        ArgGroup::Positional => 0,
        ArgGroup::ShortFlag => 1,
        ArgGroup::LongOnly => 2,
        ArgGroup::Unclassified => 3,
    }
}

/// Whether no two arguments share an identifier.
pub open spec fn ids_distinct(args: Seq<ArgumentSpec>) -> bool {
    forall|x: int, y: int| 0 <= x < y < args.len() ==> args[x].id@ != args[y].id@
}

proof fn lemma_members_from(args: Seq<ArgumentSpec>, g: ArgGroup)
    ensures
        forall|t: int|
            0 <= t < members(args, g).len() ==> (#[trigger] members(args, g)[t]).group_spec() == g
                && exists|x: int| 0 <= x < args.len() && args[x] == members(args, g)[t],
    decreases args.len(),
{
    if args.len() > 0 {
        lemma_members_from(args.drop_last(), g);
        let m = members(args, g);
        let m0 = members(args.drop_last(), g);
        assert forall|t: int| 0 <= t < m.len() implies (#[trigger] m[t]).group_spec() == g
            && exists|x: int| 0 <= x < args.len() && args[x] == m[t] by {
            if t < m0.len() {
                assert(m[t] == m0[t]);
                let x = choose|x: int| 0 <= x < args.drop_last().len() && args.drop_last()[x] == m0[t];
                assert(args[x] == m[t]);
            } else {
                assert(m[t] == args[args.len() - 1]);
            }
        }
    }
}

proof fn lemma_classified_from(args: Seq<ArgumentSpec>)
    ensures
        forall|t: int|
            0 <= t < classified(args).len() ==> (#[trigger] classified(args)[t]).group_spec()
                != ArgGroup::Unclassified && exists|x: int|
                0 <= x < args.len() && args[x] == classified(args)[t],
    decreases args.len(),
{
    if args.len() > 0 {
        lemma_classified_from(args.drop_last());
        let m = classified(args);
        let m0 = classified(args.drop_last());
        assert forall|t: int| 0 <= t < m.len() implies (#[trigger] m[t]).group_spec()
            != ArgGroup::Unclassified && exists|x: int| 0 <= x < args.len() && args[x] == m[t] by {
            if t < m0.len() {
                assert(m[t] == m0[t]);
                let x = choose|x: int| 0 <= x < args.drop_last().len() && args.drop_last()[x] == m0[t];
                assert(args[x] == m[t]);
            } else {
                assert(m[t] == args[args.len() - 1]);
            }
        }
    }
}

/// A grouped argument appears among the grouped arguments.
proof fn lemma_in_classified(args: Seq<ArgumentSpec>, x: int)
    requires
        0 <= x < args.len(),
        args[x].group_spec() != ArgGroup::Unclassified,
    ensures
        exists|t: int| 0 <= t < classified(args).len() && classified(args)[t] == args[x],
    decreases args.len(),
{
    if x == args.len() - 1 {
        assert(classified(args)[classified(args).len() - 1] == args[x]);
    } else {
        lemma_in_classified(args.drop_last(), x);
        let t = choose|t: int|
            0 <= t < classified(args.drop_last()).len() && classified(args.drop_last())[t]
                == args.drop_last()[x];
        assert(classified(args)[t] == args[x]);
    }
}

/// The grouped arguments keep their declared order.
proof fn lemma_classified_order(args: Seq<ArgumentSpec>, x: int, y: int)
    requires
        0 <= x < y < args.len(),
        args[x].group_spec() != ArgGroup::Unclassified,
        args[y].group_spec() != ArgGroup::Unclassified,
    ensures
        exists|t: int, u: int|
            0 <= t < u < classified(args).len() && classified(args)[t] == args[x]
                && classified(args)[u] == args[y],
    decreases args.len(),
{
    let c = classified(args);
    let c0 = classified(args.drop_last());
    if y == args.len() - 1 {
        lemma_in_classified(args.drop_last(), x);
        let t = choose|t: int| 0 <= t < c0.len() && c0[t] == args.drop_last()[x];
        assert(c[t] == args[x] && c[c0.len() as int] == args[y]);
    } else {
        lemma_classified_order(args.drop_last(), x, y);
        let (t, u) = choose|t: int, u: int|
            0 <= t < u < c0.len() && c0[t] == args.drop_last()[x] && c0[u] == args.drop_last()[y];
        assert(c[t] == args[x] && c[u] == args[y]);
    }
}

/// Two lists of arguments of one command with the same identifiers, when
/// identifiers are distinct, are the same list.
proof fn lemma_same_ids(args: Seq<ArgumentSpec>, a: Seq<ArgumentSpec>, b: Seq<ArgumentSpec>)
    requires
        ids_distinct(args),
        forall|t: int| 0 <= t < a.len() ==> exists|x: int| 0 <= x < args.len() && args[x] == #[trigger] a[t],
        forall|t: int| 0 <= t < b.len() ==> exists|x: int| 0 <= x < args.len() && args[x] == #[trigger] b[t],
        ids(a) == ids(b),
    ensures
        a == b,
{
    assert(a.len() == ids(a).len() && b.len() == ids(b).len());
    assert forall|t: int| 0 <= t < a.len() implies a[t] == b[t] by {
        let x = choose|x: int| 0 <= x < args.len() && args[x] == a[t];
        let y = choose|y: int| 0 <= y < args.len() && args[y] == b[t];
        assert(ids(a)[t] == ids(b)[t]);
        if x < y {
            assert(args[x].id@ != args[y].id@);
        } else if y < x {
            assert(args[y].id@ != args[x].id@);
        }
    }
    assert(a =~= b);
}

/// Declaring a long-only flag before a flag with a short switch breaks the
/// group order, whatever else the command declares, when its arguments have
/// distinct identifiers.
pub proof fn lemma_long_only_before_short_flag(
    args: Seq<ArgumentSpec>,
    path: Seq<Seq<char>>,
    i: int,
    j: int,
)
    requires
        ids_distinct(args),
        0 <= i < j < args.len(),
        args[i].group_spec() == ArgGroup::LongOnly,
        args[j].group_spec() == ArgGroup::ShortFlag,
    ensures
        group_findings(args, path).len() == 1,
        group_findings(args, path)[0].kind == ViolationKind::ArgumentGroupOrder,
{
    let c = classified(args);
    let p = members(args, ArgGroup::Positional);
    let sf = members(args, ArgGroup::ShortFlag);
    let lf = members(args, ArgGroup::LongOnly);
    let g = p + sf + lf;
    assert(ids(g) =~= grouped_ids(args));
    if ids(c) == ids(g) {
        lemma_classified_from(args);
        lemma_members_from(args, ArgGroup::Positional);
        lemma_members_from(args, ArgGroup::ShortFlag);
        lemma_members_from(args, ArgGroup::LongOnly);
        assert forall|t: int| 0 <= t < g.len() implies exists|x: int|
            0 <= x < args.len() && args[x] == #[trigger] g[t] by {
            if t < p.len() {
                assert(g[t] == p[t]);
            } else if t < p.len() + sf.len() {
                assert(g[t] == sf[t - p.len()]);
            } else {
                assert(g[t] == lf[t - p.len() - sf.len()]);
            }
        }
        lemma_same_ids(args, c, g);
        lemma_classified_order(args, i, j);
        let (t, u) = choose|t: int, u: int|
            0 <= t < u < c.len() && c[t] == args[i] && c[u] == args[j];
        assert(g[t].group_spec() == ArgGroup::LongOnly);
        assert(g[u].group_spec() == ArgGroup::ShortFlag);
        if t < p.len() {
            assert(g[t] == p[t]);
        } else if t < p.len() + sf.len() {
            assert(g[t] == sf[t - p.len()]);
        } else {
            assert(g[t] == lf[t - p.len() - sf.len()]);
            assert(g[u] == lf[u - p.len() - sf.len()]);
        }
    }
}

/// Whether the grouped arguments stand in group order.
pub open spec fn labels_sorted(c: Seq<ArgumentSpec>) -> bool {
    forall|t: int, u: int|
        0 <= t < u < c.len() ==> group_rank(c[t].group_spec()) <= group_rank(
            c[u].group_spec(),
        )
}

proof fn lemma_grouped_sorted(args: Seq<ArgumentSpec>)
    ensures
        labels_sorted(
            members(args, ArgGroup::Positional) + members(args, ArgGroup::ShortFlag) + members(
                args,
                ArgGroup::LongOnly,
            ),
        ),
{
    let p = members(args, ArgGroup::Positional);
    let sf = members(args, ArgGroup::ShortFlag);
    let lf = members(args, ArgGroup::LongOnly);
    let g = p + sf + lf;
    lemma_members_from(args, ArgGroup::Positional);
    lemma_members_from(args, ArgGroup::ShortFlag);
    lemma_members_from(args, ArgGroup::LongOnly);
    assert forall|t: int| 0 <= t < g.len() implies group_rank((#[trigger] g[t]).group_spec()) == (
    if t < p.len() {
        0int
    } else if t < p.len() + sf.len() {
        1int
    } else {
        2int
    }) by {
        if t < p.len() {
            assert(g[t] == p[t]);
        } else if t < p.len() + sf.len() {
            assert(g[t] == sf[t - p.len()]);
        } else {
            assert(g[t] == lf[t - p.len() - sf.len()]);
        }
    }
}

/// Grouped arguments in group order are exactly the groups one after another.
proof fn lemma_sorted_is_grouped(args: Seq<ArgumentSpec>)
    requires
        labels_sorted(classified(args)),
    ensures
        classified(args) == members(args, ArgGroup::Positional) + members(args, ArgGroup::ShortFlag)
            + members(args, ArgGroup::LongOnly),
    decreases args.len(),
{
    if args.len() == 0 {
        assert(classified(args) =~= members(args, ArgGroup::Positional) + members(
            args,
            ArgGroup::ShortFlag,
        ) + members(args, ArgGroup::LongOnly));
    } else {
        let a0 = args.drop_last();
        let z = args.last();
        let c0 = classified(a0);
        let p0 = members(a0, ArgGroup::Positional);
        let s0 = members(a0, ArgGroup::ShortFlag);
        let l0 = members(a0, ArgGroup::LongOnly);
        if z.group_spec() == ArgGroup::Unclassified {
            lemma_sorted_is_grouped(a0);
        } else {
            let c = classified(args);
            assert(c == c0.push(z));
            assert forall|t: int, u: int| 0 <= t < u < c0.len() implies group_rank(
                c0[t].group_spec(),
            ) <= group_rank(c0[u].group_spec()) by {
                assert(c[t] == c0[t] && c[u] == c0[u]);
            }
            lemma_sorted_is_grouped(a0);
            lemma_members_from(a0, ArgGroup::ShortFlag);
            lemma_members_from(a0, ArgGroup::LongOnly);
            let r = group_rank(z.group_spec());
            if s0.len() > 0 && r < 1 {
                assert(c0[p0.len() as int] == s0[0]);
                assert(c[p0.len() as int] == c0[p0.len() as int]);
                assert(c[c0.len() as int] == z);
            }
            if l0.len() > 0 && r < 2 {
                assert(c0[(p0.len() + s0.len()) as int] == l0[0]);
                assert(c[(p0.len() + s0.len()) as int] == c0[(p0.len() + s0.len()) as int]);
                assert(c[c0.len() as int] == z);
            }
            assert(c =~= members(args, ArgGroup::Positional) + members(args, ArgGroup::ShortFlag)
                + members(args, ArgGroup::LongOnly));
        }
    }
}

/// With distinct identifiers, the arguments pass the group-order check
/// exactly when the grouped arguments stand in group order.
pub proof fn lemma_group_order_iff_sorted(args: Seq<ArgumentSpec>)
    requires
        ids_distinct(args),
    ensures
        (ids(classified(args)) == grouped_ids(args)) == labels_sorted(classified(args)),
{
    let c = classified(args);
    let p = members(args, ArgGroup::Positional);
    let sf = members(args, ArgGroup::ShortFlag);
    let lf = members(args, ArgGroup::LongOnly);
    let g = p + sf + lf;
    assert(ids(g) =~= grouped_ids(args));
    lemma_grouped_sorted(args);
    if ids(c) == ids(g) {
        lemma_classified_from(args);
        lemma_members_from(args, ArgGroup::Positional);
        lemma_members_from(args, ArgGroup::ShortFlag);
        lemma_members_from(args, ArgGroup::LongOnly);
        assert forall|t: int| 0 <= t < g.len() implies exists|x: int|
            0 <= x < args.len() && args[x] == #[trigger] g[t] by {
            if t < p.len() {
                assert(g[t] == p[t]);
            } else if t < p.len() + sf.len() {
                assert(g[t] == sf[t - p.len()]);
            } else {
                assert(g[t] == lf[t - p.len() - sf.len()]);
            }
        }
        lemma_same_ids(args, c, g);
    }
    if labels_sorted(c) {
        lemma_sorted_is_grouped(args);
    }
}

proof fn lemma_same_flags(a: Seq<ArgumentSpec>, b: Seq<ArgumentSpec>, g: ArgGroup)
    requires
        a.len() == b.len(),
        g != ArgGroup::Positional,
        forall|i: int|
            0 <= i < a.len() ==> (#[trigger] a[i]).positional == b[i].positional && (!a[i].positional
                ==> a[i] == b[i]),
    ensures
        members(a, g) == members(b, g),
    decreases a.len(),
{
    if a.len() > 0 {
        lemma_same_flags(a.drop_last(), b.drop_last(), g);
        assert(a.last().positional == b.last().positional);
    }
}

proof fn lemma_same_labels(a: Seq<ArgumentSpec>, b: Seq<ArgumentSpec>)
    requires
        a.len() == b.len(),
        forall|i: int|
            0 <= i < a.len() ==> (#[trigger] a[i]).positional == b[i].positional && (!a[i].positional
                ==> a[i] == b[i]),
    ensures
        classified(a).len() == classified(b).len(),
        forall|t: int|
            0 <= t < classified(a).len() ==> (#[trigger] classified(a)[t]).group_spec()
                == classified(b)[t].group_spec(),
    decreases a.len(),
{
    if a.len() > 0 {
        lemma_same_labels(a.drop_last(), b.drop_last());
        assert(a.last().positional == b.last().positional);
        let ca = classified(a);
        let cb = classified(b);
        let ca0 = classified(a.drop_last());
        let cb0 = classified(b.drop_last());
        assert forall|t: int| 0 <= t < ca.len() implies (#[trigger] ca[t]).group_spec()
            == cb[t].group_spec() by {
            if t < ca0.len() {
                assert(ca[t] == ca0[t] && cb[t] == cb0[t]);
            }
        }
    }
}

/// The order of positional arguments is never checked: replacing the
/// positional arguments of a command by others, for instance reordering
/// them, changes no finding, when identifiers are distinct before and after.
pub proof fn lemma_positional_order_irrelevant(
    a: Seq<ArgumentSpec>,
    b: Seq<ArgumentSpec>,
    path: Seq<Seq<char>>,
)
    requires
        a.len() == b.len(),
        ids_distinct(a),
        ids_distinct(b),
        forall|i: int|
            0 <= i < a.len() ==> (#[trigger] a[i]).positional == b[i].positional && (!a[i].positional
                ==> a[i] == b[i]),
    ensures
        short_findings(a, path) == short_findings(b, path),
        long_findings(a, path) == long_findings(b, path),
        group_findings(a, path).len() == group_findings(b, path).len(),
{
    lemma_same_flags(a, b, ArgGroup::ShortFlag);
    lemma_same_flags(a, b, ArgGroup::LongOnly);
    lemma_same_labels(a, b);
    lemma_group_order_iff_sorted(a);
    lemma_group_order_iff_sorted(b);
    let ca = classified(a);
    let cb = classified(b);
    if labels_sorted(ca) {
        assert forall|t: int, u: int| 0 <= t < u < cb.len() implies group_rank(
            cb[t].group_spec(),
        ) <= group_rank(cb[u].group_spec()) by {
            assert(ca[t].group_spec() == cb[t].group_spec());
            assert(ca[u].group_spec() == cb[u].group_spec());
        }
    }
    if labels_sorted(cb) {
        assert forall|t: int, u: int| 0 <= t < u < ca.len() implies group_rank(
            ca[t].group_spec(),
        ) <= group_rank(ca[u].group_spec()) by {
            assert(ca[t].group_spec() == cb[t].group_spec());
            assert(ca[u].group_spec() == cb[u].group_spec());
        }
    }
    assert(labels_sorted(ca) == labels_sorted(cb));
}

} // verus!
