//! Depth-first walks over a command tree: collect every defect, or stop at
//! the first.
use vstd::prelude::*;
use crate::order::{lemma_views_push, views};
use crate::tree::{
    check_node, first_at_node, node_violations, subtree_violations, tree_violations, violation_views,
    CommandNode, Violation,
};

verus! {

/// A copy of `parent` with `name` added at the end.
fn extended_path(parent: &Vec<String>, name: &String) -> (r: Vec<String>)
    ensures
        views(r@) == views(parent@).push(name@),
{
    let mut r: Vec<String> = Vec::new();
    let mut i: usize = 0;
    while i < parent.len()
        invariant
            i <= parent.len(),
            views(r@) == views(parent@).subrange(0, i as int),
        decreases parent.len() - i,
    {
        proof {
            lemma_views_push(r@, parent@[i as int]);
        }
        r.push(parent[i].clone());
        assert(views(r@) =~= views(parent@).subrange(0, i + 1));
        i = i + 1;
    }
    assert(views(parent@).subrange(0, parent.len() as int) =~= views(parent@));
    proof {
        lemma_views_push(r@, *name);
    }
    r.push(name.clone());
    r
}

/// Appends to `out` every defect in the tree under `n`, whose ancestors
/// `parent` names.
fn collect_from(n: &CommandNode, parent: &Vec<String>, out: &mut Vec<Violation>)
    ensures
        violation_views(final(out)@) == violation_views(old(out)@) + tree_violations(
            *n,
            views(parent@),
        ),
    decreases n,
{
    let ghost start = violation_views(out@);
    let path = extended_path(parent, &n.name);
    let ghost p = views(path@);
    check_node(n, &path, out);
    let mut i: usize = 0;
    while i < n.children.len()
        invariant
            i <= n.children.len(),
            p == views(path@),
            p == views(parent@).push(n.name@),
            violation_views(out@) == start + node_violations(*n, p) + subtree_violations(
                n.children@,
                p,
                i as int,
            ),
        decreases n.children.len() - i,
    {
        let ghost before = violation_views(out@);
        collect_from(&n.children[i], &path, out);
        assert(violation_views(out@) =~= start + node_violations(*n, p) + subtree_violations(
            n.children@,
            p,
            i + 1,
        ));
        i = i + 1;
    }
}

/// The defects under the first `k` children come first among those under
/// the first `m`.
proof fn lemma_subtree_prefix(cs: Seq<CommandNode>, p: Seq<Seq<char>>, k: int, m: int)
    requires
        0 <= k <= m <= cs.len(),
    ensures
        subtree_violations(cs, p, k).len() <= subtree_violations(cs, p, m).len(),
        subtree_violations(cs, p, m).subrange(0, subtree_violations(cs, p, k).len() as int)
            == subtree_violations(cs, p, k),
    decreases m - k,
{
    if k < m {
        lemma_subtree_prefix(cs, p, k, m - 1);
        let a = subtree_violations(cs, p, k);
        let b = subtree_violations(cs, p, m - 1);
        assert(subtree_violations(cs, p, m).subrange(0, a.len() as int) =~= b.subrange(
            0,
            a.len() as int,
        ));
    } else {
        assert(subtree_violations(cs, p, m).subrange(0, subtree_violations(cs, p, m).len() as int)
            =~= subtree_violations(cs, p, m));
    }
}

/// The first defect in the tree under `n`, whose ancestors `parent` names;
/// the walk stops there.
fn first_from(n: &CommandNode, parent: &Vec<String>) -> (r: Option<Violation>)
    ensures
        ({
            let all = tree_violations(*n, views(parent@));
            match r {
                None => all.len() == 0,
                Some(v) => all.len() > 0 && v@ == all[0],
            }
        }),
    decreases n,
{
    let ghost all = tree_violations(*n, views(parent@));
    let path = extended_path(parent, &n.name);
    let ghost p = views(path@);
    match first_at_node(n, &path) {
        Some(v) => {
            assert(all[0] == node_violations(*n, p)[0]);
            return Some(v);
        },
        None => {},
    }
    let mut i: usize = 0;
    while i < n.children.len()
        invariant
            i <= n.children.len(),
            p == views(path@),
            p == views(parent@).push(n.name@),
            all == tree_violations(*n, views(parent@)),
            node_violations(*n, p).len() == 0,
            subtree_violations(n.children@, p, i as int).len() == 0,
        decreases n.children.len() - i,
    {
        let found = first_from(&n.children[i], &path);
        let ghost sub = tree_violations(n.children@[i as int], p);
        match found {
            Some(v) => {
                assert(subtree_violations(n.children@, p, i + 1) =~= subtree_violations(
                    n.children@,
                    p,
                    i as int,
                ) + sub);
                let ghost len = n.children@.len() as int;
                proof {
                    lemma_subtree_prefix(n.children@, p, i + 1, len);
                    assert(subtree_violations(n.children@, p, i + 1) =~= sub);
                    assert(all =~= subtree_violations(n.children@, p, len));
                    assert(subtree_violations(n.children@, p, len)[0] == subtree_violations(
                        n.children@,
                        p,
                        len,
                    ).subrange(0, sub.len() as int)[0]);
                }
                return Some(v);
            },
            None => {},
        }
        assert(subtree_violations(n.children@, p, i + 1).len() == 0);
        i = i + 1;
    }
    None
}

/// Every ordering defect in the tree under `cmd`, depth first, each command
/// before its subcommands (collect-all).
pub fn violations(cmd: &CommandNode) -> (r: Vec<Violation>)
    ensures
        violation_views(r@) == tree_violations(*cmd, Seq::empty()),
{
    let mut out: Vec<Violation> = Vec::new();
    let root: Vec<String> = Vec::new();
    assert(views(root@) =~= Seq::empty());
    collect_from(cmd, &root, &mut out);
    assert(violation_views(out@) =~= tree_violations(*cmd, Seq::empty()));
    out
}

/// The first ordering defect in the tree under `cmd`, found by a walk that
/// stops there (fail-fast); it is the first that `violations` lists.
pub fn first_violation(cmd: &CommandNode) -> (r: Option<Violation>)
    ensures
        ({
            let all = tree_violations(*cmd, Seq::empty());
            match r {
                None => all.len() == 0,
                Some(v) => all.len() > 0 && v@ == all[0],
            }
        }),
{
    let root: Vec<String> = Vec::new();
    assert(views(root@) =~= Seq::empty());
    first_from(cmd, &root)
}

} // verus!
