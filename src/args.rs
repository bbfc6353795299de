//! Arguments of a command and their partition into ordered groups.
use vstd::prelude::*;
use crate::order::views;

verus! {

/// One declared argument of a command.
#[derive(Debug)]
pub struct ArgumentSpec {
    /// Identifier, unique within its command.
    pub id: String,
    /// Whether the argument is taken by position.
    pub positional: bool,
    /// Single-character switch, if any.
    pub short: Option<char>,
    /// Long switch name, if any.
    pub long: Option<String>,
}

/// The group an argument belongs to when its command's order is checked.
#[derive(PartialEq, Eq, Structural, Clone, Copy, Debug)]
pub enum ArgGroup {
    Positional,
    ShortFlag,
    LongOnly,
    Unclassified,
}

impl ArgumentSpec {
    /// Group of this argument: positional first, then by short name, then by
    /// long name; an argument with none of these is left out.
    pub open spec fn group_spec(&self) -> ArgGroup {
        if self.positional {
            ArgGroup::Positional
        } else if self.short is Some {
            ArgGroup::ShortFlag
        } else if self.long is Some {
            ArgGroup::LongOnly
        } else {
            ArgGroup::Unclassified
        }
    }

    /// A positional argument; naming a switch later makes it a flag.
    pub fn new(id: &str) -> (r: ArgumentSpec)
        ensures
            r.id@ == id@,
            r.positional,
            r.short is None,
            r.long is None,
    {
        ArgumentSpec { id: String::from_str(id), positional: true, short: None, long: None }
    }

    /// An argument from all of its parts.
    pub fn from_parts(id: String, positional: bool, short: Option<char>, long: Option<String>) -> (r:
        ArgumentSpec)
        ensures
            r.id == id,
            r.positional == positional,
            r.short == short,
            r.long == long,
    {
        ArgumentSpec { id, positional, short, long }
    }

    /// This argument with the short switch `c`; it is no longer positional.
    pub fn short(self, c: char) -> (r: ArgumentSpec)
        ensures
            r.id == self.id,
            !r.positional,
            r.short == Some(c),
            r.long == self.long,
    {
        ArgumentSpec { id: self.id, positional: false, short: Some(c), long: self.long }
    }

    /// This argument with the long switch `name`; it is no longer positional.
    pub fn long(self, name: &str) -> (r: ArgumentSpec)
        ensures
            r.id == self.id,
            !r.positional,
            r.short == self.short,
            r.long matches Some(l) && l@ == name@,
    {
        ArgumentSpec {
            id: self.id,
            positional: false,
            short: self.short,
            long: Some(String::from_str(name)),
        }
    }

    /// Group of this argument.
    pub fn group(&self) -> (g: ArgGroup)
        ensures
            g == self.group_spec(),
    {
        if self.positional {
            ArgGroup::Positional
        } else if self.short.is_some() {
            ArgGroup::ShortFlag
        } else if self.long.is_some() {
            ArgGroup::LongOnly
        } else {
            ArgGroup::Unclassified
        }
    }
}

/// The arguments of group `g`, in their declared order.
pub open spec fn members(args: Seq<ArgumentSpec>, g: ArgGroup) -> Seq<ArgumentSpec>
    decreases args.len(),
{
    if args.len() == 0 {
        Seq::empty()
    } else if args.last().group_spec() == g {
        members(args.drop_last(), g).push(args.last())
    } else {
        members(args.drop_last(), g)
    }
}

/// The arguments that belong to some group, in their declared order.
pub open spec fn classified(args: Seq<ArgumentSpec>) -> Seq<ArgumentSpec>
    decreases args.len(),
{
    if args.len() == 0 {
        Seq::empty()
    } else if args.last().group_spec() != ArgGroup::Unclassified {
        classified(args.drop_last()).push(args.last())
    } else {
        classified(args.drop_last())
    }
}

/// Identifiers of the arguments.
pub open spec fn ids(args: Seq<ArgumentSpec>) -> Seq<Seq<char>> {
    args.map_values(|a: ArgumentSpec| a.id@)
}

/// Short switches of the arguments.
pub open spec fn short_keys(args: Seq<ArgumentSpec>) -> Seq<char> {
    args.map_values(|a: ArgumentSpec| a.short->0)
}

/// Long switch names of the arguments.
pub open spec fn long_keys(args: Seq<ArgumentSpec>) -> Seq<Seq<char>> {
    args.map_values(|a: ArgumentSpec| (a.long->0)@)
}

/// The identifiers in the order the groups call for: positional arguments,
/// then short flags, then long-only flags, each group in declared order.
pub open spec fn grouped_ids(args: Seq<ArgumentSpec>) -> Seq<Seq<char>> {
    ids(members(args, ArgGroup::Positional)) + ids(members(args, ArgGroup::ShortFlag)) + ids(
        members(args, ArgGroup::LongOnly),
    )
}

/// Identifiers of the arguments of group `g`, in declared order.
pub fn group_ids(args: &Vec<ArgumentSpec>, g: ArgGroup) -> (r: Vec<String>)
    ensures
        views(r@) == ids(members(args@, g)),
{
    let mut r: Vec<String> = Vec::new();
    let mut i: usize = 0;
    while i < args.len()
        invariant
            i <= args.len(),
            views(r@) == ids(members(args@.subrange(0, i as int), g)),
        decreases args.len() - i,
    {
        let ghost next = args@.subrange(0, i + 1);
        assert(next.drop_last() =~= args@.subrange(0, i as int));
        if args[i].group() == g {
            let ghost r0 = r@;
            r.push(args[i].id.clone());
            assert(views(r@) =~= views(r0).push(args@[i as int].id@));
            assert(ids(members(next, g)) =~= ids(members(args@.subrange(0, i as int), g)).push(
                args@[i as int].id@,
            ));
        }
        assert(views(r@) =~= ids(members(next, g)));
        i = i + 1;
    }
    assert(args@.subrange(0, args.len() as int) =~= args@);
    r
}

/// Identifiers of the grouped arguments, in declared order.
pub fn declared_ids(args: &Vec<ArgumentSpec>) -> (r: Vec<String>)
    ensures
        views(r@) == ids(classified(args@)),
{
    let mut r: Vec<String> = Vec::new();
    let mut i: usize = 0;
    while i < args.len()
        invariant
            i <= args.len(),
            views(r@) == ids(classified(args@.subrange(0, i as int))),
        decreases args.len() - i,
    {
        let ghost next = args@.subrange(0, i + 1);
        assert(next.drop_last() =~= args@.subrange(0, i as int));
        if args[i].group() != ArgGroup::Unclassified {
            let ghost r0 = r@;
            r.push(args[i].id.clone());
            assert(views(r@) =~= views(r0).push(args@[i as int].id@));
            assert(ids(classified(next)) =~= ids(classified(args@.subrange(0, i as int))).push(
                args@[i as int].id@,
            ));
        }
        assert(views(r@) =~= ids(classified(next)));
        i = i + 1;
    }
    assert(args@.subrange(0, args.len() as int) =~= args@);
    r
}

/// Short switches of the short flags, in declared order.
pub fn short_switches(args: &Vec<ArgumentSpec>) -> (r: Vec<char>)
    ensures
        r@ == short_keys(members(args@, ArgGroup::ShortFlag)),
{
    let mut r: Vec<char> = Vec::new();
    let mut i: usize = 0;
    while i < args.len()
        invariant
            i <= args.len(),
            r@ == short_keys(members(args@.subrange(0, i as int), ArgGroup::ShortFlag)),
        decreases args.len() - i,
    {
        let ghost next = args@.subrange(0, i + 1);
        assert(next.drop_last() =~= args@.subrange(0, i as int));
        if args[i].group() == ArgGroup::ShortFlag {
            match args[i].short {
                Some(c) => r.push(c),
                None => {},
            }
        }
        assert(r@ =~= short_keys(members(next, ArgGroup::ShortFlag)));
        i = i + 1;
    }
    assert(args@.subrange(0, args.len() as int) =~= args@);
    r
}

/// Long names of the long-only flags, in declared order.
pub fn long_switches(args: &Vec<ArgumentSpec>) -> (r: Vec<String>)
    ensures
        views(r@) == long_keys(members(args@, ArgGroup::LongOnly)),
{
    let mut r: Vec<String> = Vec::new();
    let mut i: usize = 0;
    while i < args.len()
        invariant
            i <= args.len(),
            views(r@) == long_keys(members(args@.subrange(0, i as int), ArgGroup::LongOnly)),
        decreases args.len() - i,
    {
        let ghost next = args@.subrange(0, i + 1);
        assert(next.drop_last() =~= args@.subrange(0, i as int));
        if args[i].group() == ArgGroup::LongOnly {
            match &args[i].long {
                Some(l) => {
                    let ghost r0 = r@;
                    r.push(l.clone());
                    assert(views(r@) =~= views(r0).push(l@));
                    assert(long_keys(members(next, ArgGroup::LongOnly)) =~= long_keys(
                        members(args@.subrange(0, i as int), ArgGroup::LongOnly),
                    ).push(l@));
                },
                None => {},
            }
        }
        assert(views(r@) =~= long_keys(members(next, ArgGroup::LongOnly)));
        i = i + 1;
    }
    assert(args@.subrange(0, args.len() as int) =~= args@);
    r
}

} // verus!
