//! Rename rules: literal overrides and a prefix for the names of types.

use vstd::prelude::*;

verus! {

/// One literal override: every entity named `from` is exposed as `to`.
#[derive(Debug, PartialEq, Eq)]
pub struct Rename {
    pub from: String,
    pub to: String,
}

/// The configured rename rules.
#[derive(Debug, PartialEq, Eq)]
pub struct RenameRules {
    /// Literal overrides; the first whose `from` matches applies.
    pub overrides: Vec<Rename>,
    /// Put in front of the name of every type (enum, struct, union, opaque item, alias).
    pub prefix: Option<String>,
}

/// The mathematical model of `RenameRules`.
pub struct RenameRulesSpec {
    pub overrides: Seq<(Seq<char>, Seq<char>)>,
    pub prefix: Option<Seq<char>>,
}

impl View for RenameRules {
    type V = RenameRulesSpec;

    open spec fn view(&self) -> RenameRulesSpec {
        RenameRulesSpec {
            overrides: Seq::new(
                self.overrides.len() as nat,
                |i: int| (self.overrides[i].from@, self.overrides[i].to@),
            ),
            prefix: match self.prefix {
                Some(p) => Some(p@),
                None => None,
            },
        }
    }
}

/// The replacement that the first matching override gives to `name`, if any matches.
pub open spec fn override_of(overrides: Seq<(Seq<char>, Seq<char>)>, name: Seq<char>) -> Option<
    Seq<char>,
>
    decreases overrides.len(),
{
    if overrides.len() == 0 {
        None
    } else if overrides[0].0 == name {
        Some(overrides[0].1)
    } else {
        override_of(overrides.skip(1), name)
    }
}

impl RenameRulesSpec {
    /// The exposed name of an entity called `name`: the override if one matches,
    /// else the name itself; the name of a type gets the prefix in front.
    pub open spec fn renamed(self, name: Seq<char>, is_type: bool) -> Seq<char> {
        let base = match override_of(self.overrides, name) {
            Some(to) => to,
            None => name,
        };
        match self.prefix {
            Some(p) => if is_type {
                p + base
            } else {
                base
            },
            None => base,
        }
    }
}

impl RenameRules {
    /// Rules that rename nothing.
    pub fn new() -> (r: RenameRules)
        ensures
            r@.overrides.len() == 0,
            r@.prefix is None,
    {
        RenameRules { overrides: Vec::new(), prefix: None }
    }

    /// A copy of these rules.
    pub fn duplicate(&self) -> (r: RenameRules)
        ensures
            r@ == self@,
    {
        let mut overrides: Vec<Rename> = Vec::new();
        let mut i: usize = 0;
        while i < self.overrides.len()
            invariant
                i <= self.overrides.len(),
                overrides.len() == i,
                forall|j: int|
                    0 <= j < i ==> overrides[j].from@ == self.overrides[j].from@ && overrides[j].to@
                        == self.overrides[j].to@,
            decreases self.overrides.len() - i,
        {
            overrides.push(
                Rename { from: self.overrides[i].from.clone(), to: self.overrides[i].to.clone() },
            );
            i += 1;
        }
        let prefix = match &self.prefix {
            Some(p) => Some(p.clone()),
            None => None,
        };
        let r = RenameRules { overrides, prefix };
        assert(r@.overrides =~= self@.overrides);
        r
    }

    /// The exposed name of an entity called `name`.
    pub fn rename(&self, name: &String, is_type: bool) -> (r: String)
        ensures
            r@ == self@.renamed(name@, is_type),
    {
        let mut base: String = name.clone();
        let mut i: usize = 0;
        assert(self@.overrides.skip(0) =~= self@.overrides);
        while i < self.overrides.len()
            invariant_except_break
                i <= self.overrides.len(),
                override_of(self@.overrides, name@) == override_of(
                    self@.overrides.skip(i as int),
                    name@,
                ),
                base@ == name@,
            ensures
                base@ == match override_of(self@.overrides, name@) {
                    Some(to) => to,
                    None => name@,
                },
            decreases self.overrides.len() - i,
        {
            assert(self@.overrides.skip(i as int)[0] == self@.overrides[i as int]);
            if self.overrides[i].from == *name {
                base = self.overrides[i].to.clone();
                break ;
            }
            assert(self@.overrides.skip(i as int).skip(1) =~= self@.overrides.skip(i + 1));
            i += 1;
        }
        match &self.prefix {
            Some(p) => if is_type {
                let mut out = p.clone();
                out.append(base.as_str());
                out
            } else {
                base
            },
            None => base,
        }
    }
}

} // verus!
