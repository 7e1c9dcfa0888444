//! The filesystem rules under which generator scripts are run.
//!
//! This module only decides which paths get which access; enforcing the
//! rules on the process is left to the caller.

use crate::views::{lemma_empty, lemma_pushed};
use vstd::prelude::*;
use vstd::string::*;

verus! {

/// What a rule grants below its path.
#[derive(Clone, Copy, Debug, PartialEq, Eq, Structural)]
pub enum Access {
    /// Reading files and listing directories.
    Read,
    /// Every kind of access.
    All,
}

/// Grants `access` to everything below `path`.
#[derive(Debug)]
pub struct PathRule {
    pub path: String,
    pub access: Access,
}

/// What a [`PathRule`] holds, as mathematical values.
pub struct PathRuleView {
    pub path: Seq<char>,
    pub access: Access,
}

impl View for PathRule {
    type V = PathRuleView;

    open spec fn view(&self) -> PathRuleView {
        PathRuleView { path: self.path@, access: self.access }
    }
}

impl DeepView for PathRule {
    type V = PathRuleView;

    open spec fn deep_view(&self) -> PathRuleView {
        self@
    }
}

/// One rule with the given access for each path, in order.
pub open spec fn rules_for(paths: Seq<Seq<char>>, access: Access) -> Seq<PathRuleView> {
    Seq::new(paths.len(), |i: int| PathRuleView { path: paths[i], access })
}

/// System directories that every script may read.
pub open spec fn system_read_dirs() -> Seq<Seq<char>> {
    seq!["/usr"@, "/etc"@, "/dev"@]
}

/// System paths that every script may use freely.
pub open spec fn system_all_dirs() -> Seq<Seq<char>> {
    seq!["/dev/tty"@, "/dev/null"@, "/tmp"@]
}

/// The whole rule set: the readable system directories, the caller's
/// readable directories, the freely usable system paths, and the caller's
/// freely usable directories, in that order.
pub open spec fn sandbox_rules(rw_dirs: Seq<Seq<char>>, r_dirs: Seq<Seq<char>>) -> Seq<
    PathRuleView,
> {
    rules_for(system_read_dirs(), Access::Read) + rules_for(r_dirs, Access::Read) + rules_for(
        system_all_dirs(),
        Access::All,
    ) + rules_for(rw_dirs, Access::All)
}

/// Appends one rule with the given access for each path.
fn push_rules(rules: &mut Vec<PathRule>, paths: &Vec<String>, access: Access)
    ensures
        final(rules).deep_view() == old(rules).deep_view() + rules_for(paths.deep_view(), access),
{
    let ghost before = rules.deep_view();
    let ghost all = paths.deep_view();
    let mut i: usize = 0;
    proof {
        assert(before + rules_for(all.take(0), access) =~= before);
    }
    while i < paths.len()
        invariant
            i <= paths.len(),
            all == paths.deep_view(),
            rules.deep_view() == before + rules_for(all.take(i as int), access),
        decreases paths.len() - i,
    {
        let ghost held = *rules;
        let rule = PathRule { path: paths[i].clone(), access };
        rules.push(rule);
        proof {
            lemma_pushed(held, *rules, rule);
            assert((before + rules_for(all.take(i as int), access)).push(rule@) =~= before
                + rules_for(all.take(i as int + 1), access));
        }
        i += 1;
    }
    proof {
        assert(all.take(i as int) =~= all);
    }
}

/// Lists the filesystem rules for running generator scripts: read access
/// to `/usr`, `/etc`, `/dev` and to each of `r_dirs`, full access to
/// `/dev/tty`, `/dev/null`, `/tmp` and to each of `rw_dirs`.
pub fn landlock_restrict(rw_dirs: &Vec<String>, r_dirs: &Vec<String>) -> (rules: Vec<PathRule>)
    ensures
        rules.deep_view() == sandbox_rules(rw_dirs.deep_view(), r_dirs.deep_view()),
{
    let mut read_dirs: Vec<String> = Vec::new();
    read_dirs.push(String::from_str("/usr"));
    read_dirs.push(String::from_str("/etc"));
    read_dirs.push(String::from_str("/dev"));
    let mut all_dirs: Vec<String> = Vec::new();
    all_dirs.push(String::from_str("/dev/tty"));
    all_dirs.push(String::from_str("/dev/null"));
    all_dirs.push(String::from_str("/tmp"));
    proof {
        assert(read_dirs.deep_view() =~= system_read_dirs());
        assert(all_dirs.deep_view() =~= system_all_dirs());
    }
    let mut rules: Vec<PathRule> = Vec::new();
    proof {
        lemma_empty(rules);
    }
    push_rules(&mut rules, &read_dirs, Access::Read);
    push_rules(&mut rules, r_dirs, Access::Read);
    push_rules(&mut rules, &all_dirs, Access::All);
    push_rules(&mut rules, rw_dirs, Access::All);
    rules
}

} // verus!
