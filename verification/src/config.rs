//! The override store: user patches keyed by the exact descriptor path they
//! target, each holding a replacement command. Patches are consumed as they
//! are applied during a merge pass.

use vstd::prelude::*;

use crate::command::{parse_exec, parse_exec_spec, Exec, ExecView};
use crate::error::EntryError;
use crate::strings::str_eq;

verus! {

/// A replacement command for one descriptor.
#[derive(Debug, Clone)]
pub struct Patch {
    /// The command that replaces the descriptor's own.
    pub command: Exec,
}

/// The mathematical shape of a [`Patch`].
pub struct PatchView {
    /// The replacement command's shape.
    pub command: ExecView,
}

impl View for Patch {
    type V = PatchView;

    open spec fn view(&self) -> PatchView {
        PatchView { command: self.command@ }
    }
}

/// The user's override patches, keyed by descriptor path.
#[derive(Debug)]
pub struct Config {
    /// The patches, each a descriptor path and its replacement command.
    pub patches: Vec<(String, Patch)>,
}

impl View for Config {
    type V = Seq<(Seq<char>, PatchView)>;

    open spec fn view(&self) -> Seq<(Seq<char>, PatchView)> {
        self.patches@.map_values(|p: (String, Patch)| (p.0@, p.1@))
    }
}

/// The patch of the first entry with the given path, if any.
pub open spec fn patch_lookup(ps: Seq<(Seq<char>, PatchView)>, key: Seq<char>) -> Option<PatchView>
    decreases ps.len(),
{
    if ps.len() == 0 {
        None
    } else if ps[0].0 == key {
        Some(ps[0].1)
    } else {
        patch_lookup(ps.drop_first(), key)
    }
}

/// The store with the first entry of the given path removed; a store without
/// that path stays as it is.
pub open spec fn patch_remove(ps: Seq<(Seq<char>, PatchView)>, key: Seq<char>) -> Seq<
    (Seq<char>, PatchView),
>
    decreases ps.len(),
{
    if ps.len() == 0 {
        ps
    } else if ps[0].0 == key {
        ps.drop_first()
    } else {
        seq![ps[0]] + patch_remove(ps.drop_first(), key)
    }
}

pub proof fn lemma_patch_remove_absent(ps: Seq<(Seq<char>, PatchView)>, key: Seq<char>)
    requires
        patch_lookup(ps, key) is None,
    ensures
        patch_remove(ps, key) == ps,
    decreases ps.len(),
{
    if ps.len() == 0 {
    } else {
        lemma_patch_remove_absent(ps.drop_first(), key);
        assert(seq![ps[0]] + ps.drop_first() =~= ps);
    }
}

proof fn lemma_patch_first_match(ps: Seq<(Seq<char>, PatchView)>, key: Seq<char>, j: int)
    requires
        0 <= j < ps.len(),
        ps[j].0 == key,
        forall|m: int| 0 <= m < j ==> (#[trigger] ps[m]).0 != key,
    ensures
        patch_lookup(ps, key) == Some(ps[j].1),
        patch_remove(ps, key) == ps.remove(j),
    decreases j,
{
    if j == 0 {
        assert(ps.drop_first() =~= ps.remove(0));
    } else {
        let tail = ps.drop_first();
        assert forall|m: int| 0 <= m < j - 1 implies (#[trigger] tail[m]).0 != key by {
            assert(tail[m] == ps[m + 1]);
        }
        assert(tail[j - 1] == ps[j]);
        lemma_patch_first_match(tail, key, j - 1);
        assert(seq![ps[0]] + tail.remove(j - 1) =~= ps.remove(j));
    }
}

/// What loading the override pairs returns: each pair's command string is
/// parsed; the first malformed command fails the whole load.
pub open spec fn config_from_pairs_spec(ps: Seq<(Seq<char>, Seq<char>)>) -> Result<
    Seq<(Seq<char>, PatchView)>,
    EntryError,
>
    decreases ps.len(),
{
    if ps.len() == 0 {
        Ok(Seq::empty())
    } else {
        match parse_exec_spec(ps[0].1) {
            Err(e) => Err(e),
            Ok(cmd) => match config_from_pairs_spec(ps.drop_first()) {
                Err(e) => Err(e),
                Ok(tail) => Ok(seq![(ps[0].0, PatchView { command: cmd })] + tail),
            },
        }
    }
}

/// The views of path/command pairs.
pub open spec fn pairs_view(ps: Seq<(String, String)>) -> Seq<(Seq<char>, Seq<char>)> {
    ps.map_values(|p: (String, String)| (p.0@, p.1@))
}

/// The view of a config load result, for stating contracts.
pub open spec fn config_result_view(r: Result<Config, EntryError>) -> Result<
    Seq<(Seq<char>, PatchView)>,
    EntryError,
> {
    match r {
        Ok(c) => Ok(c@),
        Err(e) => Err(e),
    }
}

impl Default for Config {
    /// An empty override store.
    fn default() -> (c: Self)
        ensures
            c@ == Seq::<(Seq<char>, PatchView)>::empty(),
    {
        let c = Config { patches: Vec::new() };
        proof {
            assert(c@ =~= Seq::<(Seq<char>, PatchView)>::empty());
        }
        c
    }
}

impl Config {
    /// Build the override store from path/command-string pairs; each command
    /// string must parse under the command grammar.
    pub fn from_pairs(pairs: &Vec<(String, String)>) -> (r: Result<Config, EntryError>)
        ensures
            config_result_view(r) == config_from_pairs_spec(pairs_view(pairs@)),
    {
        let ghost full = pairs_view(pairs@);
        let n = pairs.len();
        let mut patches: Vec<(String, Patch)> = Vec::new();
        let mut i: usize = 0;
        proof {
            assert(full.skip(0) =~= full);
            assert(full.len() == n);
            assert(patches@.map_values(|p: (String, Patch)| (p.0@, p.1@)) =~= Seq::<
                (Seq<char>, PatchView),
            >::empty());
        }
        while i < n
            invariant
                i <= n,
                n == pairs@.len(),
                full == pairs_view(pairs@),
                full.len() == n,
                config_from_pairs_spec(full) == (match config_from_pairs_spec(
                    full.skip(i as int),
                ) {
                    Err(e) => Err::<Seq<(Seq<char>, PatchView)>, EntryError>(e),
                    Ok(tail) => Ok(patches@.map_values(|p: (String, Patch)| (p.0@, p.1@)) + tail),
                }),
            decreases n - i,
        {
            let ghost rem = full.skip(i as int);
            let ghost built = patches@.map_values(|p: (String, Patch)| (p.0@, p.1@));
            proof {
                assert(rem.len() > 0 && rem[0] == full[i as int]);
                assert(full[i as int] == (pairs@[i as int].0@, pairs@[i as int].1@));
                assert(rem.drop_first() =~= full.skip(i + 1));
            }
            let cmd = match parse_exec(pairs[i].1.as_str()) {
                Ok(c) => c,
                Err(e) => {
                    return Err(e);
                },
            };
            let path = pairs[i].0.clone();
            let ghost entry_view = (path@, PatchView { command: cmd@ });
            patches.push((path, Patch { command: cmd }));
            proof {
                assert(patches@.map_values(|p: (String, Patch)| (p.0@, p.1@)) =~= built.push(
                    entry_view,
                ));
                assert forall|tail: Seq<(Seq<char>, PatchView)>|
                    true implies built + (seq![entry_view] + tail) =~= built.push(entry_view)
                    + tail by {}
            }
            i = i + 1;
        }
        proof {
            assert(full.skip(n as int) =~= Seq::<(Seq<char>, Seq<char>)>::empty());
            assert(patches@.map_values(|p: (String, Patch)| (p.0@, p.1@)) + Seq::<
                (Seq<char>, PatchView),
            >::empty() =~= patches@.map_values(|p: (String, Patch)| (p.0@, p.1@)));
        }
        Ok(Config { patches })
    }

    /// Take the patch for the given path out of the store, if one is there.
    pub fn remove(&mut self, path: &str) -> (r: Option<Patch>)
        ensures
            final(self)@ == patch_remove(old(self)@, path@),
            match r {
                Some(p) => patch_lookup(old(self)@, path@) == Some(p@),
                None => patch_lookup(old(self)@, path@) is None,
            },
    {
        let ghost full = self@;
        let n = self.patches.len();
        let mut j: usize = 0;
        proof {
            assert(full.len() == n);
        }
        while j < n
            invariant
                j <= n,
                n == self.patches@.len(),
                full == self@,
                full.len() == n,
                self.patches@ == old(self).patches@,
                forall|m: int| 0 <= m < j ==> (#[trigger] full[m]).0 != path@,
            decreases n - j,
        {
            proof {
                assert(full[j as int] == (self.patches@[j as int].0@, self.patches@[j as int].1@));
            }
            if str_eq(self.patches[j].0.as_str(), path) {
                let p = self.patches.remove(j);
                proof {
                    lemma_patch_first_match(full, path@, j as int);
                    assert(self@ =~= full.remove(j as int));
                }
                return Some(p.1);
            }
            j = j + 1;
        }
        proof {
            lemma_patch_lookup_none(full, path@);
            lemma_patch_remove_absent(full, path@);
        }
        None
    }
}

proof fn lemma_patch_lookup_none(ps: Seq<(Seq<char>, PatchView)>, key: Seq<char>)
    requires
        forall|m: int| 0 <= m < ps.len() ==> (#[trigger] ps[m]).0 != key,
    ensures
        patch_lookup(ps, key) is None,
    decreases ps.len(),
{
    if ps.len() == 0 {
    } else {
        let tail = ps.drop_first();
        assert forall|m: int| 0 <= m < tail.len() implies (#[trigger] tail[m]).0 != key by {
            assert(tail[m] == ps[m + 1]);
        }
        lemma_patch_lookup_none(tail, key);
    }
}

} // verus!
