use vstd::prelude::*;
use crate::concepts::{Mod, ModEnabledType, ModListJson, ModListJsonMod, declares_incompatible};
use crate::error::ModDataErr;
use crate::order::{resolve_order, is_load_order, follows_tie_break, has_cycle, on_cycle};

verus! {

/// Name of the bundled mod that is always enabled.
pub const BASE_MOD_NAME: &'static str = "base";

/// What the activation list says of `name`: the flag of its last entry for that
/// name, or nothing if the name is not listed.
pub open spec fn listed_state(entries: Seq<ModListJsonMod>, name: Seq<char>) -> Option<bool>
    decreases entries.len(),
{
    if entries.len() == 0 {
        None
    } else if entries.last().name@ == name {
        Some(entries.last().enabled)
    } else {
        listed_state(entries.drop_last(), name)
    }
}

impl ModListJson {
    /// The activation state of a discovered mod: disabled only where the list says
    /// so, enabled otherwise (including when the list does not name it).
    pub fn enabled_type(&self, name: &String) -> (r: ModEnabledType)
        ensures
            r == if listed_state(self.mods@, name@) == Some(false) {
                ModEnabledType::Disabled
            } else {
                ModEnabledType::Latest
            },
    {
        let mut i: usize = self.mods.len();
        assert(self.mods@.take(i as int) =~= self.mods@);
        while i > 0
            invariant
                i <= self.mods@.len(),
                listed_state(self.mods@, name@) == listed_state(self.mods@.take(i as int), name@),
            decreases i,
        {
            let entry = &self.mods[i - 1];
            assert(self.mods@.take(i as int).drop_last() =~= self.mods@.take(i - 1));
            if entry.name == *name {
                if entry.enabled {
                    return ModEnabledType::Latest;
                } else {
                    return ModEnabledType::Disabled;
                }
            }
            i -= 1;
        }
        ModEnabledType::Latest
    }
}

/// Whether a mod takes part in loading.
pub open spec fn is_active(m: Mod) -> bool {
    m.enabled is Latest
}

/// The active mods of `s`, in their order.
pub open spec fn active_only(s: Seq<Mod>) -> Seq<Mod>
    decreases s.len(),
{
    if s.len() == 0 {
        s
    } else if is_active(s.last()) {
        active_only(s.drop_last()).push(s.last())
    } else {
        active_only(s.drop_last())
    }
}

/// Only active mods survive filtering, each one of the input: a disabled mod
/// never reaches the activation set and so never the load order.
pub proof fn lemma_active_only_is_active(s: Seq<Mod>)
    ensures
        forall|i: int|
            0 <= i < active_only(s).len() ==> is_active(#[trigger] active_only(s)[i]) && s.contains(
                active_only(s)[i],
            ),
        forall|i: int| 0 <= i < s.len() && is_active(#[trigger] s[i]) ==> active_only(s).contains(s[i]),
    decreases s.len(),
{
    if s.len() > 0 {
        let t = s.drop_last();
        lemma_active_only_is_active(t);
        assert forall|i: int|
            0 <= i < active_only(s).len() implies is_active(#[trigger] active_only(s)[i]) && s.contains(
                active_only(s)[i],
            ) by {
            if i < active_only(t).len() {
                assert(active_only(s)[i] == active_only(t)[i]);
                let k = choose|k: int| 0 <= k < t.len() && t[k] == active_only(t)[i];
                assert(s[k] == t[k]);
            } else {
                assert(s[s.len() - 1] == s.last());
            }
        }
        assert forall|i: int| 0 <= i < s.len() && is_active(#[trigger] s[i]) implies active_only(
            s,
        ).contains(s[i]) by {
            if i < t.len() {
                assert(t[i] == s[i]);
                let k = choose|k: int| 0 <= k < active_only(t).len() && active_only(t)[k] == t[i];
                assert(active_only(s)[k] == active_only(t)[k]);
            } else {
                assert(active_only(s)[active_only(s).len() - 1] == s.last());
            }
        }
    }
}

/// `m` is the bundled base mod: no discovered variant, always enabled.
pub open spec fn is_base_mod(m: Mod) -> bool {
    m.name@ == BASE_MOD_NAME@ && m.version is None && m.enabled is Latest
}

/// Applies the activation list to the discovered mods.
pub fn apply_activation_list(mods: &mut Vec<Mod>, record: &ModListJson)
    ensures
        final(mods)@.len() == old(mods)@.len(),
        forall|i: int|
            0 <= i < old(mods)@.len() ==> {
                &&& (#[trigger] final(mods)@[i]).name == old(mods)@[i].name
                &&& final(mods)@[i].version == old(mods)@[i].version
                &&& final(mods)@[i].enabled == if listed_state(record.mods@, old(mods)@[i].name@)
                    == Some(false) {
                    ModEnabledType::Disabled
                } else {
                    ModEnabledType::Latest
                }
            },
{
    let mut i: usize = 0;
    while i < mods.len()
        invariant
            i <= mods@.len(),
            mods@.len() == old(mods)@.len(),
            forall|j: int|
                i <= j < mods@.len() ==> #[trigger] mods@[j] == old(mods)@[j],
            forall|j: int|
                0 <= j < i ==> {
                    &&& (#[trigger] mods@[j]).name == old(mods)@[j].name
                    &&& mods@[j].version == old(mods)@[j].version
                    &&& mods@[j].enabled == if listed_state(record.mods@, old(mods)@[j].name@)
                        == Some(false) {
                        ModEnabledType::Disabled
                    } else {
                        ModEnabledType::Latest
                    }
                },
        decreases old(mods)@.len() - i,
    {
        let state = record.enabled_type(&mods[i].name);
        let mut m = mods.remove(i);
        m.enabled = state;
        mods.insert(i, m);
        i += 1;
    }
}

/// The mods that take part in loading: the active discovered ones, in their order,
/// followed by the base mod.
pub fn activation_set(mods: Vec<Mod>) -> (r: Vec<Mod>)
    ensures
        r@.len() > 0,
        r@.drop_last() == active_only(mods@),
        is_base_mod(r@.last()),
{
    let ghost all = mods@;
    let mut rest = mods;
    let mut r: Vec<Mod> = Vec::new();
    let ghost mut i: int = 0;
    while rest.len() > 0
        invariant
            0 <= i <= all.len(),
            i + rest@.len() == all.len(),
            rest@ == all.subrange(i, all.len() as int),
            r@ == active_only(all.take(i)),
        decreases rest@.len(),
    {
        let m = rest.remove(0);
        assert(all.take(i + 1).drop_last() =~= all.take(i));
        if matches!(m.enabled, ModEnabledType::Latest) {
            r.push(m);
        }
        proof {
            i = i + 1;
        }
        assert(rest@ =~= all.subrange(i, all.len() as int));
    }
    assert(all.take(i) =~= all);
    let base = Mod {
        name: String::from_str(BASE_MOD_NAME),
        version: None,
        enabled: ModEnabledType::Latest,
    };
    r.push(base);
    assert(r@.drop_last() =~= active_only(all));
    r
}

/// `(a, b)` is the first conflicting pair, in order of `a` and then of `b`.
pub open spec fn first_conflict(mods: Seq<Mod>, a: int, b: int) -> bool {
    &&& conflicting(mods, a, b)
    &&& forall|x: int, y: int| #[trigger] conflicting(mods, x, y) ==> a < x || (a == x && b <= y)
}

/// Mod `a` declares mod `b` incompatible.
pub open spec fn conflicting(mods: Seq<Mod>, a: int, b: int) -> bool {
    0 <= a < mods.len() && 0 <= b < mods.len() && declares_incompatible(mods[a], mods[b].name@)
}

/// Fails when some mod declares another mod of the set incompatible, naming the
/// declaring mod first; the pair reported is the first in index order.
pub fn check_conflicts(mods: &Vec<Mod>) -> (r: Result<(), ModDataErr>)
    ensures
        r is Ok <==> !exists|a: int, b: int| conflicting(mods@, a, b),
        match r {
            Ok(()) => true,
            Err(e) => match e {
                ModDataErr::IncompatibleMods(x, y) => exists|a: int, b: int|
                    #[trigger] first_conflict(mods@, a, b) && x@ == mods@[a].name@ && y@ == mods@[b].name@,
                _ => false,
            },
        },
{
    let n = mods.len();
    let mut a: usize = 0;
    while a < n
        invariant
            n == mods@.len(),
            a <= n,
            forall|x: int, y: int| 0 <= x < a ==> !#[trigger] conflicting(mods@, x, y),
        decreases n - a,
    {
        let mut b: usize = 0;
        while b < n
            invariant
                n == mods@.len(),
                a < n,
                b <= n,
                forall|x: int, y: int| 0 <= x < a ==> !#[trigger] conflicting(mods@, x, y),
                forall|y: int| 0 <= y < b ==> !#[trigger] conflicting(mods@, a as int, y),
            decreases n - b,
        {
            if mods[a].is_incompatible_with(&mods[b].name) {
                assert(first_conflict(mods@, a as int, b as int));
                return Err(ModDataErr::IncompatibleMods(mods[a].name.clone(), mods[b].name.clone()));
            }
            b += 1;
        }
        a += 1;
    }
    Ok(())
}


/// Checks the activation set for incompatibilities and then orders it. An
/// incompatibility is reported before any ordering is attempted, so it wins over
/// a cycle.
pub fn plan_load_order(active: &Vec<Mod>) -> (r: Result<Vec<usize>, ModDataErr>)
    ensures
        (exists|a: int, b: int| conflicting(active@, a, b)) ==> r is Err && r->Err_0
            is IncompatibleMods,
        !(exists|a: int, b: int| conflicting(active@, a, b)) ==> {
            &&& r is Ok <==> !has_cycle(active@)
            &&& r is Err ==> r->Err_0 is CyclicDependency
        },
        match r {
            Ok(order) => is_load_order(active@, order@) && follows_tie_break(active@, order@),
            Err(e) => match e {
                ModDataErr::IncompatibleMods(x, y) => exists|a: int, b: int|
                    #[trigger] first_conflict(active@, a, b) && x@ == active@[a].name@ && y@
                        == active@[b].name@,
                ModDataErr::CyclicDependency(name) => exists|x: int|
                    on_cycle(active@, x) && #[trigger] active@[x].name@ == name@,
                _ => false,
            },
        },
{
    check_conflicts(active)?;
    resolve_order(active)
}

} // verus!
