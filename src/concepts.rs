use vstd::prelude::*;
use crate::dependency::{ModDependency, ModDependencyType, parsed_dependency};
use crate::error::ModDataErr;
use crate::version::{SemVer, semver_lt, semver_text, parse_semver};
use core::cmp::Ordering;

verus! {

/// State of a mod in the activation list.
#[derive(Clone, Debug)]
pub enum ModEnabledType {
    Disabled,
    Latest,
    Version(SemVer),
}

/// How a mod variant is stored.
#[derive(Clone, Copy, Debug, PartialEq, Eq, Structural)]
pub enum ModStructure {
    Directory,
    Symlink,
    Zip,
}

/// One physical candidate of a mod: its storage entry, structure, version and
/// declared relations.
#[derive(Clone, Debug)]
pub struct ModVersion {
    /// Path of the storage entry backing this variant.
    pub entry: String,
    pub dependencies: Vec<ModDependency>,
    pub structure: ModStructure,
    pub version: SemVer,
}

/// A mod: its name, the selected variant (none for the bundled base mod) and
/// whether it is enabled.
#[derive(Clone, Debug)]
pub struct Mod {
    pub name: String,
    pub version: Option<ModVersion>,
    pub enabled: ModEnabledType,
}

/// The decoded manifest of a mod variant.
#[derive(Clone, Debug)]
pub struct InfoJson {
    pub dependencies: Option<Vec<String>>,
    pub name: String,
    pub version: String,
}

/// `dep` is what parsing `raw` yields.
pub open spec fn parses_to(raw: String, dep: ModDependency) -> bool {
    parsed_dependency(raw@) == Some((dep.dep_type, dep.name@, dep.version))
}

/// The raw dependency strings of a manifest; a missing list is an empty one.
pub open spec fn raw_dependencies(info: InfoJson) -> Seq<String> {
    match info.dependencies {
        Some(d) => d@,
        None => Seq::empty(),
    }
}

/// The manifest names a mod and carries a version of three numbers.
pub open spec fn manifest_ok(info: InfoJson) -> bool {
    info.name@.len() > 0 && semver_text(info.version@) is Some
}

/// The persisted activation list.
#[derive(Clone, Debug)]
pub struct ModListJson {
    pub mods: Vec<ModListJsonMod>,
}

/// One entry of the activation list.
#[derive(Clone, Debug)]
pub struct ModListJsonMod {
    pub name: String,
    pub enabled: bool,
}

/// `m` declares an ordering relation (required, optional or hidden optional)
/// on the mod named `target`.
pub open spec fn declares_ordering_on(m: Mod, target: Seq<char>) -> bool {
    match m.version {
        Some(v) => exists|k: int|
            0 <= k < v.dependencies@.len() && (#[trigger] v.dependencies@[k]).dep_type.orders_spec()
                && v.dependencies@[k].name@ == target,
        None => false,
    }
}

/// `m` declares the mod named `target` incompatible.
pub open spec fn declares_incompatible(m: Mod, target: Seq<char>) -> bool {
    match m.version {
        Some(v) => exists|k: int|
            0 <= k < v.dependencies@.len() && (#[trigger] v.dependencies@[k]).dep_type
                is Incompatible && v.dependencies@[k].name@ == target,
        None => false,
    }
}

impl Mod {
    /// Whether this mod declares the mod named `dep_name` incompatible.
    pub fn is_incompatible_with(&self, dep_name: &String) -> (r: bool)
        ensures
            r == declares_incompatible(*self, dep_name@),
    {
        match self.version {
            Some(ref version) => {
                let mut k: usize = 0;
                while k < version.dependencies.len()
                    invariant
                        k <= version.dependencies@.len(),
                        self.version == Some(*version),
                        forall|j: int|
                            0 <= j < k ==> !((#[trigger] version.dependencies@[j]).dep_type
                                is Incompatible && version.dependencies@[j].name@ == dep_name@),
                    decreases version.dependencies@.len() - k,
                {
                    let dependency = &version.dependencies[k];
                    if matches!(dependency.dep_type, ModDependencyType::Incompatible)
                        && dependency.name == *dep_name {
                        assert(version.dependencies@[k as int].dep_type is Incompatible);
                        return true;
                    }
                    k += 1;
                }
                false
            },
            None => false,
        }
    }

    /// Offers a newly found variant: it replaces the held one only if it outranks
    /// it, so among variants of equal rank the first one found stays.
    pub fn offer_variant(&mut self, candidate: ModVersion)
        ensures
            final(self).name == old(self).name,
            final(self).enabled == old(self).enabled,
            final(self).version == match old(self).version {
                Some(held) => if variant_lt(held, candidate) {
                    Some(candidate)
                } else {
                    Some(held)
                },
                None => Some(candidate),
            },
    {
        let replace = match &self.version {
            Some(held) => matches!(held.compare(&candidate), Ordering::Less),
            None => true,
        };
        if replace {
            self.version = Some(candidate);
        }
    }

    /// Whether this mod must load after the mod named `dep_name`.
    pub fn has_dependency(&self, dep_name: &String) -> (r: bool)
        ensures
            r == declares_ordering_on(*self, dep_name@),
    {
        match self.version {
            Some(ref version) => {
                let mut k: usize = 0;
                while k < version.dependencies.len()
                    invariant
                        k <= version.dependencies@.len(),
                        self.version == Some(*version),
                        forall|j: int|
                            0 <= j < k ==> !((#[trigger] version.dependencies@[j]).dep_type.orders_spec()
                                && version.dependencies@[j].name@ == dep_name@),
                    decreases version.dependencies@.len() - k,
                {
                    let dependency = &version.dependencies[k];
                    if dependency.dep_type.orders() && dependency.name == *dep_name {
                        assert(version.dependencies@[k as int].dep_type.orders_spec());
                        return true;
                    }
                    k += 1;
                }
                false
            },
            None => false,
        }
    }
}


impl ModVersion {
    /// Builds the variant that a storage entry holds from its decoded manifest,
    /// parsing each dependency string.
    pub fn from_info(entry: String, info: &InfoJson, structure: ModStructure) -> (r: Result<
        ModVersion,
        ModDataErr,
    >)
        ensures
            !manifest_ok(*info) ==> r == Err::<ModVersion, ModDataErr>(ModDataErr::MalformedManifest),
            manifest_ok(*info) ==> (r is Ok <==> forall|i: int|
                0 <= i < raw_dependencies(*info).len() ==> parsed_dependency(
                    (#[trigger] raw_dependencies(*info)[i])@,
                ) is Some),
            r is Err ==> r->Err_0 is MalformedManifest || r->Err_0 is MalformedDependency,
            match r {
                Ok(v) => {
                    &&& v.entry == entry
                    &&& v.structure == structure
                    &&& semver_text(info.version@) == Some((v.version.major, v.version.minor, v.version.patch))
                    &&& v.dependencies@.len() == raw_dependencies(*info).len()
                    &&& forall|i: int|
                        0 <= i < v.dependencies@.len() ==> parses_to(
                            raw_dependencies(*info)[i],
                            #[trigger] v.dependencies@[i],
                        )
                },
                Err(_) => true,
            },
    {
        if info.name.as_str().unicode_len() == 0 {
            return Err(ModDataErr::MalformedManifest);
        }
        let version = match parse_semver(info.version.as_str()) {
            Some(v) => v,
            None => {
                return Err(ModDataErr::MalformedManifest);
            },
        };
        let mut dependencies: Vec<ModDependency> = Vec::new();
        match &info.dependencies {
            Some(raws) => {
                let mut i: usize = 0;
                while i < raws.len()
                    invariant
                        info.dependencies == Some(*raws),
                        manifest_ok(*info),
                        i <= raws@.len(),
                        dependencies@.len() == i,
                        forall|j: int| 0 <= j < i ==> parses_to(raws@[j], #[trigger] dependencies@[j]),
                    decreases raws@.len() - i,
                {
                    let dep = ModDependency::new(&raws[i]);
                    match dep {
                        Ok(d) => dependencies.push(d),
                        Err(e) => {
                            return Err(e);
                        },
                    }
                    i += 1;
                }
                assert forall|j: int| 0 <= j < raws@.len() implies parsed_dependency(
                    (#[trigger] raws@[j])@,
                ) is Some by {
                    assert(parses_to(raws@[j], dependencies@[j]));
                }
            },
            None => {},
        }
        Ok(ModVersion { entry, dependencies, structure, version })
    }
}

/// Strict order among variants of one mod: a higher version wins, and at equal
/// versions an unpacked copy (directory or symbolic link) beats an archive.
pub open spec fn variant_lt(a: ModVersion, b: ModVersion) -> bool {
    semver_lt(a.version, b.version) || (a.version == b.version && a.structure is Zip
        && !(b.structure is Zip))
}

/// Two variants that neither outranks the other.
pub open spec fn same_rank(a: ModVersion, b: ModVersion) -> bool {
    a.version == b.version && (a.structure is Zip) == (b.structure is Zip)
}

/// `w` is the first of `variants` that no other variant outranks.
pub open spec fn is_winner(variants: Seq<ModVersion>, w: int) -> bool {
    &&& 0 <= w < variants.len()
    &&& forall|j: int| 0 <= j < variants.len() ==> !variant_lt(variants[w], #[trigger] variants[j])
    &&& forall|j: int| 0 <= j < w ==> variant_lt(#[trigger] variants[j], variants[w])
}

impl ModVersion {
    /// Three-way comparison of two variants of the same mod.
    pub fn compare(&self, other: &ModVersion) -> (r: Ordering)
        ensures
            (r == Ordering::Less) == variant_lt(*self, *other),
            (r == Ordering::Greater) == variant_lt(*other, *self),
            (r == Ordering::Equal) == same_rank(*self, *other),
    {
        match self.version.compare(&other.version) {
            Ordering::Equal => {
                match (self.structure, other.structure) {
                    (ModStructure::Zip, ModStructure::Directory)
                    | (ModStructure::Zip, ModStructure::Symlink) => Ordering::Less,
                    (ModStructure::Directory, ModStructure::Zip)
                    | (ModStructure::Symlink, ModStructure::Zip) => Ordering::Greater,
                    _ => Ordering::Equal,
                }
            },
            Ordering::Less => Ordering::Less,
            Ordering::Greater => Ordering::Greater,
        }
    }
}

/// Index of the winning variant: the first one that no other variant outranks.
pub fn select_variant(variants: &Vec<ModVersion>) -> (w: usize)
    requires
        variants@.len() > 0,
    ensures
        is_winner(variants@, w as int),
{
    let mut w: usize = 0;
    let mut i: usize = 1;
    while i < variants.len()
        invariant
            0 < i <= variants@.len(),
            w < i,
            forall|j: int| 0 <= j < i ==> !variant_lt(variants@[w as int], #[trigger] variants@[j]),
            forall|j: int| 0 <= j < w ==> variant_lt(#[trigger] variants@[j], variants@[w as int]),
        decreases variants@.len() - i,
    {
        if matches!(variants[w].compare(&variants[i]), Ordering::Less) {
            proof {
                assert forall|j: int| 0 <= j < w implies variant_lt(
                    #[trigger] variants@[j],
                    variants@[i as int],
                ) by {
                    lemma_variant_lt_transitive(variants@[j], variants@[w as int], variants@[i as int]);
                }
                assert forall|j: int| 0 <= j < i implies variant_lt(
                    #[trigger] variants@[j],
                    variants@[i as int],
                ) by {
                    lemma_variant_lt_total(variants@[j], variants@[w as int]);
                    if !variant_lt(variants@[j], variants@[w as int]) {
                        assert(same_rank(variants@[j], variants@[w as int]));
                    } else {
                        lemma_variant_lt_transitive(variants@[j], variants@[w as int], variants@[i as int]);
                    }
                }
                assert forall|j: int| 0 <= j <= i implies !variant_lt(
                    variants@[i as int],
                    #[trigger] variants@[j],
                ) by {
                    if j < i {
                        lemma_variant_lt_total(variants@[j], variants@[i as int]);
                    }
                }
            }
            w = i;
        }
        i += 1;
    }
    w
}

/// `m` is an enabled mod holding a variant found under its name that no other
/// variant found under that name outranks.
pub open spec fn holds_best_variant(found: Seq<(String, ModVersion)>, m: Mod) -> bool {
    &&& m.version is Some
    &&& m.enabled is Latest
    &&& exists|j: int| 0 <= j < found.len() && found[j].0@ == m.name@ && found[j].1 == m.version->0
    &&& forall|j: int|
        0 <= j < found.len() && found[j].0@ == m.name@ ==> !variant_lt(
            m.version->0,
            #[trigger] found[j].1,
        )
}

/// The result of grouping `found` by mod name: one mod per distinct name, each
/// holding the best variant found under its name.
pub open spec fn groups_variants(found: Seq<(String, ModVersion)>, mods: Seq<Mod>) -> bool {
    &&& forall|a: int, b: int| 0 <= a < b < mods.len() ==> mods[a].name@ != mods[b].name@
    &&& forall|j: int|
        0 <= j < found.len() ==> exists|i: int|
            0 <= i < mods.len() && (#[trigger] mods[i]).name@ == (#[trigger] found[j]).0@
    &&& forall|i: int| 0 <= i < mods.len() ==> holds_best_variant(found, #[trigger] mods[i])
}

/// Index of the mod named `name`, if any.
fn position_of(mods: &Vec<Mod>, name: &String) -> (r: Option<usize>)
    ensures
        match r {
            Some(i) => i < mods@.len() && mods@[i as int].name@ == name@,
            None => forall|i: int| 0 <= i < mods@.len() ==> (#[trigger] mods@[i]).name@ != name@,
        },
{
    let mut i: usize = 0;
    while i < mods.len()
        invariant
            i <= mods@.len(),
            forall|j: int| 0 <= j < i ==> (#[trigger] mods@[j]).name@ != name@,
        decreases mods@.len() - i,
    {
        if mods[i].name == *name {
            return Some(i);
        }
        i += 1;
    }
    None
}

/// Groups the variants found on disk, each with the name its manifest declares,
/// into one enabled mod per name, in the order the names were first seen. Each
/// mod keeps the variant that no other variant of its name outranks, the first
/// found among equals.
pub fn collect_mods(found: Vec<(String, ModVersion)>) -> (mods: Vec<Mod>)
    ensures
        groups_variants(found@, mods@),
{
    let ghost all = found@;
    let mut rest = found;
    let mut mods: Vec<Mod> = Vec::new();
    let ghost mut k: int = 0;
    while rest.len() > 0
        invariant
            0 <= k <= all.len(),
            k + rest@.len() == all.len(),
            rest@ == all.subrange(k, all.len() as int),
            groups_variants(all.take(k), mods@),
        decreases rest@.len(),
    {
        let ghost seen = all.take(k);
        let ghost before = mods@;
        let (name, candidate) = rest.remove(0);
        assert(all[k] == (name, candidate));
        let ghost now = all.take(k + 1);
        assert(now =~= seen.push((name, candidate)));
        match position_of(&mods, &name) {
            Some(i) => {
                let mut m = mods.remove(i);
                m.offer_variant(candidate);
                mods.insert(i, m);
                proof {
                    assert(mods@ =~= before.update(i as int, m));
                    lemma_group_offer(seen, before, i as int, name, candidate, m);
                }
            },
            None => {
                let m = Mod { name, version: Some(candidate), enabled: ModEnabledType::Latest };
                mods.push(m);
                proof {
                    lemma_group_new(seen, before, name, candidate, m);
                }
            },
        }
        proof {
            k = k + 1;
        }
        assert(rest@ =~= all.subrange(k, all.len() as int));
    }
    assert(all.take(k) =~= all);
    mods
}

proof fn lemma_other_name_kept(seen: Seq<(String, ModVersion)>, b: Mod, name: String, candidate: ModVersion)
    requires
        holds_best_variant(seen, b),
        b.name@ != name@,
    ensures
        holds_best_variant(seen.push((name, candidate)), b),
{
    let now = seen.push((name, candidate));
    let jw = choose|j: int| 0 <= j < seen.len() && seen[j].0@ == b.name@ && seen[j].1 == b.version->0;
    assert(now[jw] == seen[jw]);
    assert forall|j: int| 0 <= j < now.len() && now[j].0@ == b.name@ implies !variant_lt(
        b.version->0,
        #[trigger] now[j].1,
    ) by {
        if j < seen.len() {
            assert(now[j] == seen[j]);
        }
    }
}

proof fn lemma_offer_keeps_best(
    seen: Seq<(String, ModVersion)>,
    b: Mod,
    name: String,
    candidate: ModVersion,
    m: Mod,
)
    requires
        holds_best_variant(seen, b),
        b.name@ == name@,
        m.name == b.name,
        m.enabled == b.enabled,
        m.version == if variant_lt(b.version->0, candidate) {
            Some(candidate)
        } else {
            b.version
        },
    ensures
        holds_best_variant(seen.push((name, candidate)), m),
{
    let now = seen.push((name, candidate));
    let held = b.version->0;
    let jw = choose|j: int| 0 <= j < seen.len() && seen[j].0@ == b.name@ && seen[j].1 == held;
    assert(now[jw] == seen[jw]);
    assert(now[seen.len() as int] == (name, candidate));
    assert forall|j: int| 0 <= j < now.len() && now[j].0@ == m.name@ implies !variant_lt(
        m.version->0,
        #[trigger] now[j].1,
    ) by {
        lemma_variant_lt_total(held, candidate);
        lemma_variant_lt_total(candidate, candidate);
        if j < seen.len() {
            assert(now[j] == seen[j]);
            assert(!variant_lt(held, seen[j].1));
            if variant_lt(held, candidate) && variant_lt(candidate, now[j].1) {
                lemma_variant_lt_transitive(held, candidate, now[j].1);
            }
        }
    }
}

proof fn lemma_group_offer(
    seen: Seq<(String, ModVersion)>,
    before: Seq<Mod>,
    i: int,
    name: String,
    candidate: ModVersion,
    m: Mod,
)
    requires
        groups_variants(seen, before),
        0 <= i < before.len(),
        before[i].name@ == name@,
        m.name == before[i].name,
        m.enabled == before[i].enabled,
        m.version == if variant_lt(before[i].version->0, candidate) {
            Some(candidate)
        } else {
            before[i].version
        },
    ensures
        groups_variants(seen.push((name, candidate)), before.update(i, m)),
{
    let now = seen.push((name, candidate));
    let after = before.update(i, m);
    assert forall|j: int| 0 <= j < now.len() implies exists|x: int|
        0 <= x < after.len() && (#[trigger] after[x]).name@ == (#[trigger] now[j]).0@ by {
        if j < seen.len() {
            assert(now[j] == seen[j]);
            let x = choose|x: int| 0 <= x < before.len() && (#[trigger] before[x]).name@ == seen[j].0@;
            assert(after[x].name@ == before[x].name@);
        } else {
            assert(after[i].name@ == name@);
        }
    }
    assert forall|x: int| 0 <= x < after.len() implies holds_best_variant(now, #[trigger] after[x]) by {
        assert(holds_best_variant(seen, before[x]));
        if x == i {
            lemma_offer_keeps_best(seen, before[i], name, candidate, m);
        } else {
            lemma_other_name_kept(seen, before[x], name, candidate);
        }
    }
    assert forall|a: int, b: int| 0 <= a < b < after.len() implies after[a].name@ != after[b].name@ by {
        assert(after[a].name == before[a].name);
        assert(after[b].name == before[b].name);
    }
}

proof fn lemma_group_new(
    seen: Seq<(String, ModVersion)>,
    before: Seq<Mod>,
    name: String,
    candidate: ModVersion,
    m: Mod,
)
    requires
        groups_variants(seen, before),
        forall|x: int| 0 <= x < before.len() ==> (#[trigger] before[x]).name@ != name@,
        m.name == name,
        m.version == Some(candidate),
        m.enabled is Latest,
    ensures
        groups_variants(seen.push((name, candidate)), before.push(m)),
{
    let now = seen.push((name, candidate));
    let after = before.push(m);
    assert forall|j: int| 0 <= j < now.len() implies exists|x: int|
        0 <= x < after.len() && (#[trigger] after[x]).name@ == (#[trigger] now[j]).0@ by {
        if j < seen.len() {
            assert(now[j] == seen[j]);
            let x = choose|x: int| 0 <= x < before.len() && (#[trigger] before[x]).name@ == seen[j].0@;
            assert(after[x] == before[x]);
        } else {
            assert(after[before.len() as int] == m);
        }
    }
    assert forall|x: int| 0 <= x < after.len() implies holds_best_variant(now, #[trigger] after[x]) by {
        if x < before.len() {
            assert(after[x] == before[x]);
            lemma_other_name_kept(seen, before[x], name, candidate);
        } else {
            assert(after[x] == m);
            assert(now[seen.len() as int] == (name, candidate));
            assert forall|j: int| 0 <= j < now.len() && now[j].0@ == m.name@ implies !variant_lt(
                m.version->0,
                #[trigger] now[j].1,
            ) by {
                if j < seen.len() {
                    assert(now[j] == seen[j]);
                } else {
                    lemma_variant_lt_total(candidate, candidate);
                }
            }
        }
    }
}

/// The order among variants is transitive.
pub proof fn lemma_variant_lt_transitive(a: ModVersion, b: ModVersion, c: ModVersion)
    requires
        variant_lt(a, b),
        variant_lt(b, c),
    ensures
        variant_lt(a, c),
{
}

/// Of two variants, exactly one outranks the other or they rank the same.
pub proof fn lemma_variant_lt_total(a: ModVersion, b: ModVersion)
    ensures
        variant_lt(a, b) || variant_lt(b, a) || same_rank(a, b),
        !(variant_lt(a, b) && variant_lt(b, a)),
        same_rank(a, b) ==> !variant_lt(a, b) && !variant_lt(b, a),
{
}

/// The winner does not depend on the order in which the candidates were found:
/// winners of any two listings of the same candidates rank the same.
pub proof fn lemma_winner_independent_of_order(
    s1: Seq<ModVersion>,
    s2: Seq<ModVersion>,
    w1: int,
    w2: int,
)
    requires
        forall|x: ModVersion| s1.contains(x) <==> s2.contains(x),
        is_winner(s1, w1),
        is_winner(s2, w2),
    ensures
        same_rank(s1[w1], s2[w2]),
{
    assert(s1.contains(s1[w1]));
    assert(s2.contains(s2[w2]));
    let j2 = choose|j: int| 0 <= j < s2.len() && s2[j] == s1[w1];
    let j1 = choose|j: int| 0 <= j < s1.len() && s1[j] == s2[w2];
    assert(!variant_lt(s2[w2], s2[j2]));
    assert(!variant_lt(s1[w1], s1[j1]));
    lemma_variant_lt_total(s1[w1], s2[w2]);
}

} // verus!
