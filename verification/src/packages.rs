//! Package bookkeeping of the build: which packages must be rebuilt because
//! something they depend on changed, and how Cargo dependency sources are
//! normalised for patch tables.
use vstd::prelude::*;

use crate::sorting::{
    is_sorted_by, lemma_stable_sorted_is_sorted_permutation, lemma_stable_sorted_strictly,
    lemma_str_lt_irreflexive, lemma_str_lt_total, lemma_str_lt_transitive, sort_stable,
    stable_sorted, str_lt,
};
use crate::sysroot::{
    Groups, add_finding, add_to_groups, find_group, group_index_from, groups_view,
    lemma_group_index,
};
use crate::text::{
    chars_of, decimal, find_either, find_either_from, lemma_find_either_from, lemma_trim_end_char,
    occurs_at, occurs_at_exec, string_from_range, sub_vec, trim_end_char, trim_end_char_range,
};

verus! {

/// A package of the manifest, as far as the build decisions read it.
#[derive(Clone, Debug)]
pub struct Package {
    pub name: String,
    pub version: String,
    /// Names of the packages that must be built before this one.
    pub build_deps: Vec<String>,
}

/// The set of names held by a list of strings.
pub open spec fn name_set(v: Seq<String>) -> Set<Seq<char>> {
    Set::new(|n: Seq<char>| exists|i: int| 0 <= i < v.len() && #[trigger] v[i]@ == n)
}

/// No name occurs twice in the list.
pub open spec fn distinct_names(v: Seq<String>) -> bool {
    forall|i: int, j: int| 0 <= i < j < v.len() ==> #[trigger] v[i]@ != #[trigger] v[j]@
}

/// `p` has a build dependency whose name is in `s`.
pub open spec fn depends_on_any(p: Package, s: Set<Seq<char>>) -> bool {
    exists|j: int| 0 <= j < p.build_deps@.len() && s.contains(#[trigger] p.build_deps@[j]@)
}

/// Every package that depends on a member of `s` is itself in `s`.
pub open spec fn closed_under_dependents(pkgs: Seq<Package>, s: Set<Seq<char>>) -> bool {
    forall|i: int|
        0 <= i < pkgs.len() && #[trigger] depends_on_any(pkgs[i], s) ==> s.contains(pkgs[i].name@)
}

/// `result` is the smallest set that holds `seed` and every package that
/// (transitively) depends on a member of it.
pub open spec fn is_stale_closure(
    pkgs: Seq<Package>,
    seed: Set<Seq<char>>,
    result: Set<Seq<char>>,
) -> bool {
    &&& seed.subset_of(result)
    &&& closed_under_dependents(pkgs, result)
    &&& forall|t: Set<Seq<char>>|
        seed.subset_of(t) && #[trigger] closed_under_dependents(pkgs, t) ==> result.subset_of(t)
}

/// The number of packages whose name is not in `s`.
spec fn unmarked(pkgs: Seq<Package>, s: Set<Seq<char>>) -> nat
    decreases pkgs.len(),
{
    if pkgs.len() == 0 {
        0
    } else {
        unmarked(pkgs.drop_last(), s) + if s.contains(pkgs.last().name@) {
            0nat
        } else {
            1nat
        }
    }
}

proof fn lemma_unmarked_monotone(pkgs: Seq<Package>, s: Set<Seq<char>>, t: Set<Seq<char>>)
    requires
        s.subset_of(t),
    ensures
        unmarked(pkgs, t) <= unmarked(pkgs, s),
    decreases pkgs.len(),
{
    if pkgs.len() > 0 {
        lemma_unmarked_monotone(pkgs.drop_last(), s, t);
    }
}

proof fn lemma_unmarked_shrinks(
    pkgs: Seq<Package>,
    s: Set<Seq<char>>,
    t: Set<Seq<char>>,
    k: int,
)
    requires
        s.subset_of(t),
        0 <= k < pkgs.len(),
        !s.contains(pkgs[k].name@),
        t.contains(pkgs[k].name@),
    ensures
        unmarked(pkgs, t) < unmarked(pkgs, s),
    decreases pkgs.len(),
{
    if k == pkgs.len() - 1 {
        lemma_unmarked_monotone(pkgs.drop_last(), s, t);
    } else {
        assert(pkgs.drop_last()[k] == pkgs[k]);
        lemma_unmarked_shrinks(pkgs.drop_last(), s, t, k);
    }
}

proof fn lemma_name_set_push(v: Seq<String>, x: String)
    ensures
        name_set(v.push(x)) == name_set(v).insert(x@),
{
    assert forall|n: Seq<char>| #[trigger] name_set(v.push(x)).contains(n) implies name_set(
        v,
    ).insert(x@).contains(n) by {
        let i = choose|i: int| 0 <= i < v.len() + 1 && #[trigger] v.push(x)[i]@ == n;
        if i < v.len() {
            assert(v[i]@ == n);
        }
    }
    assert forall|n: Seq<char>| #[trigger] name_set(v).insert(x@).contains(n) implies name_set(
        v.push(x),
    ).contains(n) by {
        if n == x@ {
            assert(v.push(x)[v.len() as int]@ == n);
        } else {
            let i = choose|i: int| 0 <= i < v.len() && #[trigger] v[i]@ == n;
            assert(v.push(x)[i]@ == n);
        }
    }
    assert(name_set(v.push(x)) =~= name_set(v).insert(x@));
}

/// `n` names a package that is not in `cur` but depends on a member of it.
spec fn newly_found(pkgs: Seq<Package>, cur: Set<Seq<char>>, n: Seq<char>) -> bool {
    exists|k: int|
        0 <= k < pkgs.len() && #[trigger] pkgs[k].name@ == n && !cur.contains(n)
            && depends_on_any(pkgs[k], cur)
}

/// Whether `name` is one of `v`.
pub(crate) fn contains_name(v: &Vec<String>, name: &String) -> (r: bool)
    ensures
        r == name_set(v@).contains(name@),
{
    let mut i: usize = 0;
    while i < v.len()
        invariant
            i <= v.len(),
            forall|k: int| 0 <= k < i ==> v@[k]@ != name@,
        decreases v.len() - i,
    {
        if v[i] == *name {
            assert(v@[i as int]@ == name@);
            return true;
        }
        i = i + 1;
    }
    false
}

/// Whether one of `deps` is in `names`.
fn any_in(deps: &Vec<String>, names: &Vec<String>) -> (r: bool)
    ensures
        r == exists|j: int| 0 <= j < deps@.len() && name_set(names@).contains(#[trigger] deps@[j]@),
{
    let mut j: usize = 0;
    while j < deps.len()
        invariant
            j <= deps.len(),
            forall|k: int| 0 <= k < j ==> !name_set(names@).contains(#[trigger] deps@[k]@),
        decreases deps.len() - j,
    {
        if contains_name(names, &deps[j]) {
            return true;
        }
        j = j + 1;
    }
    false
}

/// Appends `name` to `v` unless it is already there.
fn insert_name(v: &mut Vec<String>, name: String)
    requires
        distinct_names(old(v)@),
    ensures
        distinct_names(final(v)@),
        name_set(final(v)@) == name_set(old(v)@).insert(name@),
{
    let ghost before = v@;
    if !contains_name(v, &name) {
        v.push(name);
        assert(distinct_names(v@)) by {
            assert forall|i: int, j: int| 0 <= i < j < v@.len() implies v@[i]@ != v@[j]@ by {
                if j == v@.len() - 1 {
                    assert(v@[i] == before[i]);
                } else {
                    assert(v@[i] == before[i] && v@[j] == before[j]);
                }
            }
        }
        proof {
            assert(v@ == before.push(v@[before.len() as int]));
            lemma_name_set_push(before, v@[before.len() as int]);
        }
    } else {
        assert(name_set(v@) =~= name_set(before).insert(name@));
    }
}

/// Extends the set of stale packages by every package that depends,
/// directly or through other packages, on a stale one. Dependency cycles
/// are handled: the result is the least set that holds the given names and
/// is closed under "depends on". Each name occurs once in the result.
pub fn propagate_stale_packages(packages: &[Package], stale: Vec<String>) -> (result: Vec<String>)
    ensures
        distinct_names(result@),
        is_stale_closure(packages@, name_set(stale@), name_set(result@)),
{
    let ghost seed = name_set(stale@);
    let mut current: Vec<String> = Vec::new();
    let mut s: usize = 0;
    while s < stale.len()
        invariant
            s <= stale.len(),
            seed == name_set(stale@),
            distinct_names(current@),
            name_set(current@) == name_set(stale@.take(s as int)),
        decreases stale.len() - s,
    {
        insert_name(&mut current, stale[s].clone());
        proof {
            assert(stale@.take(s + 1) == stale@.take(s as int).push(stale@[s as int]));
            lemma_name_set_push(stale@.take(s as int), stale@[s as int]);
        }
        s = s + 1;
    }
    assert(stale@.take(stale.len() as int) == stale@);
    loop
        invariant
            seed == name_set(stale@),
            distinct_names(current@),
            seed.subset_of(name_set(current@)),
            forall|t: Set<Seq<char>>|
                seed.subset_of(t) && #[trigger] closed_under_dependents(packages@, t)
                    ==> name_set(current@).subset_of(t),
        decreases unmarked(packages@, name_set(current@)),
    {
        let ghost cur = name_set(current@);
        let mut newly: Vec<String> = Vec::new();
        for i in 0..packages.len()
            invariant
                cur == name_set(current@),
                forall|k: int|
                    0 <= k < i && !cur.contains(packages@[k].name@) && depends_on_any(
                        #[trigger] packages@[k],
                        cur,
                    ) ==> name_set(newly@).contains(packages@[k].name@),
                forall|m: int|
                    0 <= m < newly@.len() ==> newly_found(packages@, cur, #[trigger] newly@[m]@),
        {
            let p = &packages[i];
            if !contains_name(&current, &p.name) && any_in(&p.build_deps, &current) {
                let ghost before = newly@;
                newly.push(p.name.clone());
                assert(newly@[before.len() as int]@ == packages@[i as int].name@);
                assert forall|k: int|
                    0 <= k < i + 1 && !cur.contains(packages@[k].name@) && depends_on_any(
                        #[trigger] packages@[k],
                        cur,
                    ) implies name_set(newly@).contains(packages@[k].name@) by {
                    if k < i {
                        let m = choose|m: int|
                            0 <= m < before.len() && before[m]@ == packages@[k].name@;
                        assert(newly@[m] == before[m]);
                    }
                }
                assert forall|m: int| 0 <= m < newly@.len() implies newly_found(
                    packages@,
                    cur,
                    #[trigger] newly@[m]@,
                ) by {
                    if m < before.len() {
                        assert(newly@[m] == before[m]);
                        assert(newly_found(packages@, cur, before[m]@));
                    } else {
                        assert(newly@[m]@ == packages@[i as int].name@);
                        assert(!cur.contains(packages@[i as int].name@));
                        assert(depends_on_any(packages@[i as int], cur));
                    }
                }
            }
        }
        if newly.len() == 0 {
            assert(closed_under_dependents(packages@, cur)) by {
                assert forall|k: int|
                    0 <= k < packages@.len() && #[trigger] depends_on_any(
                        packages@[k],
                        cur,
                    ) implies cur.contains(packages@[k].name@) by {
                    if !cur.contains(packages@[k].name@) {
                        assert(name_set(newly@).contains(packages@[k].name@));
                    }
                }
            }
            return current;
        }
        // every newly found name belongs to any closed superset of the seed
        assert(forall|t: Set<Seq<char>>|
            seed.subset_of(t) && #[trigger] closed_under_dependents(packages@, t)
                ==> name_set(newly@).subset_of(t)) by {
            assert forall|t: Set<Seq<char>>|
                seed.subset_of(t) && #[trigger] closed_under_dependents(
                    packages@,
                    t,
                ) implies name_set(newly@).subset_of(t) by {
                assert forall|n: Seq<char>| name_set(newly@).contains(n) implies t.contains(
                    n,
                ) by {
                    let m = choose|m: int| 0 <= m < newly@.len() && newly@[m]@ == n;
                    assert(newly_found(packages@, cur, newly@[m]@));
                    let k = choose|k: int|
                        0 <= k < packages@.len() && #[trigger] packages@[k].name@ == n
                            && !cur.contains(n) && depends_on_any(packages@[k], cur);
                    let j = choose|j: int|
                        0 <= j < packages@[k].build_deps@.len() && cur.contains(
                            #[trigger] packages@[k].build_deps@[j]@,
                        );
                    assert(t.contains(packages@[k].build_deps@[j]@));
                    assert(depends_on_any(packages@[k], t));
                }
            }
        }
        assert(newly_found(packages@, cur, newly@[0]@));
        let ghost first_k = choose|k: int|
            0 <= k < packages@.len() && #[trigger] packages@[k].name@ == newly@[0]@
                && !cur.contains(newly@[0]@) && depends_on_any(packages@[k], cur);
        let mut m: usize = 0;
        while m < newly.len()
            invariant
                m <= newly.len(),
                distinct_names(current@),
                cur.subset_of(name_set(current@)),
                name_set(current@).subset_of(cur.union(name_set(newly@))),
                m > 0 ==> name_set(current@).contains(newly@[0]@),
            decreases newly.len() - m,
        {
            let ghost before = name_set(current@);
            insert_name(&mut current, newly[m].clone());
            assert(name_set(newly@).contains(newly@[m as int]@));
            m = m + 1;
        }
        proof {
            lemma_unmarked_shrinks(packages@, cur, name_set(current@), first_k);
            assert forall|t: Set<Seq<char>>|
                seed.subset_of(t) && #[trigger] closed_under_dependents(
                    packages@,
                    t,
                ) implies name_set(current@).subset_of(t) by {
                assert(cur.subset_of(t));
                assert(name_set(newly@).subset_of(t));
            }
        }
    }
}

/// The stale closure is determined by the packages and the seed: two sets
/// that are both the stale closure of the same seed are equal.
pub proof fn lemma_stale_closure_unique(
    pkgs: Seq<Package>,
    seed: Set<Seq<char>>,
    a: Set<Seq<char>>,
    b: Set<Seq<char>>,
)
    requires
        is_stale_closure(pkgs, seed, a),
        is_stale_closure(pkgs, seed, b),
    ensures
        a == b,
{
    assert(a.subset_of(b));
    assert(b.subset_of(a));
    assert(a =~= b);
}

/// Propagating staleness a second time adds nothing: the stale closure of
/// a stale closure is itself.
pub proof fn lemma_propagation_idempotent(
    pkgs: Seq<Package>,
    seed: Set<Seq<char>>,
    once: Set<Seq<char>>,
    twice: Set<Seq<char>>,
)
    requires
        is_stale_closure(pkgs, seed, once),
        is_stale_closure(pkgs, once, twice),
    ensures
        twice == once,
{
    assert(is_stale_closure(pkgs, once, once));
    lemma_stale_closure_unique(pkgs, once, once, twice);
}

/// A package is stale exactly when it was stale to begin with or one of
/// its build dependencies is stale.
pub proof fn lemma_stale_package_reason(
    pkgs: Seq<Package>,
    seed: Set<Seq<char>>,
    stale: Set<Seq<char>>,
    i: int,
)
    requires
        is_stale_closure(pkgs, seed, stale),
        0 <= i < pkgs.len(),
        forall|k: int| 0 <= k < pkgs.len() && k != i ==> pkgs[k].name@ != pkgs[i].name@,
    ensures
        stale.contains(pkgs[i].name@) <==> seed.contains(pkgs[i].name@) || depends_on_any(
            pkgs[i],
            stale,
        ),
{
    let n = pkgs[i].name@;
    if stale.contains(n) && !seed.contains(n) && !depends_on_any(pkgs[i], stale) {
        let smaller = stale.remove(n);
        assert(seed.subset_of(smaller));
        assert forall|k: int|
            0 <= k < pkgs.len() && #[trigger] depends_on_any(pkgs[k], smaller)
                implies smaller.contains(
            pkgs[k].name@,
        ) by {
            let j = choose|j: int|
                0 <= j < pkgs[k].build_deps@.len() && smaller.contains(
                    #[trigger] pkgs[k].build_deps@[j]@,
                );
            assert(stale.contains(pkgs[k].build_deps@[j]@));
            assert(depends_on_any(pkgs[k], stale));
            if k == i {
                assert(false);
            }
        }
        assert(closed_under_dependents(pkgs, smaller));
        assert(stale.subset_of(smaller));
    }
}

/// The dependency closure of a package is determined by the packages and
/// the package's name.
pub proof fn lemma_dependency_closure_unique(
    pkgs: Seq<Package>,
    root: Seq<char>,
    a: Set<Seq<char>>,
    b: Set<Seq<char>>,
)
    requires
        is_dependency_closure(pkgs, root, a),
        is_dependency_closure(pkgs, root, b),
    ensures
        a == b,
{
    assert forall|n: Seq<char>| a.contains(n) implies b.contains(n) by {
        assert(in_dependency_closure(pkgs, root, n));
        assert(closed_under_deps(pkgs, b));
    }
    assert forall|n: Seq<char>| b.contains(n) implies a.contains(n) by {
        assert(in_dependency_closure(pkgs, root, n));
        assert(closed_under_deps(pkgs, a));
    }
    assert(a =~= b);
}

/// Failures of selecting packages to build or clean.
#[derive(Debug)]
pub enum PackageSelectionError {
    /// No package of the manifest has this name.
    UnknownPackage(String),
    /// The build output of a package could not be removed.
    Clean { package: String, source: std::io::Error },
}

/// The position of the first package named `name`, from position `i` on.
pub open spec fn package_index_from(pkgs: Seq<Package>, name: Seq<char>, i: int) -> Option<int>
    decreases pkgs.len() - i,
{
    if i < 0 || i >= pkgs.len() {
        None
    } else if pkgs[i].name@ == name {
        Some(i)
    } else {
        package_index_from(pkgs, name, i + 1)
    }
}

/// Some package of the manifest is named `name`.
pub open spec fn is_package_name(pkgs: Seq<Package>, name: Seq<char>) -> bool {
    package_index_from(pkgs, name, 0) is Some
}

/// The build dependencies of the first package named `name`; none when
/// there is no such package.
pub open spec fn deps_of(pkgs: Seq<Package>, name: Seq<char>) -> Seq<Seq<char>> {
    match package_index_from(pkgs, name, 0) {
        Some(k) => pkgs[k].build_deps@.map_values(|d: String| d@),
        None => seq![],
    }
}

/// Every member of `s` has all its build dependencies in `s`.
pub open spec fn closed_under_deps(pkgs: Seq<Package>, s: Set<Seq<char>>) -> bool {
    forall|n: Seq<char>, j: int|
        s.contains(n) && 0 <= j < deps_of(pkgs, n).len() ==> s.contains(
            #[trigger] deps_of(pkgs, n)[j],
        )
}

/// `name` is needed to build `root`: it belongs to every set that holds
/// `root` and the build dependencies of its members.
pub open spec fn in_dependency_closure(pkgs: Seq<Package>, root: Seq<char>, name: Seq<char>) -> bool {
    forall|t: Set<Seq<char>>|
        t.contains(root) && #[trigger] closed_under_deps(pkgs, t) ==> t.contains(name)
}

/// `s` is exactly what is needed to build `root`.
pub open spec fn is_dependency_closure(
    pkgs: Seq<Package>,
    root: Seq<char>,
    s: Set<Seq<char>>,
) -> bool {
    &&& s.contains(root)
    &&& closed_under_deps(pkgs, s)
    &&& forall|n: Seq<char>| s.contains(n) ==> #[trigger] in_dependency_closure(pkgs, root, n)
}

/// Every dependency name of every package, in order.
pub open spec fn dep_names(pkgs: Seq<Package>) -> Seq<Seq<char>>
    decreases pkgs.len(),
{
    if pkgs.len() == 0 {
        seq![]
    } else {
        dep_names(pkgs.drop_last()) + pkgs.last().build_deps@.map_values(|d: String| d@)
    }
}

proof fn lemma_dep_names_contains(pkgs: Seq<Package>, k: int, j: int)
    requires
        0 <= k < pkgs.len(),
        0 <= j < pkgs[k].build_deps@.len(),
    ensures
        dep_names(pkgs).contains(pkgs[k].build_deps@[j]@),
    decreases pkgs.len(),
{
    let front = dep_names(pkgs.drop_last());
    let back = pkgs.last().build_deps@.map_values(|d: String| d@);
    if k == pkgs.len() - 1 {
        assert((front + back)[front.len() + j] == back[j]);
    } else {
        assert(pkgs.drop_last()[k] == pkgs[k]);
        lemma_dep_names_contains(pkgs.drop_last(), k, j);
        let i = choose|i: int| 0 <= i < front.len() && front[i] == pkgs[k].build_deps@[j]@;
        assert((front + back)[i] == front[i]);
    }
}

/// The number of positions of `u` whose name is not in `s`.
pub open spec fn unmarked_names(u: Seq<Seq<char>>, s: Set<Seq<char>>) -> nat
    decreases u.len(),
{
    if u.len() == 0 {
        0
    } else {
        unmarked_names(u.drop_last(), s) + if s.contains(u.last()) {
            0nat
        } else {
            1nat
        }
    }
}

pub proof fn lemma_unmarked_names_monotone(u: Seq<Seq<char>>, s: Set<Seq<char>>, t: Set<Seq<char>>)
    requires
        s.subset_of(t),
    ensures
        unmarked_names(u, t) <= unmarked_names(u, s),
    decreases u.len(),
{
    if u.len() > 0 {
        lemma_unmarked_names_monotone(u.drop_last(), s, t);
    }
}

pub proof fn lemma_unmarked_names_shrinks(u: Seq<Seq<char>>, s: Set<Seq<char>>, x: Seq<char>)
    requires
        u.contains(x),
        !s.contains(x),
    ensures
        unmarked_names(u, s.insert(x)) < unmarked_names(u, s),
    decreases u.len(),
{
    if u.last() == x {
        lemma_unmarked_names_monotone(u.drop_last(), s, s.insert(x));
    } else {
        let i = choose|i: int| 0 <= i < u.len() && u[i] == x;
        assert(u.drop_last()[i] == x);
        lemma_unmarked_names_shrinks(u.drop_last(), s, x);
    }
}

/// The names taken so far, as a set.
pub open spec fn taken(selected: Seq<Seq<char>>) -> Set<Seq<char>> {
    Set::new(|n: Seq<char>| selected.contains(n))
}

pub proof fn lemma_name_set_is_taken(v: Seq<String>)
    ensures
        name_set(v) == taken(v.map_values(|s: String| s@)),
{
    let w = v.map_values(|s: String| s@);
    assert forall|n: Seq<char>| name_set(v).contains(n) <==> taken(w).contains(n) by {
        if name_set(v).contains(n) {
            let i = choose|i: int| 0 <= i < v.len() && #[trigger] v[i]@ == n;
            assert(w[i] == n);
        }
        if w.contains(n) {
            let i = choose|i: int| 0 <= i < w.len() && w[i] == n;
            assert(v[i]@ == n);
        }
    }
    assert(name_set(v) =~= taken(w));
}

/// Taking a name adds it to the names taken.
pub proof fn lemma_taken_push(selected: Seq<Seq<char>>, name: Seq<char>)
    ensures
        taken(selected.push(name)) == taken(selected).insert(name),
{
    assert forall|n: Seq<char>|
        taken(selected.push(name)).contains(n) <==> taken(selected).insert(name).contains(n) by {
        if selected.contains(n) {
            let i = choose|i: int| 0 <= i < selected.len() && selected[i] == n;
            assert(selected.push(name)[i] == n);
        }
        if selected.push(name).contains(n) {
            let i = choose|i: int| 0 <= i < selected.len() + 1 && selected.push(name)[i] == n;
            if i < selected.len() {
                assert(selected[i] == n);
            }
        }
        if n == name {
            assert(selected.push(name)[selected.len() as int] == name);
        }
    }
    assert(taken(selected.push(name)) =~= taken(selected).insert(name));
}

/// Every name that selecting `root` can meet: `root` and every build
/// dependency name.
pub open spec fn selection_universe(pkgs: Seq<Package>, root: Seq<char>) -> Seq<Seq<char>> {
    seq![root] + dep_names(pkgs)
}

/// The depth-first search that selects what a package needs: the next name
/// is taken from the end of `pending`; a name already taken is passed
/// over; a name that no package has ends the search with that name;
/// otherwise the name is taken and the build dependencies of its package
/// are added to `pending` in order. The result lists the names in the
/// order they were taken.
pub open spec fn selection_walk(
    pkgs: Seq<Package>,
    universe: Seq<Seq<char>>,
    selected: Seq<Seq<char>>,
    pending: Seq<Seq<char>>,
) -> Result<Seq<Seq<char>>, Seq<char>>
    decreases unmarked_names(universe, taken(selected)), pending.len(),
    when pending.len() == 0 || universe.contains(pending.last())
{
    if pending.len() == 0 {
        Ok(selected)
    } else {
        let name = pending.last();
        let rest = pending.drop_last();
        if selected.contains(name) {
            selection_walk(pkgs, universe, selected, rest)
        } else {
            match package_index_from(pkgs, name, 0) {
                None => Err(name),
                Some(k) => {
                    proof {
                        lemma_unmarked_names_shrinks(universe, taken(selected), name);
                        lemma_taken_push(selected, name);
                    }
                    selection_walk(
                        pkgs,
                        universe,
                        selected.push(name),
                        rest + deps_of(pkgs, name),
                    )
                },
            }
        }
    }
}

/// Appends a name that `v` does not hold yet.
fn push_new_name(v: &mut Vec<String>, name: String)
    requires
        distinct_names(old(v)@),
        !name_set(old(v)@).contains(name@),
    ensures
        distinct_names(final(v)@),
        final(v)@ == old(v)@.push(name),
        name_set(final(v)@) == name_set(old(v)@).insert(name@),
{
    let ghost before = v@;
    let ghost n = name@;
    v.push(name);
    proof {
        assert forall|i: int, j: int| 0 <= i < j < v@.len() implies v@[i]@ != v@[j]@ by {
            if j == v@.len() - 1 {
                assert(v@[i] == before[i]);
                assert(v@[i]@ != n);
            } else {
                assert(v@[i] == before[i] && v@[j] == before[j]);
            }
        }
        assert(v@ == before.push(v@[before.len() as int]));
        lemma_name_set_push(before, v@[before.len() as int]);
    }
}

/// Finds the first package named `name`.
fn find_package(packages: &[Package], name: &String) -> (r: Option<usize>)
    ensures
        r matches Some(k) ==> k < packages@.len() && package_index_from(packages@, name@, 0)
            == Some(k as int),
        r is None ==> package_index_from(packages@, name@, 0) is None,
{
    let mut i: usize = 0;
    while i < packages.len()
        invariant
            i <= packages.len(),
            package_index_from(packages@, name@, 0) == package_index_from(
                packages@,
                name@,
                i as int,
            ),
        decreases packages.len() - i,
    {
        if packages[i].name == *name {
            return Some(i);
        }
        i = i + 1;
    }
    None
}

/// Checks that the manifest has a package of the given name.
pub fn validate_package_selection(packages: &[Package], package_name: &str) -> (r: Result<
    (),
    PackageSelectionError,
>)
    ensures
        r is Ok <==> is_package_name(packages@, package_name@),
        r matches Err(e) ==> (e matches PackageSelectionError::UnknownPackage(n) && n@
            == package_name@),
{
    let mut name = String::new();
    crate::text::push_str(&mut name, package_name);
    match find_package(packages, &name) {
        Some(_) => Ok(()),
        None => Err(PackageSelectionError::UnknownPackage(name)),
    }
}

/// The names of the packages to build: every package when none is chosen,
/// otherwise the chosen package and everything it needs to be built,
/// through build dependencies. A name reached that no package has is an
/// error. Each name occurs once in the result.
pub fn selected_package_names(packages: &[Package], package_name: Option<&str>) -> (r: Result<
    Vec<String>,
    PackageSelectionError,
>)
    ensures
        r matches Ok(v) ==> distinct_names(v@),
        package_name is None ==> (r matches Ok(v) && name_set(v@) == name_set(
            packages@.map_values(|p: Package| p.name),
        )),
        package_name matches Some(root) ==> (r is Ok <==> forall|n: Seq<char>|
            #[trigger] in_dependency_closure(packages@, root@, n) ==> is_package_name(
                packages@,
                n,
            )),
        package_name matches Some(root) ==> (r matches Ok(v) ==> is_dependency_closure(
            packages@,
            root@,
            name_set(v@),
        )),
        package_name matches Some(root) ==> (r matches Err(e) ==> (e matches PackageSelectionError::UnknownPackage(n)
            && in_dependency_closure(packages@, root@, n@) && !is_package_name(packages@, n@))),
        package_name matches Some(root) ==> (r matches Ok(v) ==> selection_walk(
            packages@,
            selection_universe(packages@, root@),
            seq![],
            seq![root@],
        ) == Ok::<Seq<Seq<char>>, Seq<char>>(v@.map_values(|s: String| s@))),
        package_name matches Some(root) ==> (r matches Err(e) ==> (e matches PackageSelectionError::UnknownPackage(n)
            && selection_walk(
            packages@,
            selection_universe(packages@, root@),
            seq![],
            seq![root@],
        ) == Err::<Seq<Seq<char>>, Seq<char>>(n@))),
{
    let root = match package_name {
        None => {
            let mut all: Vec<String> = Vec::new();
            let mut i: usize = 0;
            while i < packages.len()
                invariant
                    i <= packages.len(),
                    distinct_names(all@),
                    name_set(all@) == name_set(
                        packages@.map_values(|p: Package| p.name).take(i as int),
                    ),
                decreases packages.len() - i,
            {
                insert_name(&mut all, packages[i].name.clone());
                proof {
                    let names = packages@.map_values(|p: Package| p.name);
                    assert(names.take(i + 1) == names.take(i as int).push(names[i as int]));
                    lemma_name_set_push(names.take(i as int), names[i as int]);
                }
                i = i + 1;
            }
            assert(packages@.map_values(|p: Package| p.name).take(packages@.len() as int)
                == packages@.map_values(|p: Package| p.name));
            return Ok(all);
        },
        Some(n) => n,
    };
    assert(package_name == Some(root));
    match validate_package_selection(packages, root) {
        Ok(()) => {},
        Err(e) => {
            assert(in_dependency_closure(packages@, root@, root@));
            assert(selection_universe(packages@, root@)[0] == root@);
            assert(seq![root@].last() == root@ && seq![root@].drop_last() == Seq::<Seq<char>>::empty());
            return Err(e);
        },
    }
    let ghost pkgs = packages@;
    let ghost r = root@;
    let ghost universe = seq![r] + dep_names(pkgs);
    let mut first = String::new();
    crate::text::push_str(&mut first, root);
    let mut selected: Vec<String> = Vec::new();
    let mut pending: Vec<String> = Vec::new();
    pending.push(first);
    assert(universe[0] == r);
    assert(pending@[0]@ == r);
    assert(forall|n: Seq<char>| name_set(pending@).contains(n) ==> n == r);
    assert(in_dependency_closure(pkgs, r, r));
    assert(pending@.map_values(|v: String| v@) == seq![r]);
    assert(selected@.map_values(|v: String| v@) == Seq::<Seq<char>>::empty());
    loop
        invariant
            package_name == Some(root),
            selection_walk(pkgs, universe, seq![], seq![r]) == selection_walk(
                pkgs,
                universe,
                selected@.map_values(|v: String| v@),
                pending@.map_values(|v: String| v@),
            ),
            pkgs == packages@,
            r == root@,
            universe == seq![r] + dep_names(pkgs),
            distinct_names(selected@),
            name_set(selected@).contains(r) || name_set(pending@).contains(r),
            forall|n: Seq<char>|
                name_set(selected@).contains(n) || name_set(pending@).contains(n)
                    ==> #[trigger] in_dependency_closure(pkgs, r, n),
            forall|n: Seq<char>|
                name_set(selected@).contains(n) || name_set(pending@).contains(n)
                    ==> #[trigger] universe.contains(n),
            forall|n: Seq<char>| name_set(selected@).contains(n) ==> #[trigger] is_package_name(pkgs, n),
            forall|n: Seq<char>, j: int|
                name_set(selected@).contains(n) && 0 <= j < deps_of(pkgs, n).len() ==> (name_set(
                    selected@,
                ).contains(#[trigger] deps_of(pkgs, n)[j]) || name_set(pending@).contains(
                    deps_of(pkgs, n)[j],
                )),
        decreases unmarked_names(universe, name_set(selected@)), pending@.len(),
    {
        let ghost sel = name_set(selected@);
        let ghost pend = pending@;
        let name = match pending.pop() {
            Some(n) => n,
            None => {
                assert(pending@.len() == 0);
                assert forall|n: Seq<char>| !name_set(pending@).contains(n) by {}
                let ghost done = name_set(selected@);
                assert(closed_under_deps(pkgs, done));
                assert forall|n: Seq<char>| #[trigger]
                    in_dependency_closure(pkgs, r, n) implies is_package_name(pkgs, n) by {
                    assert(done.contains(n));
                }
                return Ok(selected);
            },
        };
        assert(pend == pending@.push(name));
        proof {
            lemma_name_set_push(pending@, name);
            assert(pend[pend.len() - 1]@ == name@);
            assert(name_set(pend).contains(name@));
        }
        assert(in_dependency_closure(pkgs, r, name@));
        assert(universe.contains(name@));
        let ghost sv = selected@.map_values(|v: String| v@);
        let ghost pv = pend.map_values(|v: String| v@);
        proof {
            lemma_name_set_is_taken(selected@);
            assert(pv.last() == name@);
            assert(pv.drop_last() == pending@.map_values(|v: String| v@));
        }
        if contains_name(&selected, &name) {
            assert(taken(sv).contains(name@));
            continue;
        }
        let ghost sel_before = selected@;
        assert(!taken(sv).contains(name@));
        push_new_name(&mut selected, name.clone());
        assert(selected@.map_values(|v: String| v@) == sv.push(name@));
        proof {
            lemma_unmarked_names_shrinks(universe, sel, name@);
        }
        let k = match find_package(packages, &name) {
            Some(k) => k,
            None => {
                assert(in_dependency_closure(packages@, root@, name@) && !is_package_name(
                    packages@,
                    name@,
                ));
                assert(package_name matches Some(rt) ==> rt@ == root@);
                assert(package_name matches Some(rt) ==> !(forall|n: Seq<char>| #[trigger]
                    in_dependency_closure(packages@, rt@, n) ==> is_package_name(packages@, n)));
                return Err(PackageSelectionError::UnknownPackage(name));
            },
        };
        let deps = &packages[k].build_deps;
        let ghost pending_before = pending@;
        let mut j: usize = 0;
        while j < deps.len()
            invariant
                j <= deps.len(),
                pkgs == packages@,
                deps == &packages@[k as int].build_deps,
                package_index_from(pkgs, name@, 0) == Some(k as int),
                name_set(pending@) == name_set(pending_before).union(name_set(deps@.take(j as int))),
                pending@.map_values(|v: String| v@) == pv.drop_last() + deps@.take(
                    j as int,
                ).map_values(|d: String| d@),
            decreases deps.len() - j,
        {
            let ghost pb = pending@;
            pending.push(deps[j].clone());
            proof {
                lemma_name_set_push(pb, deps@[j as int]);
                assert(deps@.take(j + 1) == deps@.take(j as int).push(deps@[j as int]));
                assert(pending@.map_values(|v: String| v@) == pb.map_values(|v: String| v@).push(
                    deps@[j as int]@,
                ));
                assert(deps@.take(j + 1).map_values(|d: String| d@) == deps@.take(
                    j as int,
                ).map_values(|d: String| d@).push(deps@[j as int]@));
                lemma_name_set_push(deps@.take(j as int), deps@[j as int]);
                assert(name_set(pending@) =~= name_set(pending_before).union(
                    name_set(deps@.take(j + 1)),
                ));
            }
            j = j + 1;
        }
        proof {
            let dv = deps@.map_values(|d: String| d@);
            assert(deps@.take(deps@.len() as int) == deps@);
            assert(deps_of(pkgs, name@) == dv);
            assert forall|n: Seq<char>|
                name_set(selected@).contains(n) || name_set(pending@).contains(
                    n,
                ) implies #[trigger] in_dependency_closure(pkgs, r, n) && universe.contains(n) by {
                if name_set(pending@).contains(n) && !name_set(pending_before).contains(n) {
                    assert(name_set(deps@).contains(n));
                    let jj = choose|jj: int| 0 <= jj < deps@.len() && #[trigger] deps@[jj]@ == n;
                    assert(dv[jj] == n);
                    assert(deps_of(pkgs, name@)[jj] == n);
                    assert forall|t: Set<Seq<char>>|
                        t.contains(r) && #[trigger] closed_under_deps(pkgs, t) implies t.contains(
                            n,
                        ) by {
                        assert(in_dependency_closure(pkgs, r, name@));
                        assert(t.contains(name@));
                        assert(t.contains(deps_of(pkgs, name@)[jj]));
                    }
                    lemma_package_index(pkgs, name@, 0);
                    lemma_dep_names_contains(pkgs, k as int, jj);
                    assert(universe == seq![r] + dep_names(pkgs));
                    assert(pkgs[k as int].build_deps@[jj]@ == n);
                    assert(dep_names(pkgs).contains(n));
                    let ii = choose|ii: int|
                        0 <= ii < dep_names(pkgs).len() && dep_names(pkgs)[ii] == n;
                    assert(universe[ii + 1] == n);
                    assert(universe.contains(n));
                } else if n == name@ {
                } else if name_set(selected@).contains(n) {
                    assert(sel.contains(n));
                }
            }
            assert forall|n: Seq<char>|
                name_set(selected@).contains(n) || name_set(pending@).contains(
                    n,
                ) implies #[trigger] universe.contains(n) by {
                if name_set(pending@).contains(n) && !name_set(pending_before).contains(n) {
                    assert(name_set(deps@).contains(n));
                    let jj = choose|jj: int| 0 <= jj < deps@.len() && #[trigger] deps@[jj]@ == n;
                    lemma_package_index(pkgs, name@, 0);
                    lemma_dep_names_contains(pkgs, k as int, jj);
                    assert(pkgs[k as int].build_deps@[jj]@ == n);
                    let ii = choose|ii: int|
                        0 <= ii < dep_names(pkgs).len() && dep_names(pkgs)[ii] == n;
                    assert(universe[ii + 1] == n);
                } else if n == name@ {
                } else if name_set(selected@).contains(n) {
                    assert(sel.contains(n));
                } else {
                    assert(name_set(pending_before).contains(n));
                    assert(name_set(pend).contains(n));
                }
            }
            assert forall|n: Seq<char>| name_set(selected@).contains(n) implies #[trigger] is_package_name(pkgs, n) by {
                if n != name@ {
                    assert(sel.contains(n));
                }
            }
            assert forall|n: Seq<char>, jj: int|
                name_set(selected@).contains(n) && 0 <= jj < deps_of(pkgs, n).len()
                    implies (name_set(
                    selected@,
                ).contains(#[trigger] deps_of(pkgs, n)[jj]) || name_set(pending@).contains(
                    deps_of(pkgs, n)[jj],
                )) by {
                if n == name@ {
                    assert(deps@[jj]@ == dv[jj]);
                    assert(name_set(deps@).contains(dv[jj]));
                } else {
                    assert(sel.contains(n));
                    let d = deps_of(pkgs, n)[jj];
                    if !sel.contains(d) {
                        assert(name_set(pend).contains(d));
                        if d != name@ {
                            assert(name_set(pending_before).contains(d));
                        }
                    }
                }
            }
        }
    }
}

proof fn lemma_package_index(pkgs: Seq<Package>, name: Seq<char>, i: int)
    ensures
        package_index_from(pkgs, name, i) matches Some(k) ==> i <= k < pkgs.len() && pkgs[k].name@
            == name,
    decreases pkgs.len() - i,
{
    if 0 <= i < pkgs.len() && pkgs[i].name@ != name {
        lemma_package_index(pkgs, name, i + 1);
    }
}

/// The positions, in manifest order, of the packages to build now: those
/// both selected and stale.
pub open spec fn build_plan_spec(
    pkgs: Seq<Package>,
    selected: Set<Seq<char>>,
    stale: Set<Seq<char>>,
) -> Seq<usize>
    decreases pkgs.len(),
{
    if pkgs.len() == 0 {
        seq![]
    } else {
        let rest = build_plan_spec(pkgs.drop_last(), selected, stale);
        if selected.contains(pkgs.last().name@) && stale.contains(pkgs.last().name@) {
            rest.push((pkgs.len() - 1) as usize)
        } else {
            rest
        }
    }
}

proof fn lemma_build_plan_spec(pkgs: Seq<Package>, selected: Set<Seq<char>>, stale: Set<Seq<char>>)
    requires
        pkgs.len() <= usize::MAX,
    ensures
        forall|a: int, b: int|
            0 <= a < b < build_plan_spec(pkgs, selected, stale).len() ==> #[trigger] build_plan_spec(
                pkgs,
                selected,
                stale,
            )[a] < #[trigger] build_plan_spec(pkgs, selected, stale)[b],
        forall|k: int|
            0 <= k < build_plan_spec(pkgs, selected, stale).len() ==> {
                let i = #[trigger] build_plan_spec(pkgs, selected, stale)[k];
                &&& i < pkgs.len()
                &&& selected.contains(pkgs[i as int].name@)
                &&& stale.contains(pkgs[i as int].name@)
            },
        forall|i: int|
            0 <= i < pkgs.len() && selected.contains(#[trigger] pkgs[i].name@) && stale.contains(
                pkgs[i].name@,
            ) ==> build_plan_spec(pkgs, selected, stale).contains(i as usize),
    decreases pkgs.len(),
{
    if pkgs.len() > 0 {
        let p = pkgs.drop_last();
        let rest = build_plan_spec(p, selected, stale);
        let res = build_plan_spec(pkgs, selected, stale);
        lemma_build_plan_spec(p, selected, stale);
        assert forall|k: int|
            0 <= k < rest.len()
            implies rest[k] < p.len() && pkgs[rest[k] as int] == p[rest[k] as int] by {}
        if selected.contains(pkgs.last().name@) && stale.contains(pkgs.last().name@) {
            assert(res == rest.push((pkgs.len() - 1) as usize));
            assert forall|a: int, b: int|
                0 <= a < b < res.len() implies #[trigger] res[a] < #[trigger] res[b] by {
                if b < rest.len() {
                    assert(res[a] == rest[a] && res[b] == rest[b]);
                } else {
                    assert(res[a] == rest[a]);
                }
            }
            assert forall|k: int| 0 <= k < res.len() implies {
                let i = #[trigger] res[k];
                &&& i < pkgs.len()
                &&& selected.contains(pkgs[i as int].name@)
                &&& stale.contains(pkgs[i as int].name@)
            } by {
                if k < rest.len() {
                    assert(res[k] == rest[k]);
                }
            }
        } else {
            assert(res == rest);
        }
        assert forall|i: int|
            0 <= i < pkgs.len() && selected.contains(#[trigger] pkgs[i].name@) && stale.contains(
                pkgs[i].name@,
            ) implies res.contains(i as usize) by {
            if i < p.len() {
                assert(pkgs[i] == p[i]);
                assert(rest.contains(i as usize));
                let k = choose|k: int| 0 <= k < rest.len() && rest[k] == i as usize;
                assert(res[k] == i as usize);
            } else {
                assert(res[res.len() - 1] == i as usize);
            }
        }
    }
}

/// Chooses the packages to build: the selected ones that are stale, in
/// the order of the manifest.
///
/// The plan lists, by increasing position, exactly the packages whose
/// name is both selected and stale.
pub fn build_plan(packages: &[Package], selected: &Vec<String>, stale: &Vec<String>) -> (r: Vec<
    usize,
>)
    ensures
        r@ == build_plan_spec(packages@, name_set(selected@), name_set(stale@)),
        forall|a: int, b: int| 0 <= a < b < r.len() ==> #[trigger] r@[a] < #[trigger] r@[b],
        forall|k: int|
            0 <= k < r.len() ==> #[trigger] r@[k] < packages.len() && name_set(selected@).contains(
                packages@[r@[k] as int].name@,
            ) && name_set(stale@).contains(packages@[r@[k] as int].name@),
        forall|i: int|
            0 <= i < packages.len() && name_set(selected@).contains(#[trigger] packages@[i].name@)
                && name_set(stale@).contains(packages@[i].name@) ==> r@.contains(i as usize),
{

    let mut plan: Vec<usize> = Vec::new();
    let mut i: usize = 0;
    while i < packages.len()
        invariant
            i <= packages.len(),
            plan@ == build_plan_spec(
                packages@.take(i as int),
                name_set(selected@),
                name_set(stale@),
            ),
        decreases packages.len() - i,
    {
        assert(packages@.take(i + 1).drop_last() == packages@.take(i as int));
        assert(packages@.take(i + 1).last() == packages@[i as int]);
        if contains_name(selected, &packages[i].name) && contains_name(stale, &packages[i].name) {
            plan.push(i);
        }
        i = i + 1;
    }
    assert(packages@.take(packages@.len() as int) == packages@);
    proof {
        lemma_build_plan_spec(packages@, name_set(selected@), name_set(stale@));
    }
    plan
}

/// What the end of a build reports.
#[derive(Clone, Copy, Debug, PartialEq, Eq, Structural)]
pub enum BuildSummary {
    /// Every selected package failed to build.
    AllFailed { errors: usize },
    /// Some packages failed to build.
    SomeFailed { errors: usize, total: usize },
    /// Nothing needed building.
    UpToDate,
    /// Every package that needed building was built; `incremental` when
    /// some selected packages were already up to date.
    Built { built: usize, incremental: bool },
}

/// The counts of a build run.
pub struct BuildResult {
    pub total_packages: usize,
    pub built_packages: usize,
    pub errors: usize,
}

impl BuildResult {
    /// A run over `total` selected packages, none built yet.
    pub fn new(total: usize) -> (r: Self)
        ensures
            r.total_packages == total,
            r.built_packages == 0,
            r.errors == 0,
    {
        BuildResult { total_packages: total, built_packages: 0, errors: 0 }
    }

    /// Counts a package that was built.
    pub fn record_built(&mut self)
        requires
            old(self).built_packages < usize::MAX,
        ensures
            final(self).built_packages == old(self).built_packages + 1,
            final(self).errors == old(self).errors,
            final(self).total_packages == old(self).total_packages,
    {
        self.built_packages = self.built_packages + 1;
    }

    /// Counts a package that failed to build.
    pub fn record_error(&mut self)
        requires
            old(self).errors < usize::MAX,
        ensures
            final(self).errors == old(self).errors + 1,
            final(self).built_packages == old(self).built_packages,
            final(self).total_packages == old(self).total_packages,
    {
        self.errors = self.errors + 1;
    }

    /// Which message ends the build.
    pub fn summary(&self) -> (r: BuildSummary)
        ensures
            r == (if self.errors == self.total_packages && self.total_packages > 0 {
                BuildSummary::AllFailed { errors: self.errors }
            } else if self.errors > 0 {
                BuildSummary::SomeFailed { errors: self.errors, total: self.total_packages }
            } else if self.built_packages == 0 {
                BuildSummary::UpToDate
            } else {
                BuildSummary::Built {
                    built: self.built_packages,
                    incremental: self.built_packages < self.total_packages,
                }
            }),
    {
        if self.errors == self.total_packages && self.total_packages > 0 {
            BuildSummary::AllFailed { errors: self.errors }
        } else if self.errors > 0 {
            BuildSummary::SomeFailed { errors: self.errors, total: self.total_packages }
        } else if self.built_packages == 0 {
            BuildSummary::UpToDate
        } else {
            BuildSummary::Built {
                built: self.built_packages,
                incremental: self.built_packages < self.total_packages,
            }
        }
    }

    /// Whether the run must end the process with a failure.
    pub fn failed(&self) -> (r: bool)
        ensures
            r == (self.errors > 0),
    {
        self.errors > 0
    }
}

/// A dependency entry of `cargo metadata`: the fields that the source
/// tables read, each absent when the entry lacks it or it is not a string.
#[derive(Debug)]
pub struct CargoDependency {
    pub name: Option<String>,
    pub source: Option<String>,
}

/// The groups after recording that crate `name` comes from `source`: a
/// source already listed for the crate is not listed twice.
pub open spec fn add_source(groups: Groups, name: Seq<char>, source: Seq<char>) -> Groups {
    match group_index_from(groups, name, 0) {
        Some(i) => if groups[i].1.contains(source) {
            groups
        } else {
            add_finding(groups, name, source)
        },
        None => add_finding(groups, name, source),
    }
}

/// The sources of the dependencies, grouped by crate name in the order the
/// names first occur; entries without a name or a recognised source are
/// passed over.
pub open spec fn collect_sources(deps: Seq<CargoDependency>) -> Groups
    decreases deps.len(),
{
    if deps.len() == 0 {
        seq![]
    } else {
        let before = collect_sources(deps.drop_last());
        match (deps.last().name, deps.last().source) {
            (Some(n), Some(s)) => match normalized_cargo_source(s@) {
                Some(src) => add_source(before, n@, src),
                None => before,
            },
            _ => before,
        }
    }
}

/// Dependency `d` names crate `name` and has a source that normalises to
/// `source`.
pub open spec fn dependency_gives(d: CargoDependency, name: Seq<char>, source: Seq<char>) -> bool {
    match (d.name, d.source) {
        (Some(n), Some(s)) => n@ == name && normalized_cargo_source(s@) == Some(source),
        _ => false,
    }
}

/// No two groups have the same key.
pub open spec fn keys_distinct(c: Groups) -> bool {
    forall|a: int, b: int| 0 <= a < b < c.len() ==> #[trigger] c[a].0 != #[trigger] c[b].0
}

/// Every group lists at least one source, and none twice.
pub open spec fn sources_distinct(c: Groups) -> bool {
    forall|g: int| 0 <= g < c.len() ==> (#[trigger] c[g]).1.no_duplicates() && c[g].1.len() > 0
}

/// Every source that a dependency gives is listed in a group of its
/// crate's name.
pub open spec fn records_every_source(deps: Seq<CargoDependency>, c: Groups) -> bool {
    forall|i: int, name: Seq<char>, source: Seq<char>|
        0 <= i < deps.len() && #[trigger] dependency_gives(deps[i], name, source) ==> exists|g: int|
            0 <= g < c.len() && (#[trigger] c[g]).0 == name && c[g].1.contains(source)
}

/// One of the dependencies names crate `name` and has a source that
/// normalises to `source`.
pub open spec fn some_dependency_gives(
    deps: Seq<CargoDependency>,
    name: Seq<char>,
    source: Seq<char>,
) -> bool {
    exists|i: int| 0 <= i < deps.len() && #[trigger] dependency_gives(deps[i], name, source)
}

/// Every listed source is given by a dependency of the group's crate.
pub open spec fn records_only_sources_given(deps: Seq<CargoDependency>, c: Groups) -> bool {
    forall|g: int, k: int|
        0 <= g < c.len() && 0 <= k < c[g].1.len() ==> #[trigger] some_dependency_gives(
            deps,
            c[g].0,
            c[g].1[k],
        )
}

proof fn lemma_records_only_extend(deps: Seq<CargoDependency>, c: Groups)
    requires
        deps.len() > 0,
        records_only_sources_given(deps.drop_last(), c),
    ensures
        records_only_sources_given(deps, c),
{
    let p = deps.drop_last();
    assert forall|g: int, k: int|
        0 <= g < c.len() && 0 <= k < c[g].1.len() implies #[trigger] some_dependency_gives(
            deps,
            c[g].0,
            c[g].1[k],
        ) by {
        assert(some_dependency_gives(p, c[g].0, c[g].1[k]));
        let i = choose|i: int|
            0 <= i < p.len() && #[trigger] dependency_gives(p[i], c[g].0, c[g].1[k]);
        assert(deps[i] == p[i]);
    }
}

proof fn lemma_group_index_absent(groups: Groups, key: Seq<char>, i: int)
    requires
        0 <= i,
        group_index_from(groups, key, i) is None,
    ensures
        forall|g: int| i <= g < groups.len() ==> (#[trigger] groups[g]).0 != key,
    decreases groups.len() - i,
{
    if i < groups.len() {
        lemma_group_index_absent(groups, key, i + 1);
    }
}

/// The collected groups have distinct keys and, within a group, distinct
/// sources; they record every source that a dependency gives under its
/// crate's name, and nothing else.
#[verifier::spinoff_prover]
pub proof fn lemma_collect_sources(deps: Seq<CargoDependency>)
    ensures
        keys_distinct(collect_sources(deps)),
        sources_distinct(collect_sources(deps)),
        records_every_source(deps, collect_sources(deps)),
        records_only_sources_given(deps, collect_sources(deps)),
    decreases deps.len(),
{
    if deps.len() > 0 {
        let p = deps.drop_last();
        let d = deps.last();
        let c = collect_sources(p);
        let c2 = collect_sources(deps);
        lemma_collect_sources(p);
        assert forall|i: int| 0 <= i < p.len() implies deps[i] == p[i] by {}
        let gives = match (d.name, d.source) {
            (Some(n), Some(s)) => normalized_cargo_source(s@) is Some,
            _ => false,
        };
        if !gives {
            assert(c2 == c);
            assert forall|i: int, name: Seq<char>, source: Seq<char>|
                0 <= i < deps.len() && #[trigger] dependency_gives(deps[i], name, source)
                    implies exists|g: int|
                    0 <= g < c2.len() && (#[trigger] c2[g]).0 == name && c2[g].1.contains(source) by {
                assert(i < p.len());
                assert(dependency_gives(p[i], name, source));
            }
            lemma_records_only_extend(deps, c);
        } else {
            let n = d.name.unwrap()@;
            let src = normalized_cargo_source(d.source.unwrap()@).unwrap();
            assert(dependency_gives(d, n, src));
            assert(c2 == add_source(c, n, src));
            lemma_group_index(c, n, 0);
            match group_index_from(c, n, 0) {
                Some(at) => {
                    if c[at].1.contains(src) {
                        assert(c2 == c);
                        assert forall|i: int, name: Seq<char>, source: Seq<char>|
                            0 <= i < deps.len() && #[trigger] dependency_gives(deps[i], name, source)
                                implies exists|g: int|
                                0 <= g < c2.len() && (#[trigger] c2[g]).0 == name && c2[g].1.contains(source) by {
                            if i < p.len() {
                                assert(dependency_gives(p[i], name, source));
                            } else {
                                assert(name == n && source == src);
                                assert(c2[at].0 == name);
                            }
                        }
                        lemma_records_only_extend(deps, c);
                    } else {
                        assert(c2 == c.update(at, (n, c[at].1.push(src))));
                        assert forall|a: int, b: int|
                            0 <= a < b < c2.len()
                            implies #[trigger] c2[a].0 != #[trigger] c2[b].0 by {
                            assert(c2[a].0 == c[a].0 && c2[b].0 == c[b].0);
                        }
                        assert forall|g: int|
                            0 <= g < c2.len()
                            implies (#[trigger] c2[g]).1.no_duplicates() && c2[g].1.len() > 0 by {
                            if g == at {
                                assert forall|x: int, y: int|
                                    0 <= x < y < c2[g].1.len() implies c2[g].1[x] != c2[g].1[y] by {
                                    if y == c[at].1.len() {
                                        assert(c[at].1[x] == c2[g].1[x]);
                                    } else {
                                        assert(c[at].1[x] == c2[g].1[x] && c[at].1[y] == c2[g].1[y]);
                                    }
                                }
                            }
                        }
                        assert forall|i: int, name: Seq<char>, source: Seq<char>|
                            0 <= i < deps.len() && #[trigger] dependency_gives(deps[i], name, source)
                                implies exists|g: int|
                                0 <= g < c2.len() && (#[trigger] c2[g]).0 == name && c2[g].1.contains(source) by {
                            if i < p.len() {
                                assert(dependency_gives(p[i], name, source));
                                let g = choose|g: int|
                                    0 <= g < c.len() && (#[trigger] c[g]).0 == name && c[g].1.contains(source);
                                let k = choose|k: int| 0 <= k < c[g].1.len() && c[g].1[k] == source;
                                assert(c2[g].1[k] == source);
                            } else {
                                assert(name == n && source == src);
                                assert(c2[at].1[c[at].1.len() as int] == src);
                            }
                        }
                        lemma_records_only_extend(deps, c);
                        assert forall|g: int, k: int|
                            0 <= g < c2.len() && 0 <= k < c2[g].1.len()
                            implies #[trigger] some_dependency_gives(
                            deps,
                            c2[g].0,
                            c2[g].1[k],
                        ) by {
                            if g == at && k == c[at].1.len() {
                                assert(dependency_gives(deps[deps.len() - 1], c2[g].0, c2[g].1[k]));
                            } else {
                                assert(c2[g].0 == c[g].0 && c2[g].1[k] == c[g].1[k]);
                                assert(some_dependency_gives(deps, c[g].0, c[g].1[k]));
                            }
                        }
                    }
                },
                None => {
                    lemma_group_index_absent(c, n, 0);
                    assert(c2 == c.push((n, seq![src])));
                    assert forall|a: int, b: int|
                        0 <= a < b < c2.len() implies #[trigger] c2[a].0 != #[trigger] c2[b].0 by {
                        assert(c2[a] == c[a]);
                    }
                    assert forall|g: int|
                        0 <= g < c2.len()
                        implies (#[trigger] c2[g]).1.no_duplicates() && c2[g].1.len() > 0 by {
                        if g < c.len() {
                            assert(c2[g] == c[g]);
                        }
                    }
                    assert forall|i: int, name: Seq<char>, source: Seq<char>|
                        0 <= i < deps.len() && #[trigger] dependency_gives(deps[i], name, source)
                            implies exists|g: int|
                            0 <= g < c2.len() && (#[trigger] c2[g]).0 == name && c2[g].1.contains(source) by {
                        if i < p.len() {
                            assert(dependency_gives(p[i], name, source));
                            let g = choose|g: int|
                                0 <= g < c.len() && (#[trigger] c[g]).0 == name && c[g].1.contains(source);
                            assert(c2[g] == c[g]);
                        } else {
                            assert(name == n && source == src);
                            assert(c2[c.len() as int].1[0] == src);
                        }
                    }
                    lemma_records_only_extend(deps, c);
                    assert forall|g: int, k: int|
                        0 <= g < c2.len() && 0 <= k < c2[g].1.len()
                        implies #[trigger] some_dependency_gives(
                        deps,
                        c2[g].0,
                        c2[g].1[k],
                    ) by {
                        if g == c.len() {
                            assert(dependency_gives(deps[deps.len() - 1], c2[g].0, c2[g].1[k]));
                        } else {
                            assert(c2[g] == c[g]);
                            assert(some_dependency_gives(deps, c[g].0, c[g].1[k]));
                        }
                    }
                },
            }
        }
    }
}

/// Every group's sources sorted.
pub open spec fn with_sorted_sources(groups: Groups) -> Groups {
    groups.map_values(|g: (Seq<char>, Seq<Seq<char>>)| (g.0, stable_sorted(false, g.1)))
}

/// Groups the sources of Cargo dependencies by crate name: each name with
/// its distinct normalised sources, sorted.
///
/// Every crate name has one group. A source is listed once in the group of
/// each crate that comes from it, whatever other crates come from it too,
/// and the group lists no source that no dependency of that crate gives.
#[verifier::spinoff_prover]
pub fn group_dependency_sources(deps: &Vec<CargoDependency>) -> (r: Vec<(String, Vec<String>)>)
    ensures
        groups_view(r@) == with_sorted_sources(collect_sources(deps@)),
        forall|a: int, b: int| 0 <= a < b < r.len() ==> #[trigger] r@[a].0@ != #[trigger] r@[b].0@,
        forall|g: int| 0 <= g < r.len() ==> (#[trigger] r@[g]).1.len() > 0,
        forall|g: int, a: int, b: int|
            0 <= g < r.len() && 0 <= a < b < r@[g].1.len() ==> str_lt(
                #[trigger] r@[g].1@[a]@,
                #[trigger] r@[g].1@[b]@,
            ),
        forall|i: int, name: Seq<char>, source: Seq<char>|
            0 <= i < deps.len() && #[trigger] dependency_gives(deps@[i], name, source) ==> exists|
                g: int,
                k: int,
            |
                #![trigger r@[g].1@[k]]
                0 <= g < r.len() && 0 <= k < r@[g].1.len() && r@[g].0@ == name && r@[g].1@[k]@
                    == source,
        forall|g: int, k: int|
            0 <= g < r.len() && 0 <= k < r@[g].1.len() ==> #[trigger] some_dependency_gives(
                deps@,
                r@[g].0@,
                r@[g].1@[k]@,
            ),
{
    let mut groups: Vec<(String, Vec<String>)> = Vec::new();
    let mut i: usize = 0;
    assert(groups_view(groups@) == Seq::<(Seq<char>, Seq<Seq<char>>)>::empty());
    while i < deps.len()
        invariant
            i <= deps.len(),
            groups_view(groups@) == collect_sources(deps@.take(i as int)),
        decreases deps.len() - i,
    {
        assert(deps@.take(i + 1).drop_last() == deps@.take(i as int));
        assert(deps@.take(i + 1).last() == deps@[i as int]);
        let d = &deps[i];
        match (&d.name, &d.source) {
            (Some(n), Some(s)) => {
                match normalize_cargo_source(s.as_str()) {
                    Some(src) => {
                        let ghost g = groups_view(groups@);
                        let name_chars = chars_of(n.as_str());
                        match find_group(&groups, &name_chars) {
                            Some(at) => {
                                proof {
                                    lemma_group_index(g, n@, 0);
                                }
                                if contains_name(&groups[at].1, &src) {
                                    assert(g[at as int].1 == groups@[at as int].1@.map_values(
                                        |p: String| p@,
                                    ));
                                    proof {
                                        let k = choose|k: int|
                                            0 <= k < groups@[at as int].1@.len()
                                                && #[trigger] groups@[at as int].1@[k]@ == src@;
                                        assert(g[at as int].1[k] == src@);
                                    }
                                } else {
                                    assert(!g[at as int].1.contains(src@)) by {
                                        if g[at as int].1.contains(src@) {
                                            let k = choose|k: int|
                                                0 <= k < g[at as int].1.len() && g[at as int].1[k]
                                                    == src@;
                                            assert(groups@[at as int].1@[k]@ == src@);
                                        }
                                    }
                                    add_to_groups(&mut groups, n.as_str(), src.as_str());
                                }
                            },
                            None => {
                                add_to_groups(&mut groups, n.as_str(), src.as_str());
                            },
                        }
                    },
                    None => {},
                }
            },
            _ => {},
        }
        i = i + 1;
    }
    assert(deps@.take(deps.len() as int) == deps@);
    let ghost collected = groups_view(groups@);
    let mut out: Vec<(String, Vec<String>)> = Vec::new();
    let mut j: usize = 0;
    while j < groups.len()
        invariant
            j <= groups.len(),
            collected == groups_view(groups@),
            groups_view(out@) == with_sorted_sources(collected).take(j as int),
        decreases groups.len() - j,
    {
        let sorted = sort_stable(false, &groups[j].1);
        let mut key = String::new();
        crate::text::push_str(&mut key, groups[j].0.as_str());
        let ghost before = out@;
        out.push((key, sorted));
        assert(groups_view(out@) == groups_view(before).push(with_sorted_sources(collected)[j as int]));
        assert(with_sorted_sources(collected).take(j + 1) == with_sorted_sources(collected).take(
            j as int,
        ).push(with_sorted_sources(collected)[j as int]));
        j = j + 1;
    }
    assert(with_sorted_sources(collected).take(groups.len() as int) == with_sorted_sources(
        collected,
    ));
    proof {
        lemma_collect_sources(deps@);
        let view = groups_view(out@);
        assert forall|g: int| 0 <= g < out.len() implies {
            &&& (#[trigger] out@[g]).0@ == collected[g].0
            &&& out@[g].1.len() == stable_sorted(false, collected[g].1).len()
            &&& out@[g].1.len() > 0
            &&& forall|k: int|
                0 <= k < out@[g].1.len() ==> #[trigger] out@[g].1@[k]@ == stable_sorted(false, collected[g].1)[k]
            &&& forall|a: int, b: int|
                0 <= a < b < out@[g].1.len() ==> str_lt(
                    #[trigger] out@[g].1@[a]@,
                    #[trigger] out@[g].1@[b]@,
                )
            &&& forall|x: Seq<char>|
                #[trigger] stable_sorted(false, collected[g].1).contains(x) <==> collected[g].1.contains(x)
        } by {
            assert(view[g] == (out@[g].0@, out@[g].1@.map_values(|p: String| p@)));
            assert(view[g] == with_sorted_sources(collected)[g]);
            assert(collected[g].1.no_duplicates());
            lemma_stable_sorted_strictly(collected[g].1);
            assert(collected[g].1.contains(collected[g].1[0]));
            assert(stable_sorted(false, collected[g].1).contains(collected[g].1[0]));
            assert forall|k: int|
                0 <= k < out@[g].1.len()
                implies #[trigger] out@[g].1@[k]@ == stable_sorted(false, collected[g].1)[k] by {
                assert(out@[g].1@.map_values(|p: String| p@)[k] == out@[g].1@[k]@);
            }
            assert forall|a: int, b: int| 0 <= a < b < out@[g].1.len() implies str_lt(
                #[trigger] out@[g].1@[a]@,
                #[trigger] out@[g].1@[b]@,
            ) by {
                assert(out@[g].1@[a]@ == stable_sorted(false, collected[g].1)[a]);
                assert(out@[g].1@[b]@ == stable_sorted(false, collected[g].1)[b]);
            }
        }
        assert forall|a: int, b: int|
            0 <= a < b < out.len() implies #[trigger] out@[a].0@ != #[trigger] out@[b].0@ by {
            assert(out@[a].0@ == collected[a].0 && out@[b].0@ == collected[b].0);
        }
        assert forall|i: int, name: Seq<char>, source: Seq<char>|
            0 <= i < deps.len() && #[trigger] dependency_gives(deps@[i], name, source)
                implies exists|
                g: int,
                k: int,
            |
                #![trigger out@[g].1@[k]]
                0 <= g < out.len() && 0 <= k < out@[g].1.len() && out@[g].0@ == name && out@[g].1@[k]@
                    == source by {
            let g = choose|g: int|
                0 <= g < collected.len() && (#[trigger] collected[g]).0 == name && collected[g].1.contains(source);
            assert(out@[g].0@ == collected[g].0);
            assert(stable_sorted(false, collected[g].1).contains(source));
            let k = choose|k: int|
                0 <= k < stable_sorted(false, collected[g].1).len() && stable_sorted(false, collected[g].1)[k] == source;
            assert(out@[g].1@[k]@ == source);
        }
        assert forall|g: int, k: int|
            0 <= g < out.len() && 0 <= k < out@[g].1.len() implies #[trigger] some_dependency_gives(
                deps@,
                out@[g].0@,
                out@[g].1@[k]@,
            ) by {
            assert(out@[g].0@ == collected[g].0);
            let x = out@[g].1@[k]@;
            assert(x == stable_sorted(false, collected[g].1)[k]);
            assert(stable_sorted(false, collected[g].1).contains(x));
            assert(collected[g].1.contains(x));
            let kk = choose|kk: int| 0 <= kk < collected[g].1.len() && collected[g].1[kk] == x;
            assert(some_dependency_gives(deps@, collected[g].0, collected[g].1[kk]));
        }
    }
    out
}

/// `s` ends with `suffix`.
pub open spec fn ends_with(s: Seq<char>, suffix: Seq<char>) -> bool {
    suffix.len() <= s.len() && occurs_at(s, suffix, s.len() - suffix.len())
}

/// A file of a package's build output is one of its built archives: an
/// Arch package archive (`.pkg.tar.zst`) that is, when the package picks
/// members of a package group, an archive of one of those members
/// (`{member}-{version}-…`), and otherwise not the package's debug archive
/// (`{name}-debug-{version}-…`).
pub open spec fn is_built_archive(
    file_name: Seq<char>,
    name: Seq<char>,
    version: Seq<char>,
    picks: Option<Seq<Seq<char>>>,
) -> bool {
    &&& ends_with(file_name, ".pkg.tar.zst"@)
    &&& match picks {
        Some(members) => names_member_archive(file_name, members, version),
        None => !occurs_at(file_name, name + "-debug-"@ + version + "-"@, 0),
    }
}

/// `file_name` starts with `{member}-{version}-` for one of the members.
pub open spec fn names_member_archive(
    file_name: Seq<char>,
    members: Seq<Seq<char>>,
    version: Seq<char>,
) -> bool
    decreases members.len(),
{
    members.len() > 0 && (occurs_at(file_name, members[0] + "-"@ + version + "-"@, 0)
        || names_member_archive(file_name, members.drop_first(), version))
}

/// A file names a member's archive exactly when one of the members, at
/// whatever position, begins its name with `{member}-{version}-`.
#[verifier::spinoff_prover]
pub proof fn lemma_names_member_archive(file_name: Seq<char>, members: Seq<Seq<char>>, version: Seq<char>)
    ensures
        names_member_archive(file_name, members, version) <==> exists|j: int|
            0 <= j < members.len() && (#[trigger] members[j] + "-"@ + version + "-"@).is_prefix_of(
                file_name,
            ),
    decreases members.len(),
{
    if members.len() > 0 {
        let rest = members.drop_first();
        lemma_names_member_archive(file_name, rest, version);
        let p0 = members[0] + "-"@ + version + "-"@;
        assert(occurs_at(file_name, p0, 0) == p0.is_prefix_of(file_name));
        if exists|j: int|
            0 <= j < members.len() && (#[trigger] members[j] + "-"@ + version + "-"@).is_prefix_of(
                file_name,
            ) {
            let j = choose|j: int|
                0 <= j < members.len() && (#[trigger] members[j] + "-"@ + version + "-"@).is_prefix_of(
                    file_name,
                );
            if j > 0 {
                assert(rest[j - 1] == members[j]);
            }
        }
        if exists|j: int|
            0 <= j < rest.len() && (#[trigger] rest[j] + "-"@ + version + "-"@).is_prefix_of(
                file_name,
            ) {
            let j = choose|j: int|
                0 <= j < rest.len() && (#[trigger] rest[j] + "-"@ + version + "-"@).is_prefix_of(
                    file_name,
                );
            assert(members[j + 1] == rest[j]);
        }
    }
}

/// `a`, `b`, `c` and `d` one after the other.
fn joined(a: &str, b: &str, c: &str, d: &str) -> (r: Vec<char>)
    ensures
        r@ == a@ + b@ + c@ + d@,
{
    let mut s = String::new();
    crate::text::push_str(&mut s, a);
    crate::text::push_str(&mut s, b);
    crate::text::push_str(&mut s, c);
    crate::text::push_str(&mut s, d);
    chars_of(s.as_str())
}

/// Whether a file of a package's build output is one of its built
/// archives.
///
/// The file must end in `.pkg.tar.zst`. When the package picks members of
/// a group, any one of them, the first as well as the others, can name the
/// archive by the prefix `{member}-{version}-`; otherwise every archive
/// but the package's own debug archive counts.
pub fn is_built_package_file(
    file_name: &str,
    name: &str,
    version: &str,
    picks: Option<&Vec<String>>,
) -> (r: bool)
    ensures
        r == is_built_archive(
            file_name@,
            name@,
            version@,
            match picks {
                Some(p) => Some(p@.map_values(|m: String| m@)),
                None => None,
            },
        ),
        picks matches Some(p) ==> (r <==> (".pkg.tar.zst"@.is_suffix_of(file_name@) && exists|j: int|
            0 <= j < p.len() && (#[trigger] p@[j]@ + "-"@ + version@ + "-"@).is_prefix_of(
                file_name@,
            ))),
        picks is None ==> (r <==> (".pkg.tar.zst"@.is_suffix_of(file_name@) && !(name@
            + "-debug-"@ + version@ + "-"@).is_prefix_of(file_name@))),
{
    proof {
        assert(ends_with(file_name@, ".pkg.tar.zst"@) == ".pkg.tar.zst"@.is_suffix_of(file_name@));
        assert(occurs_at(file_name@, name@ + "-debug-"@ + version@ + "-"@, 0) == (name@
            + "-debug-"@ + version@ + "-"@).is_prefix_of(file_name@));
        if let Some(p) = picks {
            let mv = p@.map_values(|m: String| m@);
            lemma_names_member_archive(file_name@, mv, version@);
            assert forall|j: int| 0 <= j < p.len() implies mv[j] == p@[j]@ by {}
            if exists|j: int|
                0 <= j < p.len() && (#[trigger] p@[j]@ + "-"@ + version@ + "-"@).is_prefix_of(
                    file_name@,
                ) {
                let j = choose|j: int|
                    0 <= j < p.len() && (#[trigger] p@[j]@ + "-"@ + version@ + "-"@).is_prefix_of(
                        file_name@,
                    );
                assert(mv[j] == p@[j]@);
            }
            if exists|j: int|
                0 <= j < mv.len() && (#[trigger] mv[j] + "-"@ + version@ + "-"@).is_prefix_of(
                    file_name@,
                ) {
                let j = choose|j: int|
                    0 <= j < mv.len() && (#[trigger] mv[j] + "-"@ + version@ + "-"@).is_prefix_of(
                        file_name@,
                    );
                assert(mv[j] == p@[j]@);
            }
        }
    }
    let file = chars_of(file_name);
    let suffix = chars_of(".pkg.tar.zst");
    if suffix.len() > file.len() || !occurs_at_exec(&file, &suffix, file.len() - suffix.len()) {
        return false;
    }
    assert(suffix@ == ".pkg.tar.zst"@);
    assert(ends_with(file_name@, ".pkg.tar.zst"@));
    match picks {
        Some(members) => {
            let ghost mv = members@.map_values(|m: String| m@);
            assert(mv.skip(0) == mv);
            let mut i: usize = 0;
            while i < members.len()
                invariant
                    i <= members.len(),
                    picks == Some(members),
                    file@ == file_name@,
                    ends_with(file_name@, ".pkg.tar.zst"@),
                    mv == members@.map_values(|m: String| m@),
                    names_member_archive(file@, mv, version@) == names_member_archive(
                        file@,
                        mv.skip(i as int),
                        version@,
                    ),
                decreases members.len() - i,
            {
                let pattern = joined(members[i].as_str(), "-", version, "-");
                assert(mv.skip(i as int)[0] == members@[i as int]@);
                assert(mv.skip(i as int).drop_first() == mv.skip(i + 1));
                if occurs_at_exec(&file, &pattern, 0) {
                    return true;
                }
                i = i + 1;
            }
            assert(mv.skip(i as int).len() == 0);
            false
        },
        None => {
            let pattern = joined(name, "-debug-", version, "-");
            !occurs_at_exec(&file, &pattern, 0)
        },
    }
}

/// A member of a Cargo workspace that is mounted into a build container.
#[derive(Debug)]
pub struct WorkspaceMember {
    pub name: String,
    /// The member's directory, relative to its workspace root.
    pub path: String,
    /// The dependency sources that this member replaces.
    pub patch_sources: Vec<String>,
}

/// Where a stable insertion by name puts `x` into `sorted`: before the
/// first member at or after `i` whose name `x`'s name sorts strictly
/// before.
pub open spec fn name_insertion_point(sorted: Seq<WorkspaceMember>, x: WorkspaceMember, i: int) -> int
    decreases sorted.len() - i,
{
    if i < 0 || i >= sorted.len() {
        sorted.len() as int
    } else if str_lt(x.name@, sorted[i].name@) {
        i
    } else {
        name_insertion_point(sorted, x, i + 1)
    }
}

/// The members sorted stably by name.
pub open spec fn sorted_by_name(s: Seq<WorkspaceMember>) -> Seq<WorkspaceMember>
    decreases s.len(),
{
    if s.len() == 0 {
        s
    } else {
        let prefix = sorted_by_name(s.drop_last());
        prefix.insert(name_insertion_point(prefix, s.last(), 0), s.last())
    }
}

/// The members with every run of equal names cut to its first member, as
/// `Vec::dedup_by` with a name comparison does it.
pub open spec fn dedup_by_name(s: Seq<WorkspaceMember>) -> Seq<WorkspaceMember>
    decreases s.len(),
{
    if s.len() <= 1 {
        s
    } else if s.last().name@ == s[s.len() - 2].name@ {
        dedup_by_name(s.drop_last())
    } else {
        dedup_by_name(s.drop_last()).push(s.last())
    }
}

proof fn lemma_name_insertion_point_bounds(sorted: Seq<WorkspaceMember>, x: WorkspaceMember, i: int)
    requires
        0 <= i <= sorted.len(),
    ensures
        i <= name_insertion_point(sorted, x, i) <= sorted.len(),
    decreases sorted.len() - i,
{
    if i < sorted.len() && !str_lt(x.name@, sorted[i].name@) {
        lemma_name_insertion_point_bounds(sorted, x, i + 1);
    }
}

/// No member's name sorts strictly before the name of a member ahead of it.
spec fn names_sorted(s: Seq<WorkspaceMember>) -> bool {
    forall|a: int, b: int| 0 <= a < b < s.len() ==> !str_lt(#[trigger] s[b].name@, #[trigger] s[a].name@)
}

proof fn lemma_name_insertion_point_facts(sorted: Seq<WorkspaceMember>, x: WorkspaceMember, i: int)
    requires
        0 <= i <= sorted.len(),
        forall|k: int| 0 <= k < i ==> !str_lt(x.name@, #[trigger] sorted[k].name@),
    ensures
        i <= name_insertion_point(sorted, x, i) <= sorted.len(),
        forall|k: int|
            0 <= k < name_insertion_point(sorted, x, i) ==> !str_lt(x.name@, #[trigger] sorted[k].name@),
        name_insertion_point(sorted, x, i) < sorted.len() ==> str_lt(
            x.name@,
            sorted[name_insertion_point(sorted, x, i)].name@,
        ),
    decreases sorted.len() - i,
{
    if i < sorted.len() && !str_lt(x.name@, sorted[i].name@) {
        lemma_name_insertion_point_facts(sorted, x, i + 1);
    }
}

/// Sorting by name keeps the members and puts their names in order.
#[verifier::spinoff_prover]
proof fn lemma_sorted_by_name(s: Seq<WorkspaceMember>)
    ensures
        names_sorted(sorted_by_name(s)),
        forall|y: WorkspaceMember| #[trigger] sorted_by_name(s).contains(y) <==> s.contains(y),
    decreases s.len(),
{
    if s.len() > 0 {
        let prefix = sorted_by_name(s.drop_last());
        let x = s.last();
        lemma_sorted_by_name(s.drop_last());
        lemma_name_insertion_point_facts(prefix, x, 0);
        let j = name_insertion_point(prefix, x, 0);
        let r = prefix.insert(j, x);
        assert(r == sorted_by_name(s));
        assert forall|a: int, b: int| 0 <= a < b < r.len() implies !str_lt(
            #[trigger] r[b].name@,
            #[trigger] r[a].name@,
        ) by {
            if b < j {
                assert(r[a] == prefix[a] && r[b] == prefix[b]);
            } else if b == j {
                assert(r[a] == prefix[a]);
            } else if a == j {
                assert(r[b] == prefix[b - 1]);
                if str_lt(prefix[b - 1].name@, x.name@) {
                    lemma_str_lt_transitive(prefix[b - 1].name@, x.name@, prefix[j].name@);
                    if b - 1 == j {
                        lemma_str_lt_irreflexive(prefix[j].name@);
                    }
                }
            } else if a < j {
                assert(r[a] == prefix[a] && r[b] == prefix[b - 1]);
            } else {
                assert(r[a] == prefix[a - 1] && r[b] == prefix[b - 1]);
            }
        }
        assert forall|y: WorkspaceMember| #[trigger] r.contains(y) <==> s.contains(y) by {
            if r.contains(y) {
                let t = choose|t: int| 0 <= t < r.len() && r[t] == y;
                if t < j {
                    assert(prefix[t] == y);
                    assert(prefix.contains(y));
                    let u = choose|u: int| 0 <= u < s.drop_last().len() && s.drop_last()[u] == y;
                    assert(s[u] == y);
                } else if t == j {
                    assert(s[s.len() - 1] == y);
                } else {
                    assert(prefix[t - 1] == y);
                    assert(prefix.contains(y));
                    let u = choose|u: int| 0 <= u < s.drop_last().len() && s.drop_last()[u] == y;
                    assert(s[u] == y);
                }
            }
            if s.contains(y) {
                let u = choose|u: int| 0 <= u < s.len() && s[u] == y;
                if u < s.len() - 1 {
                    assert(s.drop_last()[u] == y);
                    assert(prefix.contains(y));
                    let t = choose|t: int| 0 <= t < prefix.len() && prefix[t] == y;
                    if t < j {
                        assert(r[t] == y);
                    } else {
                        assert(r[t + 1] == y);
                    }
                } else {
                    assert(r[j] == y);
                }
            }
        }
    }
}

/// Some member of `l` has the name `name`.
spec fn has_member_named(l: Seq<WorkspaceMember>, name: Seq<char>) -> bool {
    exists|j: int| 0 <= j < l.len() && (#[trigger] l[j]).name@ == name
}

/// Keeping the first of each run of equal names in a list sorted by name
/// keeps members of the list only, every name once, names strictly
/// increasing.
#[verifier::spinoff_prover]
proof fn lemma_dedup_by_name_of_sorted(s: Seq<WorkspaceMember>)
    requires
        names_sorted(s),
    ensures
        forall|y: WorkspaceMember| #[trigger] dedup_by_name(s).contains(y) ==> s.contains(y),
        forall|i: int| 0 <= i < s.len() ==> has_member_named(dedup_by_name(s), #[trigger] s[i].name@),
        forall|a: int, b: int|
            0 <= a < b < dedup_by_name(s).len() ==> str_lt(
                #[trigger] dedup_by_name(s)[a].name@,
                #[trigger] dedup_by_name(s)[b].name@,
            ),
        s.len() > 0 ==> dedup_by_name(s).len() > 0 && dedup_by_name(s).last().name@ == s.last().name@,
    decreases s.len(),
{
    if s.len() == 1 {
        assert(dedup_by_name(s)[0] == s[0]);
        assert(has_member_named(dedup_by_name(s), s[0].name@));
    }
    if s.len() > 1 {
        let p = s.drop_last();
        let lp = dedup_by_name(p);
        let l = dedup_by_name(s);
        assert(names_sorted(p)) by {
            assert forall|a: int, b: int| 0 <= a < b < p.len() implies !str_lt(
                #[trigger] p[b].name@,
                #[trigger] p[a].name@,
            ) by {
                assert(p[a] == s[a] && p[b] == s[b]);
            }
        }
        lemma_dedup_by_name_of_sorted(p);
        assert(p.last() == s[s.len() - 2]);
        if s.last().name@ == s[s.len() - 2].name@ {
            assert(l == lp);
            assert forall|y: WorkspaceMember| #[trigger] l.contains(y) implies s.contains(y) by {
                let u = choose|u: int| 0 <= u < p.len() && p[u] == y;
                assert(s[u] == y);
            }
            assert forall|i: int|
                0 <= i < s.len() implies has_member_named(l, #[trigger] s[i].name@) by {
                if i < p.len() {
                    assert(s[i] == p[i]);
                    assert(has_member_named(lp, p[i].name@));
                    let j = choose|j: int|
                        0 <= j < lp.len() && (#[trigger] lp[j]).name@ == p[i].name@;
                    assert(l[j].name@ == s[i].name@);
                } else {
                    assert(lp.last().name@ == p.last().name@);
                    assert(l[l.len() - 1] == lp.last());
                    assert(l[l.len() - 1].name@ == s[i].name@);
                }
            }
        } else {
            assert(l == lp.push(s.last()));
            assert(!str_lt(s.last().name@, s[s.len() - 2].name@));
            lemma_str_lt_total(s[s.len() - 2].name@, s.last().name@);
            assert forall|y: WorkspaceMember| #[trigger] l.contains(y) implies s.contains(y) by {
                let t = choose|t: int| 0 <= t < l.len() && l[t] == y;
                if t < lp.len() {
                    assert(lp[t] == y);
                    assert(lp.contains(y));
                    let u = choose|u: int| 0 <= u < p.len() && p[u] == y;
                    assert(s[u] == y);
                } else {
                    assert(s[s.len() - 1] == y);
                }
            }
            assert forall|i: int|
                0 <= i < s.len() implies has_member_named(l, #[trigger] s[i].name@) by {
                if i < p.len() {
                    assert(s[i] == p[i]);
                    assert(has_member_named(lp, p[i].name@));
                    let j = choose|j: int|
                        0 <= j < lp.len() && (#[trigger] lp[j]).name@ == p[i].name@;
                    assert(l[j] == lp[j]);
                    assert(l[j].name@ == s[i].name@);
                } else {
                    assert(l[l.len() - 1] == s[i]);
                    assert(l[l.len() - 1].name@ == s[i].name@);
                }
            }
            assert forall|a: int, b: int| 0 <= a < b < l.len() implies str_lt(
                #[trigger] l[a].name@,
                #[trigger] l[b].name@,
            ) by {
                if b < lp.len() {
                    assert(l[a] == lp[a] && l[b] == lp[b]);
                } else {
                    assert(l[b] == s.last());
                    assert(l[a] == lp[a]);
                    assert(lp[lp.len() - 1] == lp.last());
                    if a < lp.len() - 1 {
                        assert(str_lt(lp[a].name@, lp[lp.len() - 1].name@));
                        lemma_str_lt_transitive(lp[a].name@, lp.last().name@, s.last().name@);
                    }
                }
            }
        }
    }
}

/// No member before position `i` of `s` has the name of the member at `i`.
pub open spec fn first_with_name(s: Seq<WorkspaceMember>, i: int) -> bool {
    0 <= i < s.len() && forall|b: int| 0 <= b < i ==> #[trigger] s[b].name@ != s[i].name@
}

/// `y` is the first member of `s` that has `y`'s name.
pub open spec fn first_of_name(s: Seq<WorkspaceMember>, y: WorkspaceMember) -> bool {
    exists|i: int| #[trigger] first_with_name(s, i) && s[i] == y
}

/// The first member of a name in the sorted list is the first member of
/// that name in the list: sorting by name is stable.
#[verifier::spinoff_prover]
proof fn lemma_sorted_by_name_keeps_firsts(s: Seq<WorkspaceMember>)
    ensures
        forall|a: int|
            #[trigger] first_with_name(sorted_by_name(s), a) ==> first_of_name(s, sorted_by_name(s)[a]),
    decreases s.len(),
{
    if s.len() > 0 {
        let p = s.drop_last();
        let prefix = sorted_by_name(p);
        let x = s.last();
        lemma_sorted_by_name_keeps_firsts(p);
        lemma_sorted_by_name(p);
        lemma_name_insertion_point_facts(prefix, x, 0);
        let j = name_insertion_point(prefix, x, 0);
        let r = prefix.insert(j, x);
        assert(r == sorted_by_name(s));
        assert forall|a: int| #[trigger] first_with_name(r, a) implies first_of_name(s, r[a]) by {
            if a == j {
                assert forall|k: int|
                    0 <= k < prefix.len() implies #[trigger] prefix[k].name@ != x.name@ by {
                    if k < j {
                        assert(r[k] == prefix[k]);
                    } else {
                        if prefix[k].name@ == x.name@ {
                            if k == j {
                                lemma_str_lt_irreflexive(x.name@);
                            } else {
                                assert(!str_lt(prefix[k].name@, prefix[j].name@));
                            }
                        }
                    }
                }
                assert forall|b: int|
                    0 <= b < s.len() - 1 implies #[trigger] s[b].name@ != s[s.len() - 1].name@ by {
                    assert(p[b] == s[b]);
                    assert(p.contains(p[b]));
                    assert(prefix.contains(p[b]));
                    let t = choose|t: int| 0 <= t < prefix.len() && prefix[t] == p[b];
                }
                assert(first_with_name(s, s.len() - 1));
            } else {
                let a2 = if a < j { a } else { a - 1 };
                assert(r[a] == prefix[a2]);
                assert forall|b: int|
                    0 <= b < a2 implies #[trigger] prefix[b].name@ != prefix[a2].name@ by {
                    if b < j {
                        assert(r[b] == prefix[b]);
                    } else {
                        assert(r[b + 1] == prefix[b]);
                    }
                }
                assert(first_with_name(prefix, a2));
                let i = choose|i: int| #[trigger] first_with_name(p, i) && p[i] == prefix[a2];
                assert forall|b: int| 0 <= b < i implies #[trigger] s[b].name@ != s[i].name@ by {
                    assert(s[b] == p[b]);
                    assert(s[i] == p[i]);
                }
                assert(first_with_name(s, i));
            }
        }
    }
}

/// Every member kept by `dedup_by_name` of a list sorted by name is the
/// first of its name in that list.
#[verifier::spinoff_prover]
proof fn lemma_dedup_by_name_keeps_firsts(s: Seq<WorkspaceMember>)
    requires
        names_sorted(s),
    ensures
        forall|j: int| 0 <= j < dedup_by_name(s).len() ==> first_of_name(s, #[trigger] dedup_by_name(s)[j]),
    decreases s.len(),
{
    if s.len() == 1 {
        assert(first_with_name(s, 0));
    }
    if s.len() > 1 {
        let p = s.drop_last();
        let lp = dedup_by_name(p);
        let l = dedup_by_name(s);
        assert(names_sorted(p)) by {
            assert forall|a: int, b: int| 0 <= a < b < p.len() implies !str_lt(
                #[trigger] p[b].name@,
                #[trigger] p[a].name@,
            ) by {
                assert(p[a] == s[a] && p[b] == s[b]);
            }
        }
        lemma_dedup_by_name_keeps_firsts(p);
        assert forall|j: int| 0 <= j < lp.len() implies first_of_name(s, #[trigger] lp[j]) by {
            let i = choose|i: int| #[trigger] first_with_name(p, i) && p[i] == lp[j];
            assert forall|b: int| 0 <= b < i implies #[trigger] s[b].name@ != s[i].name@ by {
                assert(s[b] == p[b]);
                assert(s[i] == p[i]);
            }
            assert(first_with_name(s, i));
        }
        if s.last().name@ == s[s.len() - 2].name@ {
            assert(l == lp);
        } else {
            assert(l == lp.push(s.last()));
            assert(!str_lt(s.last().name@, s[s.len() - 2].name@));
            lemma_str_lt_total(s[s.len() - 2].name@, s.last().name@);
            assert forall|b: int|
                0 <= b < s.len() - 1 implies #[trigger] s[b].name@ != s[s.len() - 1].name@ by {
                if b < s.len() - 2 {
                    assert(!str_lt(s[s.len() - 2].name@, s[b].name@));
                }
            }
            assert(first_with_name(s, s.len() - 1));
            assert forall|j: int| 0 <= j < l.len() implies first_of_name(s, #[trigger] l[j]) by {
                if j < lp.len() {
                    assert(l[j] == lp[j]);
                } else {
                    assert(l[j] == s[s.len() - 1]);
                }
            }
        }
    }
}

/// Ordering the members by name and cutting repeated names keeps, for
/// each name, the first member of the input that has it.
#[verifier::spinoff_prover]
pub proof fn lemma_kept_members_are_firsts(members: Seq<WorkspaceMember>)
    ensures
        forall|i: int|
            0 <= i < dedup_by_name(sorted_by_name(members)).len() ==> first_of_name(
                members,
                #[trigger] dedup_by_name(sorted_by_name(members))[i],
            ),
{
    let sorted = sorted_by_name(members);
    let kept = dedup_by_name(sorted);
    lemma_sorted_by_name(members);
    lemma_sorted_by_name_keeps_firsts(members);
    lemma_dedup_by_name_keeps_firsts(sorted);
    assert forall|i: int|
        0 <= i < kept.len() implies first_of_name(members, #[trigger] kept[i]) by {
        let a = choose|a: int| #[trigger] first_with_name(sorted, a) && sorted[a] == kept[i];
    }
}

/// Ordering the members by name and cutting repeated names leaves the
/// names strictly increasing.
#[verifier::spinoff_prover]
pub proof fn lemma_ordered_members_increase(members: Seq<WorkspaceMember>)
    ensures
        forall|a: int, b: int|
            0 <= a < b < dedup_by_name(sorted_by_name(members)).len() ==> str_lt(
                #[trigger] dedup_by_name(sorted_by_name(members))[a].name@,
                #[trigger] dedup_by_name(sorted_by_name(members))[b].name@,
            ),
{
    lemma_sorted_by_name(members);
    lemma_dedup_by_name_of_sorted(sorted_by_name(members));
}

/// Ordering the members by name and cutting repeated names keeps members
/// of the input only.
#[verifier::spinoff_prover]
pub proof fn lemma_ordered_members_from_input(members: Seq<WorkspaceMember>)
    ensures
        forall|i: int|
            0 <= i < dedup_by_name(sorted_by_name(members)).len() ==> members.contains(
                #[trigger] dedup_by_name(sorted_by_name(members))[i],
            ),
{
    let sorted = sorted_by_name(members);
    let kept = dedup_by_name(sorted);
    lemma_sorted_by_name(members);
    lemma_dedup_by_name_of_sorted(sorted);
    assert forall|i: int| 0 <= i < kept.len() implies members.contains(#[trigger] kept[i]) by {
        assert(kept.contains(kept[i]));
        assert(sorted.contains(kept[i]));
    }
}

/// Ordering the members by name and cutting repeated names keeps every
/// name of the input.
#[verifier::spinoff_prover]
pub proof fn lemma_ordered_members_keep_names(members: Seq<WorkspaceMember>)
    ensures
        forall|i: int|
            #![trigger members[i]]
            0 <= i < members.len() ==> exists|j: int|
                0 <= j < dedup_by_name(sorted_by_name(members)).len() && #[trigger] dedup_by_name(
                    sorted_by_name(members),
                )[j].name@ == members[i].name@,
{
    let sorted = sorted_by_name(members);
    let kept = dedup_by_name(sorted);
    lemma_sorted_by_name(members);
    lemma_dedup_by_name_of_sorted(sorted);
    assert forall|i: int| #![trigger members[i]] 0 <= i < members.len() implies exists|j: int|
        0 <= j < kept.len() && #[trigger] kept[j].name@ == members[i].name@ by {
        assert(members.contains(members[i]));
        assert(sorted.contains(members[i]));
        let t = choose|t: int| 0 <= t < sorted.len() && sorted[t] == members[i];
        assert(has_member_named(kept, sorted[t].name@));
        let j = choose|j: int| 0 <= j < kept.len() && (#[trigger] kept[j]).name@ == sorted[t].name@;
        assert(kept[j].name@ == members[i].name@);
    }
}

/// Orders the members of a workspace by name and keeps one member of each
/// name: the first in the sorted order.
///
/// Two members are merged only when their names are equal: the names of
/// the result are those of the input, each once, in increasing order, and
/// the member kept for a name is the first member of the input with that
/// name.
#[verifier::spinoff_prover]
pub fn order_workspace_members(members: Vec<WorkspaceMember>) -> (r: Vec<WorkspaceMember>)
    ensures
        r@ == dedup_by_name(sorted_by_name(members@)),
        forall|a: int, b: int|
            0 <= a < b < r.len() ==> str_lt(#[trigger] r@[a].name@, #[trigger] r@[b].name@),
        forall|i: int| 0 <= i < r.len() ==> members@.contains(#[trigger] r@[i]),
        forall|i: int| 0 <= i < r.len() ==> first_of_name(members@, #[trigger] r@[i]),
        forall|i: int|
            #![trigger members@[i]]
            0 <= i < members.len() ==> exists|j: int|
                0 <= j < r.len() && #[trigger] r@[j].name@ == members@[i].name@,
{
    proof {
        lemma_ordered_members_increase(members@);
        lemma_ordered_members_from_input(members@);
        lemma_kept_members_are_firsts(members@);
        lemma_ordered_members_keep_names(members@);
    }
    let ghost src = members@;
    let total = members.len();
    let mut rest = members;
    let mut sorted: Vec<WorkspaceMember> = Vec::new();
    let mut n: usize = 0;
    assert(src.skip(0) == src);
    while rest.len() > 0
        invariant
            n <= src.len(),
            total == src.len(),
            rest@ == src.skip(n as int),
            sorted@ == sorted_by_name(src.take(n as int)),
        decreases rest.len(),
    {
        let x = rest.remove(0);
        assert(src.take(n + 1).drop_last() == src.take(n as int));
        assert(src.take(n + 1).last() == x);
        assert(src.skip(n as int).remove(0) == src.skip(n + 1));
        let xname = chars_of(x.name.as_str());
        let mut j: usize = 0;
        while j < sorted.len() && !crate::sorting::str_lt_exec(
            &xname,
            &chars_of(sorted[j].name.as_str()),
        )
            invariant
                j <= sorted.len(),
                xname@ == x.name@,
                name_insertion_point(sorted@, x, 0) == name_insertion_point(sorted@, x, j as int),
            decreases sorted.len() - j,
        {
            j = j + 1;
        }
        proof {
            lemma_name_insertion_point_bounds(sorted@, x, 0);
        }
        sorted.insert(j, x);
        n = n + 1;
    }
    assert(src.take(n as int) == src);
    let ghost sv = sorted@;
    let count = sorted.len();
    let mut kept: Vec<WorkspaceMember> = Vec::new();
    let mut last_name: Vec<char> = Vec::new();
    let mut m: usize = 0;
    assert(sv.skip(0) == sv);
    while sorted.len() > 0
        invariant
            m <= sv.len(),
            count == sv.len(),
            sorted@ == sv.skip(m as int),
            kept@ == dedup_by_name(sv.take(m as int)),
            m > 0 ==> last_name@ == sv[m - 1].name@,
        decreases sorted.len(),
    {
        let x = sorted.remove(0);
        assert(sv.take(m + 1).drop_last() == sv.take(m as int));
        assert(sv.take(m + 1).last() == x);
        assert(sv.skip(m as int).remove(0) == sv.skip(m + 1));
        if m > 0 {
            assert(sv.take(m + 1)[m - 1] == sv[m - 1]);
        } else {
            assert(sv.take(1) == seq![x]);
        }
        let name = chars_of(x.name.as_str());
        if m == 0 || !crate::text::same_chars(&name, &last_name) {
            kept.push(x);
        }
        last_name = name;
        m = m + 1;
    }
    assert(sv.take(m as int) == sv);
    kept
}

/// Where the workspace at position `index` is mounted in the container.
pub open spec fn workspace_root(index: nat) -> Seq<char> {
    "/cargo-workspaces/"@ + decimal(index)
}

/// One override: `{source}|{name}={root}/{path}`.
pub open spec fn override_entry(
    source: Seq<char>,
    name: Seq<char>,
    root: Seq<char>,
    path: Seq<char>,
) -> Seq<char> {
    source + "|"@ + name + "="@ + root + "/"@ + path
}

/// The overrides of one member, one per patched source.
pub open spec fn member_overrides(m: WorkspaceMember, root: Seq<char>) -> Seq<Seq<char>> {
    m.patch_sources@.map_values(|src: String| override_entry(src@, m.name@, root, m.path@))
}

/// The overrides of the members of one workspace, in order.
pub open spec fn members_overrides(ms: Seq<WorkspaceMember>, root: Seq<char>) -> Seq<Seq<char>>
    decreases ms.len(),
{
    if ms.len() == 0 {
        seq![]
    } else {
        members_overrides(ms.drop_last(), root) + member_overrides(ms.last(), root)
    }
}

/// The overrides of all workspaces, in order, each workspace mounted at
/// the root of its position.
pub open spec fn all_overrides(ws: Seq<Vec<WorkspaceMember>>) -> Seq<Seq<char>>
    decreases ws.len(),
{
    if ws.len() == 0 {
        seq![]
    } else {
        all_overrides(ws.drop_last()) + members_overrides(
            ws.last()@,
            workspace_root((ws.len() - 1) as nat),
        )
    }
}

/// `s` with every run of equal neighbours cut to its first element, as
/// `Vec::dedup` does it.
pub open spec fn dedup_adjacent(s: Seq<Seq<char>>) -> Seq<Seq<char>>
    decreases s.len(),
{
    if s.len() <= 1 {
        s
    } else if s.last() == s[s.len() - 2] {
        dedup_adjacent(s.drop_last())
    } else {
        dedup_adjacent(s.drop_last()).push(s.last())
    }
}

/// The lines joined with `\n` between them.
pub open spec fn join_lines(s: Seq<Seq<char>>) -> Seq<char>
    decreases s.len(),
{
    if s.len() == 0 {
        seq![]
    } else if s.len() == 1 {
        s[0]
    } else {
        join_lines(s.drop_last()) + "\n"@ + s.last()
    }
}

/// Lines are joined with one newline between neighbours: a single line is
/// itself, and a further line follows the ones before it after a `\n`.
pub proof fn lemma_join_lines_appends(lines: Seq<Seq<char>>, line: Seq<char>)
    ensures
        lines.len() == 0 ==> join_lines(lines.push(line)) == line,
        lines.len() > 0 ==> join_lines(lines.push(line)) == join_lines(lines) + "\n"@ + line,
{
    assert(lines.push(line).drop_last() == lines);
}

/// The environment setting that hands the container its Cargo overrides:
/// every override, sorted and without repeats, one per line; none when
/// there is no override.
pub open spec fn cargo_override_setting(ws: Seq<Vec<WorkspaceMember>>) -> Option<Seq<char>> {
    let entries = dedup_adjacent(stable_sorted(false, all_overrides(ws)));
    if entries.len() == 0 {
        None
    } else {
        Some("ARDOS_CARGO_OVERRIDES="@ + join_lines(entries))
    }
}

/// The override line for patch source `k` of member `j` of the workspace at
/// position `w`: `{source}|{name}=/cargo-workspaces/{w}/{path}`.
pub open spec fn member_source_override(
    ws: Seq<Vec<WorkspaceMember>>,
    w: int,
    j: int,
    k: int,
) -> Seq<char> {
    let m = ws[w]@[j];
    m.patch_sources@[k]@ + "|"@ + m.name@ + "="@ + "/cargo-workspaces/"@ + decimal(w as nat) + "/"@
        + m.path@
}

/// `line` is the override of one patch source of one member of one of the
/// workspaces.
pub open spec fn is_workspace_override(ws: Seq<Vec<WorkspaceMember>>, line: Seq<char>) -> bool {
    exists|w: int, j: int, k: int|
        0 <= w < ws.len() && 0 <= j < ws[w]@.len() && 0 <= k < ws[w]@[j].patch_sources@.len()
            && line == #[trigger] member_source_override(ws, w, j, k)
}

/// The override of patch source `k` of member `j`, its workspace mounted at `root`.
spec fn members_entry(ms: Seq<WorkspaceMember>, root: Seq<char>, j: int, k: int) -> Seq<char> {
    override_entry(ms[j].patch_sources@[k]@, ms[j].name@, root, ms[j].path@)
}

/// `x` is the override of one patch source of one of the members.
spec fn in_members_overrides(ms: Seq<WorkspaceMember>, root: Seq<char>, x: Seq<char>) -> bool {
    exists|j: int, k: int|
        0 <= j < ms.len() && 0 <= k < ms[j].patch_sources@.len() && x == #[trigger] members_entry(
            ms,
            root,
            j,
            k,
        )
}

#[verifier::spinoff_prover]
proof fn lemma_members_overrides_contain(ms: Seq<WorkspaceMember>, root: Seq<char>, x: Seq<char>)
    ensures
        members_overrides(ms, root).contains(x) <==> in_members_overrides(ms, root, x),
    decreases ms.len(),
{
    if ms.len() > 0 {
        let p = ms.drop_last();
        let m = ms.last();
        let a = members_overrides(p, root);
        let b = member_overrides(m, root);
        lemma_members_overrides_contain(p, root, x);
        assert(members_overrides(ms, root) == a + b);
        if (a + b).contains(x) {
            let t = choose|t: int| 0 <= t < (a + b).len() && (a + b)[t] == x;
            if t < a.len() {
                assert(a[t] == x);
                let (j, k) = choose|j: int, k: int|
                    0 <= j < p.len() && 0 <= k < p[j].patch_sources@.len() && x
                        == #[trigger] members_entry(p, root, j, k);
                assert(members_entry(ms, root, j, k) == members_entry(p, root, j, k));
            } else {
                let k = t - a.len();
                assert(b[k] == x);
                assert(members_entry(ms, root, ms.len() - 1, k) == x);
            }
        }
        if in_members_overrides(ms, root, x) {
            let (j, k) = choose|j: int, k: int|
                0 <= j < ms.len() && 0 <= k < ms[j].patch_sources@.len() && x
                    == #[trigger] members_entry(ms, root, j, k);
            if j < p.len() {
                assert(members_entry(ms, root, j, k) == members_entry(p, root, j, k));
                assert(in_members_overrides(p, root, x));
                let t = choose|t: int| 0 <= t < a.len() && a[t] == x;
                assert((a + b)[t] == x);
            } else {
                assert(b[k] == x);
                assert((a + b)[a.len() + k] == x);
            }
        }
    }
}

#[verifier::spinoff_prover]
proof fn lemma_all_overrides_contain(ws: Seq<Vec<WorkspaceMember>>, x: Seq<char>)
    ensures
        all_overrides(ws).contains(x) <==> is_workspace_override(ws, x),
    decreases ws.len(),
{
    if ws.len() > 0 {
        let p = ws.drop_last();
        let last = (ws.len() - 1) as int;
        let root = workspace_root(last as nat);
        let a = all_overrides(p);
        let b = members_overrides(ws.last()@, root);
        lemma_all_overrides_contain(p, x);
        lemma_members_overrides_contain(ws.last()@, root, x);
        assert(all_overrides(ws) == a + b);
        assert forall|w: int, j: int, k: int|
            0 <= w < p.len() && 0 <= j < ws[w]@.len() && 0 <= k < ws[w]@[j].patch_sources@.len()
                implies #[trigger] member_source_override(ws, w, j, k) == member_source_override(
                p,
                w,
                j,
                k,
            ) by {
            assert(ws[w] == p[w]);
        }
        assert forall|j: int, k: int|
            0 <= j < ws.last()@.len() && 0 <= k < ws.last()@[j].patch_sources@.len()
                implies #[trigger] members_entry(ws.last()@, root, j, k) == member_source_override(
                ws,
                last,
                j,
                k,
            ) by {
            let m = ws.last()@[j];
            assert(members_entry(ws.last()@, root, j, k) =~= member_source_override(ws, last, j, k));
        }
        if (a + b).contains(x) {
            let t = choose|t: int| 0 <= t < (a + b).len() && (a + b)[t] == x;
            if t < a.len() {
                assert(a[t] == x);
                let (w, j, k) = choose|w: int, j: int, k: int|
                    0 <= w < p.len() && 0 <= j < p[w]@.len() && 0 <= k < p[w]@[j].patch_sources@.len()
                        && x == #[trigger] member_source_override(p, w, j, k);
                assert(ws[w] == p[w]);
                assert(member_source_override(ws, w, j, k) == x);
            } else {
                assert(b[t - a.len()] == x);
                let (j, k) = choose|j: int, k: int|
                    0 <= j < ws.last()@.len() && 0 <= k < ws.last()@[j].patch_sources@.len() && x
                        == #[trigger] members_entry(ws.last()@, root, j, k);
                assert(member_source_override(ws, last, j, k) == x);
            }
        }
        if is_workspace_override(ws, x) {
            let (w, j, k) = choose|w: int, j: int, k: int|
                0 <= w < ws.len() && 0 <= j < ws[w]@.len() && 0 <= k < ws[w]@[j].patch_sources@.len()
                    && x == #[trigger] member_source_override(ws, w, j, k);
            if w < p.len() {
                assert(ws[w] == p[w]);
                assert(member_source_override(p, w, j, k) == x);
                assert(is_workspace_override(p, x));
                let t = choose|t: int| 0 <= t < a.len() && a[t] == x;
                assert((a + b)[t] == x);
            } else {
                assert(members_entry(ws.last()@, root, j, k) == x);
                assert(in_members_overrides(ws.last()@, root, x));
                let t = choose|t: int| 0 <= t < b.len() && b[t] == x;
                assert((a + b)[a.len() + t] == x);
            }
        }
    }
}

/// Cutting runs of equal neighbours from a sorted list leaves it strictly
/// increasing, with the same elements, and ending where it ended.
#[verifier::spinoff_prover]
proof fn lemma_dedup_adjacent_of_sorted(s: Seq<Seq<char>>)
    requires
        is_sorted_by(false, s),
    ensures
        forall|x: Seq<char>| #[trigger] dedup_adjacent(s).contains(x) <==> s.contains(x),
        forall|a: int, b: int|
            0 <= a < b < dedup_adjacent(s).len() ==> str_lt(
                #[trigger] dedup_adjacent(s)[a],
                #[trigger] dedup_adjacent(s)[b],
            ),
        s.len() > 0 ==> dedup_adjacent(s).len() > 0 && dedup_adjacent(s).last() == s.last(),
    decreases s.len(),
{
    if s.len() > 1 {
        let p = s.drop_last();
        let lp = dedup_adjacent(p);
        let l = dedup_adjacent(s);
        assert(is_sorted_by(false, p)) by {
            assert forall|i: int, j: int| 0 <= i < j < p.len() implies !crate::sorting::text_lt(
                false,
                #[trigger] p[j],
                #[trigger] p[i],
            ) by {
                assert(p[j] == s[j] && p[i] == s[i]);
            }
        }
        lemma_dedup_adjacent_of_sorted(p);
        assert(s == p.push(s.last()));
        assert(p.last() == s[s.len() - 2]);
        assert forall|x: Seq<char>|
            #[trigger] s.contains(x) <==> p.contains(x) || x == s.last() by {
            if s.contains(x) {
                let t = choose|t: int| 0 <= t < s.len() && s[t] == x;
                if t < p.len() {
                    assert(p[t] == x);
                }
            }
            if p.contains(x) {
                let t = choose|t: int| 0 <= t < p.len() && p[t] == x;
                assert(s[t] == x);
            }
            assert(s[s.len() - 1] == s.last());
        }
        if s.last() == s[s.len() - 2] {
            assert(l == lp);
            assert(p.contains(p.last())) by {
                assert(p[p.len() - 1] == p.last());
            }
        } else {
            assert(l == lp.push(s.last()));
            assert(!str_lt(s.last(), s[s.len() - 2]));
            lemma_str_lt_total(s[s.len() - 2], s.last());
            assert forall|x: Seq<char>|
                #[trigger] l.contains(x) <==> lp.contains(x) || x == s.last() by {
                if l.contains(x) {
                    let t = choose|t: int| 0 <= t < l.len() && l[t] == x;
                    if t < lp.len() {
                        assert(lp[t] == x);
                    }
                }
                if lp.contains(x) {
                    let t = choose|t: int| 0 <= t < lp.len() && lp[t] == x;
                    assert(l[t] == x);
                }
                assert(l[l.len() - 1] == s.last());
            }
            assert forall|a: int, b: int| 0 <= a < b < l.len() implies str_lt(
                #[trigger] l[a],
                #[trigger] l[b],
            ) by {
                if b < lp.len() {
                    assert(l[a] == lp[a] && l[b] == lp[b]);
                } else {
                    assert(l[b] == s.last());
                    assert(l[a] == lp[a]);
                    if a < lp.len() - 1 {
                        assert(str_lt(lp[a], lp[lp.len() - 1]));
                        assert(lp[lp.len() - 1] == lp.last());
                        lemma_str_lt_transitive(lp[a], lp.last(), s.last());
                    } else {
                        assert(lp[a] == lp.last());
                    }
                }
            }
        }
    }
}

/// The override setting holds, each once and in increasing order,
/// exactly the lines `{source}|{name}=/cargo-workspaces/{index}/{path}` of
/// the patch sources of the members of the workspaces, and there is none
/// when no member patches a source.
#[verifier::spinoff_prover]
pub proof fn lemma_cargo_override_setting(ws: Seq<Vec<WorkspaceMember>>)
    ensures
        cargo_override_setting(ws) is None <==> forall|w: int, j: int|
            0 <= w < ws.len() && 0 <= j < ws[w]@.len() ==> #[trigger] ws[w]@[j].patch_sources@.len()
                == 0,
        cargo_override_setting(ws) matches Some(v) ==> exists|lines: Seq<Seq<char>>|
            #![trigger join_lines(lines)]
            {
                &&& v == "ARDOS_CARGO_OVERRIDES="@ + join_lines(lines)
                &&& forall|a: int, b: int|
                    0 <= a < b < lines.len() ==> str_lt(#[trigger] lines[a], #[trigger] lines[b])
                &&& forall|x: Seq<char>|
                    #[trigger] lines.contains(x) <==> is_workspace_override(ws, x)
            },
{
    broadcast use vstd::seq_lib::to_multiset_contains;

    let all = all_overrides(ws);
    let sorted = stable_sorted(false, all);
    let lines = dedup_adjacent(sorted);
    lemma_stable_sorted_is_sorted_permutation(false, all);
    lemma_dedup_adjacent_of_sorted(sorted);
    assert forall|x: Seq<char>| #[trigger] lines.contains(x) <==> is_workspace_override(ws, x) by {
        lemma_all_overrides_contain(ws, x);
        assert(sorted.to_multiset().count(x) == all.to_multiset().count(x));
        assert(sorted.contains(x) <==> all.contains(x));
    }
    if lines.len() == 0 {
        assert forall|w: int, j: int|
            0 <= w < ws.len() && 0 <= j < ws[w]@.len()
            implies #[trigger] ws[w]@[j].patch_sources@.len()
            == 0 by {
            if ws[w]@[j].patch_sources@.len() > 0 {
                assert(is_workspace_override(ws, member_source_override(ws, w, j, 0)));
                assert(lines.contains(member_source_override(ws, w, j, 0)));
            }
        }
    }
    if forall|w: int, j: int|
        0 <= w < ws.len() && 0 <= j < ws[w]@.len() ==> #[trigger] ws[w]@[j].patch_sources@.len() == 0 {
        if lines.len() > 0 {
            assert(lines.contains(lines[0]));
            assert(is_workspace_override(ws, lines[0]));
            let (w, j, k) = choose|w: int, j: int, k: int|
                0 <= w < ws.len() && 0 <= j < ws[w]@.len() && 0 <= k < ws[w]@[j].patch_sources@.len()
                    && lines[0] == #[trigger] member_source_override(ws, w, j, k);
            assert(ws[w]@[j].patch_sources@.len() == 0);
        }
    }
}

/// Builds the environment setting with the Cargo overrides of the mounted
/// workspaces.
///
/// Every patch source of every member of every workspace gives one line
/// `{source}|{name}=/cargo-workspaces/{index}/{path}`; the setting holds
/// these lines and no others, each once, in increasing order. There is no
/// setting when no member patches a source.
#[verifier::spinoff_prover]
pub fn cargo_override_env(workspaces: &Vec<Vec<WorkspaceMember>>) -> (r: Option<String>)
    ensures
        r matches Some(v) ==> cargo_override_setting(workspaces@) == Some(v@),
        r is None ==> cargo_override_setting(workspaces@) is None,
        r is None <==> forall|w: int, j: int|
            0 <= w < workspaces.len() && 0 <= j < workspaces@[w]@.len()
                ==> #[trigger] workspaces@[w]@[j].patch_sources@.len() == 0,
        r matches Some(v) ==> exists|lines: Seq<Seq<char>>|
            #![trigger join_lines(lines)]
            {
                &&& v@ == "ARDOS_CARGO_OVERRIDES="@ + join_lines(lines)
                &&& forall|a: int, b: int|
                    0 <= a < b < lines.len() ==> str_lt(#[trigger] lines[a], #[trigger] lines[b])
                &&& forall|x: Seq<char>|
                    #[trigger] lines.contains(x) <==> is_workspace_override(workspaces@, x)
            },
{
    proof {
        lemma_cargo_override_setting(workspaces@);
    }
    let mut entries: Vec<String> = Vec::new();
    let mut i: usize = 0;
    assert(entries@.map_values(|e: String| e@) == Seq::<Seq<char>>::empty());
    while i < workspaces.len()
        invariant
            i <= workspaces.len(),
            entries@.map_values(|e: String| e@) == all_overrides(workspaces@.take(i as int)),
        decreases workspaces.len() - i,
    {
        let mut root = String::new();
        crate::text::push_str(&mut root, "/cargo-workspaces/");
        crate::text::push_decimal(&mut root, i as u64);
        let ms = &workspaces[i];
        let ghost base = all_overrides(workspaces@.take(i as int));
        let mut j: usize = 0;
        while j < ms.len()
            invariant
                j <= ms.len(),
                root@ == workspace_root(i as nat),
                entries@.map_values(|e: String| e@) == base + members_overrides(
                    ms@.take(j as int),
                    root@,
                ),
            decreases ms.len() - j,
        {
            let m = &ms[j];
            let ghost mid = base + members_overrides(ms@.take(j as int), root@);
            let mut k: usize = 0;
            assert(m.patch_sources@.take(0).map_values(
                |src: String| override_entry(src@, m.name@, root@, m.path@),
            ) == Seq::<Seq<char>>::empty());
            while k < m.patch_sources.len()
                invariant
                    k <= m.patch_sources.len(),
                    entries@.map_values(|e: String| e@) == mid + m.patch_sources@.take(
                        k as int,
                    ).map_values(|src: String| override_entry(src@, m.name@, root@, m.path@)),
                decreases m.patch_sources.len() - k,
            {
                let mut e = String::new();
                crate::text::push_str(&mut e, m.patch_sources[k].as_str());
                crate::text::push_str(&mut e, "|");
                crate::text::push_str(&mut e, m.name.as_str());
                crate::text::push_str(&mut e, "=");
                crate::text::push_str(&mut e, root.as_str());
                crate::text::push_str(&mut e, "/");
                crate::text::push_str(&mut e, m.path.as_str());
                let ghost before = entries@;
                entries.push(e);
                assert(entries@.map_values(|x: String| x@) == before.map_values(|x: String| x@).push(
                    e@,
                ));
                assert(m.patch_sources@.take(k + 1).map_values(
                    |src: String| override_entry(src@, m.name@, root@, m.path@),
                ) == m.patch_sources@.take(k as int).map_values(
                    |src: String| override_entry(src@, m.name@, root@, m.path@),
                ).push(override_entry(m.patch_sources@[k as int]@, m.name@, root@, m.path@)));
                k = k + 1;
            }
            assert(m.patch_sources@.take(m.patch_sources@.len() as int) == m.patch_sources@);
            assert(ms@.take(j + 1).drop_last() == ms@.take(j as int));
            assert(ms@.take(j + 1).last() == ms@[j as int]);
            j = j + 1;
        }
        assert(ms@.take(ms@.len() as int) == ms@);
        assert(workspaces@.take(i + 1).drop_last() == workspaces@.take(i as int));
        assert(workspaces@.take(i + 1).last() == workspaces@[i as int]);
        i = i + 1;
    }
    assert(workspaces@.take(workspaces@.len() as int) == workspaces@);
    let sorted = sort_stable(false, &entries);
    let ghost sv = sorted@.map_values(|e: String| e@);
    // drop repeated neighbours
    let mut kept: Vec<String> = Vec::new();
    let mut n: usize = 0;
    let mut last_chars: Vec<char> = Vec::new();
    assert(sv.take(0) == Seq::<Seq<char>>::empty());
    while n < sorted.len()
        invariant
            n <= sorted.len(),
            sv == sorted@.map_values(|e: String| e@),
            kept@.map_values(|e: String| e@) == dedup_adjacent(sv.take(n as int)),
            n > 0 ==> last_chars@ == sv[n - 1],
        decreases sorted.len() - n,
    {
        let current = chars_of(sorted[n].as_str());
        assert(sv.take(n + 1).drop_last() == sv.take(n as int));
        assert(sv.take(n + 1).last() == sv[n as int]);
        if n > 0 {
            assert(sv.take(n + 1)[n - 1] == sv[n - 1]);
        }
        if n == 0 || !crate::text::same_chars(&current, &last_chars) {
            let ghost before = kept@;
            kept.push(sorted[n].clone());
            assert(kept@.map_values(|e: String| e@) == before.map_values(|e: String| e@).push(
                sv[n as int],
            ));
            if n == 0 {
                assert(sv.take(1) == seq![sv[0]]);
            }
        }
        last_chars = current;
        n = n + 1;
    }
    assert(sv.take(sorted@.len() as int) == sv);
    if kept.len() == 0 {
        return None;
    }
    let mut out = String::new();
    crate::text::push_str(&mut out, "ARDOS_CARGO_OVERRIDES=");
    let ghost kv = kept@.map_values(|e: String| e@);
    let mut q: usize = 0;
    while q < kept.len()
        invariant
            q <= kept.len(),
            kv == kept@.map_values(|e: String| e@),
            kv.len() > 0,
            out@ == "ARDOS_CARGO_OVERRIDES="@ + join_lines(kv.take(q as int)),
        decreases kept.len() - q,
    {
        assert(kv.take(q + 1).drop_last() == kv.take(q as int));
        assert(kv.take(q + 1).last() == kept@[q as int]@);
        if q > 0 {
            crate::text::push_str(&mut out, "\n");
        } else {
            assert(kv.take(1) == seq![kv[0]]);
        }
        crate::text::push_str(&mut out, kept[q].as_str());
        q = q + 1;
    }
    assert(kv.take(kv.len() as int) == kv);
    Some(out)
}

/// The normalised form of a Cargo dependency source: `crates-io` for a
/// registry source, the repository URL without query, fragment and trailing
/// slashes for a git source, and nothing for any other source.
pub open spec fn normalized_cargo_source(source: Seq<char>) -> Option<Seq<char>> {
    if occurs_at(source, "registry+"@, 0) {
        Some("crates-io"@)
    } else if occurs_at(source, "git+"@, 0) {
        let git = source.subrange("git+"@.len() as int, source.len() as int);
        let end = match find_either_from(git, '?', '#', 0) {
            Some(i) => i,
            None => git.len() as int,
        };
        Some(trim_end_char(git.subrange(0, end), '/'))
    } else {
        None
    }
}

/// A `registry+` source normalises to `crates-io`; a `git+` source, of
/// any URL scheme, to its URL up to the first `?` or `#`, without trailing
/// slashes; any other source to nothing.
#[verifier::spinoff_prover]
pub proof fn lemma_normalized_cargo_source(source: Seq<char>)
    ensures
        "registry+"@.is_prefix_of(source) ==> normalized_cargo_source(source) == Some("crates-io"@),
        !"registry+"@.is_prefix_of(source) && !"git+"@.is_prefix_of(source)
            ==> normalized_cargo_source(source) is None,
        !"registry+"@.is_prefix_of(source) && "git+"@.is_prefix_of(source) ==> ({
            let url = source.skip("git+"@.len() as int);
            normalized_cargo_source(source) matches Some(s) && exists|end: int|
                #![trigger url.take(end)]
                0 <= end <= url.len() && (forall|k: int|
                    0 <= k < end ==> url[k] != '?' && url[k] != '#') && (end == url.len()
                    || url[end] == '?' || url[end] == '#') && s.is_prefix_of(url.take(end))
                    && (forall|k: int| s.len() <= k < end ==> url[k] == '/') && (s.len() == 0
                    || s.last() != '/')
        }),
{
    assert(occurs_at(source, "registry+"@, 0) == "registry+"@.is_prefix_of(source));
    assert(occurs_at(source, "git+"@, 0) == "git+"@.is_prefix_of(source));
    if !"registry+"@.is_prefix_of(source) && "git+"@.is_prefix_of(source) {
        let url = source.skip("git+"@.len() as int);
        assert(url == source.subrange("git+"@.len() as int, source.len() as int));
        lemma_find_either_from(url, '?', '#', 0);
        let end = match find_either_from(url, '?', '#', 0) {
            Some(i) => i,
            None => url.len() as int,
        };
        assert(url.subrange(0, end) == url.take(end));
        lemma_trim_end_char(url.take(end), '/');
        let key = trim_end_char(url.take(end), '/');
        assert(normalized_cargo_source(source) == Some(key));
        assert(0 <= end <= url.len());
        assert(forall|k: int| 0 <= k < end ==> url[k] != '?' && url[k] != '#');
        assert(end == url.len() || url[end] == '?' || url[end] == '#');
        assert(forall|k: int| key.len() <= k < end ==> url.take(end)[k] == '/');
        assert forall|k: int| key.len() <= k < end implies url[k] == '/' by {
            assert(url.take(end)[k] == url[k]);
        }
    }
}

/// Normalises a Cargo dependency source so that it can key a patch table.
///
/// A `registry+` source becomes `crates-io`. A `git+` source, whatever
/// the scheme of its URL, becomes the URL up to the first `?` or `#`,
/// without trailing slashes. Any other source has no key.
pub fn normalize_cargo_source(source: &str) -> (r: Option<String>)
    ensures
        r matches Some(s) ==> normalized_cargo_source(source@) == Some(s@),
        r is None ==> normalized_cargo_source(source@) is None,
        "registry+"@.is_prefix_of(source@) ==> (r matches Some(s) && s@ == "crates-io"@),
        !"registry+"@.is_prefix_of(source@) && !"git+"@.is_prefix_of(source@) ==> r is None,
        !"registry+"@.is_prefix_of(source@) && "git+"@.is_prefix_of(source@) ==> ({
            let url = source@.skip("git+"@.len() as int);
            r matches Some(s) && exists|end: int|
                #![trigger url.take(end)]
                0 <= end <= url.len() && (forall|k: int|
                    0 <= k < end ==> url[k] != '?' && url[k] != '#') && (end == url.len()
                    || url[end] == '?' || url[end] == '#') && s@.is_prefix_of(url.take(end))
                    && (forall|k: int| s@.len() <= k < end ==> url[k] == '/') && (s@.len() == 0
                    || s@.last() != '/')
        }),
{
    proof {
        lemma_normalized_cargo_source(source@);
    }
    let src = chars_of(source);
    let registry = chars_of("registry+");
    if occurs_at_exec(&src, &registry, 0) {
        let crates_io = chars_of("crates-io");
        assert(crates_io@.subrange(0, crates_io@.len() as int) == crates_io@);
        return Some(string_from_range(&crates_io, 0, crates_io.len()));
    }
    let git_prefix = chars_of("git+");
    if !occurs_at_exec(&src, &git_prefix, 0) {
        return None;
    }
    let start = git_prefix.len();
    let git = sub_vec(&src, start, src.len());
    let end = match find_either(&git, '?', '#') {
        Some(i) => i,
        None => git.len(),
    };
    let cut = trim_end_char_range(&git, 0, end, '/');
    let out = string_from_range(&git, 0, cut);
    Some(out)
}

} // verus!
