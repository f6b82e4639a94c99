//! The check that an assembled sysroot holds every shared library and ELF
//! interpreter its binaries need: the findings are grouped by what is
//! missing and turned into the report the packer prints.
use vstd::prelude::*;

use crate::packages::{contains_name, name_set};
use crate::sorting::{sort_stable, stable_sorted};
use crate::text::{
    chars_of, decimal, lemma_trim_start_char, push_decimal, push_str, same_chars, trim_start_char,
};

verus! {

/// Findings grouped by what is missing: each key with the paths of the
/// files that need it, in the order they were found.
pub type Groups = Seq<(Seq<char>, Seq<Seq<char>>)>;

/// The position of `key` among the groups, from position `i` on.
pub open spec fn group_index_from(groups: Groups, key: Seq<char>, i: int) -> Option<int>
    decreases groups.len() - i,
{
    if i < 0 || i >= groups.len() {
        None
    } else if groups[i].0 == key {
        Some(i)
    } else {
        group_index_from(groups, key, i + 1)
    }
}

pub(crate) proof fn lemma_group_index(groups: Groups, key: Seq<char>, i: int)
    ensures
        group_index_from(groups, key, i) matches Some(k) ==> i <= k < groups.len() && groups[k].0
            == key,
    decreases groups.len() - i,
{
    if 0 <= i < groups.len() && groups[i].0 != key {
        lemma_group_index(groups, key, i + 1);
    }
}

/// The groups after recording that the file at `path` needs `key`: the
/// path joins the key's group, or a new group for the key is added last.
pub open spec fn add_finding(groups: Groups, key: Seq<char>, path: Seq<char>) -> Groups {
    match group_index_from(groups, key, 0) {
        Some(i) => groups.update(i, (key, groups[i].1.push(path))),
        None => groups.push((key, seq![path])),
    }
}

/// The paths grouped under `key`.
pub open spec fn paths_of(groups: Groups, key: Seq<char>) -> Seq<Seq<char>> {
    match group_index_from(groups, key, 0) {
        Some(i) => groups[i].1,
        None => seq![],
    }
}

/// The keys of the groups, in the order they were added.
pub open spec fn group_keys(groups: Groups) -> Seq<Seq<char>> {
    groups.map_values(|g: (Seq<char>, Seq<Seq<char>>)| g.0)
}

proof fn lemma_group_index_update(
    groups: Groups,
    i: int,
    entry: (Seq<char>, Seq<Seq<char>>),
    key: Seq<char>,
    j: int,
)
    requires
        0 <= i < groups.len(),
        entry.0 == groups[i].0,
    ensures
        group_index_from(groups.update(i, entry), key, j) == group_index_from(groups, key, j),
    decreases groups.len() - j,
{
    if 0 <= j < groups.len() {
        lemma_group_index_update(groups, i, entry, key, j + 1);
    }
}

proof fn lemma_group_index_push(
    groups: Groups,
    entry: (Seq<char>, Seq<Seq<char>>),
    key: Seq<char>,
    j: int,
)
    requires
        0 <= j <= groups.len(),
    ensures
        group_index_from(groups.push(entry), key, j) == match group_index_from(groups, key, j) {
            Some(t) => Some(t),
            None => if entry.0 == key {
                Some(groups.len() as int)
            } else {
                None
            },
        },
    decreases groups.len() - j,
{
    if j < groups.len() {
        lemma_group_index_push(groups, entry, key, j + 1);
    } else {
        assert(group_index_from(groups.push(entry), key, j + 1) is None);
    }
}

/// Recording a finding under `key` appends its path to the paths of that
/// key, adds the key if it was not there, and changes nothing else.
pub proof fn lemma_paths_after_finding(
    groups: Groups,
    key: Seq<char>,
    path: Seq<char>,
    other: Seq<char>,
)
    ensures
        paths_of(add_finding(groups, key, path), other) == if other == key {
            paths_of(groups, other).push(path)
        } else {
            paths_of(groups, other)
        },
        group_keys(add_finding(groups, key, path)).contains(other) <==> group_keys(groups).contains(
            other,
        ) || other == key,
{
    lemma_group_index(groups, key, 0);
    lemma_group_index(groups, other, 0);
    let after = add_finding(groups, key, path);
    match group_index_from(groups, key, 0) {
        Some(i) => {
            let entry = (key, groups[i].1.push(path));
            lemma_group_index_update(groups, i, entry, other, 0);
            assert(after == groups.update(i, entry));
            assert(group_keys(after) =~= group_keys(groups));
            assert(group_keys(groups)[i] == key);
        },
        None => {
            let entry = (key, seq![path]);
            lemma_group_index_push(groups, entry, other, 0);
            assert(after == groups.push(entry));
            assert(group_keys(after) =~= group_keys(groups).push(key));
            assert(group_keys(after)[groups.len() as int] == key);
            if group_keys(after).contains(other) && other != key {
                let t = choose|t: int| 0 <= t < group_keys(after).len() && group_keys(after)[t] == other;
                assert(group_keys(groups)[t] == other);
            }
            if group_keys(groups).contains(other) {
                let t = choose|t: int| 0 <= t < group_keys(groups).len() && group_keys(groups)[t] == other;
                assert(group_keys(after)[t] == other);
            }
        },
    }
}

/// How many times the library `key` is needed and missing: never for the
/// vDSO or a library that is a file of the sysroot, otherwise each time it
/// is listed.
pub open spec fn missing_count(names: Set<Seq<char>>, needed: Seq<Seq<char>>, key: Seq<char>) -> nat {
    if key == "linux-vdso.so.1"@ || names.contains(key) {
        0
    } else {
        needed.filter(equal_to(key)).len()
    }
}

/// Whether a library is `key`.
pub open spec fn equal_to(key: Seq<char>) -> spec_fn(Seq<char>) -> bool {
    |l: Seq<char>| l == key
}

/// Recording the needed libraries of a file appends its path to the paths
/// of each missing library once for every time the library is listed, and
/// changes nothing else.
pub proof fn lemma_paths_after_needed(
    groups: Groups,
    names: Set<Seq<char>>,
    path: Seq<char>,
    needed: Seq<Seq<char>>,
    key: Seq<char>,
)
    ensures
        paths_of(add_needed(groups, names, path, needed), key) == paths_of(groups, key) + Seq::new(
            missing_count(names, needed, key),
            |i: int| path,
        ),
        group_keys(add_needed(groups, names, path, needed)).contains(key) <==> group_keys(
            groups,
        ).contains(key) || missing_count(names, needed, key) > 0,
    decreases needed.len(),
{
    reveal_strlit("linux-vdso.so.1");
    if needed.len() == 0 {
        reveal(Seq::filter);
        assert(needed.filter(equal_to(key)).len() == 0);
        assert(paths_of(groups, key) + Seq::new(0, |i: int| path) == paths_of(groups, key));
    } else {
        let p = needed.drop_last();
        let lib = needed.last();
        lemma_paths_after_needed(groups, names, path, p, key);
        assert(needed == p.push(lib));
        p.lemma_filter_len_push(equal_to(key), lib);
        let before = add_needed(groups, names, path, p);
        let c = missing_count(names, p, key);
        if lib == vdso_name() || names.contains(lib) {
            assert(missing_count(names, needed, key) == c);
        } else {
            lemma_paths_after_finding(before, lib, path, key);
            if key == lib {
                assert(missing_count(names, needed, key) == c + 1);
                assert(paths_of(groups, key) + Seq::new(c + 1, |i: int| path) == (paths_of(groups, key)
                    + Seq::new(c, |i: int| path)).push(path));
            } else {
                assert(missing_count(names, needed, key) == c);
            }
        }
    }
}

/// The most paths the report lists under one key.
pub open spec fn listed_paths_limit() -> nat {
    25
}

/// The lines that list paths.
pub open spec fn path_lines(paths: Seq<Seq<char>>) -> Seq<char>
    decreases paths.len(),
{
    if paths.len() == 0 {
        seq![]
    } else {
        "      * "@ + paths[0] + "\n"@ + path_lines(paths.drop_first())
    }
}

/// The report block of one key: the key, up to 25 of its paths in path
/// order, and a line counting the paths left out.
pub open spec fn key_block(key: Seq<char>, paths: Seq<Seq<char>>) -> Seq<char> {
    let sorted = stable_sorted(true, paths);
    let shown = if sorted.len() > listed_paths_limit() {
        sorted.take(listed_paths_limit() as int)
    } else {
        sorted
    };
    "  - "@ + key + "\n"@ + path_lines(shown) + if paths.len() > listed_paths_limit() {
        "      * \u{2026} +"@ + decimal((paths.len() - listed_paths_limit()) as nat) + " more\n"@
    } else {
        seq![]
    }
}

/// The blocks of the given keys, in the given order.
pub open spec fn key_blocks(keys: Seq<Seq<char>>, groups: Groups) -> Seq<char>
    decreases keys.len(),
{
    if keys.len() == 0 {
        seq![]
    } else {
        key_block(keys[0], paths_of(groups, keys[0])) + key_blocks(keys.drop_first(), groups)
    }
}

/// The blocks of all groups, keys in string order.
pub open spec fn groups_text(groups: Groups) -> Seq<char> {
    key_blocks(stable_sorted(false, group_keys(groups)), groups)
}

/// The full report: missing interpreters first, then missing libraries,
/// separated by an empty line when both are there.
pub open spec fn report_text(interpreters: Groups, libraries: Groups) -> Seq<char> {
    let first = if interpreters.len() > 0 {
        "Missing ELF interpreters (PT_INTERP):\n"@ + groups_text(interpreters)
    } else {
        seq![]
    };
    let second = if libraries.len() > 0 {
        (if interpreters.len() > 0 {
            seq!['\n']
        } else {
            seq![]
        }) + "Missing DT_NEEDED shared libraries:\n"@ + groups_text(libraries)
    } else {
        seq![]
    };
    first + second
}

/// `text` holds `piece` somewhere.
pub open spec fn holds_text(text: Seq<char>, piece: Seq<char>) -> bool {
    exists|at: int|
        0 <= at && at + piece.len() <= text.len() && #[trigger] text.subrange(at, at + piece.len())
            == piece
}

proof fn lemma_holds_text_at(text: Seq<char>, piece: Seq<char>, at: int)
    requires
        0 <= at,
        at + piece.len() <= text.len(),
        text.subrange(at, at + piece.len()) == piece,
    ensures
        holds_text(text, piece),
{
    assert(text.subrange(at, at + piece.len()) == piece);
}

proof fn lemma_holds_text_within(before: Seq<char>, text: Seq<char>, after: Seq<char>, piece: Seq<char>)
    requires
        holds_text(text, piece),
    ensures
        holds_text(before + text + after, piece),
{
    let at = choose|at: int|
        0 <= at && at + piece.len() <= text.len() && #[trigger] text.subrange(at, at + piece.len())
            == piece;
    let whole = before + text + after;
    let at2 = before.len() + at;
    assert(whole.subrange(at2, at2 + piece.len()) == text.subrange(at, at + piece.len()));
    lemma_holds_text_at(whole, piece, at2);
}

/// The blocks of the keys hold the head line `  - {key}` of each key.
proof fn lemma_key_blocks_hold_keys(keys: Seq<Seq<char>>, groups: Groups, i: int)
    requires
        0 <= i < keys.len(),
    ensures
        holds_text(key_blocks(keys, groups), "  - "@ + keys[i] + "\n"@),
    decreases keys.len(),
{
    let head = "  - "@ + keys[0] + "\n"@;
    let block = key_block(keys[0], paths_of(groups, keys[0]));
    let rest = key_blocks(keys.drop_first(), groups);
    assert(key_blocks(keys, groups) == block + rest);
    if i == 0 {
        assert(block == head + (block.subrange(head.len() as int, block.len() as int)));
        assert(key_blocks(keys, groups).subrange(0, head.len() as int) == head);
        lemma_holds_text_at(key_blocks(keys, groups), head, 0);
    } else {
        lemma_key_blocks_hold_keys(keys.drop_first(), groups, i - 1);
        assert(keys.drop_first()[i - 1] == keys[i]);
        lemma_holds_text_within(block, rest, seq![], "  - "@ + keys[i] + "\n"@);
        assert(block + rest + Seq::<char>::empty() == block + rest);
    }
}

/// The blocks of a list of groups hold the head line of each of its keys.
proof fn lemma_groups_text_holds_keys(groups: Groups, key: Seq<char>)
    requires
        group_keys(groups).contains(key),
    ensures
        holds_text(groups_text(groups), "  - "@ + key + "\n"@),
{
    broadcast use vstd::seq_lib::to_multiset_contains;

    let keys = stable_sorted(false, group_keys(groups));
    crate::sorting::lemma_stable_sorted_is_sorted_permutation(false, group_keys(groups));
    assert(keys.to_multiset().count(key) == group_keys(groups).to_multiset().count(key));
    assert(keys.contains(key));
    let i = choose|i: int| 0 <= i < keys.len() && keys[i] == key;
    lemma_key_blocks_hold_keys(keys, groups, i);
}

/// The report names every missing interpreter and every missing library
/// on a line of its own, under the heading of its kind.
pub proof fn lemma_report_names_every_key(interpreters: Groups, libraries: Groups, key: Seq<char>)
    ensures
        group_keys(interpreters).contains(key) ==> holds_text(
            report_text(interpreters, libraries),
            "  - "@ + key + "\n"@,
        ),
        group_keys(libraries).contains(key) ==> holds_text(
            report_text(interpreters, libraries),
            "  - "@ + key + "\n"@,
        ),
        interpreters.len() > 0 ==> holds_text(
            report_text(interpreters, libraries),
            "Missing ELF interpreters (PT_INTERP):\n"@,
        ),
        libraries.len() > 0 ==> holds_text(
            report_text(interpreters, libraries),
            "Missing DT_NEEDED shared libraries:\n"@,
        ),
{
    let h1 = "Missing ELF interpreters (PT_INTERP):\n"@;
    let h2 = "Missing DT_NEEDED shared libraries:\n"@;
    let first = if interpreters.len() > 0 {
        h1 + groups_text(interpreters)
    } else {
        seq![]
    };
    let sep = if interpreters.len() > 0 {
        seq!['\n']
    } else {
        seq![]
    };
    let second = if libraries.len() > 0 {
        sep + h2 + groups_text(libraries)
    } else {
        seq![]
    };
    assert(report_text(interpreters, libraries) == first + second);
    let line = "  - "@ + key + "\n"@;
    if group_keys(interpreters).contains(key) {
        assert(interpreters.len() > 0);
        lemma_groups_text_holds_keys(interpreters, key);
        lemma_holds_text_within(h1, groups_text(interpreters), second, line);
        assert(h1 + groups_text(interpreters) + second == first + second);
    }
    if group_keys(libraries).contains(key) {
        assert(libraries.len() > 0);
        lemma_groups_text_holds_keys(libraries, key);
        lemma_holds_text_within(first + sep + h2, groups_text(libraries), seq![], line);
        assert(first + sep + h2 + groups_text(libraries) + Seq::<char>::empty() == first + second);
    }
    if interpreters.len() > 0 {
        assert((first + second).subrange(0, h1.len() as int) == h1);
        lemma_holds_text_at(first + second, h1, 0);
    }
    if libraries.len() > 0 {
        let at: int = (first.len() + sep.len()) as int;
        assert((first + second).subrange(at, at + h2.len()) == h2);
        lemma_holds_text_at(first + second, h2, at);
    }
}

/// The library that every process gets from the kernel and that no
/// sysroot holds as a file.
pub open spec fn vdso_name() -> Seq<char> {
    "linux-vdso.so.1"@
}

/// The groups after recording the needed libraries of the file at `path`:
/// each library that is neither the vDSO nor the name of a file in the
/// sysroot is a finding, in order.
pub open spec fn add_needed(
    groups: Groups,
    names: Set<Seq<char>>,
    path: Seq<char>,
    needed: Seq<Seq<char>>,
) -> Groups
    decreases needed.len(),
{
    if needed.len() == 0 {
        groups
    } else {
        let lib = needed.last();
        let before = add_needed(groups, names, path, needed.drop_last());
        if lib == vdso_name() || names.contains(lib) {
            before
        } else {
            add_finding(before, lib, path)
        }
    }
}

/// Accumulates what an assembled sysroot lacks.
pub struct SysrootDeps {
    names: Vec<String>,
    libraries: Vec<(String, Vec<String>)>,
    interpreters: Vec<(String, Vec<String>)>,
}

/// The findings held by a list of groups.
pub open spec fn groups_view(v: Seq<(String, Vec<String>)>) -> Groups {
    v.map_values(|g: (String, Vec<String>)| (g.0@, g.1@.map_values(|p: String| p@)))
}

impl SysrootDeps {
    /// The file names found in the sysroot.
    pub closed spec fn file_names(&self) -> Set<Seq<char>> {
        name_set(self.names@)
    }

    /// The missing libraries found so far.
    pub closed spec fn missing_libraries(&self) -> Groups {
        groups_view(self.libraries@)
    }

    /// The missing interpreters found so far.
    pub closed spec fn missing_interpreters(&self) -> Groups {
        groups_view(self.interpreters@)
    }

    /// Starts a check of a sysroot whose files have the given names.
    pub fn new(names: Vec<String>) -> (r: Self)
        ensures
            r.file_names() == name_set(names@),
            r.missing_libraries() == Seq::<(Seq<char>, Seq<Seq<char>>)>::empty(),
            r.missing_interpreters() == Seq::<(Seq<char>, Seq<Seq<char>>)>::empty(),
    {
        let r = SysrootDeps { names, libraries: Vec::new(), interpreters: Vec::new() };
        assert(groups_view(r.libraries@) == Seq::<(Seq<char>, Seq<Seq<char>>)>::empty());
        assert(groups_view(r.interpreters@) == Seq::<(Seq<char>, Seq<Seq<char>>)>::empty());
        r
    }

    /// Records that the file at `path` requests an interpreter that the
    /// sysroot does not hold.
    pub fn record_missing_interpreter(&mut self, path: &str, interpreter: &str)
        ensures
            final(self).file_names() == old(self).file_names(),
            final(self).missing_libraries() == old(self).missing_libraries(),
            final(self).missing_interpreters() == add_finding(
                old(self).missing_interpreters(),
                interpreter@,
                path@,
            ),
            forall|key: Seq<char>|
                #[trigger] paths_of(final(self).missing_interpreters(), key) == if key == interpreter@ {
                    paths_of(old(self).missing_interpreters(), key).push(path@)
                } else {
                    paths_of(old(self).missing_interpreters(), key)
                },
            forall|key: Seq<char>|
                #[trigger] group_keys(final(self).missing_interpreters()).contains(key) <==> group_keys(
                    old(self).missing_interpreters(),
                ).contains(key) || key == interpreter@,
    {
        add_to_groups(&mut self.interpreters, interpreter, path);
        proof {
            assert forall|key: Seq<char>|
                #[trigger] paths_of(self.missing_interpreters(), key) == if key == interpreter@ {
                    paths_of(old(self).missing_interpreters(), key).push(path@)
                } else {
                    paths_of(old(self).missing_interpreters(), key)
                } by {
                lemma_paths_after_finding(old(self).missing_interpreters(), interpreter@, path@, key);
            }
            assert forall|key: Seq<char>|
                #[trigger] group_keys(self.missing_interpreters()).contains(key) <==> group_keys(
                    old(self).missing_interpreters(),
                ).contains(key) || key == interpreter@ by {
                lemma_paths_after_finding(old(self).missing_interpreters(), interpreter@, path@, key);
            }
        }
    }

    /// Records the libraries that the file at `path` needs; those neither
    /// in the sysroot nor the vDSO become findings.
    pub fn record_needed(&mut self, path: &str, needed: &Vec<String>)
        ensures
            final(self).file_names() == old(self).file_names(),
            final(self).missing_interpreters() == old(self).missing_interpreters(),
            final(self).missing_libraries() == add_needed(
                old(self).missing_libraries(),
                old(self).file_names(),
                path@,
                needed@.map_values(|l: String| l@),
            ),
            forall|key: Seq<char>|
                #[trigger] paths_of(final(self).missing_libraries(), key) == paths_of(
                    old(self).missing_libraries(),
                    key,
                ) + Seq::new(
                    missing_count(old(self).file_names(), needed@.map_values(|l: String| l@), key),
                    |i: int| path@,
                ),
            forall|key: Seq<char>|
                #[trigger] group_keys(final(self).missing_libraries()).contains(key) <==> group_keys(
                    old(self).missing_libraries(),
                ).contains(key) || missing_count(
                    old(self).file_names(),
                    needed@.map_values(|l: String| l@),
                    key,
                ) > 0,
    {
        let ghost lib_views = needed@.map_values(|l: String| l@);
        let vdso = chars_of("linux-vdso.so.1");
        let mut k: usize = 0;
        while k < needed.len()
            invariant
                k <= needed.len(),
                vdso@ == vdso_name(),
                lib_views == needed@.map_values(|l: String| l@),
                self.names == old(self).names,
                self.interpreters == old(self).interpreters,
                groups_view(self.libraries@) == add_needed(
                    groups_view(old(self).libraries@),
                    name_set(old(self).names@),
                    path@,
                    lib_views.take(k as int),
                ),
            decreases needed.len() - k,
        {
            assert(lib_views.take(k + 1).drop_last() == lib_views.take(k as int));
            assert(lib_views.take(k + 1).last() == needed@[k as int]@);
            let lib = &needed[k];
            let lib_chars = chars_of(lib.as_str());
            let is_vdso = same_chars(&lib_chars, &vdso);
            if !is_vdso && !contains_name(&self.names, lib) {
                add_to_groups(&mut self.libraries, lib.as_str(), path);
            }
            k = k + 1;
        }
        assert(lib_views.take(needed.len() as int) == lib_views);
        proof {
            assert forall|key: Seq<char>|
                #[trigger] paths_of(self.missing_libraries(), key) == paths_of(
                    old(self).missing_libraries(),
                    key,
                ) + Seq::new(missing_count(old(self).file_names(), lib_views, key), |i: int| path@) by {
                lemma_paths_after_needed(
                    old(self).missing_libraries(),
                    old(self).file_names(),
                    path@,
                    lib_views,
                    key,
                );
            }
            assert forall|key: Seq<char>|
                #[trigger] group_keys(self.missing_libraries()).contains(key) <==> group_keys(
                    old(self).missing_libraries(),
                ).contains(key) || missing_count(old(self).file_names(), lib_views, key) > 0 by {
                lemma_paths_after_needed(
                    old(self).missing_libraries(),
                    old(self).file_names(),
                    path@,
                    lib_views,
                    key,
                );
            }
        }
    }

    /// The report: nothing when nothing is missing, otherwise the text that
    /// lists every missing interpreter and library with the files that
    /// need it: each kind that is missing under its heading, and each
    /// missing interpreter and library on a line `  - {name}` of its own.
    pub fn report(&self) -> (r: Result<(), String>)
        ensures
            r is Ok <==> self.missing_interpreters().len() == 0 && self.missing_libraries().len()
                == 0,
            r matches Err(text) ==> text@ == report_text(
                self.missing_interpreters(),
                self.missing_libraries(),
            ),
            r matches Err(text) ==> forall|key: Seq<char>|
                group_keys(self.missing_interpreters()).contains(key) || group_keys(
                    self.missing_libraries(),
                ).contains(key) ==> #[trigger] holds_text(text@, "  - "@ + key + "\n"@),
            r matches Err(text) ==> (self.missing_interpreters().len() > 0 ==> holds_text(
                text@,
                "Missing ELF interpreters (PT_INTERP):\n"@,
            )),
            r matches Err(text) ==> (self.missing_libraries().len() > 0 ==> holds_text(
                text@,
                "Missing DT_NEEDED shared libraries:\n"@,
            )),
    {
        if self.interpreters.len() == 0 && self.libraries.len() == 0 {
            return Ok(());
        }
        let mut msg = String::new();
        if self.interpreters.len() > 0 {
            push_str(&mut msg, "Missing ELF interpreters (PT_INTERP):\n");
            push_groups(&mut msg, &self.interpreters);
        }
        if self.libraries.len() > 0 {
            if self.interpreters.len() > 0 {
                crate::text::push_char(&mut msg, '\n');
            }
            push_str(&mut msg, "Missing DT_NEEDED shared libraries:\n");
            push_groups(&mut msg, &self.libraries);
        }
        proof {
            let interpreters = self.missing_interpreters();
            let libraries = self.missing_libraries();
            assert(msg@ == report_text(interpreters, libraries));
            lemma_report_names_every_key(interpreters, libraries, Seq::<char>::empty());
            assert forall|key: Seq<char>|
                group_keys(interpreters).contains(key) || group_keys(libraries).contains(key)
                    implies #[trigger] holds_text(
                    report_text(interpreters, libraries),
                    "  - "@ + key + "\n"@,
                ) by {
                lemma_report_names_every_key(interpreters, libraries, key);
            }
        }
        Err(msg)
    }
}

/// The position of the group keyed `key`.
pub(crate) fn find_group(groups: &Vec<(String, Vec<String>)>, key: &Vec<char>) -> (r: Option<usize>)
    ensures
        r matches Some(i) ==> i < groups.len() && group_index_from(groups_view(groups@), key@, 0)
            == Some(i as int),
        r is None ==> group_index_from(groups_view(groups@), key@, 0) is None,
{
    let ghost g = groups_view(groups@);
    let mut i: usize = 0;
    while i < groups.len()
        invariant
            i <= groups.len(),
            g == groups_view(groups@),
            group_index_from(g, key@, 0) == group_index_from(g, key@, i as int),
        decreases groups.len() - i,
    {
        let k = chars_of(groups[i].0.as_str());
        if same_chars(&k, key) {
            return Some(i);
        }
        i = i + 1;
    }
    None
}

/// Adds the finding that `path` needs `key`.
pub(crate) fn add_to_groups(groups: &mut Vec<(String, Vec<String>)>, key: &str, path: &str)
    ensures
        groups_view(final(groups)@) == add_finding(groups_view(old(groups)@), key@, path@),
{
    let key_chars = chars_of(key);
    let mut path_string = String::new();
    push_str(&mut path_string, path);
    let ghost old_view = groups_view(groups@);
    match find_group(groups, &key_chars) {
        Some(i) => {
            let ghost og = groups@;
            let (k, mut paths) = groups.remove(i);
            let ghost old_paths = paths@;
            paths.push(path_string);
            groups.insert(i, (k, paths));
            assert(groups@ == og.update(i as int, (k, paths)));
            proof {
                lemma_group_index(old_view, key@, 0);
            }
            assert(old_view[i as int].0 == key@);
            assert(paths@.map_values(|p: String| p@) == old_paths.map_values(|p: String| p@).push(
                path@,
            ));
            assert(groups_view(groups@) == old_view.update(
                i as int,
                (key@, old_view[i as int].1.push(path@)),
            ));
        },
        None => {
            let mut key_string = String::new();
            push_str(&mut key_string, key);
            let mut paths: Vec<String> = Vec::new();
            paths.push(path_string);
            assert(paths@.map_values(|p: String| p@) == seq![path@]);
            groups.push((key_string, paths));
            assert(groups_view(groups@) == old_view.push((key@, seq![path@])));
        },
    }
}

/// Appends the report lines of the given paths.
fn push_path_lines(msg: &mut String, paths: &Vec<String>, count: usize)
    requires
        count <= paths.len(),
    ensures
        final(msg)@ == old(msg)@ + path_lines(paths@.map_values(|p: String| p@).take(count as int)),
{
    let ghost pv = paths@.map_values(|p: String| p@);
    let mut i: usize = 0;
    while i < count
        invariant
            i <= count <= paths.len(),
            pv == paths@.map_values(|p: String| p@),
            old(msg)@ + path_lines(pv.take(count as int)) == msg@ + path_lines(
                pv.subrange(i as int, count as int),
            ),
        decreases count - i,
    {
        let ghost before = msg@;
        assert(pv.subrange(i as int, count as int).drop_first() == pv.subrange(i + 1, count as int));
        assert(pv.subrange(i as int, count as int)[0] == paths@[i as int]@);
        push_str(msg, "      * ");
        push_str(msg, paths[i].as_str());
        push_str(msg, "\n");
        assert(msg@ == before + ("      * "@ + paths@[i as int]@ + "\n"@));
        i = i + 1;
    }
    assert(pv.subrange(count as int, count as int) == Seq::<Seq<char>>::empty());
    assert(pv.take(count as int) == pv.subrange(0, count as int));
}

/// Appends the report blocks of all groups, keys in string order.
fn push_groups(msg: &mut String, groups: &Vec<(String, Vec<String>)>)
    ensures
        final(msg)@ == old(msg)@ + groups_text(groups_view(groups@)),
{
    let ghost g = groups_view(groups@);
    let mut keys: Vec<String> = Vec::new();
    let mut i: usize = 0;
    while i < groups.len()
        invariant
            i <= groups.len(),
            g == groups_view(groups@),
            keys@.map_values(|k: String| k@) == group_keys(g).take(i as int),
        decreases groups.len() - i,
    {
        let ghost before = keys@;
        keys.push(groups[i].0.clone());
        assert(keys@.map_values(|k: String| k@) == before.map_values(|k: String| k@).push(
            groups@[i as int].0@,
        ));
        assert(group_keys(g).take(i + 1) == group_keys(g).take(i as int).push(g[i as int].0));
        i = i + 1;
    }
    assert(group_keys(g).take(groups.len() as int) == group_keys(g));
    let sorted = sort_stable(false, &keys);
    let ghost sv = sorted@.map_values(|k: String| k@);
    let mut j: usize = 0;
    assert(sv.skip(0) == sv);
    while j < sorted.len()
        invariant
            j <= sorted.len(),
            g == groups_view(groups@),
            sv == sorted@.map_values(|k: String| k@),
            old(msg)@ + key_blocks(sv, g) == msg@ + key_blocks(sv.skip(j as int), g),
        decreases sorted.len() - j,
    {
        let ghost before = msg@;
        assert(sv.skip(j as int).drop_first() == sv.skip(j + 1));
        assert(sv.skip(j as int)[0] == sorted@[j as int]@);
        let key_chars = chars_of(sorted[j].as_str());
        match find_group(groups, &key_chars) {
            Some(at) => {
                push_block(msg, sorted[j].as_str(), &groups[at].1);
                assert(paths_of(g, sorted@[j as int]@) == groups@[at as int].1@.map_values(
                    |p: String| p@,
                ));
            },
            None => {
                let empty: Vec<String> = Vec::new();
                push_block(msg, sorted[j].as_str(), &empty);
                assert(empty@.map_values(|p: String| p@) == Seq::<Seq<char>>::empty());
            },
        }
        j = j + 1;
    }
    assert(sv.skip(sorted.len() as int) == Seq::<Seq<char>>::empty());
}

/// Appends the report block of one key.
fn push_block(msg: &mut String, key: &str, paths: &Vec<String>)
    ensures
        final(msg)@ == old(msg)@ + key_block(key@, paths@.map_values(|p: String| p@)),
{
    let ghost pv = paths@.map_values(|p: String| p@);
    let sorted = sort_stable(true, paths);
    push_str(msg, "  - ");
    push_str(msg, key);
    push_str(msg, "\n");
    let shown = if sorted.len() > 25 {
        25
    } else {
        sorted.len()
    };
    push_path_lines(msg, &sorted, shown);
    proof {
        let sv = sorted@.map_values(|p: String| p@);
        if sorted.len() <= 25 {
            assert(sv.take(shown as int) == sv);
        }
        lemma_stable_sorted_len(true, pv);
    }
    if paths.len() > 25 {
        push_str(msg, "      * \u{2026} +");
        push_decimal(msg, (paths.len() - 25) as u64);
        push_str(msg, " more\n");
    }
}

proof fn lemma_stable_sorted_len(by_path: bool, s: Seq<Seq<char>>)
    ensures
        stable_sorted(by_path, s).len() == s.len(),
    decreases s.len(),
{
    if s.len() > 0 {
        lemma_stable_sorted_len(by_path, s.drop_last());
        crate::sorting::lemma_insertion_point_in_range(
            by_path,
            stable_sorted(by_path, s.drop_last()),
            s.last(),
        );
    }
}

/// The path inside the sysroot where an absolute interpreter path would
/// be: the interpreter without its leading slashes. A relative
/// interpreter path is not looked up.
pub open spec fn interpreter_in_sysroot(interpreter: Seq<char>) -> Option<Seq<char>> {
    if interpreter.len() > 0 && interpreter[0] == '/' {
        Some(trim_start_char(interpreter, '/'))
    } else {
        None
    }
}

/// Where to look for an interpreter inside the sysroot.
///
/// Only an absolute path is looked up; what is looked up is the path after
/// all of its leading slashes.
pub fn sysroot_interpreter_path(interpreter: &str) -> (r: Option<String>)
    ensures
        r matches Some(p) ==> interpreter_in_sysroot(interpreter@) == Some(p@),
        r is None ==> interpreter_in_sysroot(interpreter@) is None,
        r is Some <==> interpreter@.len() > 0 && interpreter@[0] == '/',
        r matches Some(p) ==> exists|cut: int|
            #![trigger interpreter@.skip(cut)]
            1 <= cut <= interpreter@.len() && (forall|k: int| 0 <= k < cut ==> interpreter@[k] == '/')
                && p@ == interpreter@.skip(cut) && (p@.len() == 0 || p@[0] != '/'),
{
    proof {
        if interpreter@.len() > 0 && interpreter@[0] == '/' {
            lemma_trim_start_char(interpreter@, '/');
            let t = trim_start_char(interpreter@, '/');
            let cut = interpreter@.len() - t.len();
            assert(interpreter@.skip(cut) == t);
            assert(cut >= 1) by {
                if cut == 0 {
                    assert(t == interpreter@);
                }
            }
        }
    }
    let chars = chars_of(interpreter);
    if chars.len() > 0 && chars[0] == '/' {
        let from = crate::text::trim_start_char_range(&chars, 0, chars.len(), '/');
        assert(chars@.subrange(0, chars@.len() as int) == chars@);
        Some(crate::text::string_from_range(&chars, from, chars.len()))
    } else {
        None
    }
}

} // verus!
