//! Bookkeeping around the commands the packer runs: the registries of child
//! process groups and docker containers that an interrupt must clean up,
//! container naming, log-line tagging and the exit decision after a child
//! finishes.
use vstd::prelude::*;

use crate::text::{
    chars_of, decimal, lemma_decimal_digits, lemma_decimal_injective, lemma_trim_end_char,
    lemma_trim_start_char, push_char, push_decimal, push_range, push_str, same_chars, trim_end_char,
    trim_end_char_range, trim_start_char, trim_start_char_range,
};

verus! {

/// The registry after registering `name`: unchanged when it is already
/// there, otherwise `name` appended at the end.
pub open spec fn registered_name(v: Seq<String>, name: Seq<char>) -> Seq<Seq<char>> {
    let names = v.map_values(|c: String| c@);
    if names.contains(name) {
        names
    } else {
        names.push(name)
    }
}

/// `v` without every occurrence of `x`, order kept.
pub open spec fn without<T>(v: Seq<T>, x: T) -> Seq<T>
    decreases v.len(),
{
    if v.len() == 0 {
        v
    } else if v.last() == x {
        without(v.drop_last(), x)
    } else {
        without(v.drop_last(), x).push(v.last())
    }
}

/// The registry after registering `pgid`.
pub open spec fn registered_group(v: Seq<i32>, pgid: i32) -> Seq<i32> {
    if v.contains(pgid) {
        v
    } else {
        v.push(pgid)
    }
}

/// Records a child process group so that an interrupt can signal it.
/// A group that is already recorded is not recorded twice.
pub fn register_child_group(groups: &mut Vec<i32>, pgid: i32)
    ensures
        final(groups)@ == registered_group(old(groups)@, pgid),
{
    let mut i: usize = 0;
    while i < groups.len()
        invariant
            i <= groups.len(),
            groups@ == old(groups)@,
            forall|k: int| 0 <= k < i ==> groups@[k] != pgid,
        decreases groups.len() - i,
    {
        if groups[i] == pgid {
            assert(groups@.contains(pgid));
            return;
        }
        i = i + 1;
    }
    groups.push(pgid);
}

/// Forgets a child process group: every occurrence of `pgid` leaves the
/// registry and the other groups keep their order.
pub fn unregister_child_group(groups: &mut Vec<i32>, pgid: i32)
    ensures
        final(groups)@ == without(old(groups)@, pgid),
{
    let mut kept: Vec<i32> = Vec::new();
    let mut i: usize = 0;
    while i < groups.len()
        invariant
            i <= groups.len(),
            groups@ == old(groups)@,
            kept@ == without(groups@.take(i as int), pgid),
        decreases groups.len() - i,
    {
        assert(groups@.take(i + 1).drop_last() == groups@.take(i as int));
        if groups[i] != pgid {
            kept.push(groups[i]);
        }
        i = i + 1;
    }
    assert(groups@.take(groups.len() as int) == groups@);
    *groups = kept;
}

/// Records a docker container so that an interrupt can remove it. A name
/// that is already recorded is not recorded twice.
pub fn register_docker_container(containers: &mut Vec<String>, name: &str)
    ensures
        final(containers)@.map_values(|c: String| c@) == registered_name(old(containers)@, name@),
{
    let ghost names = old(containers)@.map_values(|c: String| c@);
    let target = chars_of(name);
    let mut i: usize = 0;
    while i < containers.len()
        invariant
            i <= containers.len(),
            containers@ == old(containers)@,
            target@ == name@,
            names == containers@.map_values(|c: String| c@),
            forall|k: int| 0 <= k < i ==> names[k] != name@,
        decreases containers.len() - i,
    {
        let current = chars_of(containers[i].as_str());
        if same_chars(&current, &target) {
            assert(names[i as int] == name@);
            return;
        }
        i = i + 1;
    }
    assert(!names.contains(name@));
    let mut owned = String::new();
    push_str(&mut owned, name);
    containers.push(owned);
    assert(containers@.map_values(|c: String| c@) == names.push(name@));
}

/// Forgets a docker container: every entry named `name` leaves the
/// registry and the others keep their order.
pub fn unregister_docker_container(containers: &mut Vec<String>, name: &str)
    ensures
        final(containers)@.map_values(|c: String| c@) == without(
            old(containers)@.map_values(|c: String| c@),
            name@,
        ),
{
    let ghost names = old(containers)@.map_values(|c: String| c@);
    let target = chars_of(name);
    let mut kept: Vec<String> = Vec::new();
    let mut i: usize = 0;
    while i < containers.len()
        invariant
            i <= containers.len(),
            containers@ == old(containers)@,
            target@ == name@,
            names == containers@.map_values(|c: String| c@),
            kept@.map_values(|c: String| c@) == without(names.take(i as int), name@),
        decreases containers.len() - i,
    {
        assert(names.take(i + 1).drop_last() == names.take(i as int));
        let ghost before = kept@;
        let current = chars_of(containers[i].as_str());
        if !same_chars(&current, &target) {
            kept.push(containers[i].clone());
            assert(kept@.map_values(|c: String| c@) == before.map_values(|c: String| c@).push(
                names[i as int],
            ));
        }
        i = i + 1;
    }
    assert(names.take(names.len() as int) == names);
    *containers = kept;
}

/// Registering a container and then unregistering it leaves the registry as
/// unregistering alone would: the name is gone and every other entry is
/// where it was.
pub proof fn lemma_register_then_unregister(containers: Seq<String>, name: Seq<char>)
    ensures
        without(registered_name(containers, name), name) == without(
            containers.map_values(|c: String| c@),
            name,
        ),
{
    let names = containers.map_values(|c: String| c@);
    if !names.contains(name) {
        assert(names.push(name).drop_last() == names);
    }
}

/// After unregistering, the name is no longer in the registry.
pub proof fn lemma_unregistered_is_absent<T>(v: Seq<T>, x: T)
    ensures
        !without(v, x).contains(x),
        without(v, x).len() <= v.len(),
    decreases v.len(),
{
    if v.len() > 0 {
        lemma_unregistered_is_absent(v.drop_last(), x);
        if v.last() != x {
            let w = without(v.drop_last(), x);
            assert forall|i: int| 0 <= i < w.push(v.last()).len() implies w.push(v.last())[i]
                != x by {
                if i < w.len() {
                    assert(w.push(v.last())[i] == w[i]);
                }
            }
        }
    }
}

/// Registering twice is registering once.
pub proof fn lemma_register_idempotent(v: Seq<i32>, pgid: i32)
    ensures
        registered_group(registered_group(v, pgid), pgid) == registered_group(v, pgid),
{
    if !v.contains(pgid) {
        assert(v.push(pgid)[v.len() as int] == pgid);
    }
}

/// A registry without duplicates stays without duplicates when registering.
pub proof fn lemma_register_keeps_distinct(v: Seq<i32>, pgid: i32)
    requires
        v.no_duplicates(),
    ensures
        registered_group(v, pgid).no_duplicates(),
        registered_group(v, pgid).contains(pgid),
{
    if !v.contains(pgid) {
        assert(v.push(pgid)[v.len() as int] == pgid);
    }
}

/// A container registry without duplicates stays without duplicates when
/// registering, and holds the registered name afterwards.
pub proof fn lemma_register_container_keeps_distinct(containers: Seq<String>, name: Seq<char>)
    requires
        containers.map_values(|c: String| c@).no_duplicates(),
    ensures
        registered_name(containers, name).no_duplicates(),
        registered_name(containers, name).contains(name),
{
    let names = containers.map_values(|c: String| c@);
    if !names.contains(name) {
        assert(names.push(name)[names.len() as int] == name);
    }
}

/// The character a container-name prefix keeps in place of `c`: lower-case
/// ASCII letters and digits stay, upper-case ASCII letters are lowered and
/// everything else becomes `-`.
pub open spec fn sanitized_char(c: char) -> char {
    if ('a' <= c && c <= 'z') || ('0' <= c && c <= '9') {
        c
    } else if 'A' <= c && c <= 'Z' {
        ((c as u32) + 32) as char
    } else {
        '-'
    }
}

/// The name of a packer-managed docker container, as
/// `ardos-packer-{prefix}-{pid}-{count}` with the prefix sanitised and
/// stripped of leading and trailing dashes.
pub open spec fn container_name(prefix: Seq<char>, pid: nat, count: nat) -> Seq<char> {
    let sanitized = prefix.map_values(|c: char| sanitized_char(c));
    "ardos-packer-"@ + trim_end_char(trim_start_char(sanitized, '-'), '-') + seq!['-'] + decimal(
        pid,
    ) + seq!['-'] + decimal(count)
}

proof fn lemma_dash_before_digits_decides(x1: Seq<char>, d1: nat, x2: Seq<char>, d2: nat)
    requires
        x1 + seq!['-'] + decimal(d1) == x2 + seq!['-'] + decimal(d2),
    ensures
        decimal(d1).len() <= decimal(d2).len(),
{
    lemma_decimal_digits(d1);
    lemma_decimal_digits(d2);
    let n = x1 + seq!['-'] + decimal(d1);
    let m = x2 + seq!['-'] + decimal(d2);
    if decimal(d1).len() > decimal(d2).len() {
        let i = x2.len() as int;
        assert(n.len() == m.len());
        assert(m[i] == '-');
        let k = i - (x1.len() + 1);
        assert(0 <= k < decimal(d1).len());
        assert(n == (x1 + seq!['-']) + decimal(d1));
        assert((x1 + seq!['-']).len() == x1.len() + 1);
        assert(n[i] == decimal(d1)[k]);
        assert('0' <= decimal(d1)[k] <= '9');
    }
}

/// Names built with different counts differ, whatever the prefixes and
/// process ids: the count is the part after the last `-`, and different
/// numbers have different decimal notations. So the names one process
/// builds with its ever-increasing counter never repeat.
pub proof fn lemma_container_names_differ_by_count(
    prefix1: Seq<char>,
    pid1: nat,
    count1: nat,
    prefix2: Seq<char>,
    pid2: nat,
    count2: nat,
)
    requires
        count1 != count2,
    ensures
        container_name(prefix1, pid1, count1) != container_name(prefix2, pid2, count2),
{
    let lit = "ardos-packer-"@;
    let t1 = trim_end_char(trim_start_char(prefix1.map_values(|c: char| sanitized_char(c)), '-'), '-');
    let t2 = trim_end_char(trim_start_char(prefix2.map_values(|c: char| sanitized_char(c)), '-'), '-');
    let x1 = lit + t1 + seq!['-'] + decimal(pid1);
    let x2 = lit + t2 + seq!['-'] + decimal(pid2);
    if container_name(prefix1, pid1, count1) == container_name(prefix2, pid2, count2) {
        assert(container_name(prefix1, pid1, count1) == x1 + seq!['-'] + decimal(count1));
        assert(container_name(prefix2, pid2, count2) == x2 + seq!['-'] + decimal(count2));
        lemma_dash_before_digits_decides(x1, count1, x2, count2);
        lemma_dash_before_digits_decides(x2, count2, x1, count1);
        let n = x1 + seq!['-'] + decimal(count1);
        let len = decimal(count1).len();
        assert(decimal(count1) == n.subrange(n.len() - len, n.len() as int));
        assert(decimal(count2) == n.subrange(n.len() - len, n.len() as int));
        lemma_decimal_injective(count1, count2);
    }
}

/// The name keeps the run of the prefix that the dashes at both of its ends
/// leave, sanitised, between `ardos-packer-` and `-{pid}-{count}`.
proof fn lemma_container_name_parts(prefix: Seq<char>, pid: nat, count: nat)
    ensures
        exists|lo: int, hi: int|
            #![trigger prefix.subrange(lo, hi)]
            {
                &&& 0 <= lo <= hi <= prefix.len()
                &&& container_name(prefix, pid, count) == "ardos-packer-"@ + prefix.subrange(
                    lo,
                    hi,
                ).map_values(|c: char| sanitized_char(c)) + seq!['-'] + decimal(pid) + seq!['-']
                    + decimal(count)
                &&& forall|k: int| 0 <= k < lo ==> sanitized_char(#[trigger] prefix[k]) == '-'
                &&& forall|k: int| hi <= k < prefix.len() ==> sanitized_char(#[trigger] prefix[k]) == '-'
                &&& lo < hi ==> sanitized_char(prefix[lo]) != '-' && sanitized_char(prefix[hi - 1]) != '-'
            },
{
    let sanitized = prefix.map_values(|c: char| sanitized_char(c));
    lemma_trim_start_char(sanitized, '-');
    let t1 = trim_start_char(sanitized, '-');
    lemma_trim_end_char(t1, '-');
    let t2 = trim_end_char(t1, '-');
    let lo = sanitized.len() - t1.len();
    let hi = lo + t2.len();
    assert(t2 == sanitized.subrange(lo, hi));
    assert(sanitized.subrange(lo, hi) == prefix.subrange(lo, hi).map_values(|c: char| sanitized_char(c)));
    assert forall|k: int| 0 <= k < lo implies sanitized_char(#[trigger] prefix[k]) == '-' by {
        assert(sanitized[k] == sanitized_char(prefix[k]));
    }
    assert forall|k: int| hi <= k < prefix.len() implies sanitized_char(#[trigger] prefix[k]) == '-' by {
        assert(sanitized[k] == sanitized_char(prefix[k]));
        assert(t1[k - lo] == sanitized[k]);
    }
    if lo < hi {
        assert(t2[0] == t1[0]);
        assert(sanitized[lo] == sanitized_char(prefix[lo]));
        assert(sanitized[hi - 1] == sanitized_char(prefix[hi - 1]));
        assert(t2.last() == sanitized[hi - 1]);
    }
    assert(container_name(prefix, pid, count) == "ardos-packer-"@ + prefix.subrange(lo, hi).map_values(
        |c: char| sanitized_char(c),
    ) + seq!['-'] + decimal(pid) + seq!['-'] + decimal(count));
}

fn sanitize_char(c: char) -> (r: char)
    ensures
        r == sanitized_char(c),
{
    if ('a' <= c && c <= 'z') || ('0' <= c && c <= '9') {
        c
    } else if 'A' <= c && c <= 'Z' {
        ((c as u8) + 32) as char
    } else {
        '-'
    }
}

/// Builds the name of a docker container from a caller-chosen prefix, the
/// process id and a per-process counter.
///
/// Between `ardos-packer-` and `-{pid}-{count}` the name holds the prefix,
/// each character sanitised, without the characters at either end that
/// sanitise to `-`.
pub fn docker_container_name(prefix: &str, pid: u32, count: u64) -> (r: String)
    ensures
        r@ == container_name(prefix@, pid as nat, count as nat),
        exists|lo: int, hi: int|
            #![trigger prefix@.subrange(lo, hi)]
            {
                &&& 0 <= lo <= hi <= prefix@.len()
                &&& r@ == "ardos-packer-"@ + prefix@.subrange(lo, hi).map_values(
                    |c: char| sanitized_char(c),
                ) + seq!['-'] + decimal(pid as nat) + seq!['-'] + decimal(count as nat)
                &&& forall|k: int| 0 <= k < lo ==> sanitized_char(#[trigger] prefix@[k]) == '-'
                &&& forall|k: int|
                    hi <= k < prefix@.len() ==> sanitized_char(#[trigger] prefix@[k]) == '-'
                &&& lo < hi ==> sanitized_char(prefix@[lo]) != '-' && sanitized_char(prefix@[hi - 1])
                    != '-'
            },
{
    proof {
        lemma_container_name_parts(prefix@, pid as nat, count as nat);
    }
    let chars = chars_of(prefix);
    let mut sanitized: Vec<char> = Vec::new();
    let mut i: usize = 0;
    while i < chars.len()
        invariant
            i <= chars.len(),
            chars@ == prefix@,
            sanitized@ == chars@.take(i as int).map_values(|c: char| sanitized_char(c)),
        decreases chars.len() - i,
    {
        sanitized.push(sanitize_char(chars[i]));
        assert(chars@.take(i + 1).map_values(|c: char| sanitized_char(c)) == chars@.take(
            i as int,
        ).map_values(|c: char| sanitized_char(c)).push(sanitized_char(chars@[i as int])));
        i = i + 1;
    }
    assert(chars@.take(chars.len() as int) == chars@);
    let lo = trim_start_char_range(&sanitized, 0, sanitized.len(), '-');
    let hi = trim_end_char_range(&sanitized, lo, sanitized.len(), '-');
    assert(sanitized@.subrange(0, sanitized@.len() as int) == sanitized@);
    let mut name = String::new();
    push_str(&mut name, "ardos-packer-");
    push_range(&mut name, &sanitized, lo, hi);
    push_char(&mut name, '-');
    push_decimal(&mut name, pid as u64);
    push_char(&mut name, '-');
    push_decimal(&mut name, count);
    name
}

/// `s` with every non-overlapping occurrence of `pat` (taken from the
/// left) replaced by `rep`, as `str::replace` does it.
pub open spec fn replace_all(s: Seq<char>, pat: Seq<char>, rep: Seq<char>) -> Seq<char>
    decreases s.len(),
{
    if pat.len() == 0 || s.len() < pat.len() {
        s
    } else if s.take(pat.len() as int) == pat {
        rep + replace_all(s.skip(pat.len() as int), pat, rep)
    } else {
        seq![s[0]] + replace_all(s.drop_first(), pat, rep)
    }
}

/// A line of a child's output as the packer prints it: Windows line ends
/// become `\n`, and the tag is put at the start of the line and after
/// every carriage return and newline inside it.
pub open spec fn tagged_line(line: Seq<char>, tag: Seq<char>) -> Seq<char> {
    let a = replace_all(line, seq!['\r', '\n'], seq!['\n']);
    let b = replace_all(a, seq!['\r'], seq!['\r'] + tag);
    let c = replace_all(b, seq!['\n'], seq!['\n'] + tag);
    tag + c
}

proof fn lemma_replace_absent(s: Seq<char>, pat: Seq<char>, rep: Seq<char>)
    requires
        pat.len() > 0,
        !s.contains(pat[0]),
    ensures
        replace_all(s, pat, rep) == s,
    decreases s.len(),
{
    if s.len() >= pat.len() {
        assert(s.take(pat.len() as int)[0] == s[0]);
        assert(s.drop_first().len() < s.len());
        assert forall|i: int| 0 <= i < s.drop_first().len() implies s.drop_first()[i] != pat[0] by {
            assert(s.drop_first()[i] == s[i + 1]);
        }
        lemma_replace_absent(s.drop_first(), pat, rep);
        assert(seq![s[0]] + s.drop_first() == s);
    }
}

/// A line without carriage returns and newlines is printed with the tag in
/// front and nothing else changed.
pub proof fn lemma_plain_line_is_only_prefixed(line: Seq<char>, tag: Seq<char>)
    requires
        !line.contains('\r'),
        !line.contains('\n'),
    ensures
        tagged_line(line, tag) == tag + line,
{
    lemma_replace_absent(line, seq!['\r', '\n'], seq!['\n']);
    lemma_replace_absent(line, seq!['\r'], seq!['\r'] + tag);
    lemma_replace_absent(line, seq!['\n'], seq!['\n'] + tag);
}

/// `replace_all` on a character list.
fn replace_chars(s: &Vec<char>, pat: &Vec<char>, rep: &Vec<char>) -> (r: Vec<char>)
    requires
        pat.len() > 0,
    ensures
        r@ == replace_all(s@, pat@, rep@),
{
    let mut out: Vec<char> = Vec::new();
    let mut i: usize = 0;
    assert(s@.skip(0) == s@);
    assert(out@ + replace_all(s@, pat@, rep@) == replace_all(s@, pat@, rep@));
    while i < s.len()
        invariant
            pat.len() > 0,
            i <= s.len(),
            replace_all(s@, pat@, rep@) == out@ + replace_all(s@.skip(i as int), pat@, rep@),
        decreases s.len() - i,
    {
        let ghost rest = s@.skip(i as int);
        if pat.len() <= s.len() - i && crate::text::occurs_at_exec(s, pat, i) {
            assert(rest.take(pat@.len() as int) == s@.subrange(i as int, i + pat@.len()));
            assert(rest.skip(pat@.len() as int) == s@.skip(i + pat@.len()));
            let ghost before = out@;
            let mut k: usize = 0;
            while k < rep.len()
                invariant
                    k <= rep.len(),
                    out@ == before + rep@.take(k as int),
                decreases rep.len() - k,
            {
                out.push(rep[k]);
                assert(rep@.take(k + 1) == rep@.take(k as int).push(rep@[k as int]));
                k = k + 1;
            }
            assert(rep@.take(rep@.len() as int) == rep@);
            assert(out@ + replace_all(s@.skip(i + pat@.len()), pat@, rep@) == before + (rep@
                + replace_all(s@.skip(i + pat@.len()), pat@, rep@)));
            i = i + pat.len();
        } else {
            if pat.len() <= s.len() - i {
                assert(rest.take(pat@.len() as int) == s@.subrange(i as int, i + pat@.len()));
            }
            assert(rest.drop_first() == s@.skip(i + 1));
            let ghost before = out@;
            out.push(s[i]);
            assert(out@ + replace_all(s@.skip(i + 1), pat@, rep@) == before + (seq![s@[i as int]]
                + replace_all(s@.skip(i + 1), pat@, rep@)));
            i = i + 1;
        }
    }
    assert(s@.skip(s@.len() as int) == Seq::<char>::empty());
    out
}

/// Formats one line of a child's output with the command's tag.
///
/// The printed line starts with the tag, and a line without carriage
/// returns and newlines is printed as the tag followed by the line.
pub fn tag_line(line: &str, tag: &str) -> (r: String)
    ensures
        r@ == tagged_line(line@, tag@),
        tag@.is_prefix_of(r@),
        !line@.contains('\r') && !line@.contains('\n') ==> r@ == tag@ + line@,
{
    proof {
        if !line@.contains('\r') && !line@.contains('\n') {
            lemma_plain_line_is_only_prefixed(line@, tag@);
        }
    }
    let chars = chars_of(line);
    let tag_chars = chars_of(tag);
    let crlf: Vec<char> = vec!['\r', '\n'];
    let lf: Vec<char> = vec!['\n'];
    let cr: Vec<char> = vec!['\r'];
    let mut cr_tag: Vec<char> = vec!['\r'];
    let mut lf_tag: Vec<char> = vec!['\n'];
    let mut k: usize = 0;
    while k < tag_chars.len()
        invariant
            k <= tag_chars.len(),
            cr_tag@ == seq!['\r'] + tag_chars@.take(k as int),
            lf_tag@ == seq!['\n'] + tag_chars@.take(k as int),
        decreases tag_chars.len() - k,
    {
        cr_tag.push(tag_chars[k]);
        lf_tag.push(tag_chars[k]);
        assert(tag_chars@.take(k + 1) == tag_chars@.take(k as int).push(tag_chars@[k as int]));
        k = k + 1;
    }
    assert(tag_chars@.take(tag_chars.len() as int) == tag_chars@);
    assert(crlf@ == seq!['\r', '\n']);
    assert(lf@ == seq!['\n']);
    assert(cr@ == seq!['\r']);
    let a = replace_chars(&chars, &crlf, &lf);
    let b = replace_chars(&a, &cr, &cr_tag);
    let c = replace_chars(&b, &lf, &lf_tag);
    let mut out = String::new();
    push_str(&mut out, tag);
    push_range(&mut out, &c, 0, c.len());
    assert(c@.subrange(0, c@.len() as int) == c@);
    out
}

/// How the packer itself must exit after a child finished, if it must:
/// a child killed by a signal makes the packer exit with `128 + signal`, a
/// child that exited with 130 (interrupted) makes it exit with 130, and
/// otherwise the packer carries on.
pub fn exit_after_child(signal: Option<i32>, code: Option<i32>) -> (r: Option<i32>)
    requires
        signal matches Some(s) ==> s <= i32::MAX - 128,
    ensures
        r == (match signal {
            Some(s) => Some((128 + s) as i32),
            None => if code == Some(130i32) {
                Some(130i32)
            } else {
                None
            },
        }),
{
    match signal {
        Some(s) => Some(128 + s),
        None => {
            match code {
                Some(c) => if c == 130 {
                    Some(130)
                } else {
                    None
                },
                None => None,
            }
        },
    }
}

/// What an interrupt must clean up: the process groups to signal and the
/// containers to remove, or nothing when both registries are empty (the
/// packer then exits at once).
pub fn cleanup_targets(groups: &Vec<i32>, containers: &Vec<String>) -> (r: Option<
    (Vec<i32>, Vec<String>),
>)
    ensures
        r is None <==> groups@.len() == 0 && containers@.len() == 0,
        r matches Some(t) ==> t.0@ == groups@ && t.1@.map_values(|c: String| c@)
            == containers@.map_values(|c: String| c@),
{
    if groups.len() == 0 && containers.len() == 0 {
        return None;
    }
    let mut gs: Vec<i32> = Vec::new();
    let mut i: usize = 0;
    while i < groups.len()
        invariant
            i <= groups.len(),
            gs@ == groups@.take(i as int),
        decreases groups.len() - i,
    {
        gs.push(groups[i]);
        assert(groups@.take(i + 1) == groups@.take(i as int).push(groups@[i as int]));
        i = i + 1;
    }
    assert(groups@.take(groups.len() as int) == groups@);
    let mut cs: Vec<String> = Vec::new();
    let mut j: usize = 0;
    while j < containers.len()
        invariant
            j <= containers.len(),
            cs@.map_values(|c: String| c@) == containers@.take(j as int).map_values(
                |c: String| c@,
            ),
        decreases containers.len() - j,
    {
        let ghost before = cs@;
        cs.push(containers[j].clone());
        assert(cs@ == before.push(containers@[j as int]));
        assert(containers@.take(j + 1) == containers@.take(j as int).push(containers@[j as int]));
        assert(cs@.map_values(|c: String| c@) == before.map_values(|c: String| c@).push(
            containers@[j as int]@,
        ));
        assert(containers@.take(j + 1).map_values(|c: String| c@) == containers@.take(
            j as int,
        ).map_values(|c: String| c@).push(containers@[j as int]@));
        j = j + 1;
    }
    assert(containers@.take(containers.len() as int) == containers@);
    Some((gs, cs))
}

} // verus!
