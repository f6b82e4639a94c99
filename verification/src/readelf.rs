//! What the packer reads out of ELF files: the magic number that marks one,
//! and the `readelf` reports of needed shared libraries (`-d`) and of the
//! program interpreter (`-l`).
use vstd::prelude::*;

use crate::text::{
    lemma_find_char_from, lemma_find_char_from_bounds, lemma_find_from, occurs_at,
    chars_of, find_char_from, find_char_from_exec, find_seq, find_seq_exec, string_from_range,
    sub_vec, trim_end_char, trim_end_char_range, trim_range, trim_start_char,
    trim_start_char_range, trim_ws,
};

verus! {

/// The four bytes that open every ELF file: `0x7f`, `E`, `L`, `F`.
pub open spec fn elf_magic() -> Seq<u8> {
    seq![0x7fu8, 0x45u8, 0x4cu8, 0x46u8]
}

/// Whether the first bytes of a file mark it as an ELF file. A file
/// shorter than four bytes is not one.
pub fn has_elf_magic(header: &[u8]) -> (r: bool)
    ensures
        r == (header@.len() >= 4 && header@.take(4) == elf_magic()),
{
    if header.len() < 4 {
        return false;
    }
    let r = header[0] == 0x7f && header[1] == 0x45 && header[2] == 0x4c && header[3] == 0x46;
    if r {
        assert(header@.take(4) == elf_magic());
    } else {
        assert(header@.take(4)[0] != 0x7f || header@.take(4)[1] != 0x45 || header@.take(4)[2]
            != 0x4c || header@.take(4)[3] != 0x46);
    }
    r
}

/// The text between the first `[` of a line and the first `]` after it,
/// trimmed of whitespace; nothing when either bracket is missing.
pub open spec fn bracket_value(line: Seq<char>) -> Option<Seq<char>> {
    match find_char_from(line, '[', 0) {
        None => None,
        Some(open) => match find_char_from(line, ']', open + 1) {
            None => None,
            Some(close) => Some(trim_ws(line.subrange(open + 1, close))),
        },
    }
}

/// The bracketed value of a line.
fn bracket_value_of(line: &Vec<char>) -> (r: Option<String>)
    ensures
        r matches Some(v) ==> bracket_value(line@) == Some(v@),
        r is None ==> bracket_value(line@) is None,
{
    let open = match find_char_from_exec(line, '[', 0) {
        Some(i) => i,
        None => return None,
    };
    let close = match find_char_from_exec(line, ']', open + 1) {
        Some(j) => j,
        None => return None,
    };
    let (a, b) = trim_range(line, open + 1, close);
    Some(string_from_range(line, a, b))
}

proof fn lemma_bracket_value(line: Seq<char>)
    ensures
        bracket_value(line) is Some <==> exists|open: int, close: int|
            0 <= open < close < line.len() && #[trigger] line[open] == '[' && #[trigger] line[close]
                == ']',
        bracket_value(line) matches Some(v) ==> exists|open: int, close: int|
            #![trigger line.subrange(open + 1, close)]
            0 <= open < close < line.len() && line[open] == '[' && line[close] == ']' && (forall|k: int|
                0 <= k < open ==> line[k] != '[') && (forall|k: int| open < k < close ==> line[k]
                != ']') && v == trim_ws(line.subrange(open + 1, close)),
{
    lemma_find_char_from(line, '[', 0);
    match find_char_from(line, '[', 0) {
        None => {
            if exists|open: int, close: int|
                0 <= open < close < line.len() && #[trigger] line[open] == '[' && #[trigger] line[close]
                    == ']' {
                let (open, close) = choose|open: int, close: int|
                    0 <= open < close < line.len() && #[trigger] line[open] == '[' && #[trigger] line[close]
                        == ']';
                assert(line[open] != '[');
            }
        },
        Some(open) => {
            lemma_find_char_from(line, ']', open + 1);
            match find_char_from(line, ']', open + 1) {
                None => {
                    if exists|o: int, c: int|
                        0 <= o < c < line.len() && #[trigger] line[o] == '[' && #[trigger] line[c]
                            == ']' {
                        let (o, c) = choose|o: int, c: int|
                            0 <= o < c < line.len() && #[trigger] line[o] == '[' && #[trigger] line[c]
                                == ']';
                        assert(o >= open);
                        assert(line[c] != ']');
                    }
                },
                Some(close) => {
                    assert(line[open] == '[' && line[close] == ']');
                },
            }
        },
    }
}

/// Extracts the bracketed value of a `readelf` line, such as the library
/// name of a `(NEEDED)` entry.
///
/// There is a value exactly when a `]` follows a `[` somewhere on the
/// line; it is the text between the first `[` and the first `]` after it,
/// without surrounding whitespace.
pub fn parse_readelf_bracket_value(line: &str) -> (r: Option<String>)
    ensures
        r matches Some(v) ==> bracket_value(line@) == Some(v@),
        r is None ==> bracket_value(line@) is None,
        r is Some <==> exists|open: int, close: int|
            0 <= open < close < line@.len() && #[trigger] line@[open] == '[' && #[trigger] line@[close]
                == ']',
        r matches Some(v) ==> exists|open: int, close: int|
            #![trigger line@.subrange(open + 1, close)]
            0 <= open < close < line@.len() && line@[open] == '[' && line@[close] == ']' && (forall|
                k: int,
            | 0 <= k < open ==> line@[k] != '[') && (forall|k: int| open < k < close ==> line@[k]
                != ']') && v@ == trim_ws(line@.subrange(open + 1, close)),
{
    proof {
        lemma_bracket_value(line@);
    }
    let chars = chars_of(line);
    bracket_value_of(&chars)
}

/// A line without the carriage return that ended it.
pub open spec fn strip_cr(line: Seq<char>) -> Seq<char> {
    if line.len() > 0 && line.last() == '\r' {
        line.drop_last()
    } else {
        line
    }
}

/// The lines of `s` from position `start` on, as `str::lines` splits them:
/// at each `\n`, dropping a `\r` just before it; a last line without a
/// line end is kept as it is, and text that ends with `\n` has no empty
/// last line.
pub open spec fn lines_from(s: Seq<char>, start: int) -> Seq<Seq<char>>
    decreases s.len() - start,
{
    if start < 0 || start >= s.len() {
        seq![]
    } else {
        match find_char_from(s, '\n', start) {
            None => seq![s.subrange(start, s.len() as int)],
            Some(end) => if start <= end < s.len() {
                seq![strip_cr(s.subrange(start, end))] + lines_from(s, end + 1)
            } else {
                seq![]
            },
        }
    }
}

/// The lines of `s`.
pub open spec fn lines(s: Seq<char>) -> Seq<Seq<char>> {
    lines_from(s, 0)
}

/// The libraries that `readelf -d` lists as `(NEEDED)`, in order: every
/// line that mentions `(NEEDED)` and carries a bracketed value.
pub open spec fn needed_in(ls: Seq<Seq<char>>) -> Seq<Seq<char>>
    decreases ls.len(),
{
    if ls.len() == 0 {
        seq![]
    } else {
        let rest = needed_in(ls.drop_first());
        if find_seq(ls[0], "(NEEDED)"@) is Some && bracket_value(ls[0]) is Some {
            seq![bracket_value(ls[0])->Some_0] + rest
        } else {
            rest
        }
    }
}

/// The next line of `v` starting at `pos`, and where the one after starts.
fn next_line(v: &Vec<char>, pos: usize) -> (r: (Vec<char>, usize))
    requires
        pos < v.len(),
    ensures
        pos < r.1 <= v.len(),
        lines_from(v@, pos as int) == seq![r.0@] + lines_from(v@, r.1 as int),
{
    proof {
        lemma_find_char_from_bounds(v@, '\n', pos as int);
    }
    match find_char_from_exec(v, '\n', pos) {
        None => {
            let line = sub_vec(v, pos, v.len());
            assert(lines_from(v@, v@.len() as int) == Seq::<Seq<char>>::empty());
            assert(lines_from(v@, pos as int) == seq![line@] + Seq::<Seq<char>>::empty());
            (line, v.len())
        },
        Some(end) => {
            let stop = if end > pos && v[end - 1] == '\r' {
                end - 1
            } else {
                end
            };
            let line = sub_vec(v, pos, stop);
            assert(line@ == strip_cr(v@.subrange(pos as int, end as int))) by {
                if end > pos && v@[end - 1] == '\r' {
                    assert(v@.subrange(pos as int, end as int).drop_last() == v@.subrange(
                        pos as int,
                        end - 1,
                    ));
                }
            }
            (line, end + 1)
        },
    }
}

/// `line` mentions `(NEEDED)` somewhere.
pub open spec fn mentions_needed(line: Seq<char>) -> bool {
    exists|p: int|
        0 <= p && p + "(NEEDED)"@.len() <= line.len() && #[trigger] line.subrange(
            p,
            p + "(NEEDED)"@.len(),
        ) == "(NEEDED)"@
}

/// `out` lists, one for each, the bracketed values of the lines of `ls`
/// at the increasing positions `at`, and those are exactly the lines that
/// mention `(NEEDED)` and carry a bracketed value.
pub open spec fn picks_needed(ls: Seq<Seq<char>>, at: Seq<int>, out: Seq<Seq<char>>) -> bool {
    &&& at.len() == out.len()
    &&& forall|a: int, b: int| 0 <= a < b < at.len() ==> #[trigger] at[a] < #[trigger] at[b]
    &&& forall|k: int|
        0 <= k < at.len() ==> 0 <= #[trigger] at[k] < ls.len() && mentions_needed(ls[at[k]])
            && bracket_value(ls[at[k]]) == Some(out[k])
    &&& forall|i: int|
        0 <= i < ls.len() && mentions_needed(#[trigger] ls[i]) && bracket_value(ls[i]) is Some
            ==> at.contains(i)
}

proof fn lemma_mentions_needed(line: Seq<char>)
    ensures
        find_seq(line, "(NEEDED)"@) is Some <==> mentions_needed(line),
{
    lemma_find_from(line, "(NEEDED)"@, 0);
    if mentions_needed(line) {
        let p = choose|p: int|
            0 <= p && p + "(NEEDED)"@.len() <= line.len() && #[trigger] line.subrange(
                p,
                p + "(NEEDED)"@.len(),
            ) == "(NEEDED)"@;
        assert(occurs_at(line, "(NEEDED)"@, p));
    }
    if let Some(p) = find_seq(line, "(NEEDED)"@) {
        assert(line.subrange(p, p + "(NEEDED)"@.len()) == "(NEEDED)"@);
    }
}

/// The libraries listed for a report are the bracketed values of exactly
/// the lines that mention `(NEEDED)` and carry one, in line order.
proof fn lemma_needed_in(ls: Seq<Seq<char>>) -> (at: Seq<int>)
    ensures
        picks_needed(ls, at, needed_in(ls)),
    decreases ls.len(),
{
    if ls.len() == 0 {
        Seq::<int>::empty()
    } else {
        let rest = ls.drop_first();
        let at_rest = lemma_needed_in(rest);
        lemma_mentions_needed(ls[0]);
        let shifted = at_rest.map_values(|i: int| i + 1);
        assert forall|k: int| 0 <= k < shifted.len() implies #[trigger] shifted[k] == at_rest[k] + 1
            && ls[shifted[k]] == rest[at_rest[k]] by {}
        let wanted = find_seq(ls[0], "(NEEDED)"@) is Some && bracket_value(ls[0]) is Some;
        if wanted {
            let at = seq![0int] + shifted;
            let out = needed_in(ls);
            assert(out == seq![bracket_value(ls[0])->Some_0] + needed_in(rest));
            assert forall|k: int| 0 < k < at.len() implies #[trigger] at[k] == shifted[k - 1] by {}
            assert forall|a: int, b: int|
                0 <= a < b < at.len() implies #[trigger] at[a] < #[trigger] at[b] by {
                if a > 0 {
                    assert(at[a] == shifted[a - 1] && at[b] == shifted[b - 1]);
                    assert(at_rest[a - 1] < at_rest[b - 1]);
                } else {
                    assert(at[b] == shifted[b - 1]);
                    assert(0 <= at_rest[b - 1]);
                }
            }
            assert forall|k: int| 0 <= k < at.len() implies 0 <= #[trigger] at[k] < ls.len()
                && mentions_needed(ls[at[k]]) && bracket_value(ls[at[k]]) == Some(out[k]) by {
                if k > 0 {
                    assert(at[k] == shifted[k - 1]);
                    assert(out[k] == needed_in(rest)[k - 1]);
                    assert(0 <= at_rest[k - 1] < rest.len());
                }
            }
            assert forall|i: int|
                0 <= i < ls.len() && mentions_needed(#[trigger] ls[i]) && bracket_value(ls[i]) is Some
                    implies at.contains(i) by {
                if i == 0 {
                    assert(at[0] == 0);
                } else {
                    assert(rest[i - 1] == ls[i]);
                    assert(at_rest.contains(i - 1));
                    let k = choose|k: int| 0 <= k < at_rest.len() && at_rest[k] == i - 1;
                    assert(at[k + 1] == i);
                }
            }
            at
        } else {
            let out = needed_in(ls);
            assert(out == needed_in(rest));
            assert forall|a: int, b: int|
                0 <= a < b < shifted.len()
                implies #[trigger] shifted[a] < #[trigger] shifted[b] by {
                assert(at_rest[a] < at_rest[b]);
            }
            assert forall|k: int|
                0 <= k < shifted.len() implies 0 <= #[trigger] shifted[k] < ls.len()
                && mentions_needed(ls[shifted[k]]) && bracket_value(ls[shifted[k]]) == Some(out[k]) by {
                assert(0 <= at_rest[k] < rest.len());
            }
            assert forall|i: int|
                0 <= i < ls.len() && mentions_needed(#[trigger] ls[i]) && bracket_value(ls[i]) is Some
                    implies shifted.contains(i) by {
                if i == 0 {
                } else {
                    assert(rest[i - 1] == ls[i]);
                    assert(at_rest.contains(i - 1));
                    let k = choose|k: int| 0 <= k < at_rest.len() && at_rest[k] == i - 1;
                    assert(shifted[k] == i);
                }
            }
            shifted
        }
    }
}

/// Lists the shared libraries that a `readelf -d` report names as needed.
///
/// The result holds, in line order, the bracketed value of every line that
/// mentions `(NEEDED)` and carries one, and nothing else.
pub fn readelf_needed_libraries(stdout: &str) -> (r: Vec<String>)
    ensures
        r@.map_values(|l: String| l@) == needed_in(lines(stdout@)),
        exists|at: Seq<int>|
            #![trigger at.len()]
            picks_needed(lines(stdout@), at, r@.map_values(|l: String| l@)),
{
    proof {
        let at = lemma_needed_in(lines(stdout@));
    }
    let v = chars_of(stdout);
    let marker = chars_of("(NEEDED)");
    let mut out: Vec<String> = Vec::new();
    let mut pos: usize = 0;
    assert(out@.map_values(|l: String| l@) == Seq::<Seq<char>>::empty());
    while pos < v.len()
        invariant
            v@ == stdout@,
            marker@ == "(NEEDED)"@,
            pos <= v.len(),
            needed_in(lines(stdout@)) == out@.map_values(|l: String| l@) + needed_in(
                lines_from(v@, pos as int),
            ),
        decreases v.len() - pos,
    {
        let (line, next) = next_line(&v, pos);
        let ghost ls = lines_from(v@, pos as int);
        assert(ls[0] == line@ && ls.drop_first() == lines_from(v@, next as int));
        let ghost before = out@;
        if find_seq_exec(&line, &marker).is_some() {
            match bracket_value_of(&line) {
                Some(value) => {
                    out.push(value);
                    assert(out@.map_values(|l: String| l@) == before.map_values(|l: String| l@)
                        + seq![bracket_value(line@)->Some_0]);
                },
                None => {},
            }
        }
        pos = next;
    }
    assert(lines_from(v@, pos as int) == Seq::<Seq<char>>::empty());
    out
}

/// The interpreter named on a line that holds the marker, from the text
/// after the first `:` that follows the marker: trimmed, stripped of
/// surrounding brackets, and trimmed again.
pub open spec fn interpreter_value(rest: Seq<char>) -> Seq<char> {
    trim_ws(trim_end_char(trim_start_char(trim_ws(rest), '['), ']'))
}

/// The program interpreter that a `readelf -l` report requests: found on
/// the first line that holds `Requesting program interpreter:`.
pub open spec fn interpreter_in(ls: Seq<Seq<char>>) -> Option<Seq<char>>
    decreases ls.len(),
{
    if ls.len() == 0 {
        None
    } else {
        match find_seq(ls[0], "Requesting program interpreter:"@) {
            Some(idx) => match find_char_from(ls[0], ':', idx) {
                Some(colon) => Some(
                    interpreter_value(ls[0].subrange(colon + 1, ls[0].len() as int)),
                ),
                None => interpreter_in(ls.drop_first()),
            },
            None => interpreter_in(ls.drop_first()),
        }
    }
}

/// `line` holds `Requesting program interpreter:` at `p`.
pub open spec fn interpreter_marker_at(line: Seq<char>, p: int) -> bool {
    0 <= p && p + "Requesting program interpreter:"@.len() <= line.len() && line.subrange(
        p,
        p + "Requesting program interpreter:"@.len(),
    ) == "Requesting program interpreter:"@
}

/// `line` requests an interpreter: it holds the marker, and a `:` at or
/// after it.
pub open spec fn requests_interpreter(line: Seq<char>) -> bool {
    exists|p: int, c: int|
        #[trigger] interpreter_marker_at(line, p) && p <= c < line.len() && #[trigger] line[c] == ':'
}

/// The interpreter is read from the first line that requests one: from
/// after the first `:` at or after the first marker on that line.
pub open spec fn interpreter_read_from(ls: Seq<Seq<char>>, v: Seq<char>) -> bool {
    exists|i: int, p: int, c: int|
        #![trigger ls[i].skip(c + 1), interpreter_marker_at(ls[i], p)]
        {
            &&& 0 <= i < ls.len()
            &&& forall|j: int| 0 <= j < i ==> !requests_interpreter(#[trigger] ls[j])
            &&& interpreter_marker_at(ls[i], p)
            &&& forall|q: int| 0 <= q < p ==> !#[trigger] interpreter_marker_at(ls[i], q)
            &&& p <= c < ls[i].len() && ls[i][c] == ':'
            &&& forall|q: int| p <= q < c ==> #[trigger] ls[i][q] != ':'
            &&& v == interpreter_value(ls[i].skip(c + 1))
        }
}

proof fn lemma_interpreter_in(ls: Seq<Seq<char>>)
    ensures
        interpreter_in(ls) is Some <==> exists|i: int|
            0 <= i < ls.len() && requests_interpreter(#[trigger] ls[i]),
        interpreter_in(ls) matches Some(v) ==> interpreter_read_from(ls, v),
    decreases ls.len(),
{
    let marker = "Requesting program interpreter:"@;
    if ls.len() > 0 {
        let line = ls[0];
        let rest = ls.drop_first();
        lemma_interpreter_in(rest);
        lemma_find_from(line, marker, 0);
        assert forall|q: int|
            #[trigger] interpreter_marker_at(line, q) == occurs_at(line, marker, q) by {}
        let found = match find_seq(line, marker) {
            Some(idx) => find_char_from(line, ':', idx) is Some,
            None => false,
        };
        if found {
            let idx = find_seq(line, marker)->Some_0;
            lemma_find_char_from(line, ':', idx);
            let colon = find_char_from(line, ':', idx)->Some_0;
            assert(interpreter_marker_at(line, idx));
            assert(line[colon] == ':');
            assert(requests_interpreter(line));
            assert(ls[0] == line);
            assert(line.subrange(colon + 1, line.len() as int) == line.skip(colon + 1));
            assert(interpreter_in(ls) == Some(interpreter_value(line.skip(colon + 1))));
            assert(interpreter_read_from(ls, interpreter_value(line.skip(colon + 1)))) by {
                assert(ls[0].skip(colon + 1) == line.skip(colon + 1));
                assert(interpreter_marker_at(ls[0], idx));
            }
        } else {
            assert(!requests_interpreter(line)) by {
                if requests_interpreter(line) {
                    let (p, c) = choose|p: int, c: int|
                        #[trigger] interpreter_marker_at(line, p) && p <= c < line.len()
                            && #[trigger] line[c] == ':';
                    assert(occurs_at(line, marker, p));
                    let idx = find_seq(line, marker)->Some_0;
                    assert(idx <= p);
                    lemma_find_char_from(line, ':', idx);
                }
            }
            assert(interpreter_in(ls) == interpreter_in(rest));
            assert forall|i: int| 0 < i < ls.len() implies #[trigger] ls[i] == rest[i - 1] by {}
            if exists|i: int| 0 <= i < ls.len() && requests_interpreter(#[trigger] ls[i]) {
                let i = choose|i: int| 0 <= i < ls.len() && requests_interpreter(#[trigger] ls[i]);
                assert(i > 0);
                assert(requests_interpreter(rest[i - 1]));
            }
            if exists|i: int| 0 <= i < rest.len() && requests_interpreter(#[trigger] rest[i]) {
                let i = choose|i: int|
                    0 <= i < rest.len() && requests_interpreter(#[trigger] rest[i]);
                assert(ls[i + 1] == rest[i]);
            }
            if let Some(v) = interpreter_in(ls) {
                let (i, p, c) = choose|i: int, p: int, c: int|
                    #![trigger rest[i].skip(c + 1), interpreter_marker_at(rest[i], p)]
                    {
                        &&& 0 <= i < rest.len()
                        &&& forall|j: int| 0 <= j < i ==> !requests_interpreter(#[trigger] rest[j])
                        &&& interpreter_marker_at(rest[i], p)
                        &&& forall|q: int|
                            0 <= q < p ==> !#[trigger] interpreter_marker_at(rest[i], q)
                        &&& p <= c < rest[i].len() && rest[i][c] == ':'
                        &&& forall|q: int| p <= q < c ==> #[trigger] rest[i][q] != ':'
                        &&& v == interpreter_value(rest[i].skip(c + 1))
                    };
                assert(ls[i + 1] == rest[i]);
                assert forall|j: int|
                    0 <= j < i + 1 implies !requests_interpreter(#[trigger] ls[j]) by {
                    if j > 0 {
                        assert(ls[j] == rest[j - 1]);
                    }
                }
                assert(interpreter_marker_at(ls[i + 1], p));
                assert(ls[i + 1].skip(c + 1) == rest[i].skip(c + 1));
            }
        }
    }
}

/// Finds the program interpreter in a `readelf -l` report.
///
/// There is one exactly when a line holds `Requesting program
/// interpreter:` with a `:` at or after it; it is read from the first such
/// line, after the first `:` that follows the marker.
pub fn readelf_interpreter(stdout: &str) -> (r: Option<String>)
    ensures
        r matches Some(v) ==> interpreter_in(lines(stdout@)) == Some(v@),
        r is None ==> interpreter_in(lines(stdout@)) is None,
        r is Some <==> exists|i: int|
            0 <= i < lines(stdout@).len() && requests_interpreter(#[trigger] lines(stdout@)[i]),
        r matches Some(v) ==> interpreter_read_from(lines(stdout@), v@),
{
    let v = chars_of(stdout);
    let marker = chars_of("Requesting program interpreter:");
    let mut pos: usize = 0;
    while pos < v.len()
        invariant
            v@ == stdout@,
            marker@ == "Requesting program interpreter:"@,
            pos <= v.len(),
            interpreter_in(lines(stdout@)) == interpreter_in(lines_from(v@, pos as int)),
        decreases v.len() - pos,
    {
        let (line, next) = next_line(&v, pos);
        let ghost ls = lines_from(v@, pos as int);
        assert(ls[0] == line@ && ls.drop_first() == lines_from(v@, next as int));
        match find_seq_exec(&line, &marker) {
            Some(idx) => {
                match find_char_from_exec(&line, ':', idx) {
                    Some(colon) => {
                        let (a, b) = trim_range(&line, colon + 1, line.len());
                        let a2 = trim_start_char_range(&line, a, b, '[');
                        let b2 = trim_end_char_range(&line, a2, b, ']');
                        let (a3, b3) = trim_range(&line, a2, b2);
                        proof {
                            lemma_interpreter_in(lines(stdout@));
                        }
                        return Some(string_from_range(&line, a3, b3));
                    },
                    None => {},
                }
            },
            None => {},
        }
        pos = next;
    }
    assert(lines_from(v@, pos as int) == Seq::<Seq<char>>::empty());
    proof {
        lemma_interpreter_in(lines(stdout@));
    }
    None
}

} // verus!
