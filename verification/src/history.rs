//! Resolving the history file and normalizing its lines.

use vstd::prelude::*;

verus! {

use vstd::string::StrSliceExecFns;
use vstd::string::StringExecFns;
use crate::strutil::str_eq;

/// The active shell is neither bash nor zsh.
#[derive(Debug)]
pub struct UnknownShell;

/// The offset of the first occurrence of `c` in `s`, or `s.len()` if
/// `c` does not occur.
pub open spec fn first_idx(s: Seq<char>, c: char) -> int
    decreases s.len(),
{
    if s.len() == 0 {
        0
    } else if s[0] == c {
        0
    } else {
        1 + first_idx(s.drop_first(), c)
    }
}

proof fn lemma_first_idx_bounds(s: Seq<char>, c: char)
    ensures
        0 <= first_idx(s, c) <= s.len(),
    decreases s.len(),
{
    if s.len() != 0 && s[0] != c {
        lemma_first_idx_bounds(s.drop_first(), c);
    }
}

/// A scan that saw no `c` before `m`, and `c` (or the end) at `m`,
/// found the first occurrence.
proof fn lemma_first_idx_unique(s: Seq<char>, c: char, m: int)
    requires
        0 <= m <= s.len(),
        forall|k: int| 0 <= k < m ==> s[k] != c,
        m == s.len() || s[m] == c,
    ensures
        first_idx(s, c) == m,
    decreases s.len(),
{
    if s.len() == 0 {
    } else if s[0] == c {
        assert(m == 0);
    } else {
        assert(s[0] != c);
        assert(m >= 1);
        assert forall|k: int| 0 <= k < m - 1 implies s.drop_first()[k] != c by {
            assert(s.drop_first()[k] == s[k + 1]);
        }
        if m < s.len() {
            assert(s.drop_first()[m - 1] == s[m]);
        }
        lemma_first_idx_unique(s.drop_first(), c, m - 1);
    }
}

/// The payload of a zsh history line: everything after the first
/// semicolon, which ends the `: <timestamp>:<duration>;` metadata
/// prefix; empty if the line has no semicolon. A command may itself
/// contain semicolons, so nothing past the first one is cut.
pub open spec fn zsh_payload(l: Seq<char>) -> Seq<char> {
    if first_idx(l, ';') == l.len() {
        Seq::empty()
    } else {
        l.skip(first_idx(l, ';') + 1)
    }
}

/// Finds the first `c` in `s` at or after offset `from`.
fn find_char_from(s: &str, c: char, from: usize) -> (r: Option<usize>)
    requires
        from <= s@.len(),
    ensures
        match r {
            Some(i) => from <= i < s@.len() && s@[i as int] == c && forall|k: int|
                from <= k < i ==> s@[k] != c,
            None => forall|k: int| from <= k < s@.len() ==> s@[k] != c,
        },
{
    let n = s.unicode_len();
    let mut i: usize = from;
    while i < n
        invariant
            from <= i <= n,
            n == s@.len(),
            forall|k: int| from <= k < i ==> s@[k] != c,
        decreases n - i,
    {
        if s.get_char(i) == c {
            return Some(i);
        }
        i += 1;
    }
    None
}

/// Strips the zsh metadata prefix from one history line.
fn zsh_payload_line(line: &String) -> (r: String)
    ensures
        r@ == zsh_payload(line@),
{
    let s = line.as_str();
    let n = s.unicode_len();
    match find_char_from(s, ';', 0) {
        None => {
            proof {
                lemma_first_idx_unique(line@, ';', n as int);
            }
            String::new()
        },
        Some(i) => {
            proof {
                lemma_first_idx_unique(line@, ';', i as int);
                assert(line@.skip(i + 1) =~= line@.subrange(i + 1, line@.len() as int));
            }
            let sub = s.substring_char(i + 1, n);
            sub.to_owned()
        },
    }
}

/// Replaces each zsh history line by its command payload.
pub fn cleanup_zsh(lines: Vec<String>) -> (r: Vec<String>)
    ensures
        r.deep_view() == lines.deep_view().map_values(|l: Seq<char>| zsh_payload(l)),
{
    let ghost dv = lines.deep_view();
    let mut r: Vec<String> = Vec::new();
    let mut i: usize = 0;
    while i < lines.len()
        invariant
            i <= lines@.len(),
            dv == lines.deep_view(),
            r.deep_view() == dv.take(i as int).map_values(|l: Seq<char>| zsh_payload(l)),
        decreases lines@.len() - i,
    {
        let ghost rdv = r.deep_view();
        let p = zsh_payload_line(&lines[i]);
        proof {
            assert(lines@[i as int]@ == dv[i as int]);
        }
        r.push(p);
        proof {
            assert(r.deep_view() =~= rdv.push(zsh_payload(dv[i as int])));
            assert(r.deep_view() =~= dv.take(i + 1).map_values(|l: Seq<char>| zsh_payload(l)));
        }
        i += 1;
    }
    proof {
        assert(dv.take(lines@.len() as int) =~= dv);
    }
    r
}

/// What the raw lines look like after normalization: zsh metadata
/// stripped when the shell is zsh, then empty lines dropped.
pub open spec fn cleaned(lines: Seq<Seq<char>>, zsh: bool) -> Seq<Seq<char>> {
    (if zsh {
        lines.map_values(|l: Seq<char>| zsh_payload(l))
    } else {
        lines
    }).filter(|l: Seq<char>| l.len() != 0)
}

/// Normalizes the raw history lines: strips zsh metadata when `zsh` is
/// set, and drops empty lines. Never yields more lines than it got.
pub fn cleanup(lines: Vec<String>, zsh: bool) -> (r: Vec<String>)
    ensures
        r.deep_view() == cleaned(lines.deep_view(), zsh),
        r@.len() <= lines@.len(),
{
    let ghost dv0 = lines.deep_view();
    let base = if zsh {
        cleanup_zsh(lines)
    } else {
        lines
    };
    let ghost dv = base.deep_view();
    proof {
        crate::strutil::lemma_filter_len_le(dv, |l: Seq<char>| l.len() != 0);
    }
    let mut r: Vec<String> = Vec::new();
    let mut i: usize = 0;
    while i < base.len()
        invariant
            i <= base@.len(),
            dv == base.deep_view(),
            r.deep_view() == dv.take(i as int).filter(|l: Seq<char>| l.len() != 0),
            r@.len() <= i,
        decreases base@.len() - i,
    {
        let ghost rdv = r.deep_view();
        proof {
            assert(base@[i as int]@ == dv[i as int]);
            crate::strutil::lemma_filter_push(
                dv.take(i as int),
                dv[i as int],
                |l: Seq<char>| l.len() != 0,
            );
            assert(dv.take(i + 1) =~= dv.take(i as int).push(dv[i as int]));
        }
        if !base[i].as_str().is_empty() {
            let line = base[i].clone();
            r.push(line);
            proof {
                assert(r.deep_view() =~= rdv.push(dv[i as int]));
            }
        }
        i += 1;
    }
    proof {
        assert(dv.take(base@.len() as int) =~= dv);
    }
    r
}

/// The path of the shell's history file: bash and zsh keep theirs
/// under the home directory; any other shell is unsupported.
pub fn history_file(home: &str, shell: &str) -> (r: Result<String, UnknownShell>)
    ensures
        match r {
            Ok(p) => (shell@ == "/bin/bash"@ && p@ == home@ + "/.bash_history"@) || (shell@
                == "/bin/zsh"@ && p@ == home@ + "/.zsh_history"@),
            Err(_) => shell@ != "/bin/bash"@ && shell@ != "/bin/zsh"@,
        },
        r is Err <==> (shell@ != "/bin/bash"@ && shell@ != "/bin/zsh"@),
{
    if str_eq(shell, "/bin/bash") {
        let mut p = home.to_owned();
        p.append("/.bash_history");
        Ok(p)
    } else if str_eq(shell, "/bin/zsh") {
        let mut p = home.to_owned();
        p.append("/.zsh_history");
        Ok(p)
    } else {
        Err(UnknownShell)
    }
}

/// A line's trailing carriage return removed, if it has one.
pub open spec fn strip_cr(l: Seq<char>) -> Seq<char> {
    if l.len() > 0 && l.last() == '\r' {
        l.drop_last()
    } else {
        l
    }
}

/// The text split at newlines: each `\n` (or `\r\n`) ends a line, and a
/// last line without one is kept as it stands.
pub open spec fn lines_of(s: Seq<char>) -> Seq<Seq<char>>
    decreases s.len(),
    via lines_of_decreases
{
    if s.len() == 0 {
        Seq::empty()
    } else {
        let i = first_idx(s, '\n');
        if i == s.len() {
            seq![s]
        } else {
            seq![strip_cr(s.take(i))] + lines_of(s.skip(i + 1))
        }
    }
}

#[via_fn]
proof fn lines_of_decreases(s: Seq<char>) {
    lemma_first_idx_bounds(s, '\n');
}

/// Splits the decoded history text into its lines.
pub fn split_lines(contents: &str) -> (r: Vec<String>)
    ensures
        r.deep_view() == lines_of(contents@),
{
    let n = contents.unicode_len();
    let mut r: Vec<String> = Vec::new();
    let mut start: usize = 0;
    let mut pos: usize = 0;
    proof {
        assert(contents@.skip(0) =~= contents@);
        assert(r.deep_view() =~= Seq::<Seq<char>>::empty());
        assert(r.deep_view() + lines_of(contents@) =~= lines_of(contents@));
    }
    while pos < n
        invariant
            start <= pos <= n,
            n == contents@.len(),
            lines_of(contents@) == r.deep_view() + lines_of(contents@.skip(start as int)),
            forall|k: int| start <= k < pos ==> contents@[k] != '\n',
        decreases n - pos,
    {
        if contents.get_char(pos) == '\n' {
            let line_end = if pos > start && contents.get_char(pos - 1) == '\r' {
                pos - 1
            } else {
                pos
            };
            let line = contents.substring_char(start, line_end).to_owned();
            let ghost rdv = r.deep_view();
            r.push(line);
            proof {
                let rest = contents@.skip(start as int);
                assert forall|k: int| 0 <= k < pos - start implies rest[k] != '\n' by {
                    assert(rest[k] == contents@[start + k]);
                }
                assert(rest[pos - start] == contents@[pos as int]);
                lemma_first_idx_unique(rest, '\n', pos - start);
                assert(rest.take(pos - start) =~= contents@.subrange(start as int, pos as int));
                assert(rest.skip(pos - start + 1) =~= contents@.skip(pos + 1));
                assert(strip_cr(rest.take(pos - start)) =~= contents@.subrange(
                    start as int,
                    line_end as int,
                ));
                assert(lines_of(rest) == seq![strip_cr(rest.take(pos - start))] + lines_of(
                    contents@.skip(pos + 1),
                ));
                assert(r.deep_view() =~= rdv.push(contents@.subrange(
                    start as int,
                    line_end as int,
                )));
                assert(r.deep_view() + lines_of(contents@.skip(pos + 1)) =~= rdv + lines_of(rest));
            }
            start = pos + 1;
        }
        pos += 1;
    }
    if start < n {
        let line = contents.substring_char(start, n).to_owned();
        let ghost rdv = r.deep_view();
        r.push(line);
        proof {
            let rest = contents@.skip(start as int);
            assert forall|k: int| 0 <= k < rest.len() implies rest[k] != '\n' by {
                assert(rest[k] == contents@[start + k]);
            }
            lemma_first_idx_unique(rest, '\n', rest.len() as int);
            assert(rest =~= contents@.subrange(start as int, n as int));
            assert(lines_of(rest) == seq![rest]);
            assert(r.deep_view() =~= rdv.push(rest));
            assert(r.deep_view() =~= rdv + lines_of(rest));
        }
    } else {
        proof {
            assert(contents@.skip(start as int).len() == 0);
            assert(r.deep_view() =~= r.deep_view() + lines_of(contents@.skip(start as int)));
        }
    }
    r
}

} // verus!
