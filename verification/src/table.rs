//! The command frequency table: aggregation, ranking and slicing.

use vstd::prelude::*;

verus! {

use crate::strutil::str_eq;

/// One row of the frequency table: a command and how often it was used.
pub struct CommandTable(pub String, pub u32);

/// How many of `lines` are exactly the command `cmd`.
pub open spec fn count_occ(lines: Seq<Seq<char>>, cmd: Seq<char>) -> nat {
    lines.filter(|l: Seq<char>| l == cmd).len()
}

/// Every row's count is the exact number of occurrences of its command
/// in `lines`, and every count is at least one.
pub open spec fn table_counts(lines: Seq<Seq<char>>, t: Seq<CommandTable>) -> bool {
    forall|i: int|
        0 <= i < t.len() ==> (#[trigger] t[i]).1 as nat == count_occ(lines, t[i].0@) && t[i].1 >= 1
}

/// No command appears in two rows.
pub open spec fn table_distinct(t: Seq<CommandTable>) -> bool {
    forall|i: int, j: int| 0 <= i < j < t.len() ==> (#[trigger] t[i]).0@ != (#[trigger] t[j]).0@
}

/// Some row of `t` holds the command `cmd`.
pub open spec fn has_row_for(t: Seq<CommandTable>, cmd: Seq<char>) -> bool {
    exists|i: int| 0 <= i < t.len() && (#[trigger] t[i]).0@ == cmd
}

/// Every line has a row for its command.
pub open spec fn table_complete(lines: Seq<Seq<char>>, t: Seq<CommandTable>) -> bool {
    forall|k: int| 0 <= k < lines.len() ==> #[trigger] has_row_for(t, lines[k])
}

/// Counts are non-increasing from the first row to the last.
pub open spec fn table_sorted(t: Seq<CommandTable>) -> bool {
    forall|i: int, j: int| 0 <= i <= j < t.len() ==> (#[trigger] t[i]).1 >= (#[trigger] t[j]).1
}

/// Appending one line raises the count of exactly that command by one.
proof fn lemma_count_occ_push(lines: Seq<Seq<char>>, x: Seq<char>, cmd: Seq<char>)
    ensures
        count_occ(lines.push(x), cmd) == count_occ(lines, cmd) + (if x == cmd {
            1nat
        } else {
            0nat
        }),
{
    reveal(Seq::filter);
    assert(lines.push(x).drop_last() =~= lines);
    assert(lines.push(x).last() == x);
}

/// A command has count zero exactly when it occurs in no line.
proof fn lemma_count_occ_zero(lines: Seq<Seq<char>>, cmd: Seq<char>)
    ensures
        (count_occ(lines, cmd) == 0) <==> !lines.contains(cmd),
    decreases lines.len(),
{
    reveal(Seq::filter);
    if lines.len() == 0 {
        assert(!lines.contains(cmd));
    } else {
        lemma_count_occ_zero(lines.drop_last(), cmd);
        lemma_count_occ_push(lines.drop_last(), lines.last(), cmd);
        assert(lines.drop_last().push(lines.last()) =~= lines);
        if lines.contains(cmd) {
            let w = choose|w: int| 0 <= w < lines.len() && lines[w] == cmd;
            if w < lines.len() - 1 {
                assert(lines.drop_last()[w] == cmd);
                assert(lines.drop_last().contains(cmd));
            }
        }
        if lines.drop_last().contains(cmd) {
            let w = choose|w: int| 0 <= w < lines.drop_last().len() && lines.drop_last()[w] == cmd;
            assert(lines[w] == cmd);
        }
    }
}

/// A count never exceeds the number of lines.
proof fn lemma_count_occ_le_len(lines: Seq<Seq<char>>, cmd: Seq<char>)
    ensures
        count_occ(lines, cmd) <= lines.len(),
{
    lines.lemma_filter_len(|l: Seq<char>| l == cmd);
}

/// The row of `table` holding `line`, if any.
fn find_entry(table: &Vec<CommandTable>, line: &String) -> (r: Option<usize>)
    ensures
        match r {
            Some(j) => j < table@.len() && table@[j as int].0@ == line@,
            None => forall|i: int| 0 <= i < table@.len() ==> (#[trigger] table@[i]).0@ != line@,
        },
{
    let mut j: usize = 0;
    while j < table.len()
        invariant
            j <= table@.len(),
            forall|i: int| 0 <= i < j ==> (#[trigger] table@[i]).0@ != line@,
        decreases table@.len() - j,
    {
        if str_eq(table[j].0.as_str(), line.as_str()) {
            return Some(j);
        }
        j += 1;
    }
    None
}

/// Aggregates `lines` into one row per distinct command, counting its
/// occurrences, and sorts the rows by count, most used first.
pub fn build_command_table(lines: Vec<String>) -> (r: Vec<CommandTable>)
    requires
        lines@.len() <= u32::MAX,
    ensures
        table_counts(lines.deep_view(), r@),
        table_distinct(r@),
        table_complete(lines.deep_view(), r@),
        table_sorted(r@),
        r@.len() <= lines@.len(),
{
    let ghost ldv = lines.deep_view();
    let mut table: Vec<CommandTable> = Vec::new();
    let mut idx: usize = 0;
    while idx < lines.len()
        invariant
            idx <= lines@.len(),
            lines@.len() <= u32::MAX,
            ldv == lines.deep_view(),
            table_counts(ldv.take(idx as int), table@),
            table_distinct(table@),
            table_complete(ldv.take(idx as int), table@),
            table@.len() <= idx,
        decreases lines@.len() - idx,
    {
        let ghost prefix = ldv.take(idx as int);
        let ghost newprefix = ldv.take(idx + 1);
        proof {
            assert(newprefix =~= prefix.push(ldv[idx as int]));
            assert(lines@[idx as int]@ == ldv[idx as int]);
        }
        match find_entry(&table, &lines[idx]) {
            Some(j) => {
                let ghost t0 = table@;
                proof {
                    lemma_count_occ_le_len(prefix, t0[j as int].0@);
                }
                let row = table.remove(j);
                let c = row.1;
                table.insert(j, CommandTable(row.0, c + 1));
                proof {
                    assert(table@ =~= t0.update(j as int, table@[j as int]));
                    assert forall|i: int| 0 <= i < table@.len() implies (#[trigger] table@[i]).1
                        as nat == count_occ(newprefix, table@[i].0@) && table@[i].1 >= 1 by {
                        lemma_count_occ_push(prefix, ldv[idx as int], t0[i].0@);
                        if i != j {
                            assert(table@[i] == t0[i]);
                            assert(t0[i].0@ != t0[j as int].0@);
                        }
                    }
                    assert forall|k: int| 0 <= k < newprefix.len() implies #[trigger] has_row_for(
                        table@,
                        newprefix[k],
                    ) by {
                        if k < prefix.len() {
                            assert(has_row_for(t0, prefix[k]));
                            let w = choose|w: int|
                                0 <= w < t0.len() && (#[trigger] t0[w]).0@ == prefix[k];
                            assert(table@[w].0@ == newprefix[k]);
                        } else {
                            assert(table@[j as int].0@ == newprefix[k]);
                        }
                    }
                }
            },
            None => {
                let ghost t0 = table@;
                proof {
                    lemma_count_occ_zero(prefix, ldv[idx as int]);
                    if prefix.contains(ldv[idx as int]) {
                        let w = choose|w: int|
                            0 <= w < prefix.len() && prefix[w] == ldv[idx as int];
                        assert(has_row_for(t0, prefix[w]));
                    }
                    assert(count_occ(prefix, ldv[idx as int]) == 0);
                }
                table.push(CommandTable(lines[idx].clone(), 1));
                proof {
                    let n = table@.len();
                    assert(table@[n - 1].0@ == ldv[idx as int]);
                    assert forall|i: int| 0 <= i < table@.len() implies (#[trigger] table@[i]).1
                        as nat == count_occ(newprefix, table@[i].0@) && table@[i].1 >= 1 by {
                        lemma_count_occ_push(prefix, ldv[idx as int], table@[i].0@);
                        if i < n - 1 {
                            assert(table@[i] == t0[i]);
                        }
                    }
                    assert forall|k: int| 0 <= k < newprefix.len() implies #[trigger] has_row_for(
                        table@,
                        newprefix[k],
                    ) by {
                        if k < prefix.len() {
                            assert(has_row_for(t0, prefix[k]));
                            let w = choose|w: int|
                                0 <= w < t0.len() && (#[trigger] t0[w]).0@ == prefix[k];
                            assert(table@[w].0@ == newprefix[k]);
                        } else {
                            assert(table@[n - 1].0@ == newprefix[k]);
                        }
                    }
                }
            },
        }
        idx += 1;
    }
    proof {
        assert(ldv.take(lines@.len() as int) =~= ldv);
    }
    sort_by_count_desc(&mut table, Ghost(ldv));
    table
}

/// Insertion sort on the rows, by count, most used first; keeps every
/// aggregation property of the table.
fn sort_by_count_desc(table: &mut Vec<CommandTable>, Ghost(lines): Ghost<Seq<Seq<char>>>)
    requires
        table_counts(lines, old(table)@),
        table_distinct(old(table)@),
        table_complete(lines, old(table)@),
    ensures
        table_counts(lines, final(table)@),
        table_distinct(final(table)@),
        table_complete(lines, final(table)@),
        table_sorted(final(table)@),
        final(table)@.len() == old(table)@.len(),
{
    let ghost n = old(table)@.len() as int;
    let mut i: usize = 0;
    while i < table.len()
        invariant
            i <= n,
            table@.len() == n,
            table_counts(lines, table@),
            table_distinct(table@),
            table_complete(lines, table@),
            forall|a: int, b: int| 0 <= a <= b < i ==> (#[trigger] table@[a]).1
                >= (#[trigger] table@[b]).1,
        decreases n - i,
    {
        let mut j: usize = i;
        while j > 0 && table[j - 1].1 < table[j].1
            invariant
                j <= i < n,
                table@.len() == n,
                table_counts(lines, table@),
                table_distinct(table@),
                table_complete(lines, table@),
                forall|a: int, b: int|
                    0 <= a <= b <= i && a != j && b != j ==> (#[trigger] table@[a]).1
                        >= (#[trigger] table@[b]).1,
                forall|b: int| j < b <= i ==> (#[trigger] table@[b]).1 <= table@[j as int].1,
            decreases j,
        {
            let ghost t0 = table@;
            let e = table.remove(j);
            table.insert(j - 1, e);
            proof {
                assert(table@ =~= t0.update(j - 1, t0[j as int]).update(j as int, t0[j - 1]));
                assert forall|a: int, b: int| 0 <= a < b < n implies (#[trigger] table@[a]).0@
                    != (#[trigger] table@[b]).0@ by {
                    let a0: int = if a == j - 1 { j as int } else if a == j { j - 1 } else { a };
                    let b0: int = if b == j - 1 { j as int } else if b == j { j - 1 } else { b };
                    assert(table@[a] == t0[a0]);
                    assert(table@[b] == t0[b0]);
                    if a0 < b0 {
                        assert(t0[a0].0@ != t0[b0].0@);
                    } else {
                        assert(t0[b0].0@ != t0[a0].0@);
                    }
                }
                assert forall|k: int| 0 <= k < lines.len() implies #[trigger] has_row_for(
                    table@,
                    lines[k],
                ) by {
                    assert(has_row_for(t0, lines[k]));
                    let w0 = choose|w0: int| 0 <= w0 < t0.len() && (#[trigger] t0[w0]).0@ == lines[k];
                    let w: int = if w0 == j - 1 { j as int } else if w0 == j { j - 1 } else { w0 };
                    assert(table@[w].0@ == lines[k]);
                }
            }
            j -= 1;
        }
        i += 1;
    }
}

/// How many rows each slice holds: the requested count, capped at half
/// the table.
pub open spec fn slice_len(total: nat, requested: nat) -> nat {
    if total / 2 <= requested {
        total / 2
    } else {
        requested
    }
}

/// Splits the ranked table into its `count` most used rows and its
/// `count` least used rows, each slice capped at half the table so the
/// two never overlap.
pub fn top_bottom_slices(table: Vec<CommandTable>, count: usize) -> (r: (
    Vec<CommandTable>,
    Vec<CommandTable>,
))
    ensures
        r.0@ == table@.subrange(0, slice_len(table@.len(), count as nat) as int),
        r.1@ == table@.subrange(
            table@.len() - slice_len(table@.len(), count as nat),
            table@.len() as int,
        ),
        r.0@.len() + r.1@.len() <= table@.len(),
{
    let mut table = table;
    let m = if table.len() / 2 <= count {
        table.len() / 2
    } else {
        count
    };
    let bottom = table.split_off(table.len() - m);
    table.truncate(m);
    (table, bottom)
}

} // verus!
