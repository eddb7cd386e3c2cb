//! Writing a file whole or not at all: into a file of another name beside it,
//! which then takes its place.
use vstd::prelude::*;

use crate::text::{decimal, law_decimal_is_read_back, push_decimal};

verus! {

/// The name of the file that stands in for `path` while it is written.
pub open spec fn temp_file(path: Seq<char>, pid: u32, counter: u64) -> Seq<char> {
    path + "."@ + decimal(pid as nat) + "."@ + decimal(counter as nat) + ".tmp"@
}

/// The name of the file that stands in for `path` while the process `pid` writes
/// it for the time number `counter`.
pub fn temp_path(path: &str, pid: u32, counter: u64) -> (r: String)
    ensures
        r@ == temp_file(path@, pid, counter),
{
    let mut out = path.to_owned();
    out.append(".");
    push_decimal(&mut out, pid as u128);
    out.append(".");
    push_decimal(&mut out, counter as u128);
    out.append(".tmp");
    assert(out@ =~= temp_file(path@, pid, counter));
    out
}

/// What is done next to write a file.
#[derive(Debug, Clone, Copy, PartialEq, Eq, Structural)]
pub enum WriteStep {
    /// Make the file that stands in, which must not be there yet.
    Create,
    /// Write into it.
    Write,
    /// Let it take the place of the file.
    Rename,
    /// Remove it.
    Remove,
    /// The file is written.
    Done,
    /// It is not, and is as it was.
    Failed,
}

/// What is done after `step`, which went well or not. Once nothing is left to be
/// done it stays so.
pub open spec fn following(step: WriteStep, went_well: bool) -> WriteStep {
    match step {
        WriteStep::Create => if went_well {
            WriteStep::Write
        } else {
            WriteStep::Failed
        },
        WriteStep::Write => if went_well {
            WriteStep::Rename
        } else {
            WriteStep::Remove
        },
        WriteStep::Rename => if went_well {
            WriteStep::Done
        } else {
            WriteStep::Remove
        },
        WriteStep::Remove => WriteStep::Failed,
        WriteStep::Done => WriteStep::Done,
        WriteStep::Failed => WriteStep::Failed,
    }
}

/// What is done after `step`, which went well or not.
pub fn next_write_step(step: WriteStep, went_well: bool) -> (r: WriteStep)
    ensures
        r == following(step, went_well),
{
    match step {
        WriteStep::Create => {
            if went_well {
                WriteStep::Write
            } else {
                WriteStep::Failed
            }
        },
        WriteStep::Write => {
            if went_well {
                WriteStep::Rename
            } else {
                WriteStep::Remove
            }
        },
        WriteStep::Rename => {
            if went_well {
                WriteStep::Done
            } else {
                WriteStep::Remove
            }
        },
        WriteStep::Remove => WriteStep::Failed,
        WriteStep::Done => WriteStep::Done,
        WriteStep::Failed => WriteStep::Failed,
    }
}

/// The step after each of `results`, from the first one on.
pub open spec fn after(results: Seq<bool>) -> WriteStep
    decreases results.len(),
{
    if results.len() == 0 {
        WriteStep::Create
    } else {
        following(after(results.drop_last()), results.last())
    }
}

/// The file that stands in is removed only where it was made by this very write:
/// a write that could not make it leaves what is there alone.
pub proof fn law_only_an_own_file_is_removed(results: Seq<bool>)
    requires
        after(results) == WriteStep::Remove,
    ensures
        results.len() > 0 && results[0],
    decreases results.len(),
{
    reveal_with_fuel(after, 4);
    if results.len() > 0 {
        let before = results.drop_last();
        lemma_first_step(before);
        if before.len() > 0 {
            assert(before[0] == results[0]);
        }
    }
}

/// Only where the file that stands in was made is it written and renamed.
proof fn lemma_first_step(results: Seq<bool>)
    ensures
        results.len() == 0 ==> after(results) == WriteStep::Create,
        results.len() > 0 ==> after(results) != WriteStep::Create,
        (after(results) == WriteStep::Write || after(results) == WriteStep::Rename || after(results)
            == WriteStep::Remove || after(results) == WriteStep::Done) ==> results.len() > 0
            && results[0],
    decreases results.len(),
{
    if results.len() > 0 {
        lemma_first_step(results.drop_last());
        if results.len() > 1 {
            assert(results.drop_last()[0] == results[0]);
        }
    }
}

/// A write ends well if and only if its first three steps do, and it takes no more
/// than four.
pub proof fn law_a_write_ends_well_if_all_steps_do(a: bool, b: bool, c: bool, d: bool)
    ensures
        after(seq![a, b, c, d]) == if a && b && c {
            WriteStep::Done
        } else {
            WriteStep::Failed
        },
{
    reveal_with_fuel(after, 5);
    let s = seq![a, b, c, d];
    assert(s.drop_last() =~= seq![a, b, c]);
    assert(seq![a, b, c].drop_last() =~= seq![a, b]);
    assert(seq![a, b].drop_last() =~= seq![a]);
    assert(seq![a].drop_last() =~= Seq::<bool>::empty());
}

/// A file that stands in lies beside the one that is written, under that name with
/// something behind it, and two writes never share one.
pub proof fn law_each_write_has_a_file_of_its_own(
    path: Seq<char>,
    pid: u32,
    counter: u64,
    other_pid: u32,
    other: u64,
)
    ensures
        temp_file(path, pid, counter).len() > path.len(),
        temp_file(path, pid, counter).take(path.len() as int) == path,
        !temp_file(path, pid, counter).skip(path.len() as int).contains('/'),
        temp_file(path, pid, counter) == temp_file(path, other_pid, other) ==> pid == other_pid
            && counter == other,
{
    reveal_strlit(".");
    reveal_strlit(".tmp");
    let p = decimal(pid as nat);
    let q = decimal(other_pid as nat);
    let c = decimal(counter as nat);
    let d = decimal(other as nat);
    law_decimal_is_read_back(pid as nat);
    law_decimal_is_read_back(other_pid as nat);
    law_decimal_is_read_back(counter as nat);
    law_decimal_is_read_back(other as nat);
    let x = temp_file(path, pid, counter);
    let y = temp_file(path, other_pid, other);
    let n = path.len() as int;
    assert(x.take(n) =~= path);
    let tail = x.skip(n);
    assert(tail =~= "."@ + p + "."@ + c + ".tmp"@);
    assert forall|i: int| 0 <= i < tail.len() implies tail[i] != '/' by {
        if 1 <= i < 1 + p.len() {
            assert(tail[i] == p[i - 1]);
        } else if 2 + p.len() <= i < 2 + p.len() + c.len() {
            assert(tail[i] == c[i - 2 - p.len()]);
        }
    }
    if x == y {
        assert(x[n + 1 + p.len()] == '.');
        assert(y[n + 1 + q.len()] == '.');
        if p.len() < q.len() {
            assert(y[n + 1 + p.len()] == q[p.len() as int]);
        } else if q.len() < p.len() {
            assert(x[n + 1 + q.len()] == p[q.len() as int]);
        }
        assert(p =~= q) by {
            assert forall|i: int| 0 <= i < p.len() implies p[i] == q[i] by {
                assert(x[n + 1 + i] == p[i]);
                assert(y[n + 1 + i] == q[i]);
            }
        }
        assert(c.len() == d.len());
        assert(c =~= d) by {
            assert forall|i: int| 0 <= i < c.len() implies c[i] == d[i] by {
                assert(x[n + 2 + p.len() + i] == c[i]);
                assert(y[n + 2 + p.len() + i] == d[i]);
            }
        }
    }
}

} // verus!
