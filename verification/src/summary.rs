use vstd::prelude::*;
use crate::cmd_record::CmdRecord;
use crate::csv_codec::{dec_rep, int_to_string};

verus! {

/// How many records carry exactly the usage count `c`.
pub open spec fn count_with(s: Seq<CmdRecord>, c: nat) -> nat
    decreases s.len(),
{
    if s.len() == 0 {
        0
    } else {
        count_with(s.drop_last(), c) + if s.last().used_times as nat == c {
            1nat
        } else {
            0
        }
    }
}

pub proof fn lemma_count_with_take_succ(s: Seq<CmdRecord>, c: nat, i: int)
    requires
        0 <= i < s.len(),
    ensures
        count_with(s.take(i + 1), c) == count_with(s.take(i), c) + if s[i].used_times as nat
            == c {
            1nat
        } else {
            0
        },
{
    assert(s.take(i + 1).drop_last() =~= s.take(i));
    assert(s.take(i + 1).last() == s[i]);
}

/// How many records carry the count `c`, walking the whole list.
fn count_records_with(records: &Vec<CmdRecord>, c: usize) -> (r: usize)
    ensures
        r == count_with(records@, c as nat),
        r <= records@.len(),
{
    let ghost all = records@;
    let mut n: usize = 0;
    let mut k: usize = 0;
    proof {
        assert(all.take(0) =~= Seq::<CmdRecord>::empty());
    }
    while k < records.len()
        invariant
            records@ == all,
            0 <= k <= all.len(),
            n == count_with(all.take(k as int), c as nat),
            n <= k,
        decreases all.len() - k,
    {
        proof {
            lemma_count_with_take_succ(all, c as nat, k as int);
        }
        if records[k].used_times == c {
            n = n + 1;
        }
        k = k + 1;
    }
    proof {
        assert(all.take(all.len() as int) =~= all);
    }
    n
}

/// Whether some group carries the count `c`.
pub open spec fn groups_have(g: Seq<(usize, usize)>, c: usize) -> bool {
    exists|i: int| 0 <= i < g.len() && (#[trigger] g[i]).0 == c
}

/// The summary a store offers: for each usage count that occurs, how
/// many records carry it, listed once each and ordered by count
/// descending — every record's count appears.
pub fn usage_groups(records: &Vec<CmdRecord>) -> (r: Vec<(usize, usize)>)
    ensures
        forall|i: int, j: int| 0 <= i < j < r@.len() ==> (#[trigger] r@[i]).0 > (
        #[trigger] r@[j]).0,
        forall|i: int| 0 <= i < r@.len() ==> (#[trigger] r@[i]).1 == count_with(
            records@,
            r@[i].0 as nat,
        ) && r@[i].1 >= 1,
        forall|k: int| 0 <= k < records@.len() ==> groups_have(
            r@,
            (#[trigger] records@[k]).used_times,
        ),
{
    let ghost all = records@;
    let mut out: Vec<(usize, usize)> = Vec::new();
    let mut k: usize = 0;
    while k < records.len()
        invariant
            records@ == all,
            0 <= k <= all.len(),
            forall|i: int, j: int| 0 <= i < j < out@.len() ==> (#[trigger] out@[i]).0 > (
            #[trigger] out@[j]).0,
            forall|i: int| 0 <= i < out@.len() ==> (#[trigger] out@[i]).1 == count_with(
                all,
                out@[i].0 as nat,
            ) && out@[i].1 >= 1,
            forall|p: int| 0 <= p < k ==> groups_have(
                out@,
                (#[trigger] records@[p]).used_times,
            ),
        decreases all.len() - k,
    {
        let c = records[k].used_times;
        let mut idx: usize = 0;
        while idx < out.len() && out[idx].0 > c
            invariant
                0 <= idx <= out@.len(),
                forall|i: int| 0 <= i < idx ==> (#[trigger] out@[i]).0 > c,
            decreases out@.len() - idx,
        {
            idx = idx + 1;
        }
        let seen = idx < out.len() && out[idx].0 == c;
        if !seen {
            let n = count_records_with(records, c);
            let ghost before = out@;
            out.insert(idx, (c, n));
            proof {
                assert(out@ =~= before.take(idx as int).push((c, n)) + before.skip(
                    idx as int,
                ));
                assert(count_with(all, c as nat) >= 1) by {
                    lemma_count_with_take_succ(all, c as nat, k as int);
                    lemma_count_with_take_le(all, c as nat, k + 1, all.len() as int);
                    assert(all.take(all.len() as int) =~= all);
                }
                assert forall|p: int| 0 <= p < k + 1 implies groups_have(
                    out@,
                    (#[trigger] records@[p]).used_times,
                ) by {
                    if p == k {
                        assert(out@[idx as int].0 == records@[p].used_times);
                    } else {
                        let i0 = choose|i: int|
                            0 <= i < before.len() && (#[trigger] before[i]).0
                                == records@[p].used_times;
                        if i0 < idx {
                            assert(out@[i0].0 == records@[p].used_times);
                        } else {
                            assert(out@[i0 + 1].0 == records@[p].used_times);
                        }
                    }
                }
            }
        } else {
            proof {
                assert forall|p: int| 0 <= p < k + 1 implies groups_have(
                    out@,
                    (#[trigger] records@[p]).used_times,
                ) by {
                    if p == k {
                        assert(out@[idx as int].0 == records@[p].used_times);
                    }
                }
            }
        }
        k = k + 1;
    }
    out
}

pub proof fn lemma_count_with_take_le(s: Seq<CmdRecord>, c: nat, i: int, j: int)
    requires
        0 <= i <= j <= s.len(),
    ensures
        count_with(s.take(i), c) <= count_with(s.take(j), c),
    decreases j - i,
{
    if i < j {
        lemma_count_with_take_le(s, c, i, j - 1);
        lemma_count_with_take_succ(s, c, j - 1);
    }
}

/// The diagnostic line of one summary group.
pub open spec fn summary_line_spec(c: nat, n: nat) -> Seq<char> {
    "There are "@ + dec_rep(n) + " used commands that have been used "@ + dec_rep(c)
        + " times"@
}

/// The diagnostic text of the summary groups, one line per group.
pub fn summary_lines(groups: &Vec<(usize, usize)>) -> (r: Vec<String>)
    ensures
        r@.len() == groups@.len(),
        forall|i: int| 0 <= i < r@.len() ==> (#[trigger] r@[i])@ == summary_line_spec(
            groups@[i].0 as nat,
            groups@[i].1 as nat,
        ),
{
    let mut out: Vec<String> = Vec::new();
    let mut k: usize = 0;
    while k < groups.len()
        invariant
            0 <= k <= groups@.len(),
            out@.len() == k,
            forall|i: int| 0 <= i < k ==> (#[trigger] out@[i])@ == summary_line_spec(
                groups@[i].0 as nat,
                groups@[i].1 as nat,
            ),
        decreases groups@.len() - k,
    {
        let mut line = String::from_str("There are ");
        let n = int_to_string(groups[k].1);
        line.append(n.as_str());
        line.append(" used commands that have been used ");
        let c = int_to_string(groups[k].0);
        line.append(c.as_str());
        line.append(" times");
        out.push(line);
        k = k + 1;
    }
    out
}

} // verus!
