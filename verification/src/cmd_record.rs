use vstd::prelude::*;

verus! {

/// A stored shell command: the identity the owning store assigned, the
/// command text, and how many times the command has been executed.
///
/// Two records with equal text are the same logical record, whatever their
/// ids and counts; `==` therefore compares the text alone.
#[derive(Debug, Eq, Hash)]
pub struct CmdRecord {
    pub id: usize,
    pub command: String,
    pub used_times: usize,
}

impl Clone for CmdRecord {
    fn clone(&self) -> (r: CmdRecord)
        ensures
            r == *self,
    {
        CmdRecord { id: self.id, command: self.command.clone(), used_times: self.used_times }
    }
}

impl PartialEq for CmdRecord {
    fn eq(&self, o: &CmdRecord) -> (r: bool) {
        self.command == o.command
    }
}

impl vstd::std_specs::cmp::PartialEqSpecImpl for CmdRecord {
    open spec fn obeys_eq_spec() -> bool {
        true
    }

    open spec fn eq_spec(&self, o: &CmdRecord) -> bool {
        self.command@ == o.command@
    }
}

impl CmdRecord {
    /// Replace the stored text, keeping the id and the count.
    pub fn update_command(&mut self, command: &str)
        ensures
            final(self).command@ == command@,
            final(self).id == old(self).id,
            final(self).used_times == old(self).used_times,
    {
        self.command = String::from_str(command);
    }

    /// Record one more execution.
    pub fn increase_usage(&mut self)
        requires
            old(self).used_times < usize::MAX,
        ensures
            final(self).used_times == old(self).used_times + 1,
            final(self).id == old(self).id,
            final(self).command == old(self).command,
    {
        self.used_times = self.used_times + 1;
    }
}

/// The sum of the usage counts of a record sequence.
pub open spec fn spec_sum_counts(s: Seq<CmdRecord>) -> nat
    decreases s.len(),
{
    if s.len() == 0 {
        0
    } else {
        spec_sum_counts(s.drop_last()) + s.last().used_times as nat
    }
}

/// The sum of the usage counts of the records whose text equals `t`.
pub open spec fn spec_sum_for_text(s: Seq<CmdRecord>, t: Seq<char>) -> nat
    decreases s.len(),
{
    if s.len() == 0 {
        0
    } else {
        spec_sum_for_text(s.drop_last(), t) + if s.last().command@ == t {
            s.last().used_times as nat
        } else {
            0
        }
    }
}

/// The number of records whose text equals `t`.
pub open spec fn spec_count_text(s: Seq<CmdRecord>, t: Seq<char>) -> nat
    decreases s.len(),
{
    if s.len() == 0 {
        0
    } else {
        spec_count_text(s.drop_last(), t) + if s.last().command@ == t {
            1nat
        } else {
            0
        }
    }
}

/// Whether some record in `s` stores the text `t`.
pub open spec fn spec_has_text(s: Seq<CmdRecord>, t: Seq<char>) -> bool {
    exists|i: int| 0 <= i < s.len() && s[i].command@ == t
}

pub proof fn lemma_sum_counts_take_succ(s: Seq<CmdRecord>, i: int)
    requires
        0 <= i < s.len(),
    ensures
        spec_sum_counts(s.take(i + 1)) == spec_sum_counts(s.take(i)) + s[i].used_times,
{
    assert(s.take(i + 1).drop_last() =~= s.take(i));
    assert(s.take(i + 1).last() == s[i]);
}

pub proof fn lemma_sum_for_text_take_succ(s: Seq<CmdRecord>, t: Seq<char>, i: int)
    requires
        0 <= i < s.len(),
    ensures
        spec_sum_for_text(s.take(i + 1), t) == spec_sum_for_text(s.take(i), t) + if s[i].command@
            == t {
            s[i].used_times as nat
        } else {
            0
        },
{
    assert(s.take(i + 1).drop_last() =~= s.take(i));
    assert(s.take(i + 1).last() == s[i]);
}

/// Summing a prefix never exceeds summing a longer prefix.
pub proof fn lemma_sum_counts_take_le(s: Seq<CmdRecord>, i: int, j: int)
    requires
        0 <= i <= j <= s.len(),
    ensures
        spec_sum_counts(s.take(i)) <= spec_sum_counts(s.take(j)),
    decreases j - i,
{
    if i < j {
        lemma_sum_counts_take_le(s, i, j - 1);
        lemma_sum_counts_take_succ(s, j - 1);
    }
}

pub proof fn lemma_sum_for_text_take_le(s: Seq<CmdRecord>, t: Seq<char>, i: int, j: int)
    requires
        0 <= i <= j <= s.len(),
    ensures
        spec_sum_for_text(s.take(i), t) <= spec_sum_for_text(s.take(j), t),
    decreases j - i,
{
    if i < j {
        lemma_sum_for_text_take_le(s, t, i, j - 1);
        lemma_sum_for_text_take_succ(s, t, j - 1);
    }
}

/// `j` points at the last record of its text within the prefix
/// `s.take(i)`.
pub open spec fn last_in_prefix(s: Seq<CmdRecord>, j: int, i: int) -> bool {
    0 <= j < i <= s.len() && forall|j2: int|
        j < j2 < i ==> (#[trigger] s[j2]).command@ != s[j].command@
}

/// `j` points at the last record of its text in the whole list.
pub open spec fn last_occurrence(s: Seq<CmdRecord>, j: int) -> bool {
    last_in_prefix(s, j, s.len() as int)
}

/// A text's summed count does not grow over records of other texts: the
/// sum at a text's last record is the sum over the whole list.
pub proof fn lemma_sum_for_text_stable(s: Seq<CmdRecord>, t: Seq<char>, j: int, i: int)
    requires
        0 <= j < i <= s.len(),
        forall|j2: int| j < j2 < i ==> (#[trigger] s[j2]).command@ != t,
    ensures
        spec_sum_for_text(s.take(i), t) == spec_sum_for_text(s.take(j + 1), t),
    decreases i - j,
{
    if i > j + 1 {
        lemma_sum_for_text_stable(s, t, j, i - 1);
        lemma_sum_for_text_take_succ(s, t, i - 1);
    }
}

/// The records of `s` whose text is `t`, in order.
pub open spec fn records_with_text(s: Seq<CmdRecord>, t: Seq<char>) -> Seq<CmdRecord>
    decreases s.len(),
{
    if s.len() == 0 {
        s
    } else {
        let prefix = records_with_text(s.drop_last(), t);
        if s.last().command@ == t {
            prefix.push(s.last())
        } else {
            prefix
        }
    }
}

/// `records_with_text` looked at through `take`.
pub proof fn lemma_records_with_text_take_succ(s: Seq<CmdRecord>, t: Seq<char>, i: int)
    requires
        0 <= i < s.len(),
    ensures
        records_with_text(s.take(i + 1), t) == if s[i].command@ == t {
            records_with_text(s.take(i), t).push(s[i])
        } else {
            records_with_text(s.take(i), t)
        },
{
    assert(s.take(i + 1).drop_last() =~= s.take(i));
    assert(s.take(i + 1).last() == s[i]);
}

/// The counts of a text's records sum to the text's summed count.
pub proof fn lemma_sum_records_with_text(s: Seq<CmdRecord>, t: Seq<char>)
    ensures
        spec_sum_counts(records_with_text(s, t)) == spec_sum_for_text(s, t),
    decreases s.len(),
{
    if s.len() > 0 {
        lemma_sum_records_with_text(s.drop_last(), t);
        if s.last().command@ == t {
            let p = records_with_text(s.drop_last(), t);
            assert(p.push(s.last()).drop_last() =~= p);
            assert(p.push(s.last()).last() == s.last());
        }
    }
}

/// The summed count of one text never exceeds the total.
pub proof fn lemma_sum_for_text_le_total(s: Seq<CmdRecord>, t: Seq<char>)
    ensures
        spec_sum_for_text(s, t) <= spec_sum_counts(s),
    decreases s.len(),
{
    if s.len() > 0 {
        lemma_sum_for_text_le_total(s.drop_last(), t);
    }
}

/// Collection helpers over stored records: the total usage count, grouping
/// by command text, and aggregation of equal-text records.
pub trait CmdRecordIterable {
    spec fn records(&self) -> Seq<CmdRecord>;

    /// The total of all usage counts.
    fn sum_count(&self) -> (r: usize)
        requires
            spec_sum_counts(self.records()) <= usize::MAX,
        ensures
            r == spec_sum_counts(self.records()),
    ;

    /// The total of the usage counts of the records storing `text`,
    /// or `None` where the total does not fit in a machine word.
    fn checked_sum_for_text(&self, text: &String) -> (r: Option<usize>)
        ensures
            match r {
                Some(n) => n == spec_sum_for_text(self.records(), text@),
                None => spec_sum_for_text(self.records(), text@) > usize::MAX,
            },
    ;

    /// The records grouped by text: one group per distinct text, each
    /// holding exactly that text's records in their stored order; every
    /// stored text has its group.
    fn group_by(&self) -> (r: Vec<(String, Vec<CmdRecord>)>)
        ensures
            forall|i: int, j: int|
                0 <= i < j < r@.len() ==> (#[trigger] r@[i]).0@ != (#[trigger] r@[j]).0@,
            forall|i: int| 0 <= i < r@.len() ==> (#[trigger] r@[i]).1@ == records_with_text(
                self.records(),
                r@[i].0@,
            ) && spec_has_text(self.records(), r@[i].0@),
            forall|k: int| 0 <= k < self.records().len() ==> group_keys_have(
                r@,
                (#[trigger] self.records()[k]).command@,
            ),
    ;

    /// The records aggregated by text: one record per distinct text,
    /// carrying the first matching record's id and the text's summed
    /// count; every stored text is represented.
    fn group_and_sum_count(&self) -> (r: Vec<CmdRecord>)
        requires
            spec_sum_counts(self.records()) <= usize::MAX,
        ensures
            forall|i: int, j: int|
                0 <= i < j < r@.len() ==> (#[trigger] r@[i]).command@ != (
                #[trigger] r@[j]).command@,
            forall|i: int| 0 <= i < r@.len() ==> spec_has_text(
                self.records(),
                (#[trigger] r@[i]).command@,
            ) && r@[i].used_times == spec_sum_for_text(self.records(), r@[i].command@)
                && r@[i].id == records_with_text(self.records(), r@[i].command@)[0].id,
            forall|k: int| 0 <= k < self.records().len() ==> spec_has_text(
                r@,
                (#[trigger] self.records()[k]).command@,
            ),
    ;
}

/// Whether some group carries the key text `t`.
pub open spec fn group_keys_have(g: Seq<(String, Vec<CmdRecord>)>, t: Seq<char>) -> bool {
    exists|i: int| 0 <= i < g.len() && (#[trigger] g[i]).0@ == t
}

/// Whether some key string carries the text `t`.
pub open spec fn str_keys_have(ks: Seq<String>, t: Seq<char>) -> bool {
    exists|i: int| 0 <= i < ks.len() && (#[trigger] ks[i])@ == t
}

/// Exec test for `str_keys_have`.
fn text_in_strings(keys: &Vec<String>, t: &String) -> (r: bool)
    ensures
        r == str_keys_have(keys@, t@),
{
    let mut k: usize = 0;
    while k < keys.len()
        invariant
            0 <= k <= keys@.len(),
            forall|j: int| 0 <= j < k ==> (#[trigger] keys@[j])@ != t@,
        decreases keys@.len() - k,
    {
        if keys[k] == *t {
            return true;
        }
        k = k + 1;
    }
    false
}

/// A text some record stores has at least one record in its group.
pub proof fn lemma_records_with_text_nonempty(s: Seq<CmdRecord>, t: Seq<char>)
    requires
        spec_has_text(s, t),
    ensures
        records_with_text(s, t).len() >= 1,
    decreases s.len(),
{
    assert(s.len() > 0);
    if s.last().command@ != t {
        assert(spec_has_text(s.drop_last(), t)) by {
            let i = choose|i: int| 0 <= i < s.len() && s[i].command@ == t;
            assert(s.drop_last()[i] == s[i]);
        }
        lemma_records_with_text_nonempty(s.drop_last(), t);
    }
}

impl CmdRecordIterable for Vec<CmdRecord> {
    open spec fn records(&self) -> Seq<CmdRecord> {
        self@
    }

    fn sum_count(&self) -> (r: usize)
    {
        let ghost all: Seq<CmdRecord> = self@;
        let mut acc: usize = 0;
        let mut i: usize = 0;
        proof {
            assert(self@.take(0) =~= Seq::<CmdRecord>::empty());
        }
        while i < self.len()
            invariant
                0 <= i <= self@.len(),
                self@ == all,
                spec_sum_counts(all) <= usize::MAX,
                acc == spec_sum_counts(all.take(i as int)),
            decreases self@.len() - i,
        {
            proof {
                lemma_sum_counts_take_succ(all, i as int);
                lemma_sum_counts_take_le(all, i + 1, all.len() as int);
                assert(all.take(all.len() as int) =~= all);
            }
            acc = acc + self[i].used_times;
            i = i + 1;
        }
        proof {
            assert(all.take(all.len() as int) =~= all);
        }
        acc
    }

    fn checked_sum_for_text(&self, text: &String) -> (r: Option<usize>)
    {
        let ghost all: Seq<CmdRecord> = self@;
        let mut acc: usize = 0;
        let mut i: usize = 0;
        proof {
            assert(self@.take(0) =~= Seq::<CmdRecord>::empty());
        }
        while i < self.len()
            invariant
                0 <= i <= self@.len(),
                self@ == all,
                acc == spec_sum_for_text(all.take(i as int), text@),
            decreases self@.len() - i,
        {
            proof {
                lemma_sum_for_text_take_succ(all, text@, i as int);
            }
            if self[i].command == *text {
                match acc.checked_add(self[i].used_times) {
                    Some(next) => {
                        acc = next;
                    },
                    None => {
                        proof {
                            lemma_sum_for_text_take_le(all, text@, i + 1, all.len() as int);
                            assert(all.take(all.len() as int) =~= all);
                        }
                        return None;
                    },
                }
            }
            i = i + 1;
        }
        proof {
            assert(all.take(all.len() as int) =~= all);
        }
        Some(acc)
    }

    fn group_by(&self) -> (r: Vec<(String, Vec<CmdRecord>)>)
    {
        let ghost all = self@;
        let mut keys: Vec<String> = Vec::new();
        let mut k: usize = 0;
        while k < self.len()
            invariant
                self@ == all,
                0 <= k <= all.len(),
                forall|i: int, j: int|
                    0 <= i < j < keys@.len() ==> (#[trigger] keys@[i])@ != (
                    #[trigger] keys@[j])@,
                forall|i: int| 0 <= i < keys@.len() ==> spec_has_text(
                    all,
                    (#[trigger] keys@[i])@,
                ),
                forall|p: int| 0 <= p < k ==> str_keys_have(
                    keys@,
                    (#[trigger] all[p]).command@,
                ),
            decreases all.len() - k,
        {
            if !text_in_strings(&keys, &self[k].command) {
                let ghost before = keys@;
                keys.push(self[k].command.clone());
                proof {
                    assert(keys@[before.len() as int]@ == all[k as int].command@);
                    assert(all[k as int].command@ == all[k as int].command@);
                    assert forall|p: int| 0 <= p < k + 1 implies str_keys_have(
                        keys@,
                        (#[trigger] all[p]).command@,
                    ) by {
                        if p < k {
                            let i0 = choose|i: int|
                                0 <= i < before.len() && (#[trigger] before[i])@
                                    == all[p].command@;
                            assert(keys@[i0]@ == all[p].command@);
                        }
                    }
                }
            } else {
                proof {
                    assert forall|p: int| 0 <= p < k + 1 implies str_keys_have(
                        keys@,
                        (#[trigger] all[p]).command@,
                    ) by {}
                }
            }
            k = k + 1;
        }
        let mut out: Vec<(String, Vec<CmdRecord>)> = Vec::new();
        let mut g: usize = 0;
        while g < keys.len()
            invariant
                self@ == all,
                0 <= g <= keys@.len(),
                out@.len() == g,
                forall|i: int, j: int|
                    0 <= i < j < keys@.len() ==> (#[trigger] keys@[i])@ != (
                    #[trigger] keys@[j])@,
                forall|i: int| 0 <= i < keys@.len() ==> spec_has_text(
                    all,
                    (#[trigger] keys@[i])@,
                ),
                forall|p: int| 0 <= p < all.len() ==> str_keys_have(
                    keys@,
                    (#[trigger] all[p]).command@,
                ),
                forall|i: int| 0 <= i < g ==> (#[trigger] out@[i]).0@ == keys@[i]@
                    && out@[i].1@ == records_with_text(all, keys@[i]@),
            decreases keys@.len() - g,
        {
            let key = keys[g].clone();
            let mut group: Vec<CmdRecord> = Vec::new();
            let mut k2: usize = 0;
            proof {
                assert(all.take(0) =~= Seq::<CmdRecord>::empty());
            }
            while k2 < self.len()
                invariant
                    self@ == all,
                    0 <= k2 <= all.len(),
                    key@ == keys@[g as int]@,
                    g < keys@.len(),
                    group@ == records_with_text(all.take(k2 as int), key@),
                decreases all.len() - k2,
            {
                proof {
                    lemma_records_with_text_take_succ(all, key@, k2 as int);
                }
                if self[k2].command == key {
                    group.push(self[k2].clone());
                }
                k2 = k2 + 1;
            }
            proof {
                assert(all.take(all.len() as int) =~= all);
            }
            out.push((key, group));
            g = g + 1;
        }
        proof {
            assert forall|p: int| 0 <= p < all.len() implies group_keys_have(
                out@,
                (#[trigger] all[p]).command@,
            ) by {
                let i0 = choose|i: int|
                    0 <= i < keys@.len() && (#[trigger] keys@[i])@ == all[p].command@;
                assert(out@[i0].0@ == all[p].command@);
            }
        }
        out
    }

    fn group_and_sum_count(&self) -> (r: Vec<CmdRecord>)
    {
        let ghost all = self@;
        let groups = self.group_by();
        let mut out: Vec<CmdRecord> = Vec::new();
        let mut g: usize = 0;
        while g < groups.len()
            invariant
                self@ == all,
                spec_sum_counts(all) <= usize::MAX,
                0 <= g <= groups@.len(),
                out@.len() == g,
                forall|i: int, j: int|
                    0 <= i < j < groups@.len() ==> (#[trigger] groups@[i]).0@ != (
                    #[trigger] groups@[j]).0@,
                forall|i: int| 0 <= i < groups@.len() ==> (#[trigger] groups@[i]).1@
                    == records_with_text(all, groups@[i].0@) && spec_has_text(
                    all,
                    groups@[i].0@,
                ),
                forall|k: int| 0 <= k < all.len() ==> group_keys_have(
                    groups@,
                    (#[trigger] all[k]).command@,
                ),
                forall|i: int| 0 <= i < g ==> (#[trigger] out@[i]).command@ == groups@[i].0@
                    && out@[i].used_times == spec_sum_for_text(all, out@[i].command@)
                    && out@[i].id == records_with_text(all, out@[i].command@)[0].id,
            decreases groups@.len() - g,
        {
            let ghost key = groups@[g as int].0@;
            proof {
                lemma_sum_records_with_text(all, key);
                lemma_sum_for_text_le_total(all, key);
                lemma_records_with_text_nonempty(all, key);
            }
            let total = groups[g].1.sum_count();
            let first_id = groups[g].1[0].id;
            out.push(CmdRecord { id: first_id, command: groups[g].0.clone(), used_times: total });
            g = g + 1;
        }
        proof {
            assert forall|k: int| 0 <= k < all.len() implies spec_has_text(
                out@,
                (#[trigger] all[k]).command@,
            ) by {
                let i0 = choose|i: int|
                    0 <= i < groups@.len() && (#[trigger] groups@[i]).0@ == all[k].command@;
                assert(out@[i0].command@ == all[k].command@);
            }
        }
        out
    }
}

} // verus!
