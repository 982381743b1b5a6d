use vstd::prelude::*;
use crate::cmd_record::CmdRecord;
use crate::csv_codec::{encode_records, encode_records_spec, parse_content, parse_content_spec, tuples_of};
use crate::error::CmdError;
use crate::ranking::{has_text, stable_sort_desc};
use crate::service::{
    entries_of, filter_pattern, lemma_entries_push, lemma_has_text_entries, lemma_remove_text_push,
    lemma_set_count_push, m_contains, remove_text, set_count, CmdService, SearchFilters,
};

verus! {

/// Whether `regex::Regex::new` accepts the pattern.
pub uninterp spec fn regex_pattern_valid(p: Seq<char>) -> bool;

/// Whether the compiled pattern matches somewhere in the text.
pub uninterp spec fn regex_match_spec(p: Seq<char>, t: Seq<char>) -> bool;

/// Relies on `regex::Regex::new` and `regex::Regex::is_match`: whether a
/// pattern compiles depends on the pattern alone, and whether a compiled
/// pattern matches a text depends on the pattern and the text alone.
#[verifier::external_body]
fn regex_is_match(pattern: &str, text: &str) -> (r: Option<bool>)
    ensures
        (r is Some) == regex_pattern_valid(pattern@),
        r matches Some(b) ==> b == regex_match_spec(pattern@, text@),
{
    match regex::Regex::new(pattern) {
        Ok(re) => Some(re.is_match(text)),
        Err(_) => None,
    }
}

/// Whether the flat-file store accepts a pattern: the executable test a
/// caller runs before a query that asks for a valid pattern.
pub fn regex_pattern_accepted(pattern: &str) -> (r: bool)
    ensures
        r == regex_pattern_valid(pattern@),
{
    regex_is_match(pattern, "").is_some()
}

/// What a query of the flat-file store admits: entries whose text the
/// pattern matches as a regular expression, restricted to used entries
/// where asked.
pub open spec fn csv_query(
    m: Seq<(Seq<char>, nat)>,
    pattern: Option<Seq<char>>,
    used: bool,
) -> Seq<(Seq<char>, nat)>
    decreases m.len(),
{
    if m.len() == 0 {
        m
    } else {
        let prefix = csv_query(m.drop_last(), pattern, used);
        let keep = (match pattern {
            Some(p) => regex_match_spec(p, m.last().0),
            None => true,
        }) && (!used || m.last().1 > 0);
        if keep {
            prefix.push(m.last())
        } else {
            prefix
        }
    }
}

/// A query without restriction admits the whole store.
proof fn lemma_csv_query_id(m: Seq<(Seq<char>, nat)>)
    ensures
        csv_query(m, None, false) == m,
    decreases m.len(),
{
    if m.len() > 0 {
        lemma_csv_query_id(m.drop_last());
        assert(m.drop_last().push(m.last()) =~= m);
    }
}

proof fn lemma_csv_query_push(
    m: Seq<(Seq<char>, nat)>,
    e: (Seq<char>, nat),
    pattern: Option<Seq<char>>,
    used: bool,
)
    ensures
        csv_query(m.push(e), pattern, used) == if ((match pattern {
            Some(p) => regex_match_spec(p, e.0),
            None => true,
        }) && (!used || e.1 > 0)) {
            csv_query(m, pattern, used).push(e)
        } else {
            csv_query(m, pattern, used)
        },
{
    assert(m.push(e).drop_last() =~= m);
    assert(m.push(e).last() == e);
}

/// `entries_of` looked at through `remove`: dropping a record drops its
/// entry.
proof fn lemma_entries_remove(s: Seq<CmdRecord>, i: int)
    requires
        0 <= i < s.len(),
    ensures
        entries_of(s.remove(i)) == entries_of(s).remove(i),
{
    crate::service::lemma_entries_index(s);
    crate::service::lemma_entries_index(s.remove(i));
    assert(entries_of(s.remove(i)) =~= entries_of(s).remove(i));
}

/// Sequences holding the same records hold the same entries.
proof fn lemma_entries_multiset(s1: Seq<CmdRecord>, s2: Seq<CmdRecord>)
    requires
        s1.to_multiset() == s2.to_multiset(),
    ensures
        entries_of(s1).to_multiset() == entries_of(s2).to_multiset(),
    decreases s1.len(),
{
    broadcast use vstd::seq_lib::group_to_multiset_ensures, vstd::multiset::group_multiset_axioms;

    crate::service::lemma_entries_index(s1);
    crate::service::lemma_entries_index(s2);
    if s1.len() == 0 {
        if s2.len() > 0 {
            assert(s2.to_multiset().count(s2[0]) > 0);
            assert(s1.to_multiset().count(s2[0]) == 0);
        }
        assert(entries_of(s1) =~= entries_of(s2));
    } else {
        let e = s1.last();
        assert(s1 =~= s1.drop_last().push(e));
        assert(s1.to_multiset().count(e) > 0);
        assert(s2.to_multiset().count(e) > 0);
        assert(s2.contains(e));
        let i = choose|i: int| 0 <= i < s2.len() && s2[i] == e;
        assert(s1.drop_last().to_multiset() =~= s1.to_multiset().remove(e));
        assert(s2.remove(i).to_multiset() =~= s2.to_multiset().remove(e));
        lemma_entries_multiset(s1.drop_last(), s2.remove(i));
        lemma_entries_remove(s2, i);
        let entry = (e.command@, e.used_times as nat);
        assert(entries_of(s1).drop_last() =~= entries_of(s1.drop_last()));
        assert(entries_of(s1).last() == entry);
        assert(entries_of(s1) =~= entries_of(s1.drop_last()).push(entry));
        assert(entries_of(s2)[i] == entry);
        assert(entries_of(s2).remove(i).to_multiset() =~= entries_of(s2).to_multiset().remove(
            entry,
        ));
        assert(entries_of(s1).to_multiset() == entries_of(s1.drop_last()).to_multiset().insert(
            entry,
        ));
        assert(entries_of(s2).contains(entry));
        assert(entries_of(s2).to_multiset().count(entry) > 0);
        assert(entries_of(s2).to_multiset().remove(entry).insert(entry) =~= entries_of(
            s2,
        ).to_multiset());
    }
}

/// The flat-file round trip at the store level: writing the records out
/// (sorted, as the file keeps them) and reading the file back yields
/// exactly the sorted records, whose entries are the store's entries
/// reordered — as long as no command text holds a line terminator.
pub proof fn lemma_store_file_round_trip(commands: Seq<CmdRecord>)
    requires
        forall|k: int, i: int|
            0 <= k < commands.len() && 0 <= i < commands[k].command@.len() ==> (
            #[trigger] commands[k].command@[i]) != '\n',
    ensures
        parse_content_spec(encode_records_spec(stable_sort_desc(commands)))
            == crate::csv_codec::tuples_of(stable_sort_desc(commands)),
        entries_of(stable_sort_desc(commands)).to_multiset() == entries_of(
            commands,
        ).to_multiset(),
{
    broadcast use vstd::seq_lib::group_to_multiset_ensures;

    let sorted = stable_sort_desc(commands);
    crate::ranking::lemma_stable_sort_desc_props(commands);
    assert forall|k: int, i: int|
        0 <= k < sorted.len() && 0 <= i < sorted[k].command@.len() implies (
        #[trigger] sorted[k].command@[i]) != '\n' by {
        assert(sorted.to_multiset().count(sorted[k]) > 0);
        assert(commands.to_multiset().count(sorted[k]) > 0);
        assert(commands.contains(sorted[k]));
        let p = choose|p: int| 0 <= p < commands.len() && commands[p] == sorted[k];
        assert(commands[p].command@[i] != '\n');
    }
    crate::csv_codec::lemma_content_round_trip(sorted);
    lemma_entries_multiset(sorted, commands);
}

/// The in-memory core of the flat-file backend: the records, the id
/// counter, and the name of the file the records came from. Reading the
/// file and writing it back happen outside the library; `parse_content`
/// and `file_content` carry the exact layout.
pub struct CmdServiceCSV {
    pub counter: usize,
    pub commands: Vec<CmdRecord>,
    pub file_name: String,
}

/// Build the flat-file store from a file's text, as the stored layout
/// defines it.
pub fn build_cmd_csv_service(file_name: String, content: &str) -> (r: CmdServiceCSV)
    ensures
        tuples_of(r.commands@) == parse_content_spec(content@),
        r.model() == entries_of(r.commands@),
        r.name() == file_name@,
{
    let records = parse_content(content);
    CmdServiceCSV::from_records(file_name, records)
}

impl CmdServiceCSV {
    /// Build the store from records already in memory; ids keep their
    /// stored values and fresh ids start above them.
    pub fn from_records(file_name: String, records: Vec<CmdRecord>) -> (r: CmdServiceCSV)
        ensures
            r.commands@ == records@,
            r.model() == entries_of(records@),
            r.name() == file_name@,
    {
        let counter = match records.len().checked_add(1) {
            Some(c) => c,
            None => usize::MAX,
        };
        CmdServiceCSV { counter, commands: records, file_name }
    }

    /// The next fresh id.
    fn get_id(&mut self) -> (r: usize)
        requires
            old(self).counter < usize::MAX,
        ensures
            r == old(self).counter,
            final(self).counter == old(self).counter + 1,
            final(self).commands == old(self).commands,
            final(self).file_name == old(self).file_name,
    {
        let id = self.counter;
        self.counter = self.counter + 1;
        id
    }

    /// The whole store as the flat file holds it: one line per record,
    /// sorted by usage count descending.
    pub fn file_content(&self) -> (r: String)
        ensures
            r@ == encode_records_spec(stable_sort_desc(self.commands@)),
    {
        let mut copy: Vec<CmdRecord> = Vec::new();
        let mut k: usize = 0;
        proof {
            assert(self.commands@.take(0) =~= Seq::<CmdRecord>::empty());
        }
        while k < self.commands.len()
            invariant
                0 <= k <= self.commands@.len(),
                copy@ == self.commands@.take(k as int),
            decreases self.commands@.len() - k,
        {
            copy.push(self.commands[k].clone());
            proof {
                assert(self.commands@.take(k + 1) =~= self.commands@.take(k as int).push(
                    self.commands@[k as int],
                ));
            }
            k = k + 1;
        }
        proof {
            assert(self.commands@.take(self.commands@.len() as int) =~= self.commands@);
        }
        let sorted = crate::ranking::sort_by_usage_desc(copy);
        encode_records(&sorted)
    }

    /// Rebuild the record list with every record of the given text
    /// carrying the count `c`, other records untouched.
    fn replace_counts(&mut self, text: &String, c: usize)
        ensures
            entries_of(final(self).commands@) == set_count(
                entries_of(old(self).commands@),
                text@,
                c as nat,
            ),
            final(self).counter == old(self).counter,
            final(self).file_name == old(self).file_name,
    {
        let ghost all = self.commands@;
        let mut out: Vec<CmdRecord> = Vec::new();
        let mut k: usize = 0;
        proof {
            assert(all.take(0) =~= Seq::<CmdRecord>::empty());
            assert(entries_of(out@) =~= set_count(entries_of(all.take(0)), text@, c as nat));
        }
        while k < self.commands.len()
            invariant
                self.commands@ == all,
                0 <= k <= all.len(),
                entries_of(out@) == set_count(entries_of(all.take(k as int)), text@, c as nat),
            decreases all.len() - k,
        {
            let r = &self.commands[k];
            let replaced: CmdRecord = if r.command == *text {
                CmdRecord { id: r.id, command: r.command.clone(), used_times: c }
            } else {
                r.clone()
            };
            let ghost out0 = out@;
            out.push(replaced);
            proof {
                assert(all.take(k + 1) =~= all.take(k as int).push(all[k as int]));
                lemma_entries_push(all.take(k as int), all[k as int]);
                lemma_set_count_push(
                    entries_of(all.take(k as int)),
                    (all[k as int].command@, all[k as int].used_times as nat),
                    text@,
                    c as nat,
                );
                lemma_entries_push(out0, replaced);
            }
            k = k + 1;
        }
        proof {
            assert(all.take(all.len() as int) =~= all);
        }
        self.commands = out;
    }
}

impl CmdService for CmdServiceCSV {
    open spec fn model(&self) -> Seq<(Seq<char>, nat)> {
        entries_of(self.commands@)
    }

    open spec fn pattern_ok(pattern: Seq<char>) -> bool {
        regex_pattern_valid(pattern)
    }

    open spec fn text_matches(pattern: Seq<char>, text: Seq<char>) -> bool {
        regex_match_spec(pattern, text)
    }

    open spec fn query_model(
        m: Seq<(Seq<char>, nat)>,
        pattern: Option<Seq<char>>,
        used: bool,
    ) -> Seq<(Seq<char>, nat)> {
        csv_query(m, pattern, used)
    }

    open spec fn name(&self) -> Seq<char> {
        self.file_name@
    }

    fn add_command(&mut self, command: String) -> (r: Result<(), CmdError>)
        ensures
            !m_contains(old(self).model(), command@) && old(self).counter < usize::MAX ==> r
                is Ok,
            r matches Err(e) ==> (e is DuplicateCmdError <==> m_contains(
                old(self).model(),
                command@,
            )),
            r is Ok ==> final(self).commands@ == old(self).commands@.push(
                (CmdRecord { id: old(self).counter, command: command, used_times: 0 }),
            ) && final(self).counter == old(self).counter + 1,
    {
        proof {
            lemma_has_text_entries(self.commands@, command@);
        }
        if has_text(&self.commands, &command) {
            return Err(CmdError::DuplicateCmdError);
        }
        if self.counter == usize::MAX {
            return Err(CmdError::BaseError(String::from_str("id space exhausted")));
        }
        let id = self.get_id();
        let ghost before = self.commands@;
        let record = CmdRecord { id, command, used_times: 0 };
        self.commands.push(record);
        proof {
            lemma_entries_push(before, self.commands@.last());
        }
        Ok(())
    }

    fn update_command(&mut self, record: CmdRecord) -> (r: Result<(), CmdError>)
        ensures
            m_contains(old(self).model(), record.command@) || old(self).counter < usize::MAX
                ==> r is Ok,
            r is Ok && !m_contains(old(self).model(), record.command@) ==> final(self).commands@ == old(self).commands@.push(
                (CmdRecord { id: old(self).counter, command: record.command, used_times: 1 }),
            ) && final(self).counter == old(self).counter + 1,
    {
        proof {
            lemma_has_text_entries(self.commands@, record.command@);
        }
        if has_text(&self.commands, &record.command) {
            self.replace_counts(&record.command, record.used_times);
            Ok(())
        } else {
            if self.counter == usize::MAX {
                return Err(CmdError::BaseError(String::from_str("id space exhausted")));
            }
            let id = self.get_id();
            let ghost before = self.commands@;
            let fresh = CmdRecord { id, command: record.command, used_times: 1 };
            self.commands.push(fresh);
            proof {
                lemma_entries_push(before, self.commands@.last());
            }
            Ok(())
        }
    }

    fn insert_command(&mut self, record: CmdRecord) -> (r: Result<(), CmdError>)
        ensures
            m_contains(old(self).model(), record.command@) || old(self).counter < usize::MAX
                ==> r is Ok,
            r is Ok && !m_contains(old(self).model(), record.command@) ==> final(self).commands@ == old(self).commands@.push(
                (CmdRecord {
                    id: old(self).counter,
                    command: record.command,
                    used_times: record.used_times,
                }),
            ) && final(self).counter == old(self).counter + 1,
    {
        proof {
            lemma_has_text_entries(self.commands@, record.command@);
        }
        if has_text(&self.commands, &record.command) {
            self.replace_counts(&record.command, record.used_times);
            Ok(())
        } else {
            if self.counter == usize::MAX {
                return Err(CmdError::BaseError(String::from_str("id space exhausted")));
            }
            let id = self.get_id();
            let ghost before = self.commands@;
            let fresh = CmdRecord { id, command: record.command, used_times: record.used_times };
            self.commands.push(fresh);
            proof {
                lemma_entries_push(before, self.commands@.last());
            }
            Ok(())
        }
    }

    fn is_record_present(&self, record: &CmdRecord) -> (r: bool)
        ensures
            r == m_contains(self.model(), record.command@),
    {
        proof {
            lemma_has_text_entries(self.commands@, record.command@);
        }
        has_text(&self.commands, &record.command)
    }

    fn get_commands(&self, filter: SearchFilters) -> (r: Result<Vec<CmdRecord>, CmdError>)
        ensures
            r is Ok,
    {
        let ghost all = self.commands@;
        let ghost pat = filter_pattern(filter);
        let mut out: Vec<CmdRecord> = Vec::new();
        let mut k: usize = 0;
        proof {
            assert(all.take(0) =~= Seq::<CmdRecord>::empty());
            assert(entries_of(out@) =~= csv_query(entries_of(all.take(0)), pat, filter.used));
        }
        while k < self.commands.len()
            invariant
                self.commands@ == all,
                0 <= k <= all.len(),
                filter.command matches Some(p) ==> regex_pattern_valid(p@),
                pat == filter_pattern(filter),
                entries_of(out@) == csv_query(entries_of(all.take(k as int)), pat, filter.used),
            decreases all.len() - k,
        {
            let r = &self.commands[k];
            let text_keep: bool = match &filter.command {
                Some(p) => regex_is_match(p.as_str(), r.command.as_str()).unwrap(),
                None => true,
            };
            let keep = text_keep && (!filter.used || r.used_times > 0);
            let ghost out0 = out@;
            if keep {
                out.push(r.clone());
            }
            proof {
                assert(all.take(k + 1) =~= all.take(k as int).push(all[k as int]));
                lemma_entries_push(all.take(k as int), all[k as int]);
                lemma_csv_query_push(
                    entries_of(all.take(k as int)),
                    (all[k as int].command@, all[k as int].used_times as nat),
                    pat,
                    filter.used,
                );
                if keep {
                    lemma_entries_push(out0, all[k as int]);
                }
            }
            k = k + 1;
        }
        proof {
            assert(all.take(all.len() as int) =~= all);
            if filter.command is None && !filter.used {
                lemma_csv_query_id(entries_of(all));
            }
        }
        Ok(out)
    }

    open spec fn reset_model(m: Seq<(Seq<char>, nat)>, updated: Seq<CmdRecord>) -> Seq<
        (Seq<char>, nat),
    > {
        entries_of(updated)
    }

    fn reset_commands(&mut self, updated_commands: Vec<CmdRecord>) -> (r: Result<(), CmdError>)
        ensures
            r is Ok,
    {
        self.commands = updated_commands;
        Ok(())
    }

    fn get_file_name(&self) -> (r: String) {
        self.file_name.clone()
    }

    fn clear_commands(&mut self) -> (r: Result<(), CmdError>)
        ensures
            r is Ok,
    {
        self.commands = Vec::new();
        proof {
            assert(entries_of(self.commands@) =~= Seq::<(Seq<char>, nat)>::empty());
        }
        Ok(())
    }

    fn delete_command(&mut self, command: CmdRecord) -> (r: Result<(), CmdError>)
        ensures
            r is Ok,
    {
        let ghost all = self.commands@;
        let mut out: Vec<CmdRecord> = Vec::new();
        let mut k: usize = 0;
        proof {
            assert(all.take(0) =~= Seq::<CmdRecord>::empty());
            assert(entries_of(out@) =~= remove_text(entries_of(all.take(0)), command.command@));
        }
        while k < self.commands.len()
            invariant
                self.commands@ == all,
                0 <= k <= all.len(),
                entries_of(out@) == remove_text(entries_of(all.take(k as int)), command.command@),
            decreases all.len() - k,
        {
            let r = &self.commands[k];
            let ghost out0 = out@;
            if !(r.command == command.command) {
                out.push(r.clone());
            }
            proof {
                assert(all.take(k + 1) =~= all.take(k as int).push(all[k as int]));
                lemma_entries_push(all.take(k as int), all[k as int]);
                lemma_remove_text_push(
                    entries_of(all.take(k as int)),
                    (all[k as int].command@, all[k as int].used_times as nat),
                    command.command@,
                );
                if all[k as int].command@ != command.command@ {
                    lemma_entries_push(out0, all[k as int]);
                }
            }
            k = k + 1;
        }
        proof {
            assert(all.take(all.len() as int) =~= all);
        }
        self.commands = out;
        Ok(())
    }
}

} // verus!
