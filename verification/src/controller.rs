use vstd::prelude::*;
use crate::cmd_record::{CmdRecord, CmdRecordIterable};
use crate::error::CmdError;
use crate::ranking::{merged_candidates, ranked_merge, sorted_desc, texts_of};
use crate::service::{
    entries_of, insert_replace_ok, lemma_sum_counts_for_multiset, lemma_sum_text_entries,
    sum_counts_for, upsert_spec, CmdService, SearchFilters,
};
use crate::strutil::views_of;
use vstd::multiset::Multiset;

verus! {

/// The ranked catalog: two independently owned stores of the same
/// backend kind — the catalog of everything the user saved, and the
/// usage history of what has actually run.
pub struct Controller<T: CmdService> {
    pub all: T,
    pub used: T,
}

/// A record list holds no records exactly when its entries' multiset is
/// the empty one.
proof fn lemma_entries_empty_multiset(s: Seq<CmdRecord>)
    ensures
        (entries_of(s).to_multiset() == Multiset::<(Seq<char>, nat)>::empty()) <==> s.len()
            == 0,
{
    broadcast use vstd::seq_lib::group_to_multiset_ensures, vstd::multiset::group_multiset_axioms;

    crate::service::lemma_entries_index(s);
    if s.len() == 0 {
        assert(entries_of(s).to_multiset() =~= Multiset::<(Seq<char>, nat)>::empty());
    } else {
        assert(entries_of(s).to_multiset().len() == entries_of(s).len());
    }
}

/// The alias a successful execution materializes: the realized text,
/// exactly when placeholders changed it; a run of the canonical text as
/// it stands gets no alias.
pub fn alias_for(canonical: &str, realized: &str) -> (r: Option<String>)
    ensures
        realized@ == canonical@ ==> r is None,
        realized@ != canonical@ ==> (r matches Some(a) && a@ == realized@),
{
    if crate::strutil::str_eq(canonical, realized) {
        None
    } else {
        Some(String::from_str(realized))
    }
}

/// The pattern a used-store query applies: an empty pattern places no
/// restriction.
pub open spec fn used_pattern(p: Seq<char>) -> Option<Seq<char>> {
    if p.len() > 0 {
        Some(p)
    } else {
        None
    }
}

impl<T: CmdService> Controller<T> {
    /// Query the catalog store by pattern.
    pub fn get_commands(&self, pattern: String) -> (r: Result<Vec<CmdRecord>, CmdError>)
        requires
            T::pattern_ok(pattern@),
        ensures
            r matches Ok(v) ==> entries_of(v@).to_multiset() == T::query_model(
                self.all.model(),
                Some(pattern@),
                false,
            ).to_multiset(),
    {
        self.all.get_commands(SearchFilters::default().with_command(pattern))
    }

    /// Query the usage store by pattern, restricted to records that have
    /// run at least once; an empty pattern matches everything.
    pub fn get_used_commands(&self, pattern: String) -> (r: Result<Vec<CmdRecord>, CmdError>)
        requires
            pattern@.len() > 0 ==> T::pattern_ok(pattern@),
        ensures
            r matches Ok(v) ==> entries_of(v@).to_multiset() == T::query_model(
                self.used.model(),
                used_pattern(pattern@),
                true,
            ).to_multiset(),
    {
        if pattern.as_str().unicode_len() > 0 {
            self.used.get_commands(SearchFilters::default().with_command(pattern).only_used())
        } else {
            self.used.get_commands(SearchFilters::default().only_used())
        }
    }

    /// Save a new command in the catalog; a text already present is
    /// rejected as a duplicate.
    pub fn new_command(&mut self, command: String) -> (r: Result<(), CmdError>)
        ensures
            r is Ok ==> !crate::service::m_contains(old(self).all.model(), command@) && final(self).all.model() == old(self).all.model().push((command@, 0nat)),
            r is Err ==> final(self).all.model() == old(self).all.model(),
            crate::service::m_contains(old(self).all.model(), command@) ==> r is Err,
            r matches Err(e) ==> (e is DuplicateCmdError ==> crate::service::m_contains(
                old(self).all.model(),
                command@,
            )),
            final(self).used == old(self).used,
    {
        self.all.add_command(command)
    }

    /// Record a successful execution: re-aggregate the usage counts of
    /// the canonical text, bump by one, upsert the canonical record, and
    /// where the realized text differs, write it as an independently
    /// ranked alias with the same count.
    pub fn add_used_command(&mut self, record: CmdRecord, alias: Option<String>) -> (r: Result<
        (),
        CmdError,
    >)
        requires
            sum_counts_for(old(self).used.model(), record.command@) < usize::MAX,
        ensures
            ({
                let m = old(self).used.model();
                let bumped = upsert_spec(
                    m,
                    record.command@,
                    sum_counts_for(m, record.command@) + 1,
                );
                &&& (r is Ok && alias is None ==> final(self).used.model() == bumped)
                &&& (r is Ok && alias is Some ==> insert_replace_ok(
                    bumped,
                    final(self).used.model(),
                    alias->0@,
                    sum_counts_for(m, record.command@) + 1,
                ))
                &&& (r is Err ==> final(self).used.model() == m || final(self).used.model()
                    == bumped)
            }),
            final(self).all == old(self).all,
    {
        let ghost m = self.used.model();
        let ghost t = record.command@;
        let matching = match self.used.get_commands(SearchFilters::default()) {
            Ok(v) => v,
            Err(e) => {
                return Err(e);
            },
        };
        proof {
            lemma_sum_counts_for_multiset(entries_of(matching@), m, t);
            lemma_sum_text_entries(matching@, t);
        }
        let sum = match matching.checked_sum_for_text(&record.command) {
            Some(s) => s,
            None => {
                return Err(CmdError::BaseError(String::from_str("usage count out of range")));
            },
        };
        let mut bumped_record = record;
        bumped_record.used_times = sum;
        bumped_record.increase_usage();
        match alias {
            None => self.used.update_command(bumped_record),
            Some(a) => {
                match self.used.update_command(bumped_record.clone()) {
                    Ok(_) => {},
                    Err(e) => {
                        return Err(e);
                    },
                }
                bumped_record.update_command(a.as_str());
                self.used.insert_command(bumped_record)
            },
        }
    }

    /// The ranked candidate list for a pattern: the used matches first,
    /// then the catalog-only matches, stable-sorted by usage count
    /// descending, with the display text of each candidate beside it.
    /// An empty list is the no-match signal — it comes back exactly when
    /// neither store's query admits a record — and is recoverable: the
    /// caller reports it and stops.
    pub fn ranked_candidates(&self, pattern: String) -> (r: Result<
        (Vec<CmdRecord>, Vec<String>),
        CmdError,
    >)
        requires
            T::pattern_ok(pattern@),
        ensures
            r matches Ok(v) ==> {
                &&& sorted_desc(v.0@)
                &&& views_of(v.1@) == texts_of(v.0@)
                &&& ((v.0@.len() == 0) <==> (T::query_model(
                    self.used.model(),
                    used_pattern(pattern@),
                    true,
                ).to_multiset() == Multiset::<(Seq<char>, nat)>::empty() && T::query_model(
                    self.all.model(),
                    Some(pattern@),
                    false,
                ).to_multiset() == Multiset::<(Seq<char>, nat)>::empty()))
                &&& exists|u: Seq<CmdRecord>, c: Seq<CmdRecord>|
                    {
                        &&& #[trigger] entries_of(u).to_multiset() == T::query_model(
                            self.used.model(),
                            used_pattern(pattern@),
                            true,
                        ).to_multiset()
                        &&& #[trigger] entries_of(c).to_multiset() == T::query_model(
                            self.all.model(),
                            Some(pattern@),
                            false,
                        ).to_multiset()
                        &&& v.0@ == merged_candidates(u, c)
                    }
            },
    {
        let used = match self.get_used_commands(pattern.clone()) {
            Ok(v) => v,
            Err(e) => {
                return Err(e);
            },
        };
        let catalog = match self.get_commands(pattern) {
            Ok(v) => v,
            Err(e) => {
                return Err(e);
            },
        };
        let ghost u0 = used@;
        let ghost c0 = catalog@;
        let merged = ranked_merge(used, catalog);
        proof {
            crate::ranking::lemma_stable_sort_desc_props(
                u0 + crate::ranking::dedup_catalog(c0, u0),
            );
            assert(entries_of(u0).to_multiset() == T::query_model(
                self.used.model(),
                used_pattern(pattern@),
                true,
            ).to_multiset() && entries_of(c0).to_multiset() == T::query_model(
                self.all.model(),
                Some(pattern@),
                false,
            ).to_multiset() && merged.0@ == merged_candidates(u0, c0));
            lemma_entries_empty_multiset(u0);
            lemma_entries_empty_multiset(c0);
            crate::ranking::lemma_stable_sort_desc_props(
                u0 + crate::ranking::dedup_catalog(c0, u0),
            );
            if merged.0@.len() == 0 {
                assert(u0.len() == 0 && crate::ranking::dedup_catalog(c0, u0).len() == 0);
                crate::ranking::lemma_dedup_empty_used(c0, u0);
                assert(c0.len() == 0);
            }
            if u0.len() == 0 && c0.len() == 0 {
                crate::ranking::lemma_dedup_empty_used(c0, u0);
                assert(u0 + crate::ranking::dedup_catalog(c0, u0) =~= Seq::<CmdRecord>::empty());
            }
        }
        Ok(merged)
    }

    /// The catalog store's display name.
    pub fn get_all_file_path(&self) -> (r: String)
        ensures
            r@ == self.all.name(),
    {
        self.all.get_file_name()
    }

    /// The usage store's display name.
    pub fn get_used_file_path(&self) -> (r: String)
        ensures
            r@ == self.used.name(),
    {
        self.used.get_file_name()
    }

    /// Clear both stores; the catalog store first.
    pub fn clear_files(&mut self) -> (r: Result<(), CmdError>)
        ensures
            r is Ok ==> final(self).all.model() == Seq::<(Seq<char>, nat)>::empty() && final(self).used.model() == Seq::<(Seq<char>, nat)>::empty(),
            r is Err ==> final(self).used.model() == old(self).used.model() && (final(self).all.model() == old(self).all.model() || final(self).all.model() == Seq::<(Seq<char>, nat)>::empty()),
    {
        match self.all.clear_commands() {
            Ok(_) => {},
            Err(e) => {
                return Err(e);
            },
        }
        self.used.clear_commands()
    }

    /// The catalog store's summary: for each usage count that occurs,
    /// one diagnostic line saying how many records carry it, ordered by
    /// count descending.
    pub fn debug(&self) -> (r: Result<Vec<String>, CmdError>)
        ensures
            r matches Ok(lines) ==> exists|rows: Seq<CmdRecord>, groups: Seq<(usize, usize)>|
                #![trigger entries_of(rows), groups.len()]
                {
                    &&& entries_of(rows).to_multiset() == T::query_model(
                        self.all.model(),
                        None,
                        false,
                    ).to_multiset()
                    &&& groups.len() == lines.len()
                    &&& (forall|i: int, j: int| 0 <= i < j < groups.len() ==> (
                    #[trigger] groups[i]).0 > (#[trigger] groups[j]).0)
                    &&& (forall|i: int| 0 <= i < groups.len() ==> (#[trigger] groups[i]).1
                        == crate::summary::count_with(rows, groups[i].0 as nat))
                    &&& (forall|i: int| 0 <= i < lines.len() ==> (#[trigger] lines[i])@
                        == crate::summary::summary_line_spec(
                        groups[i].0 as nat,
                        groups[i].1 as nat,
                    ))
                },
    {
        let rows = match self.all.get_commands(SearchFilters::default()) {
            Ok(v) => v,
            Err(e) => {
                return Err(e);
            },
        };
        let groups = crate::summary::usage_groups(&rows);
        let lines = crate::summary::summary_lines(&groups);
        proof {
            assert(entries_of(rows@).to_multiset() == T::query_model(
                self.all.model(),
                None,
                false,
            ).to_multiset() && groups@.len() == lines@.len() && (forall|i: int, j: int|
                0 <= i < j < groups@.len() ==> (#[trigger] groups@[i]).0 > (
                #[trigger] groups@[j]).0) && (forall|i: int|
                0 <= i < groups@.len() ==> (#[trigger] groups@[i]).1
                    == crate::summary::count_with(rows@, groups@[i].0 as nat)) && (forall|
                i: int,
            |
                0 <= i < lines@.len() ==> (#[trigger] lines@[i])@
                    == crate::summary::summary_line_spec(
                    groups@[i].0 as nat,
                    groups@[i].1 as nat,
                )));
        }
        Ok(lines)
    }

    /// Remove a record from the catalog store only.
    pub fn delete_record(&mut self, cmd: CmdRecord) -> (r: Result<(), CmdError>)
        ensures
            r is Ok ==> final(self).all.model() == crate::service::remove_text(
                old(self).all.model(),
                cmd.command@,
            ),
            r is Err ==> final(self).all.model() == old(self).all.model(),
            final(self).used == old(self).used,
    {
        self.all.delete_command(cmd)
    }
}

} // verus!
