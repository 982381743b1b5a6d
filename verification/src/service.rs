use vstd::prelude::*;
use crate::cmd_record::CmdRecord;
use crate::error::CmdError;

verus! {

/// A store is modelled as its records' texts and usage counts, in
/// insertion order; record ids are backend-assigned and no caller may
/// rely on them.
pub open spec fn entries_of(s: Seq<CmdRecord>) -> Seq<(Seq<char>, nat)>
    decreases s.len(),
{
    if s.len() == 0 {
        Seq::empty()
    } else {
        entries_of(s.drop_last()).push((s.last().command@, s.last().used_times as nat))
    }
}

pub proof fn lemma_entries_index(s: Seq<CmdRecord>)
    ensures
        entries_of(s).len() == s.len(),
        forall|i: int| 0 <= i < s.len() ==> entries_of(s)[i] == (s[i].command@, s[i].used_times as nat),
    decreases s.len(),
{
    if s.len() > 0 {
        lemma_entries_index(s.drop_last());
    }
}

/// Whether some entry stores the text `t`.
pub open spec fn m_contains(m: Seq<(Seq<char>, nat)>, t: Seq<char>) -> bool {
    exists|i: int| 0 <= i < m.len() && m[i].0 == t
}

/// The number of entries storing the text `t`.
pub open spec fn count_entries(m: Seq<(Seq<char>, nat)>, t: Seq<char>) -> nat
    decreases m.len(),
{
    if m.len() == 0 {
        0
    } else {
        count_entries(m.drop_last(), t) + if m.last().0 == t {
            1nat
        } else {
            0
        }
    }
}

/// The sum of the counts of the entries storing the text `t`.
pub open spec fn sum_counts_for(m: Seq<(Seq<char>, nat)>, t: Seq<char>) -> nat
    decreases m.len(),
{
    if m.len() == 0 {
        0
    } else {
        sum_counts_for(m.drop_last(), t) + if m.last().0 == t {
            m.last().1
        } else {
            0
        }
    }
}

/// Every entry storing `t` given the count `c`; other entries unchanged.
pub open spec fn set_count(m: Seq<(Seq<char>, nat)>, t: Seq<char>, c: nat) -> Seq<
    (Seq<char>, nat),
>
    decreases m.len(),
{
    if m.len() == 0 {
        m
    } else {
        set_count(m.drop_last(), t, c).push(
            if m.last().0 == t {
                (m.last().0, c)
            } else {
                m.last()
            },
        )
    }
}

/// The entries that do not store the text `t`, in order.
pub open spec fn remove_text(m: Seq<(Seq<char>, nat)>, t: Seq<char>) -> Seq<(Seq<char>, nat)>
    decreases m.len(),
{
    if m.len() == 0 {
        m
    } else {
        let prefix = remove_text(m.drop_last(), t);
        if m.last().0 == t {
            prefix
        } else {
            prefix.push(m.last())
        }
    }
}

/// The store transition of an upsert: an existing text has its count
/// replaced; a fresh text enters with count 1 whatever count the caller
/// carried — the first-seen floor.
pub open spec fn upsert_spec(m: Seq<(Seq<char>, nat)>, t: Seq<char>, c: nat) -> Seq<
    (Seq<char>, nat),
> {
    if m_contains(m, t) {
        set_count(m, t, c)
    } else {
        m.push((t, 1))
    }
}

/// An unconditional write keyed by text, without the floor: either the
/// counts of the text are replaced in place, or the old rows of the text
/// leave and a fresh row enters at the end.
pub open spec fn insert_replace_ok(
    m: Seq<(Seq<char>, nat)>,
    m2: Seq<(Seq<char>, nat)>,
    t: Seq<char>,
    c: nat,
) -> bool {
    if m_contains(m, t) {
        m2 == set_count(m, t, c) || m2 == remove_text(m, t).push((t, c))
    } else {
        m2 == m.push((t, c))
    }
}

/// `entries_of` looked at through `push`.
pub proof fn lemma_entries_push(s: Seq<CmdRecord>, r: CmdRecord)
    ensures
        entries_of(s.push(r)) == entries_of(s).push((r.command@, r.used_times as nat)),
{
    assert(s.push(r).drop_last() =~= s);
    assert(s.push(r).last() == r);
}

/// `set_count` looked at through `push`.
pub proof fn lemma_set_count_push(m: Seq<(Seq<char>, nat)>, e: (Seq<char>, nat), t: Seq<char>, c: nat)
    ensures
        set_count(m.push(e), t, c) == set_count(m, t, c).push(
            if e.0 == t {
                (e.0, c)
            } else {
                e
            },
        ),
{
    assert(m.push(e).drop_last() =~= m);
    assert(m.push(e).last() == e);
}

/// `remove_text` looked at through `push`.
pub proof fn lemma_remove_text_push(m: Seq<(Seq<char>, nat)>, e: (Seq<char>, nat), t: Seq<char>)
    ensures
        remove_text(m.push(e), t) == if e.0 == t {
            remove_text(m, t)
        } else {
            remove_text(m, t).push(e)
        },
{
    assert(m.push(e).drop_last() =~= m);
    assert(m.push(e).last() == e);
}

/// Whether some entry is exactly `(t, c)`.
pub open spec fn m_has_entry(m: Seq<(Seq<char>, nat)>, t: Seq<char>, c: nat) -> bool {
    exists|i: int| 0 <= i < m.len() && #[trigger] m[i] == (t, c)
}

/// `set_count` keeps every position's text, and rewrites exactly the
/// counts of the given text.
pub proof fn lemma_set_count_keeps_texts(m: Seq<(Seq<char>, nat)>, t: Seq<char>, c: nat)
    ensures
        set_count(m, t, c).len() == m.len(),
        forall|i: int| 0 <= i < m.len() ==> (#[trigger] set_count(m, t, c)[i]).0 == m[i].0,
        forall|i: int| 0 <= i < m.len() ==> #[trigger] set_count(m, t, c)[i] == (if m[i].0
            == t {
            (m[i].0, c)
        } else {
            m[i]
        }),
    decreases m.len(),
{
    if m.len() > 0 {
        lemma_set_count_keeps_texts(m.drop_last(), t, c);
    }
}

/// Removing one text keeps every entry of the other texts.
pub proof fn lemma_remove_text_keeps_entry(
    m: Seq<(Seq<char>, nat)>,
    t: Seq<char>,
    u: Seq<char>,
    cu: nat,
)
    requires
        u != t,
        m_has_entry(m, u, cu),
    ensures
        m_has_entry(remove_text(m, t), u, cu),
    decreases m.len(),
{
    assert(m.len() > 0);
    let prefix = m.drop_last();
    if m.last() == (u, cu) {
        assert(remove_text(m, t).last() == m.last());
        assert(remove_text(m, t)[remove_text(m, t).len() - 1] == (u, cu));
    } else {
        assert(m_has_entry(prefix, u, cu)) by {
            let i = choose|i: int| 0 <= i < m.len() && #[trigger] m[i] == (u, cu);
            assert(prefix[i] == m[i]);
        }
        lemma_remove_text_keeps_entry(prefix, t, u, cu);
        let rp = remove_text(prefix, t);
        let i = choose|i: int| 0 <= i < rp.len() && #[trigger] rp[i] == (u, cu);
        if m.last().0 == t {
            assert(remove_text(m, t)[i] == rp[i]);
        } else {
            assert(remove_text(m, t)[i] == rp[i]);
        }
    }
}

/// An unconditional write of `t` leaves an entry `(t, c)` standing.
pub proof fn lemma_insert_ok_entry(
    m: Seq<(Seq<char>, nat)>,
    m2: Seq<(Seq<char>, nat)>,
    t: Seq<char>,
    c: nat,
)
    requires
        insert_replace_ok(m, m2, t, c),
    ensures
        m_has_entry(m2, t, c),
{
    if m_contains(m, t) {
        if m2 == set_count(m, t, c) {
            lemma_set_count_keeps_texts(m, t, c);
            let i = choose|i: int| 0 <= i < m.len() && m[i].0 == t;
            assert(m2[i] == (t, c));
        } else {
            assert(m2[m2.len() - 1] == (t, c));
        }
    } else {
        assert(m2[m2.len() - 1] == (t, c));
    }
}

/// An unconditional write of `t` keeps every entry of the other texts.
pub proof fn lemma_insert_ok_keeps_entry(
    m: Seq<(Seq<char>, nat)>,
    m2: Seq<(Seq<char>, nat)>,
    t: Seq<char>,
    c: nat,
    u: Seq<char>,
    cu: nat,
)
    requires
        insert_replace_ok(m, m2, t, c),
        u != t,
        m_has_entry(m, u, cu),
    ensures
        m_has_entry(m2, u, cu),
{
    if m_contains(m, t) {
        if m2 == set_count(m, t, c) {
            lemma_set_count_keeps_texts(m, t, c);
            let i = choose|i: int| 0 <= i < m.len() && #[trigger] m[i] == (u, cu);
            assert(m2[i] == (u, cu));
        } else {
            lemma_remove_text_keeps_entry(m, t, u, cu);
            let rm = remove_text(m, t);
            let i = choose|i: int| 0 <= i < rm.len() && #[trigger] rm[i] == (u, cu);
            assert(m2[i] == rm[i]);
        }
    } else {
        let i = choose|i: int| 0 <= i < m.len() && #[trigger] m[i] == (u, cu);
        assert(m2[i] == m[i]);
    }
}

/// Removing one text keeps every other text present.
pub proof fn lemma_remove_text_keeps(m: Seq<(Seq<char>, nat)>, t: Seq<char>, u: Seq<char>)
    requires
        u != t,
        m_contains(m, u),
    ensures
        m_contains(remove_text(m, t), u),
    decreases m.len(),
{
    assert(m.len() > 0);
    let prefix = m.drop_last();
    if m.last().0 == u {
        assert(remove_text(m, t).last() == m.last());
        assert(remove_text(m, t)[remove_text(m, t).len() - 1].0 == u);
    } else {
        assert(m_contains(prefix, u)) by {
            let i = choose|i: int| 0 <= i < m.len() && m[i].0 == u;
            assert(prefix[i] == m[i]);
        }
        lemma_remove_text_keeps(prefix, t, u);
        let rp = remove_text(prefix, t);
        let i = choose|i: int| 0 <= i < rp.len() && rp[i].0 == u;
        if m.last().0 == t {
            assert(remove_text(m, t)[i] == rp[i]);
        } else {
            assert(remove_text(m, t)[i] == rp[i]);
        }
    }
}

/// After an unconditional write of `t`, the store holds `t`.
pub proof fn lemma_insert_ok_target(
    m: Seq<(Seq<char>, nat)>,
    m2: Seq<(Seq<char>, nat)>,
    t: Seq<char>,
    c: nat,
)
    requires
        insert_replace_ok(m, m2, t, c),
    ensures
        m_contains(m2, t),
{
    if m_contains(m, t) {
        if m2 == set_count(m, t, c) {
            lemma_set_count_keeps_texts(m, t, c);
            let i = choose|i: int| 0 <= i < m.len() && m[i].0 == t;
            assert(m2[i].0 == t);
        } else {
            assert(m2[m2.len() - 1].0 == t);
        }
    } else {
        assert(m2[m2.len() - 1].0 == t);
    }
}

/// An unconditional write of `t` keeps every other present text present.
pub proof fn lemma_insert_ok_other(
    m: Seq<(Seq<char>, nat)>,
    m2: Seq<(Seq<char>, nat)>,
    t: Seq<char>,
    c: nat,
    u: Seq<char>,
)
    requires
        insert_replace_ok(m, m2, t, c),
        u != t,
        m_contains(m, u),
    ensures
        m_contains(m2, u),
{
    if m_contains(m, t) {
        if m2 == set_count(m, t, c) {
            lemma_set_count_keeps_texts(m, t, c);
            let i = choose|i: int| 0 <= i < m.len() && m[i].0 == u;
            assert(m2[i].0 == u);
        } else {
            lemma_remove_text_keeps(m, t, u);
            let rm = remove_text(m, t);
            let i = choose|i: int| 0 <= i < rm.len() && rm[i].0 == u;
            assert(m2[i] == rm[i]);
        }
    } else {
        let i = choose|i: int| 0 <= i < m.len() && m[i].0 == u;
        assert(m2[i] == m[i]);
    }
}

/// Writing one text leaves every other text's summed count and row
/// count untouched: materializing an alias never disturbs the canonical
/// record's accumulation.
pub proof fn lemma_insert_ok_keeps_other_sums(
    m: Seq<(Seq<char>, nat)>,
    m2: Seq<(Seq<char>, nat)>,
    t: Seq<char>,
    c: nat,
    u: Seq<char>,
)
    requires
        insert_replace_ok(m, m2, t, c),
        u != t,
    ensures
        sum_counts_for(m2, u) == sum_counts_for(m, u),
        count_entries(m2, u) == count_entries(m, u),
{
    if m_contains(m, t) {
        if m2 == set_count(m, t, c) {
            lemma_set_count_keeps_other(m, t, c, u);
        } else {
            lemma_remove_text_keeps_other(m, t, u);
            let rm = remove_text(m, t);
            assert(m2.drop_last() =~= rm);
            assert(m2.last() == (t, c));
        }
    } else {
        assert(m2.drop_last() =~= m);
        assert(m2.last() == (t, c));
    }
}

proof fn lemma_set_count_keeps_other(m: Seq<(Seq<char>, nat)>, t: Seq<char>, c: nat, u: Seq<char>)
    requires
        u != t,
    ensures
        sum_counts_for(set_count(m, t, c), u) == sum_counts_for(m, u),
        count_entries(set_count(m, t, c), u) == count_entries(m, u),
    decreases m.len(),
{
    if m.len() > 0 {
        lemma_set_count_keeps_other(m.drop_last(), t, c, u);
        let sc = set_count(m, t, c);
        assert(sc.drop_last() =~= set_count(m.drop_last(), t, c));
        assert(sc.last() == if m.last().0 == t {
            (m.last().0, c)
        } else {
            m.last()
        });
    }
}

proof fn lemma_remove_text_keeps_other(m: Seq<(Seq<char>, nat)>, t: Seq<char>, u: Seq<char>)
    requires
        u != t,
    ensures
        sum_counts_for(remove_text(m, t), u) == sum_counts_for(m, u),
        count_entries(remove_text(m, t), u) == count_entries(m, u),
    decreases m.len(),
{
    if m.len() > 0 {
        lemma_remove_text_keeps_other(m.drop_last(), t, u);
        let rm = remove_text(m, t);
        if m.last().0 != t {
            assert(rm.drop_last() =~= remove_text(m.drop_last(), t));
            assert(rm.last() == m.last());
        }
    }
}

/// Removing the entry at `i` takes away exactly its contribution to the
/// summed count of a text.
pub proof fn lemma_sum_counts_for_remove(m: Seq<(Seq<char>, nat)>, t: Seq<char>, i: int)
    requires
        0 <= i < m.len(),
    ensures
        sum_counts_for(m, t) == sum_counts_for(m.remove(i), t) + if m[i].0 == t {
            m[i].1
        } else {
            0
        },
    decreases m.len(),
{
    if i == m.len() - 1 {
        assert(m.remove(i) =~= m.drop_last());
    } else {
        assert(m.remove(i).drop_last() =~= m.drop_last().remove(i));
        assert(m.remove(i).last() == m.last());
        lemma_sum_counts_for_remove(m.drop_last(), t, i);
    }
}

/// Two entry sequences holding the same entries (as a multiset) give a
/// text the same summed count: the sum does not depend on query order.
pub proof fn lemma_sum_counts_for_multiset(
    m1: Seq<(Seq<char>, nat)>,
    m2: Seq<(Seq<char>, nat)>,
    t: Seq<char>,
)
    requires
        m1.to_multiset() == m2.to_multiset(),
    ensures
        sum_counts_for(m1, t) == sum_counts_for(m2, t),
    decreases m1.len(),
{
    broadcast use vstd::seq_lib::group_to_multiset_ensures;

    if m1.len() == 0 {
        if m2.len() > 0 {
            assert(m2.to_multiset().count(m2[0]) > 0);
            assert(m1.to_multiset().count(m2[0]) == 0);
        }
    } else {
        let e = m1.last();
        assert(m1 =~= m1.drop_last().push(e));
        assert(m1.to_multiset().count(e) > 0);
        assert(m2.to_multiset().count(e) > 0);
        assert(m2.contains(e));
        let i = choose|i: int| 0 <= i < m2.len() && m2[i] == e;
        assert(m1.drop_last().to_multiset() =~= m1.to_multiset().remove(e));
        assert(m2.remove(i).to_multiset() =~= m2.to_multiset().remove(e));
        lemma_sum_counts_for_multiset(m1.drop_last(), m2.remove(i), t);
        lemma_sum_counts_for_remove(m2, t, i);
    }
}

/// The summed count of a text over records equals the summed count over
/// their entries.
pub proof fn lemma_sum_text_entries(s: Seq<CmdRecord>, t: Seq<char>)
    ensures
        crate::cmd_record::spec_sum_for_text(s, t) == sum_counts_for(entries_of(s), t),
    decreases s.len(),
{
    if s.len() > 0 {
        lemma_sum_text_entries(s.drop_last(), t);
        assert(entries_of(s).drop_last() =~= entries_of(s.drop_last()));
    }
}

/// A record sequence holds a text exactly when its entries do.
pub proof fn lemma_has_text_entries(s: Seq<CmdRecord>, t: Seq<char>)
    ensures
        crate::cmd_record::spec_has_text(s, t) == m_contains(entries_of(s), t),
{
    lemma_entries_index(s);
    if crate::cmd_record::spec_has_text(s, t) {
        let i = choose|i: int| 0 <= i < s.len() && s[i].command@ == t;
        assert(entries_of(s)[i].0 == t);
    }
    if m_contains(entries_of(s), t) {
        let i = choose|i: int| 0 <= i < entries_of(s).len() && entries_of(s)[i].0 == t;
        assert(s[i].command@ == t);
    }
}

/// The pattern of a filter, as a view.
pub open spec fn filter_pattern(f: SearchFilters) -> Option<Seq<char>> {
    match f.command {
        Some(s) => Some(s@),
        None => None,
    }
}

/// What a query may restrict by: an id (kept for callers, not applied by
/// the backends), a text pattern, and "only used records".
pub struct SearchFilters {
    pub id: Option<usize>,
    pub command: Option<String>,
    pub used: bool,
}

impl Default for SearchFilters {
    /// No restriction at all.
    fn default() -> (r: SearchFilters)
        ensures
            r.id is None,
            r.command is None,
            r.used == false,
    {
        SearchFilters { id: None, command: None, used: false }
    }
}

impl SearchFilters {
    /// This filter, restricted to texts matching `pattern`.
    pub fn with_command(self, pattern: String) -> (r: SearchFilters)
        ensures
            r.command == Some(pattern),
            r.id == self.id,
            r.used == self.used,
    {
        SearchFilters { command: Some(pattern), ..self }
    }

    /// This filter, restricted to records used at least once.
    pub fn only_used(self) -> (r: SearchFilters)
        ensures
            r.used == true,
            r.id == self.id,
            r.command == self.command,
    {
        SearchFilters { used: true, ..self }
    }
}

/// The capability a persistence backend offers the catalog: add, upsert,
/// unconditional write, query, delete and clear over command records,
/// each specified against the store model.
pub trait CmdService: Sized {
    /// The store's records as (text, count) entries, in insertion order.
    spec fn model(&self) -> Seq<(Seq<char>, nat)>;

    /// Whether the backend accepts `pattern` as a query pattern.
    spec fn pattern_ok(pattern: Seq<char>) -> bool;

    /// The backend's match relation between a pattern and a text.
    spec fn text_matches(pattern: Seq<char>, text: Seq<char>) -> bool;

    /// What a query of this backend admits: the entries the pattern and
    /// the used flag keep, under the backend's match relation.
    spec fn query_model(
        m: Seq<(Seq<char>, nat)>,
        pattern: Option<Seq<char>>,
        used: bool,
    ) -> Seq<(Seq<char>, nat)>;

    /// The store's display name (its file name, where it has one).
    spec fn name(&self) -> Seq<char>;

    /// Add a command text with count 0; a text already present is
    /// rejected as a duplicate and the store is unchanged.
    fn add_command(&mut self, command: String) -> (r: Result<(), CmdError>)
        ensures
            r is Ok ==> !m_contains(old(self).model(), command@) && final(self).model() == old(
                self,
            ).model().push((command@, 0nat)),
            r is Err ==> final(self).model() == old(self).model(),
            m_contains(old(self).model(), command@) ==> r is Err,
            r matches Err(e) ==> (e is DuplicateCmdError ==> m_contains(
                old(self).model(),
                command@,
            )),
            final(self).name() == old(self).name(),
    ;

    /// Upsert: replace the count of an existing text with the record's
    /// count, or enter a fresh text with count 1 — the first-seen floor.
    fn update_command(&mut self, record: CmdRecord) -> (r: Result<(), CmdError>)
        ensures
            r is Ok ==> final(self).model() == upsert_spec(
                old(self).model(),
                record.command@,
                record.used_times as nat,
            ),
            r is Err ==> final(self).model() == old(self).model(),
            final(self).name() == old(self).name(),
    ;

    /// Unconditional write keyed by text, without the floor; used for
    /// alias materialization and migration.
    fn insert_command(&mut self, record: CmdRecord) -> (r: Result<(), CmdError>)
        ensures
            r is Ok ==> insert_replace_ok(
                old(self).model(),
                final(self).model(),
                record.command@,
                record.used_times as nat,
            ),
            r is Err ==> final(self).model() == old(self).model(),
            final(self).name() == old(self).name(),
    ;

    /// Whether a record with the same text is present. A `true` answer
    /// is reliable; a backend whose lookup can fail may answer `false`
    /// on a failed lookup even where the text stands.
    fn is_record_present(&self, record: &CmdRecord) -> (r: bool)
        ensures
            r ==> m_contains(self.model(), record.command@),
    ;

    /// The records the filter admits, or a storage error. The entries
    /// returned are exactly the admitted ones; their order is
    /// backend-defined and no caller may rely on it.
    fn get_commands(&self, filter: SearchFilters) -> (r: Result<Vec<CmdRecord>, CmdError>)
        requires
            filter.command matches Some(p) ==> Self::pattern_ok(p@),
        ensures
            r matches Ok(v) ==> entries_of(v@).to_multiset() == Self::query_model(
                self.model(),
                filter_pattern(filter),
                filter.used,
            ).to_multiset(),
            r matches Ok(v) ==> (filter.command is None && !filter.used ==> entries_of(
                v@,
            ).to_multiset() == self.model().to_multiset()),
    ;

    /// Replace the store's content, where the backend stores records in
    /// place; a backend that writes through on each update keeps its
    /// content as it stands.
    spec fn reset_model(m: Seq<(Seq<char>, nat)>, updated: Seq<CmdRecord>) -> Seq<
        (Seq<char>, nat),
    >;

    fn reset_commands(&mut self, updated_commands: Vec<CmdRecord>) -> (r: Result<(), CmdError>)
        ensures
            r is Ok ==> final(self).model() == Self::reset_model(old(self).model(), updated_commands@),
            r is Err ==> final(self).model() == old(self).model(),
            final(self).name() == old(self).name(),
    ;

    /// The display name of the store.
    fn get_file_name(&self) -> (r: String)
        ensures
            r@ == self.name(),
    ;

    /// Remove every record of the store.
    fn clear_commands(&mut self) -> (r: Result<(), CmdError>)
        ensures
            r is Ok ==> final(self).model() == Seq::<(Seq<char>, nat)>::empty(),
            r is Err ==> final(self).model() == old(self).model(),
            final(self).name() == old(self).name(),
    ;

    /// Remove every record storing the given text.
    fn delete_command(&mut self, command: CmdRecord) -> (r: Result<(), CmdError>)
        ensures
            r is Ok ==> final(self).model() == remove_text(old(self).model(), command.command@),
            r is Err ==> final(self).model() == old(self).model(),
            final(self).name() == old(self).name(),
    ;
}

/// The uniqueness law: once a text enters an empty slot of the catalog,
/// the catalog holds exactly one record of it, and the add contract
/// rejects every further add of the same text as long as it stays.
pub proof fn lemma_add_is_unique(m: Seq<(Seq<char>, nat)>, t: Seq<char>)
    requires
        !m_contains(m, t),
    ensures
        m_contains(m.push((t, 0nat)), t),
        count_entries(m.push((t, 0nat)), t) == 1,
    decreases m.len(),
{
    let m2 = m.push((t, 0nat));
    assert(m2[m.len() as int].0 == t);
    lemma_count_entries_absent(m, t);
    assert(m2.drop_last() =~= m);
}

/// A text no entry stores contributes no entries and no count.
pub proof fn lemma_count_entries_absent(m: Seq<(Seq<char>, nat)>, t: Seq<char>)
    requires
        !m_contains(m, t),
    ensures
        count_entries(m, t) == 0,
        sum_counts_for(m, t) == 0,
    decreases m.len(),
{
    if m.len() > 0 {
        assert(!m_contains(m.drop_last(), t)) by {
            if m_contains(m.drop_last(), t) {
                let i = choose|i: int| 0 <= i < m.drop_last().len() && m.drop_last()[i].0 == t;
                assert(m[i].0 == t);
            }
        }
        lemma_count_entries_absent(m.drop_last(), t);
        assert(m.last().0 != t) by {
            if m.last().0 == t {
                assert(m[m.len() - 1].0 == t);
            }
        }
    }
}

/// The accumulation step law: where a store holds at most one row of a
/// text, an upsert to `s + 1` — `s` the summed count of that text —
/// leaves exactly one row of the text, whose summed count is `s + 1`.
pub proof fn lemma_usage_accumulates(m: Seq<(Seq<char>, nat)>, t: Seq<char>, c: nat)
    requires
        count_entries(m, t) <= 1,
    ensures
        count_entries(upsert_spec(m, t, c), t) == 1,
        sum_counts_for(upsert_spec(m, t, c), t) == if m_contains(m, t) {
            c
        } else {
            1nat
        },
    decreases m.len(),
{
    if !m_contains(m, t) {
        lemma_count_entries_absent(m, t);
        let m2 = m.push((t, 1nat));
        assert(m2.drop_last() =~= m);
        assert(m2[m.len() as int].0 == t);
    } else {
        lemma_set_count_single(m, t, c);
    }
}

proof fn lemma_set_count_single(m: Seq<(Seq<char>, nat)>, t: Seq<char>, c: nat)
    requires
        m_contains(m, t),
        count_entries(m, t) <= 1,
    ensures
        count_entries(set_count(m, t, c), t) == count_entries(m, t),
        count_entries(m, t) == 1,
        sum_counts_for(set_count(m, t, c), t) == c,
    decreases m.len(),
{
    assert(m.len() > 0);
    let prefix = m.drop_last();
    let sc = set_count(m, t, c);
    assert(sc.drop_last() =~= set_count(prefix, t, c));
    assert(sc.last() == if m.last().0 == t {
        (m.last().0, c)
    } else {
        m.last()
    });
    if m.last().0 == t {
        assert(!m_contains(prefix, t)) by {
            if m_contains(prefix, t) {
                lemma_count_entries_ge_one(prefix, t);
                assert(count_entries(m, t) >= 2);
            }
        }
        lemma_count_entries_absent(prefix, t);
        lemma_set_count_absent(prefix, t, c);
    } else {
        assert(m_contains(prefix, t)) by {
            let i = choose|i: int| 0 <= i < m.len() && m[i].0 == t;
            assert(prefix[i] == m[i]);
        }
        lemma_set_count_single(prefix, t, c);
    }
}

pub proof fn lemma_count_entries_ge_one(m: Seq<(Seq<char>, nat)>, t: Seq<char>)
    requires
        m_contains(m, t),
    ensures
        count_entries(m, t) >= 1,
    decreases m.len(),
{
    assert(m.len() > 0);
    if m.last().0 == t {
    } else {
        assert(m_contains(m.drop_last(), t)) by {
            let i = choose|i: int| 0 <= i < m.len() && m[i].0 == t;
            assert(m.drop_last()[i] == m[i]);
        }
        lemma_count_entries_ge_one(m.drop_last(), t);
    }
}

/// Setting the count of an absent text changes nothing.
proof fn lemma_set_count_absent(m: Seq<(Seq<char>, nat)>, t: Seq<char>, c: nat)
    requires
        !m_contains(m, t),
    ensures
        set_count(m, t, c) == m,
        sum_counts_for(set_count(m, t, c), t) == 0,
        count_entries(set_count(m, t, c), t) == 0,
    decreases m.len(),
{
    if m.len() > 0 {
        assert(!m_contains(m.drop_last(), t)) by {
            if m_contains(m.drop_last(), t) {
                let i = choose|i: int| 0 <= i < m.drop_last().len() && m.drop_last()[i].0 == t;
                assert(m[i].0 == t);
            }
        }
        assert(m.last().0 != t) by {
            if m.last().0 == t {
                assert(m[m.len() - 1].0 == t);
            }
        }
        lemma_set_count_absent(m.drop_last(), t, c);
        assert(set_count(m, t, c) =~= m.drop_last().push(m.last()));
        assert(m.drop_last().push(m.last()) =~= m);
        lemma_count_entries_absent(m, t);
    }
}

} // verus!
