use vstd::prelude::*;
use crate::cmd_record::{spec_count_text, spec_has_text, CmdRecord};
use crate::strutil::views_of;

verus! {

/// Records ordered by usage count, largest first.
pub open spec fn sorted_desc(s: Seq<CmdRecord>) -> bool {
    forall|i: int, j: int| 0 <= i < j < s.len() ==> s[i].used_times >= s[j].used_times
}

/// `r` placed after every record whose count is at least as large: the
/// insertion step of a stable descending sort.
pub open spec fn insert_desc(s: Seq<CmdRecord>, r: CmdRecord) -> Seq<CmdRecord>
    decreases s.len(),
{
    if s.len() == 0 {
        seq![r]
    } else if s[0].used_times >= r.used_times {
        seq![s[0]] + insert_desc(s.skip(1), r)
    } else {
        seq![r] + s
    }
}

/// The stable sort by usage count descending: equal counts keep the
/// order in which the input presented them.
pub open spec fn stable_sort_desc(s: Seq<CmdRecord>) -> Seq<CmdRecord>
    decreases s.len(),
{
    if s.len() == 0 {
        s
    } else {
        insert_desc(stable_sort_desc(s.drop_last()), s.last())
    }
}

pub proof fn lemma_insert_desc_props(s: Seq<CmdRecord>, r: CmdRecord)
    requires
        sorted_desc(s),
    ensures
        sorted_desc(insert_desc(s, r)),
        insert_desc(s, r).to_multiset() == s.to_multiset().insert(r),
        insert_desc(s, r).len() == s.len() + 1,
    decreases s.len(),
{
    broadcast use vstd::seq_lib::group_seq_lib_default, vstd::seq_lib::group_to_multiset_ensures, vstd::multiset::group_multiset_axioms;

    if s.len() == 0 {
        assert(seq![r] =~= Seq::<CmdRecord>::empty().push(r));
        assert(seq![r].to_multiset() == Seq::<CmdRecord>::empty().to_multiset().insert(r));
    } else if s[0].used_times >= r.used_times {
        assert(sorted_desc(s.skip(1)));
        lemma_insert_desc_props(s.skip(1), r);
        let inner = insert_desc(s.skip(1), r);
        let out = seq![s[0]] + inner;
        assert forall|i: int, j: int| 0 <= i < j < out.len() implies out[i].used_times
            >= out[j].used_times by {
            if i == 0 {
                if j - 1 < s.skip(1).len() + 1 {
                    lemma_insert_desc_member(s.skip(1), r, j - 1);
                }
            } else {
                assert(out[i] == inner[i - 1]);
                assert(out[j] == inner[j - 1]);
            }
        }
        lemma_to_multiset_cons(s, r);
    } else {
        assert(seq![r] + s =~= (seq![r] + s));
        assert forall|i: int, j: int| 0 <= i < j < (seq![r] + s).len() implies (seq![r]
            + s)[i].used_times >= (seq![r] + s)[j].used_times by {
            if i > 0 {
                assert((seq![r] + s)[i] == s[i - 1]);
                assert((seq![r] + s)[j] == s[j - 1]);
            } else {
                assert((seq![r] + s)[j] == s[j - 1]);
            }
        }
        lemma_multiset_prepend(s, r);
    }
}

/// Every member of `insert_desc(s, r)` is `r` or a member of `s`, and its
/// count relates to `r`'s as the sort order asks.
proof fn lemma_insert_desc_member(s: Seq<CmdRecord>, r: CmdRecord, k: int)
    requires
        0 <= k < insert_desc(s, r).len(),
        insert_desc(s, r).len() == s.len() + 1,
    ensures
        insert_desc(s, r)[k] == r || (exists|i: int| 0 <= i < s.len() && insert_desc(s, r)[k]
            == s[i]),
    decreases s.len(),
{
    if s.len() == 0 {
    } else if s[0].used_times >= r.used_times {
        if k > 0 {
            lemma_insert_desc_len(s.skip(1), r);
            lemma_insert_desc_member(s.skip(1), r, k - 1);
            let inner = insert_desc(s.skip(1), r);
            assert(insert_desc(s, r)[k] == inner[k - 1]);
            if inner[k - 1] != r {
                let i = choose|i: int| 0 <= i < s.skip(1).len() && inner[k - 1] == s.skip(1)[i];
                assert(s.skip(1)[i] == s[i + 1]);
            }
        }
    } else {
        if k > 0 {
            assert(insert_desc(s, r)[k] == s[k - 1]);
        }
    }
}

pub proof fn lemma_insert_desc_len(s: Seq<CmdRecord>, r: CmdRecord)
    ensures
        insert_desc(s, r).len() == s.len() + 1,
    decreases s.len(),
{
    if s.len() > 0 && s[0].used_times >= r.used_times {
        lemma_insert_desc_len(s.skip(1), r);
    }
}

/// `(x :: s).to_multiset() == s.to_multiset().insert(x)`, stated for the
/// two prepend shapes the insertion uses.
proof fn lemma_multiset_prepend(s: Seq<CmdRecord>, x: CmdRecord)
    ensures
        (seq![x] + s).to_multiset() == s.to_multiset().insert(x),
    decreases s.len(),
{
    broadcast use vstd::seq_lib::group_seq_lib_default, vstd::seq_lib::group_to_multiset_ensures, vstd::multiset::group_multiset_axioms;

    if s.len() == 0 {
        assert(seq![x] + s =~= seq![x]);
        assert(seq![x] =~= Seq::<CmdRecord>::empty().push(x));
    } else {
        assert(seq![x] + s =~= (seq![x] + s.drop_last()).push(s.last()));
        assert(s =~= s.drop_last().push(s.last()));
        lemma_multiset_prepend(s.drop_last(), x);
        assert((seq![x] + s).to_multiset() == (seq![x] + s.drop_last()).to_multiset().insert(
            s.last(),
        ));
        assert(s.to_multiset() == s.drop_last().to_multiset().insert(s.last()));
        assert(s.drop_last().to_multiset().insert(x).insert(s.last())
            == s.drop_last().to_multiset().insert(s.last()).insert(x));
    }
}

proof fn lemma_to_multiset_cons(s: Seq<CmdRecord>, r: CmdRecord)
    requires
        s.len() > 0,
        insert_desc(s.skip(1), r).to_multiset() == s.skip(1).to_multiset().insert(r),
    ensures
        (seq![s[0]] + insert_desc(s.skip(1), r)).to_multiset() == s.to_multiset().insert(r),
{
    broadcast use vstd::seq_lib::group_seq_lib_default, vstd::seq_lib::group_to_multiset_ensures, vstd::multiset::group_multiset_axioms;

    lemma_multiset_prepend(insert_desc(s.skip(1), r), s[0]);
    lemma_multiset_prepend(s.skip(1), s[0]);
    assert(seq![s[0]] + s.skip(1) =~= s);
    assert((seq![s[0]] + insert_desc(s.skip(1), r)).to_multiset() == insert_desc(
        s.skip(1),
        r,
    ).to_multiset().insert(s[0]));
    assert(s.to_multiset() == s.skip(1).to_multiset().insert(s[0]));
    assert(s.skip(1).to_multiset().insert(r).insert(s[0]) == s.skip(1).to_multiset().insert(
        s[0],
    ).insert(r));
}

/// The sorted sequence is a reordering of the input and is ordered by
/// count descending.
pub proof fn lemma_stable_sort_desc_props(s: Seq<CmdRecord>)
    ensures
        sorted_desc(stable_sort_desc(s)),
        stable_sort_desc(s).to_multiset() == s.to_multiset(),
        stable_sort_desc(s).len() == s.len(),
    decreases s.len(),
{
    broadcast use vstd::seq_lib::group_seq_lib_default, vstd::seq_lib::group_to_multiset_ensures, vstd::multiset::group_multiset_axioms;

    if s.len() > 0 {
        lemma_stable_sort_desc_props(s.drop_last());
        lemma_insert_desc_props(stable_sort_desc(s.drop_last()), s.last());
        assert(s =~= s.drop_last().push(s.last()));
        assert(s.to_multiset() == s.drop_last().to_multiset().insert(s.last()));
    }
}

/// Where the first index whose count falls below `r`'s is `idx`, the
/// insertion lands exactly there.
proof fn lemma_insert_desc_at(s: Seq<CmdRecord>, r: CmdRecord, idx: int)
    requires
        0 <= idx <= s.len(),
        forall|j: int| 0 <= j < idx ==> s[j].used_times >= r.used_times,
        idx < s.len() ==> s[idx].used_times < r.used_times,
    ensures
        insert_desc(s, r) == s.take(idx) + seq![r] + s.skip(idx),
    decreases s.len(),
{
    if idx == 0 {
        if s.len() == 0 {
            assert(insert_desc(s, r) =~= s.take(0) + seq![r] + s.skip(0));
        } else {
            assert(insert_desc(s, r) =~= s.take(0) + seq![r] + s.skip(0));
        }
    } else {
        assert(s[0].used_times >= r.used_times);
        lemma_insert_desc_at(s.skip(1), r, idx - 1);
        assert(s.skip(1).take(idx - 1) =~= s.subrange(1, idx));
        assert(s.skip(1).skip(idx - 1) =~= s.skip(idx));
        assert(seq![s[0]] + (s.subrange(1, idx) + seq![r] + s.skip(idx)) =~= s.take(idx)
            + seq![r] + s.skip(idx));
    }
}

/// Sort records by usage count descending, keeping the relative order of
/// records with equal counts.
pub fn sort_by_usage_desc(input: Vec<CmdRecord>) -> (r: Vec<CmdRecord>)
    ensures
        r@ == stable_sort_desc(input@),
{
    let mut out: Vec<CmdRecord> = Vec::new();
    let mut k: usize = 0;
    proof {
        assert(input@.take(0) =~= Seq::<CmdRecord>::empty());
    }
    while k < input.len()
        invariant
            0 <= k <= input@.len(),
            out@ == stable_sort_desc(input@.take(k as int)),
        decreases input@.len() - k,
    {
        let e = input[k].clone();
        let mut idx: usize = 0;
        while idx < out.len() && out[idx].used_times >= e.used_times
            invariant
                0 <= idx <= out@.len(),
                forall|j: int| 0 <= j < idx ==> out@[j].used_times >= e.used_times,
            decreases out@.len() - idx,
        {
            idx = idx + 1;
        }
        let ghost before = out@;
        out.insert(idx, e);
        proof {
            lemma_insert_desc_at(before, e, idx as int);
            assert(out@ =~= before.take(idx as int) + seq![e] + before.skip(idx as int));
            assert(input@.take(k + 1).drop_last() =~= input@.take(k as int));
            assert(input@.take(k + 1).last() == input@[k as int]);
        }
        k = k + 1;
    }
    proof {
        assert(input@.take(k as int) =~= input@);
    }
    out
}

/// The texts of the records, in order.
pub open spec fn texts_of(s: Seq<CmdRecord>) -> Seq<Seq<char>> {
    s.map_values(|r: CmdRecord| r.command@)
}

/// Whether some record of `records` stores the text of `text`.
pub fn has_text(records: &Vec<CmdRecord>, text: &String) -> (r: bool)
    ensures
        r == spec_has_text(records@, text@),
{
    let mut k: usize = 0;
    while k < records.len()
        invariant
            0 <= k <= records@.len(),
            forall|j: int| 0 <= j < k ==> records@[j].command@ != text@,
        decreases records@.len() - k,
    {
        if records[k].command == *text {
            return true;
        }
        k = k + 1;
    }
    false
}

/// The catalog records whose text does not already stand in `used`, in
/// catalog order.
pub open spec fn dedup_catalog(catalog: Seq<CmdRecord>, used: Seq<CmdRecord>) -> Seq<CmdRecord>
    decreases catalog.len(),
{
    if catalog.len() == 0 {
        Seq::empty()
    } else {
        let prefix = dedup_catalog(catalog.drop_last(), used);
        if spec_has_text(used, catalog.last().command@) {
            prefix
        } else {
            prefix.push(catalog.last())
        }
    }
}

/// The ranked candidate list: the used records first, then the catalog
/// records whose text is not already among them, the whole stable-sorted
/// by usage count descending.
pub open spec fn merged_candidates(used: Seq<CmdRecord>, catalog: Seq<CmdRecord>) -> Seq<
    CmdRecord,
> {
    stable_sort_desc(used + dedup_catalog(catalog, used))
}

/// The records carrying exactly the count `c`, in order.
pub open spec fn with_count(s: Seq<CmdRecord>, c: nat) -> Seq<CmdRecord>
    decreases s.len(),
{
    if s.len() == 0 {
        s
    } else {
        let prefix = with_count(s.drop_last(), c);
        if s.last().used_times as nat == c {
            prefix.push(s.last())
        } else {
            prefix
        }
    }
}

/// `with_count` looked at from the front.
proof fn lemma_with_count_cons(x: CmdRecord, s: Seq<CmdRecord>, c: nat)
    ensures
        with_count(seq![x] + s, c) == (if x.used_times as nat == c {
            seq![x]
        } else {
            Seq::<CmdRecord>::empty()
        }) + with_count(s, c),
    decreases s.len(),
{
    reveal_with_fuel(with_count, 3);
    let head: Seq<CmdRecord> = if x.used_times as nat == c {
        seq![x]
    } else {
        Seq::empty()
    };
    if s.len() == 0 {
        assert(seq![x] + s =~= seq![x]);
        assert(seq![x].drop_last() =~= Seq::<CmdRecord>::empty());
        assert(seq![x].last() == x);
        assert(Seq::<CmdRecord>::empty().push(x) =~= seq![x]);
        assert(head + with_count(s, c) =~= head);
        assert(with_count(seq![x] + s, c) =~= head);
    } else {
        lemma_with_count_cons(x, s.drop_last(), c);
        assert((seq![x] + s).drop_last() =~= seq![x] + s.drop_last());
        assert((seq![x] + s).last() == s.last());
        assert(with_count(seq![x] + s.drop_last(), c) == head + with_count(s.drop_last(), c));
        if s.last().used_times as nat == c {
            assert(with_count(seq![x] + s, c) == (head + with_count(s.drop_last(), c)).push(
                s.last(),
            ));
            assert(with_count(s, c) == with_count(s.drop_last(), c).push(s.last()));
            assert((head + with_count(s.drop_last(), c)).push(s.last()) =~= head + with_count(
                s.drop_last(),
                c,
            ).push(s.last()));
        } else {
            assert(with_count(seq![x] + s, c) == head + with_count(s.drop_last(), c));
            assert(with_count(s, c) == with_count(s.drop_last(), c));
        }
    }
}

/// Nothing carries the count `c` where every count differs from it.
proof fn lemma_with_count_absent(s: Seq<CmdRecord>, c: nat)
    requires
        forall|i: int| 0 <= i < s.len() ==> (#[trigger] s[i]).used_times as nat != c,
    ensures
        with_count(s, c) == Seq::<CmdRecord>::empty(),
    decreases s.len(),
{
    if s.len() > 0 {
        assert(s[s.len() - 1].used_times as nat != c);
        lemma_with_count_absent(s.drop_last(), c);
    }
}

/// Inserting into a sorted list places a record after every record of
/// its own count: the count class simply grows at its end.
proof fn lemma_insert_desc_with_count(s: Seq<CmdRecord>, r: CmdRecord, c: nat)
    requires
        sorted_desc(s),
    ensures
        with_count(insert_desc(s, r), c) == if r.used_times as nat == c {
            with_count(s, c).push(r)
        } else {
            with_count(s, c)
        },
    decreases s.len(),
{
    reveal_with_fuel(with_count, 3);
    if s.len() == 0 {
        assert(seq![r].drop_last() =~= Seq::<CmdRecord>::empty());
        assert(seq![r].last() == r);
        if r.used_times as nat == c {
            assert(with_count(s, c).push(r) =~= seq![r]);
        }
    } else if s[0].used_times >= r.used_times {
        assert(sorted_desc(s.skip(1)));
        lemma_insert_desc_with_count(s.skip(1), r, c);
        lemma_with_count_cons(s[0], insert_desc(s.skip(1), r), c);
        lemma_with_count_cons(s[0], s.skip(1), c);
        assert(seq![s[0]] + s.skip(1) =~= s);
        let head: Seq<CmdRecord> = if s[0].used_times as nat == c {
            seq![s[0]]
        } else {
            Seq::empty()
        };
        assert(with_count(s, c) == head + with_count(s.skip(1), c));
        assert(with_count(insert_desc(s, r), c) == head + with_count(
            insert_desc(s.skip(1), r),
            c,
        ));
        if r.used_times as nat == c {
            assert(head + with_count(s.skip(1), c).push(r) =~= (head + with_count(
                s.skip(1),
                c,
            )).push(r));
        }
    } else {
        lemma_with_count_cons(r, s, c);
        if r.used_times as nat == c {
            assert(forall|i: int|
                0 <= i < s.len() ==> (#[trigger] s[i]).used_times <= s[0].used_times);
            lemma_with_count_absent(s, c);
            assert(with_count(insert_desc(s, r), c) =~= with_count(s, c).push(r));
        } else {
            assert(with_count(insert_desc(s, r), c) =~= with_count(s, c));
        }
    }
}

/// Ties keep their order: sorting by count never reorders the records
/// of one count class — for every count value, the records carrying it
/// come out exactly as the input presented them.
pub proof fn lemma_stable_sort_keeps_tie_order(s: Seq<CmdRecord>, c: nat)
    ensures
        with_count(stable_sort_desc(s), c) == with_count(s, c),
    decreases s.len(),
{
    if s.len() > 0 {
        lemma_stable_sort_keeps_tie_order(s.drop_last(), c);
        lemma_stable_sort_desc_props(s.drop_last());
        lemma_insert_desc_with_count(stable_sort_desc(s.drop_last()), s.last(), c);
    }
}

/// At equal counts the candidate list shows the used entries first: the
/// count class of the merged list is the count class of the used-then-
/// catalog-leftovers concatenation.
pub proof fn lemma_merge_keeps_tie_order(used: Seq<CmdRecord>, catalog: Seq<CmdRecord>, c: nat)
    ensures
        with_count(merged_candidates(used, catalog), c) == with_count(
            used + dedup_catalog(catalog, used),
            c,
        ),
{
    lemma_stable_sort_keeps_tie_order(used + dedup_catalog(catalog, used), c);
}

/// With nothing used yet, the whole catalog is left over.
pub proof fn lemma_dedup_empty_used(catalog: Seq<CmdRecord>, used: Seq<CmdRecord>)
    requires
        used.len() == 0,
    ensures
        dedup_catalog(catalog, used) == catalog,
    decreases catalog.len(),
{
    if catalog.len() > 0 {
        lemma_dedup_empty_used(catalog.drop_last(), used);
        assert(!spec_has_text(used, catalog.last().command@));
        assert(catalog.drop_last().push(catalog.last()) =~= catalog);
    }
}

/// No text stands in a sequence more than once.
pub open spec fn unique_texts(s: Seq<CmdRecord>) -> bool {
    forall|t: Seq<char>| spec_count_text(s, t) <= 1
}

proof fn lemma_count_text_concat(a: Seq<CmdRecord>, b: Seq<CmdRecord>, t: Seq<char>)
    ensures
        spec_count_text(a + b, t) == spec_count_text(a, t) + spec_count_text(b, t),
    decreases b.len(),
{
    if b.len() == 0 {
        assert(a + b =~= a);
    } else {
        lemma_count_text_concat(a, b.drop_last(), t);
        assert((a + b).drop_last() =~= a + b.drop_last());
        assert((a + b).last() == b.last());
    }
}

proof fn lemma_count_text_remove(s: Seq<CmdRecord>, t: Seq<char>, i: int)
    requires
        0 <= i < s.len(),
    ensures
        spec_count_text(s, t) == spec_count_text(s.remove(i), t) + if s[i].command@ == t {
            1nat
        } else {
            0
        },
    decreases s.len(),
{
    if i == s.len() - 1 {
        assert(s.remove(i) =~= s.drop_last());
    } else {
        assert(s.remove(i).drop_last() =~= s.drop_last().remove(i));
        assert(s.remove(i).last() == s.last());
        lemma_count_text_remove(s.drop_last(), t, i);
    }
}

/// Two sequences holding the same records give every text the same
/// number of rows: reordering loses and gains nothing.
proof fn lemma_count_text_multiset(s1: Seq<CmdRecord>, s2: Seq<CmdRecord>, t: Seq<char>)
    requires
        s1.to_multiset() == s2.to_multiset(),
    ensures
        spec_count_text(s1, t) == spec_count_text(s2, t),
    decreases s1.len(),
{
    broadcast use vstd::seq_lib::group_to_multiset_ensures;

    if s1.len() == 0 {
        if s2.len() > 0 {
            assert(s2.to_multiset().count(s2[0]) > 0);
            assert(s1.to_multiset().count(s2[0]) == 0);
        }
    } else {
        let e = s1.last();
        assert(s1 =~= s1.drop_last().push(e));
        assert(s1.to_multiset().count(e) > 0);
        assert(s2.to_multiset().count(e) > 0);
        assert(s2.contains(e));
        let i = choose|i: int| 0 <= i < s2.len() && s2[i] == e;
        assert(s1.drop_last().to_multiset() =~= s1.to_multiset().remove(e));
        assert(s2.remove(i).to_multiset() =~= s2.to_multiset().remove(e));
        lemma_count_text_multiset(s1.drop_last(), s2.remove(i), t);
        lemma_count_text_remove(s2, t, i);
    }
}

/// The catalog leftovers hold no text of the used list, and each other
/// text at most as often as the catalog does.
proof fn lemma_dedup_counts(catalog: Seq<CmdRecord>, used: Seq<CmdRecord>, t: Seq<char>)
    ensures
        spec_has_text(used, t) ==> spec_count_text(dedup_catalog(catalog, used), t) == 0,
        spec_count_text(dedup_catalog(catalog, used), t) <= spec_count_text(catalog, t),
    decreases catalog.len(),
{
    if catalog.len() > 0 {
        lemma_dedup_counts(catalog.drop_last(), used, t);
        let prefix = dedup_catalog(catalog.drop_last(), used);
        if !spec_has_text(used, catalog.last().command@) {
            assert(prefix.push(catalog.last()).drop_last() =~= prefix);
            assert(prefix.push(catalog.last()).last() == catalog.last());
        }
    }
}

/// The dedup law behind the candidate list: where each store shows a
/// text at most once, no command is offered twice — the used row wins
/// and the catalog copy is left out.
pub proof fn lemma_merge_no_duplicate_texts(used: Seq<CmdRecord>, catalog: Seq<CmdRecord>)
    requires
        unique_texts(used),
        unique_texts(catalog),
    ensures
        unique_texts(merged_candidates(used, catalog)),
{
    let combined = used + dedup_catalog(catalog, used);
    lemma_stable_sort_desc_props(combined);
    assert forall|t: Seq<char>| spec_count_text(merged_candidates(used, catalog), t)
        <= 1 by {
        lemma_count_text_multiset(merged_candidates(used, catalog), combined, t);
        lemma_count_text_concat(used, dedup_catalog(catalog, used), t);
        lemma_dedup_counts(catalog, used, t);
        if spec_count_text(used, t) > 0 {
            lemma_count_text_has(used, t);
        }
    }
}

/// A positive row count means the text is present.
proof fn lemma_count_text_has(s: Seq<CmdRecord>, t: Seq<char>)
    requires
        spec_count_text(s, t) > 0,
    ensures
        spec_has_text(s, t),
    decreases s.len(),
{
    assert(s.len() > 0);
    if s.last().command@ == t {
        assert(s[s.len() - 1].command@ == t);
    } else {
        lemma_count_text_has(s.drop_last(), t);
        let i = choose|i: int| 0 <= i < s.drop_last().len() && s.drop_last()[i].command@ == t;
        assert(s[i].command@ == t);
    }
}

/// Merge the two query results into the list offered to the user,
/// together with the display text of each candidate. An empty result
/// means no match; the caller reports it and stops.
pub fn ranked_merge(used: Vec<CmdRecord>, catalog: Vec<CmdRecord>) -> (r: (
    Vec<CmdRecord>,
    Vec<String>,
))
    ensures
        r.0@ == merged_candidates(used@, catalog@),
        views_of(r.1@) == texts_of(r.0@),
{
    let ghost used0 = used@;
    let ghost catalog0 = catalog@;
    let mut combined: Vec<CmdRecord> = Vec::new();
    let mut k: usize = 0;
    while k < used.len()
        invariant
            used@ == used0,
            0 <= k <= used0.len(),
            combined@ == used0.take(k as int),
        decreases used0.len() - k,
    {
        combined.push(used[k].clone());
        proof {
            assert(used0.take(k + 1) =~= used0.take(k as int).push(used0[k as int]));
        }
        k = k + 1;
    }
    proof {
        assert(used0.take(used0.len() as int) =~= used0);
        assert(catalog0.take(0) =~= Seq::<CmdRecord>::empty());
        assert(combined@ =~= used0 + dedup_catalog(catalog0.take(0), used0));
    }
    let mut c: usize = 0;
    while c < catalog.len()
        invariant
            used@ == used0,
            catalog@ == catalog0,
            0 <= c <= catalog0.len(),
            combined@ == used0 + dedup_catalog(catalog0.take(c as int), used0),
        decreases catalog0.len() - c,
    {
        proof {
            assert(catalog0.take(c + 1).drop_last() =~= catalog0.take(c as int));
            assert(catalog0.take(c + 1).last() == catalog0[c as int]);
        }
        if !has_text(&used, &catalog[c].command) {
            combined.push(catalog[c].clone());
            proof {
                assert(dedup_catalog(catalog0.take(c + 1), used0) == dedup_catalog(
                    catalog0.take(c as int),
                    used0,
                ).push(catalog0[c as int]));
                assert(combined@ =~= used0 + dedup_catalog(catalog0.take(c + 1), used0));
            }
        } else {
            proof {
                assert(dedup_catalog(catalog0.take(c + 1), used0) == dedup_catalog(
                    catalog0.take(c as int),
                    used0,
                ));
            }
        }
        c = c + 1;
    }
    proof {
        assert(catalog0.take(catalog0.len() as int) =~= catalog0);
    }
    let merged = sort_by_usage_desc(combined);
    let mut options: Vec<String> = Vec::new();
    let mut t: usize = 0;
    proof {
        assert(views_of(options@) =~= texts_of(merged@.take(0)));
    }
    while t < merged.len()
        invariant
            0 <= t <= merged@.len(),
            views_of(options@) == texts_of(merged@.take(t as int)),
        decreases merged@.len() - t,
    {
        let ghost opts0 = options@;
        options.push(merged[t].command.clone());
        proof {
            assert(views_of(options@) =~= views_of(opts0).push(merged@[t as int].command@));
            assert(texts_of(merged@.take(t + 1)) =~= texts_of(merged@.take(t as int)).push(
                merged@[t as int].command@,
            ));
        }
        t = t + 1;
    }
    proof {
        assert(merged@.take(merged@.len() as int) =~= merged@);
    }
    (merged, options)
}

} // verus!
