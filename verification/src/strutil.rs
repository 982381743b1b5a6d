use vstd::prelude::*;

verus! {

/// Whether `pat` occurs in `s` starting at position `i`.
pub open spec fn is_match_at(s: Seq<char>, pat: Seq<char>, i: int) -> bool {
    0 <= i && i + pat.len() <= s.len() && s.subrange(i, i + pat.len() as int) == pat
}

/// The first position at or after `from` where `pat` occurs in `s`.
pub open spec fn find_at(s: Seq<char>, pat: Seq<char>, from: int) -> Option<int>
    decreases s.len() - from,
{
    if from < 0 || from + pat.len() > s.len() {
        None
    } else if is_match_at(s, pat, from) {
        Some(from)
    } else if from < s.len() {
        find_at(s, pat, from + 1)
    } else {
        None
    }
}

pub proof fn lemma_find_at_props(s: Seq<char>, pat: Seq<char>, from: int)
    requires
        0 <= from,
    ensures
        match find_at(s, pat, from) {
            Some(i) => is_match_at(s, pat, i) && from <= i && forall|j: int|
                from <= j < i ==> !is_match_at(s, pat, j),
            None => forall|j: int| from <= j ==> !is_match_at(s, pat, j),
        },
    decreases s.len() - from,
{
    if from + pat.len() > s.len() {
        assert forall|j: int| from <= j implies !is_match_at(s, pat, j) by {}
    } else if is_match_at(s, pat, from) {
    } else if from < s.len() {
        lemma_find_at_props(s, pat, from + 1);
    } else {
        assert forall|j: int| from <= j implies !is_match_at(s, pat, j) by {}
    }
}

/// `s` with every occurrence of `pat` replaced by `to`, scanning left to
/// right over the original text; replacement text is not rescanned.
pub open spec fn replace_all_spec(s: Seq<char>, pat: Seq<char>, to: Seq<char>) -> Seq<char>
    decreases s.len(),
{
    if s.len() == 0 {
        s
    } else if pat.len() > 0 && is_match_at(s, pat, 0) {
        to + replace_all_spec(s.skip(pat.len() as int), pat, to)
    } else {
        seq![s[0]] + replace_all_spec(s.skip(1), pat, to)
    }
}

/// `s` with the leftmost occurrence of `pat`, if any, replaced by `to`.
pub open spec fn replace_first_spec(s: Seq<char>, pat: Seq<char>, to: Seq<char>) -> Seq<char> {
    match find_at(s, pat, 0) {
        None => s,
        Some(i) => s.take(i) + to + s.skip(i + pat.len() as int),
    }
}

/// The number of non-overlapping occurrences of `pat` in `s`, scanning left
/// to right.
pub open spec fn count_occ(s: Seq<char>, pat: Seq<char>) -> nat
    decreases s.len(),
{
    if s.len() == 0 || pat.len() == 0 {
        0
    } else if is_match_at(s, pat, 0) {
        1 + count_occ(s.skip(pat.len() as int), pat)
    } else {
        count_occ(s.skip(1), pat)
    }
}

/// The pieces of `s` between the non-overlapping occurrences of `sep`;
/// always at least one piece.
pub open spec fn split_spec(s: Seq<char>, sep: Seq<char>) -> Seq<Seq<char>>
    decreases s.len(),
{
    if s.len() == 0 {
        seq![Seq::<char>::empty()]
    } else if sep.len() > 0 && is_match_at(s, sep, 0) {
        seq![Seq::<char>::empty()] + split_spec(s.skip(sep.len() as int), sep)
    } else {
        let rest = split_spec(s.skip(1), sep);
        seq![seq![s[0]] + rest[0]] + rest.skip(1)
    }
}

pub proof fn lemma_split_spec_len(s: Seq<char>, sep: Seq<char>)
    ensures
        split_spec(s, sep).len() >= 1,
    decreases s.len(),
{
    if s.len() == 0 {
    } else if sep.len() > 0 && is_match_at(s, sep, 0) {
        lemma_split_spec_len(s.skip(sep.len() as int), sep);
    } else {
        lemma_split_spec_len(s.skip(1), sep);
    }
}

/// The whitespace a trim strips: the ASCII blank, tab and line-end
/// characters; other Unicode whitespace is kept.
pub open spec fn is_space(c: char) -> bool {
    c == ' ' || c == '\t' || c == '\r' || c == '\n'
}

pub open spec fn trim_front_spec(s: Seq<char>) -> Seq<char>
    decreases s.len(),
{
    if s.len() > 0 && is_space(s[0]) {
        trim_front_spec(s.skip(1))
    } else {
        s
    }
}

pub open spec fn trim_back_spec(s: Seq<char>) -> Seq<char>
    decreases s.len(),
{
    if s.len() > 0 && is_space(s.last()) {
        trim_back_spec(s.drop_last())
    } else {
        s
    }
}

/// `s` without leading and trailing whitespace.
pub open spec fn trim_spec(s: Seq<char>) -> Seq<char> {
    trim_back_spec(trim_front_spec(s))
}

/// Whether the two views are the same character sequence.
pub fn str_eq(a: &str, b: &str) -> (r: bool)
    ensures
        r == (a@ == b@),
{
    let n = a.unicode_len();
    if n != b.unicode_len() {
        return false;
    }
    let mut i: usize = 0;
    while i < n
        invariant
            n == a@.len(),
            n == b@.len(),
            0 <= i <= n,
            forall|j: int| 0 <= j < i ==> a@[j] == b@[j],
        decreases n - i,
    {
        if a.get_char(i) != b.get_char(i) {
            return false;
        }
        i = i + 1;
    }
    proof {
        assert(a@ =~= b@);
    }
    true
}

/// Whether `pat` occurs in `s` at position `i`.
pub fn matches_at(s: &str, pat: &str, i: usize) -> (r: bool)
    requires
        i <= s@.len(),
    ensures
        r == is_match_at(s@, pat@, i as int),
{
    let n = s.unicode_len();
    let m = pat.unicode_len();
    if m > n - i {
        return false;
    }
    let mut k: usize = 0;
    while k < m
        invariant
            n == s@.len(),
            m == pat@.len(),
            i + m <= n,
            0 <= k <= m,
            forall|j: int| 0 <= j < k ==> s@[i + j] == pat@[j],
        decreases m - k,
    {
        if s.get_char(i + k) != pat.get_char(k) {
            proof {
                assert(s@.subrange(i as int, i + m) != pat@) by {
                    assert(s@.subrange(i as int, i + m)[k as int] == s@[i + k]);
                }
            }
            return false;
        }
        k = k + 1;
    }
    proof {
        assert(s@.subrange(i as int, i + m) =~= pat@);
    }
    true
}

/// The position of the leftmost occurrence of `pat` in `s` at or after
/// `from`, if there is one.
pub fn find_from(s: &str, pat: &str, from: usize) -> (r: Option<usize>)
    requires
        from <= s@.len(),
    ensures
        match r {
            Some(i) => Some(i as int) == find_at(s@, pat@, from as int),
            None => find_at(s@, pat@, from as int) is None,
        },
{
    let n = s.unicode_len();
    let m = pat.unicode_len();
    if m > n {
        proof {
            assert forall|j: int| from <= j implies !is_match_at(s@, pat@, j) by {}
            lemma_find_at_none(s@, pat@, from as int);
        }
        return None;
    }
    if m == 0 {
        proof {
            assert(s@.subrange(from as int, from as int) =~= pat@);
            lemma_find_at_first(s@, pat@, from as int, from as int);
        }
        return Some(from);
    }
    let mut i: usize = from;
    while i <= n - m
        invariant
            n == s@.len(),
            m == pat@.len(),
            0 < m <= n,
            from <= i,
            i <= n + 1,
            forall|j: int| from <= j < i ==> !is_match_at(s@, pat@, j),
        decreases n + 1 - i,
    {
        if matches_at(s, pat, i) {
            proof {
                lemma_find_at_first(s@, pat@, from as int, i as int);
            }
            return Some(i);
        }
        i = i + 1;
    }
    proof {
        assert forall|j: int| from <= j implies !is_match_at(s@, pat@, j) by {
            if j < i {
            } else {
                assert(j + pat@.len() > s@.len());
            }
        }
        lemma_find_at_none(s@, pat@, from as int);
    }
    None
}

proof fn lemma_find_at_first(s: Seq<char>, pat: Seq<char>, from: int, i: int)
    requires
        0 <= from <= i,
        is_match_at(s, pat, i),
        forall|j: int| from <= j < i ==> !is_match_at(s, pat, j),
    ensures
        find_at(s, pat, from) == Some(i),
    decreases i - from,
{
    if from < i {
        lemma_find_at_first(s, pat, from + 1, i);
    }
}

proof fn lemma_find_at_none(s: Seq<char>, pat: Seq<char>, from: int)
    requires
        0 <= from,
        forall|j: int| from <= j ==> !is_match_at(s, pat, j),
    ensures
        find_at(s, pat, from) is None,
{
    lemma_find_at_props(s, pat, from);
    if find_at(s, pat, from) is Some {
        let i = find_at(s, pat, from)->0;
        assert(!is_match_at(s, pat, i));
    }
}

/// Whether `pat` occurs anywhere in `s`.
pub fn contains_pat(s: &str, pat: &str) -> (r: bool)
    ensures
        r == (find_at(s@, pat@, 0) is Some),
{
    find_from(s, pat, 0).is_some()
}

/// Append the characters `s[from..to]` to `out`.
fn push_range(out: &mut String, s: &str, from: usize, to: usize)
    requires
        from <= to <= s@.len(),
    ensures
        final(out)@ == old(out)@ + s@.subrange(from as int, to as int),
{
    let piece = s.substring_char(from, to);
    out.append(piece);
}

/// `s` with every occurrence of `pat` replaced by `to`, leftmost first;
/// the replacement text is not rescanned.
pub fn replace_all(s: &str, pat: &str, to: &str) -> (r: String)
    requires
        pat@.len() > 0,
    ensures
        r@ == replace_all_spec(s@, pat@, to@),
{
    let n = s.unicode_len();
    let m = pat.unicode_len();
    let mut out = String::new();
    let mut i: usize = 0;
    proof {
        assert(s@.skip(0) =~= s@);
        assert(out@ + replace_all_spec(s@, pat@, to@) =~= replace_all_spec(s@, pat@, to@));
    }
    while i < n
        invariant
            n == s@.len(),
            m == pat@.len(),
            m > 0,
            0 <= i <= n,
            replace_all_spec(s@, pat@, to@) == out@ + replace_all_spec(
                s@.skip(i as int),
                pat@,
                to@,
            ),
        decreases n - i,
    {
        let ghost out0 = out@;
        let ghost spec_i = replace_all_spec(s@.skip(i as int), pat@, to@);
        if matches_at(s, pat, i) {
            proof {
                lemma_match_at_skip(s@, pat@, i as int);
                assert(s@.skip(i as int).skip(m as int) =~= s@.skip(i + m));
            }
            out.append(to);
            proof {
                let tail = replace_all_spec(s@.skip(i + m), pat@, to@);
                assert(spec_i == to@ + tail);
                assert((out0 + to@) + tail =~= out0 + (to@ + tail));
            }
            i = i + m;
        } else {
            proof {
                lemma_match_at_skip(s@, pat@, i as int);
                assert(s@.skip(i as int).skip(1) =~= s@.skip(i + 1));
            }
            push_range(&mut out, s, i, i + 1);
            proof {
                let tail = replace_all_spec(s@.skip(i + 1), pat@, to@);
                assert(s@.skip(i as int)[0] == s@[i as int]);
                assert(spec_i == seq![s@[i as int]] + tail);
                assert(s@.subrange(i as int, i + 1) =~= seq![s@[i as int]]);
                assert((out0 + seq![s@[i as int]]) + tail =~= out0 + (seq![s@[i as int]]
                    + tail));
            }
            i = i + 1;
        }
    }
    proof {
        assert(s@.skip(n as int) =~= Seq::<char>::empty());
        assert(out@ + Seq::<char>::empty() =~= out@);
    }
    out
}

/// `is_match_at` looked at through `skip`: matching at `i` in `s` is
/// matching at 0 in `s.skip(i)`.
proof fn lemma_match_at_skip(s: Seq<char>, pat: Seq<char>, i: int)
    requires
        0 <= i <= s.len(),
    ensures
        is_match_at(s.skip(i), pat, 0) == is_match_at(s, pat, i),
{
    if i + pat.len() <= s.len() {
        assert(s.skip(i).subrange(0, pat.len() as int) =~= s.subrange(i, i + pat.len() as int));
    }
}

/// `s` with the leftmost occurrence of `pat`, if any, replaced by `to`.
pub fn replace_first(s: &str, pat: &str, to: &str) -> (r: String)
    ensures
        r@ == replace_first_spec(s@, pat@, to@),
{
    let n = s.unicode_len();
    let m = pat.unicode_len();
    match find_from(s, pat, 0) {
        None => String::from_str(s),
        Some(i) => {
            proof {
                lemma_find_at_props(s@, pat@, 0);
            }
            let mut out = String::new();
            push_range(&mut out, s, 0, i);
            out.append(to);
            push_range(&mut out, s, i + m, n);
            proof {
                assert(s@.subrange(0, i as int) =~= s@.take(i as int));
                assert(s@.subrange(i + m, n as int) =~= s@.skip(i + m));
            }
            out
        },
    }
}

/// The number of non-overlapping occurrences of `pat` in `s`.
pub fn count_matches(s: &str, pat: &str) -> (r: usize)
    requires
        pat@.len() > 0,
    ensures
        r == count_occ(s@, pat@),
{
    let n = s.unicode_len();
    let m = pat.unicode_len();
    let mut count: usize = 0;
    let mut i: usize = 0;
    proof {
        assert(s@.skip(0) =~= s@);
    }
    while i < n
        invariant
            n == s@.len(),
            m == pat@.len(),
            m > 0,
            0 <= i <= n,
            count + count_occ(s@.skip(i as int), pat@) == count_occ(s@, pat@),
            count <= i,
        decreases n - i,
    {
        if matches_at(s, pat, i) {
            proof {
                lemma_match_at_skip(s@, pat@, i as int);
                assert(s@.skip(i as int).skip(m as int) =~= s@.skip(i + m));
            }
            count = count + 1;
            i = i + m;
        } else {
            proof {
                lemma_match_at_skip(s@, pat@, i as int);
                assert(s@.skip(i as int).skip(1) =~= s@.skip(i + 1));
            }
            i = i + 1;
        }
    }
    count
}

/// The views of a vector of strings.
pub open spec fn views_of(v: Seq<String>) -> Seq<Seq<char>> {
    v.map_values(|p: String| p@)
}

/// The pieces of `s` between the occurrences of `sep`.
pub fn split_on(s: &str, sep: &str) -> (r: Vec<String>)
    requires
        sep@.len() > 0,
    ensures
        views_of(r@) == split_spec(s@, sep@),
{
    let n = s.unicode_len();
    let m = sep.unicode_len();
    let mut pieces: Vec<String> = Vec::new();
    let mut current = String::new();
    let mut i: usize = 0;
    proof {
        assert(s@.skip(0) =~= s@);
        lemma_split_spec_len(s@, sep@);
        let whole = split_spec(s@, sep@);
        assert(Seq::<char>::empty() + whole[0] =~= whole[0]);
        assert(prepend_first(Seq::<char>::empty(), whole) =~= whole);
        assert(views_of(pieces@) =~= Seq::<Seq<char>>::empty());
        assert(Seq::<Seq<char>>::empty() + whole =~= whole);
    }
    while i < n
        invariant
            n == s@.len(),
            m == sep@.len(),
            m > 0,
            0 <= i <= n,
            split_spec(s@, sep@) == views_of(pieces@) + prepend_first(
                current@,
                split_spec(s@.skip(i as int), sep@),
            ),
        decreases n - i,
    {
        let ghost ps0 = views_of(pieces@);
        let ghost cur0 = current@;
        if matches_at(s, sep, i) {
            proof {
                lemma_match_at_skip(s@, sep@, i as int);
                assert(s@.skip(i as int).skip(m as int) =~= s@.skip(i + m));
                lemma_split_spec_len(s@.skip(i + m), sep@);
            }
            let finished = current;
            current = String::new();
            pieces.push(finished);
            proof {
                let rest = split_spec(s@.skip(i + m), sep@);
                assert(split_spec(s@.skip(i as int), sep@) == seq![Seq::<char>::empty()]
                    + rest);
                lemma_prepend_first_cons(cur0, rest);
                assert(views_of(pieces@) =~= ps0.push(cur0));
                assert(ps0 + (seq![cur0] + prepend_first(Seq::<char>::empty(), rest))
                    =~= ps0.push(cur0) + prepend_first(Seq::<char>::empty(), rest));
            }
            i = i + m;
        } else {
            proof {
                lemma_match_at_skip(s@, sep@, i as int);
                assert(s@.skip(i as int).skip(1) =~= s@.skip(i + 1));
                lemma_split_spec_len(s@.skip(i + 1), sep@);
            }
            push_range(&mut current, s, i, i + 1);
            proof {
                let rest = split_spec(s@.skip(i + 1), sep@);
                assert(s@.skip(i as int)[0] == s@[i as int]);
                assert(split_spec(s@.skip(i as int), sep@) == seq![seq![s@[i as int]]
                    + rest[0]] + rest.skip(1));
                lemma_prepend_first_grow(cur0, s@[i as int], rest);
                assert(s@.subrange(i as int, i + 1) =~= seq![s@[i as int]]);
                assert(current@ =~= cur0.push(s@[i as int]));
            }
            i = i + 1;
        }
    }
    let ghost ps1 = views_of(pieces@);
    let ghost cur1 = current@;
    pieces.push(current);
    proof {
        assert(s@.skip(n as int) =~= Seq::<char>::empty());
        let rest = split_spec(Seq::<char>::empty(), sep@);
        assert(rest =~= seq![Seq::<char>::empty()]);
        assert(cur1 + rest[0] =~= cur1);
        assert(rest.skip(1) =~= Seq::<Seq<char>>::empty());
        assert(prepend_first(cur1, rest) =~= seq![cur1]);
        assert(views_of(pieces@) =~= ps1.push(cur1));
        assert(ps1 + seq![cur1] =~= ps1.push(cur1));
    }
    pieces
}

/// The first piece of `rest` with `prefix` put in front of it.
pub open spec fn prepend_first(prefix: Seq<char>, rest: Seq<Seq<char>>) -> Seq<Seq<char>> {
    seq![prefix + rest[0]] + rest.skip(1)
}

proof fn lemma_prepend_first_cons(piece: Seq<char>, rest: Seq<Seq<char>>)
    requires
        rest.len() >= 1,
    ensures
        prepend_first(piece, seq![Seq::<char>::empty()] + rest) == seq![piece] + prepend_first(
            Seq::<char>::empty(),
            rest,
        ),
{
    assert((seq![Seq::<char>::empty()] + rest)[0] =~= Seq::<char>::empty());
    assert(piece + (seq![Seq::<char>::empty()] + rest)[0] =~= piece);
    assert((seq![Seq::<char>::empty()] + rest).skip(1) =~= rest);
    assert(Seq::<char>::empty() + rest[0] =~= rest[0]);
    assert(prepend_first(piece, seq![Seq::<char>::empty()] + rest) =~= seq![piece]
        + prepend_first(Seq::<char>::empty(), rest));
}

proof fn lemma_prepend_first_grow(prefix: Seq<char>, c: char, rest: Seq<Seq<char>>)
    requires
        rest.len() >= 1,
    ensures
        prepend_first(prefix, seq![seq![c] + rest[0]] + rest.skip(1)) == prepend_first(
            prefix.push(c),
            rest,
        ),
{
    let grown = seq![seq![c] + rest[0]] + rest.skip(1);
    assert(grown[0] =~= seq![c] + rest[0]);
    assert(prefix + (seq![c] + rest[0]) =~= prefix.push(c) + rest[0]);
    assert(grown.skip(1) =~= rest.skip(1));
    assert(prepend_first(prefix, grown) =~= prepend_first(prefix.push(c), rest));
}

/// `s` without leading and trailing whitespace.
pub fn trim(s: &str) -> (r: String)
    ensures
        r@ == trim_spec(s@),
{
    let n = s.unicode_len();
    let mut start: usize = 0;
    proof {
        assert(s@.skip(0) =~= s@);
    }
    while start < n && is_space_char(s.get_char(start))
        invariant
            n == s@.len(),
            0 <= start <= n,
            trim_front_spec(s@) == trim_front_spec(s@.skip(start as int)),
        decreases n - start,
    {
        proof {
            assert(s@.skip(start as int).skip(1) =~= s@.skip(start + 1));
        }
        start = start + 1;
    }
    proof {
        if start < n {
            assert(s@.skip(start as int)[0] == s@[start as int]);
            assert(trim_front_spec(s@.skip(start as int)) == s@.skip(start as int));
        } else {
            assert(s@.skip(start as int) =~= Seq::<char>::empty());
            assert(trim_front_spec(s@.skip(start as int)) == s@.skip(start as int));
        }
        assert(s@.skip(start as int).take(n - start) =~= s@.skip(start as int));
    }
    let mut end: usize = n;
    while end > start && is_space_char(s.get_char(end - 1))
        invariant
            n == s@.len(),
            0 <= start <= end <= n,
            trim_front_spec(s@) == s@.skip(start as int),
            trim_back_spec(s@.skip(start as int)) == trim_back_spec(
                s@.skip(start as int).take(end - start),
            ),
        decreases end,
    {
        proof {
            let cur = s@.skip(start as int).take(end - start);
            assert(cur.last() == s@[end - 1]);
            assert(cur.drop_last() =~= s@.skip(start as int).take(end - 1 - start));
        }
        end = end - 1;
    }
    proof {
        let cur = s@.skip(start as int).take(end - start);
        if end > start {
            assert(cur.last() == s@[end - 1]);
            assert(trim_back_spec(cur) == cur);
        } else {
            assert(cur =~= Seq::<char>::empty());
        }
        assert(cur =~= s@.subrange(start as int, end as int));
    }
    s.substring_char(start, end)
        .to_owned()
}

/// Exec test for the whitespace characters of `is_space`.
pub fn is_space_char(c: char) -> (r: bool)
    ensures
        r == is_space(c),
{
    c == ' ' || c == '\t' || c == '\r' || c == '\n'
}

} // verus!
