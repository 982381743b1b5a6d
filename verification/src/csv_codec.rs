use vstd::prelude::*;
use crate::cmd_record::CmdRecord;
use crate::strutil::{find_at, is_match_at, lemma_find_at_props, replace_all, replace_all_spec, split_on, split_spec, views_of};

verus! {

/// The flat-file layout: one line per record, `id,command,used_times`,
/// no header. The command field is written quoted, with every quote
/// doubled; a line read back may also carry the command unquoted, in
/// which case the field runs to the next comma.
pub open spec fn is_digit(c: char) -> bool {
    '0' <= c && c <= '9'
}

pub open spec fn digit_val(c: char) -> nat {
    (c as u32 - '0' as u32) as nat
}

pub open spec fn digit_char(d: nat) -> char {
    if d == 0 {
        '0'
    } else if d == 1 {
        '1'
    } else if d == 2 {
        '2'
    } else if d == 3 {
        '3'
    } else if d == 4 {
        '4'
    } else if d == 5 {
        '5'
    } else if d == 6 {
        '6'
    } else if d == 7 {
        '7'
    } else if d == 8 {
        '8'
    } else {
        '9'
    }
}

/// The decimal digits of `n`, most significant first.
pub open spec fn dec_rep(n: nat) -> Seq<char>
    decreases n,
{
    if n < 10 {
        seq![digit_char(n)]
    } else {
        dec_rep(n / 10).push(digit_char(n % 10))
    }
}

pub open spec fn all_digits(s: Seq<char>) -> bool {
    forall|i: int| 0 <= i < s.len() ==> is_digit(s[i])
}

/// The number the digit sequence denotes.
pub open spec fn val_of(s: Seq<char>) -> nat
    decreases s.len(),
{
    if s.len() == 0 {
        0
    } else {
        val_of(s.drop_last()) * 10 + digit_val(s.last())
    }
}

/// A single decimal digit as a string.
fn digit_str(d: usize) -> (r: String)
    requires
        d < 10,
    ensures
        r@ == seq![digit_char(d as nat)],
{
    proof {
        reveal_strlit("0");
        reveal_strlit("1");
        reveal_strlit("2");
        reveal_strlit("3");
        reveal_strlit("4");
        reveal_strlit("5");
        reveal_strlit("6");
        reveal_strlit("7");
        reveal_strlit("8");
        reveal_strlit("9");
    }
    let r = if d == 0 {
        String::from_str("0")
    } else if d == 1 {
        String::from_str("1")
    } else if d == 2 {
        String::from_str("2")
    } else if d == 3 {
        String::from_str("3")
    } else if d == 4 {
        String::from_str("4")
    } else if d == 5 {
        String::from_str("5")
    } else if d == 6 {
        String::from_str("6")
    } else if d == 7 {
        String::from_str("7")
    } else if d == 8 {
        String::from_str("8")
    } else {
        String::from_str("9")
    };
    proof {
        assert(r@ =~= seq![digit_char(d as nat)]);
    }
    r
}

/// `n` written in decimal.
pub fn int_to_string(n: usize) -> (r: String)
    ensures
        r@ == dec_rep(n as nat),
    decreases n,
{
    if n < 10 {
        digit_str(n)
    } else {
        let mut prefix = int_to_string(n / 10);
        let last = digit_str(n % 10);
        prefix.append(last.as_str());
        proof {
            assert(prefix@ =~= dec_rep((n / 10) as nat).push(digit_char((n % 10) as nat)));
        }
        prefix
    }
}

pub proof fn lemma_val_of_take_succ(s: Seq<char>, i: int)
    requires
        0 <= i < s.len(),
    ensures
        val_of(s.take(i + 1)) == val_of(s.take(i)) * 10 + digit_val(s[i]),
{
    assert(s.take(i + 1).drop_last() =~= s.take(i));
    assert(s.take(i + 1).last() == s[i]);
}

pub proof fn lemma_val_of_take_le(s: Seq<char>, i: int, j: int)
    requires
        0 <= i <= j <= s.len(),
    ensures
        val_of(s.take(i)) <= val_of(s.take(j)),
    decreases j - i,
{
    if i < j {
        lemma_val_of_take_le(s, i, j - 1);
        lemma_val_of_take_succ(s, j - 1);
        assert(val_of(s.take(j - 1)) <= val_of(s.take(j - 1)) * 10);
    }
}

/// Read a decimal number: `Some` exactly when the text is one or more
/// digits whose value fits a machine word.
pub fn parse_usize(s: &str) -> (r: Option<usize>)
    ensures
        match r {
            Some(v) => s@.len() > 0 && all_digits(s@) && v == val_of(s@),
            None => s@.len() == 0 || !all_digits(s@) || val_of(s@) > usize::MAX,
        },
{
    let n = s.unicode_len();
    if n == 0 {
        return None;
    }
    let mut acc: usize = 0;
    let mut i: usize = 0;
    proof {
        assert(s@.take(0) =~= Seq::<char>::empty());
    }
    while i < n
        invariant
            n == s@.len(),
            0 <= i <= n,
            forall|j: int| 0 <= j < i ==> is_digit(s@[j]),
            acc == val_of(s@.take(i as int)),
        decreases n - i,
    {
        let c = s.get_char(i);
        if !('0' <= c && c <= '9') {
            return None;
        }
        let d = (c as u32 - '0' as u32) as usize;
        proof {
            lemma_val_of_take_succ(s@, i as int);
        }
        let shifted = match acc.checked_mul(10) {
            Some(v) => v,
            None => {
                proof {
                    lemma_val_of_take_le(s@, i + 1, n as int);
                    assert(s@.take(n as int) =~= s@);
                    assert(val_of(s@.take(i + 1)) >= val_of(s@.take(i as int)) * 10);
                }
                return None;
            },
        };
        acc = match shifted.checked_add(d) {
            Some(v) => v,
            None => {
                proof {
                    lemma_val_of_take_le(s@, i + 1, n as int);
                    assert(s@.take(n as int) =~= s@);
                }
                return None;
            },
        };
        i = i + 1;
    }
    proof {
        assert(s@.take(n as int) =~= s@);
    }
    Some(acc)
}

/// The command field escaped: every quote doubled.
pub open spec fn esc_spec(s: Seq<char>) -> Seq<char> {
    replace_all_spec(s, "\""@, "\"\""@)
}

/// The command field as written: quoted, quotes doubled.
pub open spec fn encode_field_spec(s: Seq<char>) -> Seq<char> {
    "\""@ + esc_spec(s) + "\""@
}

/// One record as a stored line (without the line terminator).
pub open spec fn encode_record_spec(id: nat, command: Seq<char>, count: nat) -> Seq<char> {
    dec_rep(id) + ","@ + encode_field_spec(command) + ","@ + dec_rep(count)
}

/// Write one record as its stored line.
pub fn encode_record(r: &CmdRecord) -> (out: String)
    ensures
        out@ == encode_record_spec(r.id as nat, r.command@, r.used_times as nat),
{
    proof {
        reveal_strlit("\"");
        reveal_strlit("\"\"");
        reveal_strlit(",");
    }
    let mut out = int_to_string(r.id);
    out.append(",");
    out.append("\"");
    let escaped = replace_all(r.command.as_str(), "\"", "\"\"");
    out.append(escaped.as_str());
    out.append("\"");
    out.append(",");
    let count = int_to_string(r.used_times);
    out.append(count.as_str());
    proof {
        assert(out@ =~= encode_record_spec(r.id as nat, r.command@, r.used_times as nat));
    }
    out
}

/// The position of the closing quote of a quoted field, scanning from `i`
/// and stepping over doubled quotes.
pub open spec fn close_quote(s: Seq<char>, i: int) -> Option<int>
    decreases s.len() - i,
{
    if i < 0 || i >= s.len() {
        None
    } else if s[i] == '"' {
        if i + 1 < s.len() && s[i + 1] == '"' {
            close_quote(s, i + 2)
        } else {
            Some(i)
        }
    } else {
        close_quote(s, i + 1)
    }
}

pub proof fn lemma_close_quote_bounds(s: Seq<char>, i: int)
    requires
        0 <= i,
    ensures
        match close_quote(s, i) {
            Some(j) => i <= j < s.len() && s[j] == '"',
            None => true,
        },
    decreases s.len() - i,
{
    if 0 <= i < s.len() {
        if s[i] == '"' {
            if i + 1 < s.len() && s[i + 1] == '"' {
                lemma_close_quote_bounds(s, i + 2);
            }
        } else {
            lemma_close_quote_bounds(s, i + 1);
        }
    }
}

/// The doubled quotes of a stored command field put back.
pub open spec fn unesc_spec(s: Seq<char>) -> Seq<char> {
    replace_all_spec(s, "\"\""@, "\""@)
}

/// What one stored line denotes, if it is well formed: the id, the
/// command text, and the usage count. A quoted command field ends at its
/// closing quote; an unquoted one runs to the next comma.
pub open spec fn parse_line_spec(s: Seq<char>) -> Option<(nat, Seq<char>, nat)> {
    match find_at(s, ","@, 0) {
        None => None,
        Some(i1) => {
            let ids = s.take(i1);
            if ids.len() == 0 || !all_digits(ids) || val_of(ids) > usize::MAX {
                None
            } else {
                let rest = s.skip(i1 + 1);
                if rest.len() > 0 && rest[0] == '"' {
                    match close_quote(rest, 1) {
                        None => None,
                        Some(j) => {
                            let command = unesc_spec(rest.subrange(1, j));
                            if j + 1 < rest.len() && rest[j + 1] == ',' {
                                let counts = rest.skip(j + 2);
                                if counts.len() == 0 || !all_digits(counts) || val_of(counts)
                                    > usize::MAX {
                                    None
                                } else {
                                    Some((val_of(ids), command, val_of(counts)))
                                }
                            } else {
                                None
                            }
                        },
                    }
                } else {
                    match find_at(rest, ","@, 0) {
                        None => None,
                        Some(i2) => {
                            let command = rest.take(i2);
                            let counts = rest.skip(i2 + 1);
                            if counts.len() == 0 || !all_digits(counts) || val_of(counts)
                                > usize::MAX {
                                None
                            } else {
                                Some((val_of(ids), command, val_of(counts)))
                            }
                        },
                    }
                }
            }
        },
    }
}

/// Find the closing quote of a quoted field by scanning.
fn find_close_quote(s: &str, start: usize) -> (r: Option<usize>)
    requires
        1 <= start <= s@.len(),
    ensures
        match r {
            Some(j) => close_quote(s@, start as int) == Some(j as int) && start <= j < s@.len(),
            None => close_quote(s@, start as int) is None,
        },
{
    let n = s.unicode_len();
    let mut i: usize = start;
    while i < n
        invariant
            n == s@.len(),
            start <= i,
            i <= n + 1,
            close_quote(s@, start as int) == close_quote(s@, i as int),
        decreases n - i,
    {
        if s.get_char(i) == '"' {
            if i + 1 < n && s.get_char(i + 1) == '"' {
                i = i + 2;
            } else {
                return Some(i);
            }
        } else {
            i = i + 1;
        }
    }
    None
}

/// Read one stored line back.
pub fn parse_line(line: &str) -> (r: Option<CmdRecord>)
    ensures
        match r {
            Some(rec) => parse_line_spec(line@) == Some(
                (rec.id as nat, rec.command@, rec.used_times as nat),
            ),
            None => parse_line_spec(line@) is None,
        },
{
    proof {
        reveal_strlit(",");
        reveal_strlit("\"");
        reveal_strlit("\"\"");
    }
    let n = line.unicode_len();
    let i1 = match crate::strutil::find_from(line, ",", 0) {
        None => {
            return None;
        },
        Some(i) => i,
    };
    proof {
        lemma_find_at_props(line@, ","@, 0);
    }
    let ids = line.substring_char(0, i1);
    proof {
        assert(line@.subrange(0, i1 as int) =~= line@.take(i1 as int));
    }
    let id = match parse_usize(ids) {
        None => {
            return None;
        },
        Some(v) => v,
    };
    let rest = line.substring_char(i1 + 1, n);
    proof {
        assert(line@.subrange(i1 + 1, n as int) =~= line@.skip(i1 + 1));
    }
    let rn = rest.unicode_len();
    if rn > 0 && rest.get_char(0) == '"' {
        let j = match find_close_quote(rest, 1) {
            None => {
                return None;
            },
            Some(j) => j,
        };
        let inner = rest.substring_char(1, j);
        let command = replace_all(inner, "\"\"", "\"");
        proof {
            assert(rest@.subrange(1, j as int) =~= rest@.subrange(1, j as int));
            assert(command@ == unesc_spec(rest@.subrange(1, j as int)));
        }
        if j + 1 < rn && rest.get_char(j + 1) == ',' {
            let counts = rest.substring_char(j + 2, rn);
            proof {
                assert(rest@.subrange(j + 2, rn as int) =~= rest@.skip(j + 2));
            }
            match parse_usize(counts) {
                None => None,
                Some(count) => Some(CmdRecord { id, command, used_times: count }),
            }
        } else {
            None
        }
    } else {
        let i2 = match crate::strutil::find_from(rest, ",", 0) {
            None => {
                return None;
            },
            Some(i) => i,
        };
        proof {
            lemma_find_at_props(rest@, ","@, 0);
        }
        let command_str = rest.substring_char(0, i2);
        let command = String::from_str(command_str);
        proof {
            assert(rest@.subrange(0, i2 as int) =~= rest@.take(i2 as int));
        }
        let counts = rest.substring_char(i2 + 1, rn);
        proof {
            assert(rest@.subrange(i2 + 1, rn as int) =~= rest@.skip(i2 + 1));
        }
        match parse_usize(counts) {
            None => None,
            Some(count) => Some(CmdRecord { id, command, used_times: count }),
        }
    }
}

proof fn lemma_match_single(s: Seq<char>, c: char, j: int)
    ensures
        is_match_at(s, seq![c], j) == (0 <= j < s.len() && s[j] == c),
{
    if 0 <= j && j + 1 <= s.len() {
        if s[j] == c {
            assert(s.subrange(j, j + 1) =~= seq![c]);
        } else {
            assert(s.subrange(j, j + 1)[0] == s[j]);
        }
    }
}

proof fn lemma_match_qq(s: Seq<char>, j: int)
    ensures
        is_match_at(s, "\"\""@, j) == (0 <= j && j + 2 <= s.len() && s[j] == '"' && s[j + 1]
            == '"'),
{
    reveal_strlit("\"\"");
    if 0 <= j && j + 2 <= s.len() {
        if s[j] == '"' && s[j + 1] == '"' {
            assert(s.subrange(j, j + 2) =~= "\"\""@);
        } else {
            assert(s.subrange(j, j + 2)[0] == s[j]);
            assert(s.subrange(j, j + 2)[1] == s[j + 1]);
        }
    }
}

/// Decimal digits are digits, and at least one of them stands there.
pub proof fn lemma_dec_rep_digits(n: nat)
    ensures
        all_digits(dec_rep(n)),
        dec_rep(n).len() >= 1,
    decreases n,
{
    if n < 10 {
        assert(is_digit(dec_rep(n)[0]));
    } else {
        lemma_dec_rep_digits(n / 10);
        let d = dec_rep(n);
        assert(d.drop_last() =~= dec_rep(n / 10));
        assert forall|i: int| 0 <= i < d.len() implies is_digit(d[i]) by {
            if i < d.len() - 1 {
                assert(d[i] == dec_rep(n / 10)[i]);
            }
        }
    }
}

/// Writing a number and reading it back gives the number.
pub proof fn lemma_val_dec_rep(n: nat)
    ensures
        val_of(dec_rep(n)) == n,
    decreases n,
{
    if n < 10 {
        assert(dec_rep(n) == seq![digit_char(n)]);
        assert(seq![digit_char(n)].drop_last() =~= Seq::<char>::empty());
        assert(seq![digit_char(n)].last() == digit_char(n));
        assert(val_of(dec_rep(n)) == val_of(Seq::<char>::empty()) * 10 + digit_val(
            digit_char(n),
        ));
        assert(digit_val(digit_char(n)) == n);
    } else {
        lemma_val_dec_rep(n / 10);
        let d = dec_rep(n);
        assert(d.drop_last() =~= dec_rep(n / 10));
        assert(d.last() == digit_char(n % 10));
        assert(digit_val(digit_char(n % 10)) == n % 10);
        assert(val_of(d) == (n / 10) * 10 + n % 10);
    }
}

/// Where `c` first occurs at `pos` and nowhere before, the search finds
/// exactly `pos`.
proof fn lemma_find_single_at(s: Seq<char>, c: char, pos: int)
    requires
        0 <= pos < s.len(),
        s[pos] == c,
        forall|j: int| 0 <= j < pos ==> s[j] != c,
    ensures
        find_at(s, seq![c], 0) == Some(pos),
{
    lemma_find_at_props(s, seq![c], 0);
    assert(is_match_at(s, seq![c], pos)) by {
        lemma_match_single(s, c, pos);
    }
    match find_at(s, seq![c], 0) {
        Some(i) => {
            lemma_match_single(s, c, i);
            if i < pos {
                assert(s[i] != c);
            }
            if i > pos {
                assert(!is_match_at(s, seq![c], pos));
            }
        },
        None => {
            assert(!is_match_at(s, seq![c], pos));
        },
    }
}

/// The escaped field, unfolded one source character at a time.
proof fn lemma_esc_unfold(s: Seq<char>)
    ensures
        s.len() == 0 ==> esc_spec(s) == Seq::<char>::empty(),
        s.len() > 0 && s[0] != '"' ==> esc_spec(s) == seq![s[0]] + esc_spec(s.skip(1)),
        s.len() > 0 && s[0] == '"' ==> esc_spec(s) == "\"\""@ + esc_spec(s.skip(1)),
{
    reveal_strlit("\"");
    reveal_strlit("\"\"");
    if s.len() > 0 {
        lemma_match_single(s, '"', 0);
        assert(seq!['"'] =~= "\""@);
        if s[0] == '"' {
            assert(is_match_at(s, "\""@, 0));
            assert(esc_spec(s) == "\"\""@ + esc_spec(s.skip(1)));
        } else {
            assert(!is_match_at(s, "\""@, 0));
            assert(esc_spec(s) == seq![s[0]] + esc_spec(s.skip(1)));
        }
    }
}

/// Scanning from `i` over the escaped field lands on the closing quote
/// right after it.
proof fn lemma_close_quote_esc(w: Seq<char>, s: Seq<char>, i: int)
    requires
        1 <= i,
        i + esc_spec(s).len() < w.len(),
        w.subrange(i, i + esc_spec(s).len() as int) == esc_spec(s),
        w[i + esc_spec(s).len()] == '"',
        i + esc_spec(s).len() + 1 < w.len() ==> w[i + esc_spec(s).len() + 1] != '"',
    ensures
        close_quote(w, i) == Some(i + esc_spec(s).len()),
    decreases s.len(),
{
    reveal_strlit("\"");
    reveal_strlit("\"\"");
    lemma_esc_unfold(s);
    let e = esc_spec(s);
    if s.len() == 0 {
        assert(close_quote(w, i) == Some(i));
    } else if s[0] != '"' {
        assert(e[0] == s[0]);
        assert(w[i] == s[0]);
        let tail = esc_spec(s.skip(1));
        assert(w.subrange(i + 1, i + 1 + tail.len() as int) =~= tail) by {
            assert forall|j: int| 0 <= j < tail.len() implies w.subrange(
                i + 1,
                i + 1 + tail.len() as int,
            )[j] == tail[j] by {
                assert(w.subrange(i, i + e.len() as int)[j + 1] == e[j + 1]);
                assert(e[j + 1] == tail[j]);
            }
        }
        lemma_close_quote_esc(w, s.skip(1), i + 1);
        assert(s[0] != '"' ==> w[i] != '"');
    } else {
        assert(e[0] == '"' && e[1] == '"');
        assert(w[i] == '"' && w[i + 1] == '"');
        let tail = esc_spec(s.skip(1));
        assert(w.subrange(i + 2, i + 2 + tail.len() as int) =~= tail) by {
            assert forall|j: int| 0 <= j < tail.len() implies w.subrange(
                i + 2,
                i + 2 + tail.len() as int,
            )[j] == tail[j] by {
                assert(w.subrange(i, i + e.len() as int)[j + 2] == e[j + 2]);
                assert(e[j + 2] == tail[j]);
            }
        }
        lemma_close_quote_esc(w, s.skip(1), i + 2);
    }
}

/// Doubling the quotes and undoubling them gives the text back.
pub proof fn lemma_unesc_esc(s: Seq<char>)
    ensures
        unesc_spec(esc_spec(s)) == s,
    decreases s.len(),
{
    reveal_strlit("\"");
    reveal_strlit("\"\"");
    lemma_esc_unfold(s);
    let e = esc_spec(s);
    if s.len() == 0 {
        assert(unesc_spec(e) == e);
    } else if s[0] != '"' {
        let tail = esc_spec(s.skip(1));
        lemma_match_qq(e, 0);
        assert(e[0] == s[0]);
        assert(!is_match_at(e, "\"\""@, 0));
        assert(e.skip(1) =~= tail);
        lemma_unesc_esc(s.skip(1));
        assert(unesc_spec(e) == seq![e[0]] + unesc_spec(e.skip(1)));
        assert(seq![s[0]] + s.skip(1) =~= s);
    } else {
        let tail = esc_spec(s.skip(1));
        lemma_match_qq(e, 0);
        assert(e[0] == '"' && e[1] == '"');
        assert(is_match_at(e, "\"\""@, 0));
        assert(e.skip(2) =~= tail);
        lemma_unesc_esc(s.skip(1));
        assert(unesc_spec(e) == "\""@ + unesc_spec(e.skip(2)));
        assert("\""@ + s.skip(1) =~= s);
    }
}

/// The round trip of one record through its stored line: writing a
/// record and reading the line back gives the same id, text and count.
pub proof fn lemma_line_round_trip(id: nat, command: Seq<char>, count: nat)
    requires
        id <= usize::MAX,
        count <= usize::MAX,
    ensures
        parse_line_spec(encode_record_spec(id, command, count)) == Some((id, command, count)),
{
    reveal_strlit(",");
    reveal_strlit("\"");
    reveal_strlit("\"\"");
    let ids = dec_rep(id);
    let e = esc_spec(command);
    let counts = dec_rep(count);
    let s = encode_record_spec(id, command, count);
    lemma_dec_rep_digits(id);
    lemma_dec_rep_digits(count);
    lemma_val_dec_rep(id);
    lemma_val_dec_rep(count);
    let il = ids.len() as int;
    let el = e.len() as int;
    assert(s.len() == il + 1 + 1 + el + 1 + 1 + counts.len());
    assert forall|j: int| 0 <= j < il implies s[j] == ids[j] by {}
    assert(s[il] == ',');
    assert(seq![','] =~= ","@);
    lemma_find_single_at(s, ',', il);
    assert(s.take(il) =~= ids);
    let rest = s.skip(il + 1);
    assert(rest.len() == 1 + el + 1 + 1 + counts.len());
    assert(rest[0] == '"');
    assert(rest.subrange(1, 1 + el) =~= e);
    assert(rest[1 + el] == '"');
    assert(rest[1 + el + 1] == ',');
    lemma_close_quote_esc(rest, command, 1);
    assert(close_quote(rest, 1) == Some(1 + el));
    lemma_unesc_esc(command);
    assert(rest.skip(1 + el + 2) =~= counts);
}

/// A line with its trailing carriage return, if any, stripped.
pub open spec fn strip_cr(l: Seq<char>) -> Seq<char> {
    if l.len() > 0 && l.last() == '\r' {
        l.drop_last()
    } else {
        l
    }
}

/// What a whole stored file denotes: each line that parses contributes a
/// record, in file order; lines that do not parse are passed over.
pub open spec fn parse_lines_spec(ls: Seq<Seq<char>>) -> Seq<(nat, Seq<char>, nat)>
    decreases ls.len(),
{
    if ls.len() == 0 {
        Seq::empty()
    } else {
        parse_lines_spec(ls.drop_last()) + match parse_line_spec(strip_cr(ls.last())) {
            Some(t) => seq![t],
            None => Seq::empty(),
        }
    }
}

pub open spec fn parse_content_spec(s: Seq<char>) -> Seq<(nat, Seq<char>, nat)> {
    parse_lines_spec(split_spec(s, "\n"@))
}

/// The id, text and count of each record, in order.
pub open spec fn tuples_of(s: Seq<CmdRecord>) -> Seq<(nat, Seq<char>, nat)> {
    s.map_values(|r: CmdRecord| (r.id as nat, r.command@, r.used_times as nat))
}

/// Read a whole stored file back.
pub fn parse_content(content: &str) -> (r: Vec<CmdRecord>)
    ensures
        tuples_of(r@) == parse_content_spec(content@),
{
    proof {
        reveal_strlit("\n");
        reveal_strlit("\r");
    }
    let lines = split_on(content, "\n");
    let ghost lviews = split_spec(content@, "\n"@);
    let mut out: Vec<CmdRecord> = Vec::new();
    let mut k: usize = 0;
    proof {
        assert(views_of(lines@) == lviews);
        assert(tuples_of(out@) =~= Seq::<(nat, Seq<char>, nat)>::empty());
        assert(lviews.take(0) =~= Seq::<Seq<char>>::empty());
    }
    while k < lines.len()
        invariant
            views_of(lines@) == lviews,
            0 <= k <= lines@.len(),
            tuples_of(out@) == parse_lines_spec(lviews.take(k as int)),
        decreases lines@.len() - k,
    {
        proof {
            reveal_strlit("\r");
            assert(lviews.take(k + 1).drop_last() =~= lviews.take(k as int));
            assert(lviews.take(k + 1).last() == lviews[k as int]);
            assert(lines@[k as int]@ == lviews[k as int]);
        }
        let line = &lines[k];
        let ln = line.unicode_len();
        let stripped: &str = if ln > 0 && line.as_str().get_char(ln - 1) == '\r' {
            proof {
                assert(line@.subrange(0, ln - 1) =~= line@.drop_last());
            }
            line.as_str().substring_char(0, ln - 1)
        } else {
            line.as_str()
        };
        proof {
            assert(stripped@ == strip_cr(lviews[k as int]));
        }
        match parse_line(stripped) {
            Some(rec) => {
                let ghost prev = out@;
                out.push(rec);
                proof {
                    assert(tuples_of(out@) =~= tuples_of(prev).push(
                        (rec.id as nat, rec.command@, rec.used_times as nat),
                    ));
                    assert(tuples_of(prev) + seq![
                        (rec.id as nat, rec.command@, rec.used_times as nat),
                    ] =~= tuples_of(prev).push((rec.id as nat, rec.command@, rec.used_times as nat)));
                }
            },
            None => {
                proof {
                    assert(tuples_of(out@) + Seq::<(nat, Seq<char>, nat)>::empty() =~= tuples_of(
                        out@,
                    ));
                }
            },
        }
        k = k + 1;
    }
    proof {
        assert(lviews.take(k as int) =~= lviews);
    }
    out
}

/// Each record as its stored line, each line terminated.
pub open spec fn encode_records_spec(s: Seq<CmdRecord>) -> Seq<char>
    decreases s.len(),
{
    if s.len() == 0 {
        Seq::empty()
    } else {
        encode_records_spec(s.drop_last()) + encode_record_spec(
            s.last().id as nat,
            s.last().command@,
            s.last().used_times as nat,
        ) + "\n"@
    }
}

/// Write the records as a whole stored file.
pub fn encode_records(records: &Vec<CmdRecord>) -> (r: String)
    ensures
        r@ == encode_records_spec(records@),
{
    proof {
        reveal_strlit("\n");
    }
    let mut out = String::new();
    let mut k: usize = 0;
    proof {
        assert(records@.take(0) =~= Seq::<CmdRecord>::empty());
        assert(out@ =~= encode_records_spec(records@.take(0)));
    }
    while k < records.len()
        invariant
            0 <= k <= records@.len(),
            out@ == encode_records_spec(records@.take(k as int)),
        decreases records@.len() - k,
    {
        proof {
            reveal_strlit("\n");
            assert(records@.take(k + 1).drop_last() =~= records@.take(k as int));
            assert(records@.take(k + 1).last() == records@[k as int]);
        }
        let line = encode_record(&records[k]);
        out.append(line.as_str());
        out.append("\n");
        k = k + 1;
    }
    proof {
        assert(records@.take(k as int) =~= records@);
    }
    out
}

/// One record's stored line.
pub open spec fn line_of(r: CmdRecord) -> Seq<char> {
    encode_record_spec(r.id as nat, r.command@, r.used_times as nat)
}

/// The stored file, unfolded one record at a time from the front.
proof fn lemma_encode_records_front(s: Seq<CmdRecord>)
    requires
        s.len() > 0,
    ensures
        encode_records_spec(s) == line_of(s[0]) + seq!['\n'] + encode_records_spec(s.skip(1)),
    decreases s.len(),
{
    reveal_strlit("\n");
    assert("\n"@ =~= seq!['\n']);
    if s.len() == 1 {
        assert(s.drop_last() =~= Seq::<CmdRecord>::empty());
        assert(s.skip(1) =~= Seq::<CmdRecord>::empty());
        assert(encode_records_spec(s) =~= line_of(s[0]) + seq!['\n'] + encode_records_spec(
            s.skip(1),
        ));
    } else {
        lemma_encode_records_front(s.drop_last());
        assert(s.drop_last()[0] == s[0]);
        assert(s.drop_last().skip(1) =~= s.skip(1).drop_last());
        assert(s.skip(1).last() == s.last());
        assert(encode_records_spec(s.skip(1)) == encode_records_spec(s.skip(1).drop_last())
            + line_of(s.last()) + "\n"@);
        assert(encode_records_spec(s) =~= line_of(s[0]) + seq!['\n'] + encode_records_spec(
            s.skip(1),
        ));
    }
}

/// No character of the escaped field is a newline where none of the
/// source is.
proof fn lemma_esc_no_newline(s: Seq<char>)
    requires
        forall|i: int| 0 <= i < s.len() ==> s[i] != '\n',
    ensures
        forall|i: int| 0 <= i < esc_spec(s).len() ==> esc_spec(s)[i] != '\n',
    decreases s.len(),
{
    lemma_esc_unfold(s);
    if s.len() > 0 {
        assert(forall|i: int| 0 <= i < s.skip(1).len() ==> s.skip(1)[i] != '\n');
        lemma_esc_no_newline(s.skip(1));
        let e = esc_spec(s);
        let tail = esc_spec(s.skip(1));
        assert forall|i: int| 0 <= i < e.len() implies e[i] != '\n' by {
            if s[0] != '"' {
                if i > 0 {
                    assert(e[i] == tail[i - 1]);
                }
            } else {
                reveal_strlit("\"\"");
                if i >= 2 {
                    assert(e[i] == tail[i - 2]);
                }
            }
        }
    }
}

/// No character of a stored line is a newline where the command holds
/// none, and the line never ends in a carriage return.
proof fn lemma_line_chars(r: CmdRecord)
    requires
        forall|i: int| 0 <= i < r.command@.len() ==> r.command@[i] != '\n',
    ensures
        forall|i: int| 0 <= i < line_of(r).len() ==> line_of(r)[i] != '\n',
        line_of(r).len() > 0,
        line_of(r).last() != '\r',
{
    reveal_strlit(",");
    reveal_strlit("\"");
    lemma_dec_rep_digits(r.id as nat);
    lemma_dec_rep_digits(r.used_times as nat);
    lemma_esc_no_newline(r.command@);
    let ids = dec_rep(r.id as nat);
    let e = esc_spec(r.command@);
    let counts = dec_rep(r.used_times as nat);
    let l = line_of(r);
    assert(l.len() == ids.len() + 1 + 1 + e.len() + 1 + 1 + counts.len());
    assert forall|i: int| 0 <= i < l.len() implies l[i] != '\n' by {
        let il = ids.len() as int;
        let el = e.len() as int;
        if i < il {
            assert(l[i] == ids[i]);
            assert(is_digit(ids[i]));
        } else if i == il || i == il + 1 || i == il + 2 + el || i == il + 3 + el {
        } else if il + 2 <= i < il + 2 + el {
            assert(l[i] == e[i - il - 2]);
        } else {
            assert(l[i] == counts[i - (il + 4 + el)]);
            assert(is_digit(counts[i - (il + 4 + el)]));
        }
    }
    assert(l.last() == counts.last());
    assert(is_digit(counts.last()));
}

/// Splitting at the first line terminator of a terminator-free line.
proof fn lemma_split_prefix(a: Seq<char>, b: Seq<char>)
    requires
        forall|i: int| 0 <= i < a.len() ==> a[i] != '\n',
    ensures
        split_spec(a + seq!['\n'] + b, "\n"@) == seq![a] + split_spec(b, "\n"@),
    decreases a.len(),
{
    reveal_strlit("\n");
    assert("\n"@ =~= seq!['\n']);
    let s = a + seq!['\n'] + b;
    if a.len() == 0 {
        lemma_match_single(s, '\n', 0);
        assert(s[0] == '\n');
        assert(is_match_at(s, "\n"@, 0));
        assert(s.len() == 1 + b.len());
        assert(split_spec(s, "\n"@) == seq![Seq::<char>::empty()] + split_spec(b, "\n"@)) by {
            reveal_with_fuel(crate::strutil::split_spec, 2);
            assert("\n"@.len() == 1);
            assert(s.skip("\n"@.len() as int) =~= b);
        }
        assert(a =~= Seq::<char>::empty());
        assert(seq![Seq::<char>::empty()] + split_spec(b, "\n"@) =~= seq![a] + split_spec(
            b,
            "\n"@,
        ));
    } else {
        lemma_match_single(s, '\n', 0);
        assert(s[0] == a[0]);
        assert(!is_match_at(s, "\n"@, 0));
        assert(s.skip(1) =~= a.skip(1) + seq!['\n'] + b);
        assert(forall|i: int| 0 <= i < a.skip(1).len() ==> a.skip(1)[i] != '\n');
        lemma_split_prefix(a.skip(1), b);
        let rest = split_spec(s.skip(1), "\n"@);
        crate::strutil::lemma_split_spec_len(b, "\n"@);
        assert(rest == seq![a.skip(1)] + split_spec(b, "\n"@));
        assert(rest[0] == a.skip(1));
        assert(split_spec(s, "\n"@) == seq![seq![s[0]] + rest[0]] + rest.skip(1));
        assert(seq![s[0]] + a.skip(1) =~= a);
        assert(rest.skip(1) =~= split_spec(b, "\n"@));
        assert(seq![seq![s[0]] + rest[0]] + rest.skip(1) =~= seq![a] + split_spec(b, "\n"@));
    }
}

/// The parsed lines, unfolded one line at a time from the front.
proof fn lemma_parse_lines_front(ls: Seq<Seq<char>>)
    requires
        ls.len() > 0,
    ensures
        parse_lines_spec(ls) == (match parse_line_spec(strip_cr(ls[0])) {
            Some(t) => seq![t],
            None => Seq::<(nat, Seq<char>, nat)>::empty(),
        }) + parse_lines_spec(ls.skip(1)),
    decreases ls.len(),
{
    let head = match parse_line_spec(strip_cr(ls[0])) {
        Some(t) => seq![t],
        None => Seq::<(nat, Seq<char>, nat)>::empty(),
    };
    if ls.len() == 1 {
        assert(ls.drop_last() =~= Seq::<Seq<char>>::empty());
        assert(ls.skip(1) =~= Seq::<Seq<char>>::empty());
        assert(ls.last() == ls[0]);
        assert(parse_lines_spec(ls) =~= head + parse_lines_spec(ls.skip(1)));
    } else {
        lemma_parse_lines_front(ls.drop_last());
        assert(ls.drop_last()[0] == ls[0]);
        assert(ls.drop_last().skip(1) =~= ls.skip(1).drop_last());
        assert(ls.skip(1).last() == ls.last());
        assert(parse_lines_spec(ls.skip(1)) == parse_lines_spec(ls.skip(1).drop_last())
            + (match parse_line_spec(strip_cr(ls.last())) {
            Some(t) => seq![t],
            None => Seq::<(nat, Seq<char>, nat)>::empty(),
        }));
        assert(parse_lines_spec(ls) =~= head + parse_lines_spec(ls.skip(1)));
    }
}

/// The round trip of a whole store through its stored file: writing the
/// records and reading the file back gives the same ids, texts and
/// counts, in the same order, as long as no command text holds a line
/// terminator.
pub proof fn lemma_content_round_trip(records: Seq<CmdRecord>)
    requires
        forall|k: int, i: int|
            0 <= k < records.len() && 0 <= i < records[k].command@.len() ==> (
            #[trigger] records[k].command@[i]) != '\n',
    ensures
        parse_content_spec(encode_records_spec(records)) == tuples_of(records),
    decreases records.len(),
{
    reveal_strlit("\n");
    reveal_strlit(",");
    assert("\n"@ =~= seq!['\n']);
    if records.len() == 0 {
        let content = encode_records_spec(records);
        assert(content =~= Seq::<char>::empty());
        assert(split_spec(content, "\n"@) =~= seq![Seq::<char>::empty()]);
        let empty_line = Seq::<char>::empty();
        assert(strip_cr(empty_line) == empty_line);
        assert(find_at(empty_line, ","@, 0) is None);
        assert(parse_line_spec(empty_line) is None);
        assert(seq![empty_line].drop_last() =~= Seq::<Seq<char>>::empty());
        assert(seq![empty_line].last() == empty_line);
        assert(parse_lines_spec(Seq::<Seq<char>>::empty()) =~= Seq::<
            (nat, Seq<char>, nat),
        >::empty());
        assert(parse_lines_spec(seq![empty_line]) =~= Seq::<(nat, Seq<char>, nat)>::empty());
        assert(tuples_of(records) =~= Seq::<(nat, Seq<char>, nat)>::empty());
    } else {
        let r0 = records[0];
        lemma_encode_records_front(records);
        lemma_line_chars(r0);
        lemma_split_prefix(line_of(r0), encode_records_spec(records.skip(1)));
        assert(line_of(r0) + seq!['\n'] + encode_records_spec(records.skip(1))
            == encode_records_spec(records));
        let lines = split_spec(encode_records_spec(records), "\n"@);
        assert(lines == seq![line_of(r0)] + split_spec(
            encode_records_spec(records.skip(1)),
            "\n"@,
        ));
        crate::strutil::lemma_split_spec_len(encode_records_spec(records.skip(1)), "\n"@);
        assert(lines.len() > 0);
        assert(lines[0] == line_of(r0));
        lemma_parse_lines_front(lines);
        assert(strip_cr(line_of(r0)) == line_of(r0));
        lemma_line_round_trip(r0.id as nat, r0.command@, r0.used_times as nat);
        assert(forall|k: int, i: int|
            0 <= k < records.skip(1).len() && 0 <= i < records.skip(1)[k].command@.len()
                ==> (#[trigger] records.skip(1)[k].command@[i]) != '\n') by {
            assert(forall|k: int|
                0 <= k < records.skip(1).len() ==> records.skip(1)[k] == records[k + 1]);
        }
        lemma_content_round_trip(records.skip(1));
        assert(lines.skip(1) =~= split_spec(encode_records_spec(records.skip(1)), "\n"@));
        assert(parse_lines_spec(lines) == seq![
            (r0.id as nat, r0.command@, r0.used_times as nat),
        ] + tuples_of(records.skip(1)));
        assert(tuples_of(records) =~= seq![(r0.id as nat, r0.command@, r0.used_times as nat)]
            + tuples_of(records.skip(1)));
    }
}

} // verus!
