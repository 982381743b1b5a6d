use vstd::prelude::*;
use crate::strutil::{
    contains_pat, count_matches, count_occ, find_at, is_match_at, replace_all, replace_all_spec,
    replace_first, replace_first_spec, str_eq, views_of,
};

verus! {

/// The characters an environment-variable name is made of: ASCII
/// letters, digits and the underscore. Names outside ASCII are not
/// recognized as tokens and stay verbatim.
pub open spec fn is_word_char(c: char) -> bool {
    ('a' <= c && c <= 'z') || ('A' <= c && c <= 'Z') || ('0' <= c && c <= '9') || c == '_'
}

/// Exec test for `is_word_char`.
pub fn word_char(c: char) -> (r: bool)
    ensures
        r == is_word_char(c),
{
    ('a' <= c && c <= 'z') || ('A' <= c && c <= 'Z') || ('0' <= c && c <= '9') || c == '_'
}

/// An environment-variable token starts at `i`: a `$` followed by at least
/// one word character.
pub open spec fn token_start(s: Seq<char>, i: int) -> bool {
    0 <= i && i + 1 < s.len() && s[i] == '$' && is_word_char(s[i + 1])
}

/// The end of the word-character run starting at `j`.
pub open spec fn word_end(s: Seq<char>, j: int) -> int
    decreases s.len() - j,
{
    if j < 0 || j >= s.len() {
        j
    } else if is_word_char(s[j]) {
        word_end(s, j + 1)
    } else {
        j
    }
}

pub proof fn lemma_word_end_bounds(s: Seq<char>, j: int)
    requires
        0 <= j <= s.len(),
    ensures
        j <= word_end(s, j) <= s.len(),
    decreases s.len() - j,
{
    if j < s.len() && is_word_char(s[j]) {
        lemma_word_end_bounds(s, j + 1);
    }
}

/// The name of the token starting at `i` (without its `$`).
pub open spec fn token_name_at(s: Seq<char>, i: int) -> Seq<char> {
    s.subrange(i + 1, word_end(s, i + 1))
}

/// The full token starting at `i` (with its `$`).
pub open spec fn token_at(s: Seq<char>, i: int) -> Seq<char> {
    s.subrange(i, word_end(s, i + 1))
}

/// The value bound to `name`, looking at the earliest binding first.
pub open spec fn env_lookup(env: Seq<(Seq<char>, Seq<char>)>, name: Seq<char>) -> Option<
    Seq<char>,
>
    decreases env.len(),
{
    if env.len() == 0 {
        None
    } else if env[0].0 == name {
        Some(env[0].1)
    } else {
        env_lookup(env.skip(1), name)
    }
}

/// The views of an environment given as string pairs.
pub open spec fn env_views(e: Seq<(String, String)>) -> Seq<(Seq<char>, Seq<char>)> {
    e.map_values(|p: (String, String)| (p.0@, p.1@))
}

/// One scan over `tmpl` from position `i`: at each token whose name is
/// bound, every occurrence of the token in the working string is replaced
/// by the bound value; an unbound token changes nothing.
pub open spec fn env_pass_from(
    tmpl: Seq<char>,
    i: int,
    acc: Seq<char>,
    env: Seq<(Seq<char>, Seq<char>)>,
) -> Seq<char>
    decreases tmpl.len() - i,
{
    if i < 0 || i >= tmpl.len() {
        acc
    } else if token_start(tmpl, i) {
        let acc2 = match env_lookup(env, token_name_at(tmpl, i)) {
            Some(v) => replace_all_spec(acc, token_at(tmpl, i), v),
            None => acc,
        };
        env_pass_from(tmpl, i + 1, acc2, env)
    } else {
        env_pass_from(tmpl, i + 1, acc, env)
    }
}

/// The environment pass of the resolver over a whole template.
pub open spec fn env_pass_spec(tmpl: Seq<char>, env: Seq<(Seq<char>, Seq<char>)>) -> Seq<char> {
    env_pass_from(tmpl, 0, tmpl, env)
}

/// Where no token of the template is bound in the environment, the
/// environment pass leaves the working string untouched: an unset
/// variable token stays verbatim in the output.
pub proof fn lemma_env_pass_unbound(
    tmpl: Seq<char>,
    i: int,
    acc: Seq<char>,
    env: Seq<(Seq<char>, Seq<char>)>,
)
    requires
        forall|j: int| token_start(tmpl, j) ==> env_lookup(env, token_name_at(tmpl, j)) is None,
    ensures
        env_pass_from(tmpl, i, acc, env) == acc,
    decreases tmpl.len() - i,
{
    if 0 <= i < tmpl.len() {
        lemma_env_pass_unbound(tmpl, i + 1, acc, env);
    }
}

/// Look `name` up in the environment pairs.
pub fn lookup_env<'a>(env: &'a Vec<(String, String)>, name: &str) -> (r: Option<&'a String>)
    ensures
        match r {
            Some(v) => env_lookup(env_views(env@), name@) == Some(v@),
            None => env_lookup(env_views(env@), name@) is None,
        },
{
    let ghost ev = env_views(env@);
    let mut k: usize = 0;
    proof {
        assert(ev.skip(0) =~= ev);
    }
    while k < env.len()
        invariant
            0 <= k <= env@.len(),
            ev == env_views(env@),
            env_lookup(ev.skip(k as int), name@) == env_lookup(ev, name@),
            forall|j: int| 0 <= j < k ==> ev[j].0 != name@,
        decreases env@.len() - k,
    {
        if str_eq(env[k].0.as_str(), name) {
            proof {
                assert(ev.skip(k as int)[0] == ev[k as int]);
            }
            return Some(&env[k].1);
        }
        proof {
            assert(ev.skip(k as int)[0] == ev[k as int]);
            assert(ev.skip(k as int).skip(1) =~= ev.skip(k + 1));
        }
        k = k + 1;
    }
    proof {
        assert(ev.skip(k as int) =~= Seq::<(Seq<char>, Seq<char>)>::empty());
    }
    None
}

/// The environment pass: scan `template` for `$name` tokens and replace
/// every occurrence of each bound token with its value; unbound tokens
/// are left as they stand. No error is reported for an unbound token.
pub fn resolve_env_vars(template: &str, env: &Vec<(String, String)>) -> (r: String)
    ensures
        r@ == env_pass_spec(template@, env_views(env@)),
{
    let n = template.unicode_len();
    let mut working = String::from_str(template);
    let mut i: usize = 0;
    while i < n
        invariant
            n == template@.len(),
            0 <= i <= n,
            env_pass_spec(template@, env_views(env@)) == env_pass_from(
                template@,
                i as int,
                working@,
                env_views(env@),
            ),
        decreases n - i,
    {
        let c = template.get_char(i);
        if c == '$' && i + 1 < n && word_char(template.get_char(i + 1)) {
            proof {
                lemma_word_end_bounds(template@, i + 1);
            }
            let mut e: usize = i + 1;
            while e < n && word_char(template.get_char(e))
                invariant
                    n == template@.len(),
                    i + 1 <= e <= n,
                    word_end(template@, i + 1) == word_end(template@, e as int),
                decreases n - e,
            {
                e = e + 1;
            }
            proof {
                assert(word_end(template@, e as int) == e as int);
            }
            let token = template.substring_char(i, e);
            let name = template.substring_char(i + 1, e);
            proof {
                assert(token@ == token_at(template@, i as int));
                assert(name@ == token_name_at(template@, i as int));
                assert(token@.len() > 0);
            }
            match lookup_env(env, name) {
                Some(value) => {
                    working = replace_all(working.as_str(), token, value.as_str());
                },
                None => {},
            }
        }
        i = i + 1;
    }
    working
}

/// The number of positional `{}` markers in a template.
pub fn count_placeholders(template: &str) -> (r: usize)
    ensures
        r == count_occ(template@, "{}"@),
{
    proof {
        reveal_strlit("{}");
    }
    count_matches(template, "{}")
}

/// Whether a template holds at least one positional `{}` marker.
pub fn has_placeholders(template: &str) -> (r: bool)
    ensures
        r == (find_at(template@, "{}"@, 0) is Some),
{
    contains_pat(template, "{}")
}

/// The positional pass: each answer, in order, replaces the leftmost
/// remaining `{}` marker of the working string.
pub open spec fn fill_positional_spec(w: Seq<char>, answers: Seq<Seq<char>>) -> Seq<char>
    decreases answers.len(),
{
    if answers.len() == 0 {
        w
    } else {
        fill_positional_spec(replace_first_spec(w, "{}"@, answers[0]), answers.skip(1))
    }
}

/// Substitute the collected answers into `working`, strictly left to
/// right: the first answer lands in the leftmost marker, the second in
/// the leftmost marker that remains, and so on.
pub fn fill_positional(working: &str, answers: &Vec<String>) -> (r: String)
    ensures
        r@ == fill_positional_spec(working@, views_of(answers@)),
{
    let ghost all = views_of(answers@);
    let mut out = String::from_str(working);
    let mut k: usize = 0;
    proof {
        assert(all.skip(0) =~= all);
    }
    while k < answers.len()
        invariant
            0 <= k <= answers@.len(),
            all == views_of(answers@),
            fill_positional_spec(working@, all) == fill_positional_spec(
                out@,
                all.skip(k as int),
            ),
        decreases answers@.len() - k,
    {
        proof {
            assert(all.skip(k as int)[0] == all[k as int]);
            assert(all.skip(k as int).skip(1) =~= all.skip(k + 1));
        }
        out = replace_first(out.as_str(), "{}", answers[k].as_str());
        k = k + 1;
    }
    proof {
        assert(all.skip(k as int) =~= Seq::<Seq<char>>::empty());
    }
    out
}

/// An answer that can neither hold nor help form a placeholder marker:
/// at least one character, none of them a brace. (The text prompt never
/// hands back an empty answer; an answer carrying a brace can recombine
/// with the template into a fresh marker.)
pub open spec fn safe_answer(a: Seq<char>) -> bool {
    a.len() > 0 && forall|i: int| 0 <= i < a.len() ==> a[i] != '{' && a[i] != '}'
}

/// The marker occurs at `j` exactly when an open brace and a close brace
/// stand there.
proof fn lemma_match_marker(s: Seq<char>, j: int)
    ensures
        is_match_at(s, "{}"@, j) == (0 <= j && j + 2 <= s.len() && s[j] == '{' && s[j + 1]
            == '}'),
{
    reveal_strlit("{}");
    if 0 <= j && j + 2 <= s.len() {
        if s[j] == '{' && s[j + 1] == '}' {
            assert(s.subrange(j, j + 2) =~= "{}"@);
        } else {
            assert(s.subrange(j, j + 2)[0] == s[j]);
            assert(s.subrange(j, j + 2)[1] == s[j + 1]);
        }
    }
}

/// Matching after a skip is matching at the shifted position.
proof fn lemma_match_shift(s: Seq<char>, pat: Seq<char>, c: int, j: int)
    requires
        0 <= c <= s.len(),
        0 <= j,
    ensures
        is_match_at(s.skip(c), pat, j) == is_match_at(s, pat, c + j),
{
    if j + pat.len() <= s.len() - c {
        assert(s.skip(c).subrange(j, j + pat.len() as int) =~= s.subrange(
            c + j,
            c + j + pat.len() as int,
        ));
    }
}

/// Text without braces in front of a string forms no marker and hides
/// none: the marker count is the rest's.
proof fn lemma_count_prepend_brace_free(a: Seq<char>, rest: Seq<char>)
    requires
        forall|i: int| 0 <= i < a.len() ==> a[i] != '{' && a[i] != '}',
    ensures
        count_occ(a + rest, "{}"@) == count_occ(rest, "{}"@),
    decreases a.len(),
{
    reveal_strlit("{}");
    if a.len() == 0 {
        assert(a + rest =~= rest);
    } else {
        lemma_match_marker(a + rest, 0);
        assert((a + rest)[0] == a[0]);
        assert(!is_match_at(a + rest, "{}"@, 0));
        assert((a + rest).skip(1) =~= a.skip(1) + rest);
        lemma_count_prepend_brace_free(a.skip(1), rest);
    }
}

/// Where markers stand, the search finds one.
proof fn lemma_count_pos_find(s: Seq<char>)
    requires
        count_occ(s, "{}"@) >= 1,
    ensures
        find_at(s, "{}"@, 0) is Some,
    decreases s.len(),
{
    reveal_strlit("{}");
    crate::strutil::lemma_find_at_props(s, "{}"@, 0);
    if is_match_at(s, "{}"@, 0) {
        assert(find_at(s, "{}"@, 0) is Some);
    } else {
        assert(s.len() > 0);
        lemma_count_pos_find(s.skip(1));
        let j = find_at(s.skip(1), "{}"@, 0)->0;
        crate::strutil::lemma_find_at_props(s.skip(1), "{}"@, 0);
        lemma_match_shift(s, "{}"@, 1, j);
        assert(is_match_at(s, "{}"@, j + 1));
        if find_at(s, "{}"@, 0) is None {
            assert(!is_match_at(s, "{}"@, j + 1));
        }
    }
}

/// Filling the leftmost marker with a safe answer takes away exactly one
/// marker.
proof fn lemma_replace_first_count(s: Seq<char>, a: Seq<char>)
    requires
        count_occ(s, "{}"@) >= 1,
        safe_answer(a),
    ensures
        count_occ(replace_first_spec(s, "{}"@, a), "{}"@) == count_occ(s, "{}"@) - 1,
    decreases s.len(),
{
    reveal_strlit("{}");
    let m = "{}"@;
    assert(s.len() > 0);
    if is_match_at(s, m, 0) {
        assert(find_at(s, m, 0) == Some(0int));
        assert(replace_first_spec(s, m, a) == s.take(0) + a + s.skip(2));
        assert(s.take(0) + a + s.skip(2) =~= a + s.skip(2));
        lemma_count_prepend_brace_free(a, s.skip(2));
    } else {
        assert(count_occ(s, m) == count_occ(s.skip(1), m));
        lemma_replace_first_count(s.skip(1), a);
        lemma_count_pos_find(s);
        crate::strutil::lemma_find_at_props(s, m, 0);
        let i0 = find_at(s, m, 0)->0;
        assert(is_match_at(s, m, i0) && i0 >= 0);
        assert(i0 != 0);
        lemma_match_shift(s, m, 1, i0 - 1);
        assert(is_match_at(s.skip(1), m, i0 - 1));
        crate::strutil::lemma_find_at_props(s.skip(1), m, 0);
        assert(count_occ(s.skip(1), m) >= 1);
        lemma_count_pos_find(s.skip(1));
        let j = find_at(s.skip(1), m, 0)->0;
        assert(is_match_at(s.skip(1), m, j));
        lemma_match_shift(s, m, 1, j);
        assert(is_match_at(s, m, j + 1));
        assert(i0 <= j + 1);
        assert(j <= i0 - 1);
        assert(i0 == j + 1);
        let r1 = replace_first_spec(s.skip(1), m, a);
        assert(r1 == s.skip(1).take(j) + a + s.skip(1).skip(j + 2));
        let r = replace_first_spec(s, m, a);
        assert(r == s.take(i0) + a + s.skip(i0 + 2));
        assert(r =~= seq![s[0]] + r1) by {
            assert(s.take(i0) =~= seq![s[0]] + s.skip(1).take(j));
            assert(s.skip(i0 + 2) =~= s.skip(1).skip(j + 2));
        }
        lemma_match_marker(seq![s[0]] + r1, 0);
        lemma_match_marker(s, 0);
        assert((seq![s[0]] + r1)[0] == s[0]);
        if j == 0 {
            assert(r1[0] == a[0]);
            assert(a[0] != '}');
        } else {
            assert(r1[0] == s.skip(1).take(j)[0]);
            assert(r1[0] == s[1]);
        }
        assert(!is_match_at(seq![s[0]] + r1, m, 0));
        assert((seq![s[0]] + r1).skip(1) =~= r1);
        assert(count_occ(seq![s[0]] + r1, m) == count_occ(r1, m));
    }
}

/// The law behind a finished resolution: one safe answer per marker of
/// the working string leaves no marker standing — every placeholder is
/// filled.
pub proof fn lemma_fill_positional_no_marker(w: Seq<char>, answers: Seq<Seq<char>>)
    requires
        answers.len() == count_occ(w, "{}"@),
        forall|k: int| 0 <= k < answers.len() ==> safe_answer(#[trigger] answers[k]),
    ensures
        count_occ(fill_positional_spec(w, answers), "{}"@) == 0,
    decreases answers.len(),
{
    if answers.len() > 0 {
        lemma_replace_first_count(w, answers[0]);
        let w2 = replace_first_spec(w, "{}"@, answers[0]);
        assert(forall|k: int|
            0 <= k < answers.skip(1).len() ==> safe_answer(#[trigger] answers.skip(1)[k]));
        lemma_fill_positional_no_marker(w2, answers.skip(1));
    }
}

/// Resolve a template: the environment pass first, the positional pass
/// second, as the retrieval protocol orders them. The answers must be one
/// per `{}` marker of the original template.
pub fn fill_placeholders(
    template: &str,
    env: &Vec<(String, String)>,
    answers: &Vec<String>,
) -> (r: String)
    requires
        answers@.len() == count_occ(template@, "{}"@),
    ensures
        r@ == fill_positional_spec(env_pass_spec(template@, env_views(env@)), views_of(answers@)),
{
    let after_env = resolve_env_vars(template, env);
    fill_positional(after_env.as_str(), answers)
}

} // verus!
