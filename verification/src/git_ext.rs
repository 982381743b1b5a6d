use vstd::prelude::*;
use crate::cmd_record::CmdRecord;
use crate::error::CmdError;
use crate::resolver::{fill_positional, fill_positional_spec};
use crate::strutil::{split_on, split_spec, trim, trim_spec, views_of};

verus! {

/// The exact template strings the git-workflow extension understands.
pub open spec fn known_git_template(t: Seq<char>) -> bool {
    t == "git checkout {}"@ || t == "git checkout {} && git pull --rebase && git checkout {}"@
        || t == "git checkout {} && git pull --rebase && git checkout {} && git merge {}"@
}

/// Where a selected record is resolved: by the git-workflow extension,
/// or by the generic placeholder resolver.
pub enum RouteChoice {
    Extension,
    Generic,
}

/// What an extension reports of an offered record: it took the
/// invocation over and finished with the given outcome, or it does not
/// know the template and resolution falls through.
pub enum ExtensionOutcome {
    Handled(Result<(), CmdError>),
    NotRecognized,
}

/// The git-workflow extension: it claims exactly the fixed set of
/// checkout/merge templates and resolves their slots from the local
/// branch list.
pub struct CmdExtensionGit {}

impl CmdExtensionGit {
    /// Whether this extension claims the record. Exactly the known
    /// templates are claimed: a claimed record never reaches the
    /// generic resolver, and no other record is touched.
    pub fn recognizes(&self, record: &CmdRecord) -> (r: bool)
        ensures
            r == known_git_template(record.command@),
    {
        let t = record.command.as_str();
        crate::strutil::str_eq(t, "git checkout {}") || crate::strutil::str_eq(
            t,
            "git checkout {} && git pull --rebase && git checkout {}",
        ) || crate::strutil::str_eq(
            t,
            "git checkout {} && git pull --rebase && git checkout {} && git merge {}",
        )
    }

    /// Substitute the chosen branch names into the template, first
    /// choice into the leftmost slot.
    pub fn fill_placeholders(&self, template: &str, branches: &Vec<String>) -> (r: String)
        ensures
            r@ == fill_positional_spec(template@, views_of(branches@)),
    {
        fill_positional(template, branches)
    }
}

/// Route a selected record: the extension first, the generic resolver
/// only for what no extension claims.
pub fn route_record(ext: &CmdExtensionGit, record: &CmdRecord) -> (r: RouteChoice)
    ensures
        (r is Extension) == known_git_template(record.command@),
{
    if ext.recognizes(record) {
        RouteChoice::Extension
    } else {
        RouteChoice::Generic
    }
}

/// The trimmed pieces standing before each placeholder of one
/// `&&`-separated segment, in order.
pub open spec fn contexts_of_pieces(ps: Seq<Seq<char>>) -> Seq<Seq<char>>
    decreases ps.len(),
{
    if ps.len() <= 1 {
        Seq::empty()
    } else {
        seq![trim_spec(ps[0])] + contexts_of_pieces(ps.skip(1))
    }
}

/// The slot contexts of a whole template: for each placeholder, in
/// template order, the trimmed text standing between the previous
/// placeholder of its segment (or the segment start) and the slot.
pub open spec fn ctx_of_segments(segs: Seq<Seq<char>>) -> Seq<Seq<char>>
    decreases segs.len(),
{
    if segs.len() == 0 {
        Seq::empty()
    } else {
        ctx_of_segments(segs.drop_last()) + contexts_of_pieces(
            split_spec(segs.last(), "{}"@),
        )
    }
}

pub open spec fn slot_contexts_spec(t: Seq<char>) -> Seq<Seq<char>> {
    ctx_of_segments(split_spec(t, "&&"@))
}

/// The contextual label text for each placeholder slot of a template:
/// the surrounding subcommand text, one entry per slot, in order. The
/// caller prompts with these when the extension resolves the slots.
pub fn slot_contexts(template: &str) -> (r: Vec<String>)
    ensures
        views_of(r@) == slot_contexts_spec(template@),
{
    proof {
        reveal_strlit("&&");
        reveal_strlit("{}");
    }
    let segments = split_on(template, "&&");
    let ghost segv = views_of(segments@);
    let mut out: Vec<String> = Vec::new();
    let mut s: usize = 0;
    proof {
        assert(segv.take(0) =~= Seq::<Seq<char>>::empty());
        assert(views_of(out@) =~= ctx_of_segments(segv.take(0)));
    }
    while s < segments.len()
        invariant
            views_of(segments@) == segv,
            0 <= s <= segments@.len(),
            views_of(out@) == ctx_of_segments(segv.take(s as int)),
            "{}"@.len() > 0,
        decreases segments@.len() - s,
    {
        let pieces = split_on(segments[s].as_str(), "{}");
        let ghost pv = views_of(pieces@);
        proof {
            assert(segments@[s as int]@ == segv[s as int]);
            lemma_contexts_of_pieces_index(pv);
            crate::strutil::lemma_split_spec_len(segv[s as int], "{}"@);
            assert(contexts_of_pieces(pv).take(0) =~= Seq::<Seq<char>>::empty());
            assert(views_of(out@) + Seq::<Seq<char>>::empty() =~= views_of(out@));
        }
        let plen = pieces.len();
        let mut k: usize = 0;
        while k + 1 < plen
            invariant
                views_of(pieces@) == pv,
                plen == pv.len(),
                0 <= k < pv.len(),
                pv.len() >= 1,
                views_of(out@) == ctx_of_segments(segv.take(s as int)) + contexts_of_pieces(
                    pv,
                ).take(k as int),
                contexts_of_pieces(pv).len() == pv.len() - 1,
                forall|j: int| 0 <= j < contexts_of_pieces(pv).len() ==> contexts_of_pieces(
                    pv,
                )[j] == trim_spec(pv[j]),
            decreases pieces@.len() - k,
        {
            let ghost out0 = out@;
            let piece = trim(pieces[k].as_str());
            out.push(piece);
            proof {
                assert(piece@ == trim_spec(pv[k as int]));
                assert(views_of(out@) =~= views_of(out0).push(trim_spec(pv[k as int])));
                assert(contexts_of_pieces(pv).take(k + 1) =~= contexts_of_pieces(pv).take(
                    k as int,
                ).push(contexts_of_pieces(pv)[k as int]));
                assert(views_of(out@) =~= ctx_of_segments(segv.take(s as int))
                    + contexts_of_pieces(pv).take(k + 1));
            }
            k = k + 1;
        }
        proof {
            assert(k as int == pv.len() - 1);
            assert(contexts_of_pieces(pv).take(k as int) =~= contexts_of_pieces(pv));
            assert(segv.take(s + 1).drop_last() =~= segv.take(s as int));
            assert(segv.take(s + 1).last() == segv[s as int]);
            assert(ctx_of_segments(segv.take(s + 1)) == ctx_of_segments(segv.take(s as int))
                + contexts_of_pieces(pv));
        }
        s = s + 1;
    }
    proof {
        assert(segv.take(segv.len() as int) =~= segv);
    }
    out
}

/// Index facts about `contexts_of_pieces`.
proof fn lemma_contexts_of_pieces_index(ps: Seq<Seq<char>>)
    ensures
        ps.len() == 0 ==> contexts_of_pieces(ps).len() == 0,
        ps.len() >= 1 ==> contexts_of_pieces(ps).len() == ps.len() - 1,
        forall|j: int| 0 <= j < contexts_of_pieces(ps).len() ==> contexts_of_pieces(ps)[j]
            == trim_spec(ps[j]),
    decreases ps.len(),
{
    if ps.len() > 1 {
        lemma_contexts_of_pieces_index(ps.skip(1));
        assert forall|j: int| 0 <= j < contexts_of_pieces(ps).len() implies contexts_of_pieces(
            ps,
        )[j] == trim_spec(ps[j]) by {
            if j > 0 {
                assert(contexts_of_pieces(ps)[j] == contexts_of_pieces(ps.skip(1))[j - 1]);
                assert(ps.skip(1)[j - 1] == ps[j]);
            }
        }
    }
}

} // verus!
