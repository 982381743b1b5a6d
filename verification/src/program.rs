use vstd::prelude::*;
use crate::strutil::{replace_all, replace_all_spec, split_on, split_spec, trim, trim_spec, views_of};

verus! {

/// One subprocess invocation: the program name and its arguments, split
/// naively on single spaces with no shell-quoting awareness.
pub struct Program {
    pub program: String,
    pub args: Vec<String>,
}

/// The program name a command text denotes: newlines removed, then the
/// text up to the first space.
pub open spec fn program_name_spec(s: Seq<char>) -> Seq<char> {
    split_spec(replace_all_spec(s, "\n"@, Seq::empty()), " "@)[0]
}

/// The arguments a command text denotes: the space-separated pieces
/// after the program name, kept as they stand.
pub open spec fn program_args_spec(s: Seq<char>) -> Seq<Seq<char>> {
    split_spec(replace_all_spec(s, "\n"@, Seq::empty()), " "@).skip(1)
}

/// Parse a single command text into a program and its arguments.
pub fn parse_program(text: &str) -> (r: Program)
    ensures
        r.program@ == program_name_spec(text@),
        views_of(r.args@) == program_args_spec(text@),
{
    proof {
        reveal_strlit("\n");
        reveal_strlit(" ");
        reveal_strlit("");
    }
    let cleaned = replace_all(text, "\n", "");
    let mut pieces = split_on(cleaned.as_str(), " ");
    let ghost pv = views_of(pieces@);
    proof {
        assert(""@ =~= Seq::<char>::empty());
        crate::strutil::lemma_split_spec_len(cleaned@, " "@);
    }
    let program = pieces.remove(0);
    proof {
        assert(program@ == pv[0]);
        assert(views_of(pieces@) =~= pv.skip(1));
    }
    Program { program, args: pieces }
}

/// Split a command line on the `&&` connector and parse each segment,
/// trimmed, as an independent invocation; they run in order and the
/// first failure stops the chain.
pub fn parse_programs(text: &str) -> (r: Vec<Program>)
    ensures
        r@.len() == split_spec(text@, "&&"@).len(),
        forall|i: int| 0 <= i < r@.len() ==> {
            &&& (#[trigger] r@[i]).program@ == program_name_spec(
                trim_spec(split_spec(text@, "&&"@)[i]),
            )
            &&& views_of(r@[i].args@) == program_args_spec(
                trim_spec(split_spec(text@, "&&"@)[i]),
            )
        },
{
    proof {
        reveal_strlit("&&");
    }
    let segments = split_on(text, "&&");
    let ghost segv = views_of(segments@);
    let mut out: Vec<Program> = Vec::new();
    let mut k: usize = 0;
    while k < segments.len()
        invariant
            views_of(segments@) == segv,
            segv == split_spec(text@, "&&"@),
            0 <= k <= segments@.len(),
            out@.len() == k,
            forall|i: int| 0 <= i < k ==> {
                &&& (#[trigger] out@[i]).program@ == program_name_spec(trim_spec(segv[i]))
                &&& views_of(out@[i].args@) == program_args_spec(trim_spec(segv[i]))
            },
        decreases segments@.len() - k,
    {
        let trimmed = trim(segments[k].as_str());
        proof {
            assert(segments@[k as int]@ == segv[k as int]);
        }
        let prog = parse_program(trimmed.as_str());
        out.push(prog);
        k = k + 1;
    }
    out
}

} // verus!
