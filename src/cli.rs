use vstd::prelude::*;

verus! {

/// The command line, once recognised.
pub struct Arguments {
    pub recursive: bool,
    pub pattern: String,
    pub files: Vec<String>,
}

/// Whether `w` is one of the two flags, `-r` or `-E`.
pub open spec fn is_flag(w: Seq<char>) -> bool {
    w == seq!['-', 'r'] || w == seq!['-', 'E']
}

/// The operands of `args[from..]`, in order.
pub open spec fn operands(args: Seq<Seq<char>>, from: int) -> Seq<Seq<char>>
    decreases args.len() - from,
{
    if from >= args.len() {
        Seq::empty()
    } else if is_flag(args[from]) {
        operands(args, from + 1)
    } else {
        seq![args[from]] + operands(args, from + 1)
    }
}

/// Whether some word of `args[1..]` equals `w`.
pub open spec fn has_word(args: Seq<Seq<char>>, w: Seq<char>) -> bool {
    exists|i: int| 1 <= i < args.len() && args[i] == w
}

impl Arguments {
    /// Recognises `-r` and `-E` anywhere after the program name; the first
    /// other word is the pattern and the rest are files. Fails when `-E` is
    /// absent, then when no pattern is given.
    pub fn parse(args: &[String]) -> (r: Result<Arguments, String>)
        ensures
            ({
                let words = args@.map_values(|a: String| a@);
                let ops = operands(words, 1);
                &&& !has_word(words, seq!['-', 'E']) ==> r is Err && r->Err_0@ == "Expected '-E' flag"@
                &&& has_word(words, seq!['-', 'E']) && ops.len() == 0 ==> r is Err
                    && r->Err_0@ == "Expected a pattern argument"@
                &&& r is Ok <==> (has_word(words, seq!['-', 'E']) && ops.len() > 0)
                &&& r is Ok ==> {
                    &&& r->Ok_0.pattern@ == ops[0]
                    &&& r->Ok_0.files@.map_values(|a: String| a@) == ops.drop_first()
                    &&& r->Ok_0.recursive == has_word(words, seq!['-', 'r'])
                }
            }),
    {
        let ghost words = args@.map_values(|a: String| a@);
        let flag_r = "-r".to_owned();
        let flag_e = "-E".to_owned();
        proof {
            reveal_strlit("-r");
            reveal_strlit("-E");
            reveal_strlit("Expected '-E' flag");
            reveal_strlit("Expected a pattern argument");
        }
        let mut recursive = false;
        let mut use_extended = false;
        let mut pattern: Option<String> = None;
        let mut files: Vec<String> = Vec::new();
        let mut i: usize = 1;
        while i < args.len()
            invariant
                1 <= i <= args@.len() || (args@.len() == 0 && i == 1),
                words == args@.map_values(|a: String| a@),
                flag_r@ == seq!['-', 'r'],
                flag_e@ == seq!['-', 'E'],
                recursive == (exists|j: int| 1 <= j < i && words[j] == seq!['-', 'r']),
                use_extended == (exists|j: int| 1 <= j < i && words[j] == seq!['-', 'E']),
                ({
                    &&& pattern is None ==> files@.len() == 0 && operands(words, 1) == operands(words, i as int)
                    &&& pattern is Some ==> operands(words, 1) == seq![pattern->0@]
                        + files@.map_values(|a: String| a@) + operands(words, i as int)
                }),
            decreases args.len() - i,
        {
            let a = &args[i];
            proof {
                assert(words[i as int] == a@);
            }
            if *a == flag_r {
                recursive = true;
            } else if *a == flag_e {
                use_extended = true;
            } else if pattern.is_none() {
                pattern = Some(a.clone());
            } else {
                let ghost prev = files@.map_values(|a: String| a@);
                files.push(a.clone());
                proof {
                    assert(files@.map_values(|a: String| a@) =~= prev.push(a@));
                }
            }
            i = i + 1;
        }
        if !use_extended {
            return Err("Expected '-E' flag".to_owned());
        }
        match pattern {
            None => Err("Expected a pattern argument".to_owned()),
            Some(pattern) => Ok(Arguments { recursive, pattern, files }),
        }
    }
}

} // verus!
