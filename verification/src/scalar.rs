//! Single-quoted YAML scalars: the text between quotes, each quote
//! doubled, and how such a scalar reads back.
use vstd::prelude::*;

use crate::text::{push_char, push_replaced, replace_char};

verus! {

/// A single-quoted scalar: the text between quotes, each quote doubled.
pub open spec fn quoted(s: Seq<char>) -> Seq<char> {
    seq!['\''] + replace_char(s, '\'', seq!['\'', '\'']) + seq!['\'']
}

/// Reading the inside of a single-quoted scalar: a doubled quote stands
/// for one quote.
pub open spec fn unquote(s: Seq<char>) -> Seq<char>
    decreases s.len(),
{
    if s.len() == 0 {
        seq![]
    } else if s.len() >= 2 && s[0] == '\'' && s[1] == '\'' {
        seq!['\''] + unquote(s.subrange(2, s.len() as int))
    } else {
        seq![s[0]] + unquote(s.drop_first())
    }
}

proof fn lemma_replace_front(s: Seq<char>)
    requires
        s.len() > 0,
    ensures
        replace_char(s, '\'', seq!['\'', '\'']) == (if s[0] == '\'' {
            seq!['\'', '\'']
        } else {
            seq![s[0]]
        }) + replace_char(s.drop_first(), '\'', seq!['\'', '\'']),
    decreases s.len(),
{
    if s.len() == 1 {
        assert(s.drop_last() =~= Seq::<char>::empty());
        assert(s.drop_first() =~= Seq::<char>::empty());
    } else {
        lemma_replace_front(s.drop_last());
        assert(s.drop_last().drop_first() =~= s.drop_first().drop_last());
        assert(s.drop_first().last() == s.last());
    }
}

/// The inside of a single-quoted scalar reads back as the string.
pub proof fn law_quoted_reads_back(s: Seq<char>)
    ensures
        unquote(replace_char(s, '\'', seq!['\'', '\''])) == s,
    decreases s.len(),
{
    if s.len() > 0 {
        lemma_replace_front(s);
        law_quoted_reads_back(s.drop_first());
        let rest = replace_char(s.drop_first(), '\'', seq!['\'', '\'']);
        let all = replace_char(s, '\'', seq!['\'', '\'']);
        if s[0] == '\'' {
            assert(all.subrange(2, all.len() as int) =~= rest);
        } else {
            assert(all.drop_first() =~= rest);
        }
        assert(s =~= seq![s[0]] + s.drop_first());
    }
}

/// Appends `'s'` with each quote doubled.
pub(crate) fn push_quoted(out: &mut String, s: &str)
    ensures
        final(out)@ == old(out)@ + quoted(s@),
{
    push_char(out, '\'');
    push_replaced(out, s, '\'', "''");
    push_char(out, '\'');
    proof {
        reveal_strlit("''");
        assert("''"@ =~= seq!['\'', '\'']);
    }
    assert(out@ =~= old(out)@ + quoted(s@));
}

} // verus!
