//! How a POSIX shell reads back the words of a generated curl command.
use vstd::prelude::*;

use crate::curl::shell_quoted;
use crate::text::{replace, starts_with};

verus! {

/// How a POSIX shell reads a word outside quotes: `'` opens a quoted stretch, `\`
/// takes the next char literally, any other char stands for itself.
pub open spec fn shell_read(s: Seq<char>) -> Seq<char>
    decreases s.len(), 1nat,
{
    if s.len() == 0 {
        seq![]
    } else if s[0] == '\'' {
        shell_read_quoted(s.drop_first())
    } else if s[0] == '\\' && s.len() >= 2 {
        seq![s[1]] + shell_read(s.skip(2))
    } else {
        seq![s[0]] + shell_read(s.drop_first())
    }
}

/// How a POSIX shell reads inside single quotes: every char stands for itself up to
/// the closing `'`.
pub open spec fn shell_read_quoted(s: Seq<char>) -> Seq<char>
    decreases s.len(), 0nat,
{
    if s.len() == 0 {
        seq![]
    } else if s[0] == '\'' {
        shell_read(s.drop_first())
    } else {
        seq![s[0]] + shell_read_quoted(s.drop_first())
    }
}

proof fn lemma_read_quoted_escaped(v: Seq<char>)
    ensures
        shell_read_quoted(replace(v, "'"@, "'\\''"@) + "'"@) == v,
    decreases v.len(),
{
    reveal_strlit("'");
    reveal_strlit("'\\''");
    let q = seq!['\''];
    let rep = seq!['\'', '\\', '\'', '\''];
    assert("'"@ =~= q);
    assert("'\\''"@ =~= rep);
    if v.len() == 0 {
        assert(replace(v, q, rep) =~= seq![]);
        assert(seq![] + q =~= q);
        assert(q.drop_first() =~= Seq::<char>::empty());
        assert(shell_read_quoted(q) == shell_read(Seq::<char>::empty()));
    } else {
        let rest = v.drop_first();
        lemma_read_quoted_escaped(rest);
        let tail = replace(rest, q, rep) + q;
        if v[0] == '\'' {
            assert(starts_with(v, q)) by {
                assert(v.take(1) =~= q);
            }
            assert(v.skip(1) =~= rest);
            let s = rep + tail;
            assert(replace(v, q, rep) + q =~= s);
            let s1 = s.drop_first();
            assert(s1 =~= seq!['\\', '\'', '\''] + tail);
            let s2 = s1.skip(2);
            assert(s2 =~= seq!['\''] + tail);
            assert(s2.drop_first() =~= tail);
            assert(shell_read(s2) == shell_read_quoted(tail));
            assert(shell_read(s1) == seq!['\''] + shell_read(s2));
            assert(shell_read_quoted(s) == shell_read(s1));
            assert(v =~= seq!['\''] + rest);
        } else {
            assert(!starts_with(v, q)) by {
                assert(v.take(1)[0] == v[0]);
            }
            let s = seq![v[0]] + tail;
            assert(replace(v, q, rep) + q =~= s);
            assert(s.drop_first() =~= tail);
            assert(shell_read_quoted(s) == seq![v[0]] + shell_read_quoted(tail));
            assert(v =~= seq![v[0]] + rest);
        }
    }
}

/// A single-quoted word reads back, in a POSIX shell, as exactly the value it quotes:
/// every URL, header and body in the curl command reaches curl unchanged.
pub proof fn lemma_shell_quote_reads_back(v: Seq<char>)
    ensures
        shell_read(shell_quoted(v)) == v,
{
    reveal_strlit("'");
    lemma_read_quoted_escaped(v);
    let inner = replace(v, "'"@, "'\\''"@) + "'"@;
    assert(shell_quoted(v) =~= seq!['\''] + inner);
    assert(shell_quoted(v).drop_first() =~= inner);
}

} // verus!
