//! What cutting texts leaves.

use vstd::prelude::*;

use crate::text::{
    first_index, index_from, is_white, join_seq, lower, lower_char, split_seq, trim_end_seq, trim_seq,
    trim_start_seq,
};

verus! {

/// Whether a text is white space only.
pub open spec fn blank(s: Seq<char>) -> bool {
    forall|i: int| 0 <= i < s.len() ==> is_white(#[trigger] s[i])
}

proof fn lemma_start(s: Seq<char>) -> (a: Seq<char>)
    ensures
        s == a + trim_start_seq(s),
        blank(a),
        trim_start_seq(s).len() > 0 ==> !is_white(trim_start_seq(s)[0]),
    decreases s.len(),
{
    if s.len() > 0 && is_white(s[0]) {
        let b = lemma_start(s.skip(1));
        let a = seq![s[0]] + b;
        assert(s =~= seq![s[0]] + s.skip(1));
        assert(s =~= a + trim_start_seq(s));
        assert forall|i: int| 0 <= i < a.len() implies is_white(#[trigger] a[i]) by {
            if i > 0 {
                assert(a[i] == b[i - 1]);
            }
        }
        a
    } else {
        assert(s =~= Seq::<char>::empty() + s);
        Seq::empty()
    }
}

proof fn lemma_end(s: Seq<char>) -> (b: Seq<char>)
    ensures
        s == trim_end_seq(s) + b,
        blank(b),
        trim_end_seq(s).len() > 0 ==> !is_white(trim_end_seq(s).last()) && trim_end_seq(s)[0] == s[0],
    decreases s.len(),
{
    if s.len() > 0 && is_white(s.last()) {
        let a = lemma_end(s.drop_last());
        let b = a + seq![s.last()];
        assert(s =~= s.drop_last() + seq![s.last()]);
        assert(s =~= trim_end_seq(s) + b);
        assert forall|i: int| 0 <= i < b.len() implies is_white(#[trigger] b[i]) by {
            if i < a.len() {
                assert(b[i] == a[i]);
            }
        }
        b
    } else {
        assert(s =~= s + Seq::<char>::empty());
        Seq::empty()
    }
}

/// Trimming takes white space from both ends of a text, all of it, and
/// nothing else.
pub proof fn law_trimming_takes_only_white_space(s: Seq<char>)
    ensures
        exists|a: Seq<char>, b: Seq<char>|
            s == #[trigger] (a + trim_seq(s) + b) && blank(a) && blank(b),
        trim_seq(s).len() > 0 ==> !is_white(trim_seq(s)[0]) && !is_white(trim_seq(s).last()),
        trim_seq(trim_seq(s)) == trim_seq(s),
{
    let a = lemma_start(s);
    let b = lemma_end(trim_start_seq(s));
    assert(s =~= a + trim_seq(s) + b);
}

proof fn lemma_index(s: Seq<char>, c: char, i: int)
    requires
        0 <= i <= s.len(),
    ensures
        match index_from(s, c, i) {
            Some(k) => i <= k < s.len() && s[k] == c && forall|j: int| i <= j < k ==> s[j] != c,
            None => forall|j: int| i <= j < s.len() ==> s[j] != c,
        },
    decreases s.len() - i,
{
    if i < s.len() && s[i] != c {
        lemma_index(s, c, i + 1);
    }
}

proof fn lemma_join_front(a: Seq<char>, parts: Seq<Seq<char>>, sep: Seq<char>)
    requires
        parts.len() > 0,
    ensures
        join_seq(seq![a] + parts, sep) == a + sep + join_seq(parts, sep),
    decreases parts.len(),
{
    let all = seq![a] + parts;
    assert(all.last() == parts.last());
    assert(all.drop_last() =~= seq![a] + parts.drop_last());
    if parts.len() == 1 {
        assert(all.drop_last() =~= seq![a]);
        assert(join_seq(all.drop_last(), sep) == a);
    } else {
        lemma_join_front(a, parts.drop_last(), sep);
        let front = join_seq(parts.drop_last(), sep);
        assert(a + sep + front + sep + parts.last() =~= a + sep + (front + sep + parts.last()));
    }
}

/// Splitting a text at a character and joining the pieces with it gives the
/// text back, and no piece holds the character.
pub proof fn law_pieces_join_back(s: Seq<char>, c: char)
    ensures
        split_seq(s, c).len() > 0,
        join_seq(split_seq(s, c), seq![c]) == s,
        forall|i: int| 0 <= i < split_seq(s, c).len() ==> !(#[trigger] split_seq(s, c)[i]).contains(c),
    decreases s.len(),
{
    lemma_index(s, c, 0);
    match first_index(s, c) {
        Some(k) => {
            law_pieces_join_back(s.skip(k + 1), c);
            let rest = split_seq(s.skip(k + 1), c);
            let all = split_seq(s, c);
            lemma_join_front(s.take(k), rest, seq![c]);
            assert(s =~= s.take(k) + seq![c] + s.skip(k + 1));
            assert forall|i: int| 0 <= i < all.len() implies !(#[trigger] all[i]).contains(c) by {
                if i > 0 {
                    assert(all[i] == rest[i - 1]);
                } else {
                    assert(all[0] == s.take(k));
                }
            }
        },
        None => {
            assert(split_seq(s, c) =~= seq![s]);
        },
    }
}

/// Folding a text changes capital letters of the alphabet into the small
/// letters and leaves everything else; texts that differ in case only fold
/// alike.
pub proof fn law_folding_ignores_case(s: Seq<char>)
    ensures
        lower(s).len() == s.len(),
        forall|i: int| 0 <= i < s.len() && !('A' <= #[trigger] s[i] <= 'Z') ==> lower(s)[i] == s[i],
        forall|i: int|
            0 <= i < s.len() && 'A' <= #[trigger] s[i] <= 'Z' ==> lower(s)[i] as int - 'a' as int
                == s[i] as int - 'A' as int,
        lower(lower(s)) == lower(s),
{
    assert forall|i: int| 0 <= i < s.len() implies #[trigger] lower(lower(s))[i] == lower(s)[i] by {
        assert(lower(s)[i] == lower_char(s[i]));
    }
    assert(lower(lower(s)) =~= lower(s));
}

} // verus!
