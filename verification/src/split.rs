//! Cutting a byte sequence at every occurrence of a separator.
use vstd::prelude::*;

verus! {

/// The pieces of `s` between the occurrences of `sep`, in order. There is
/// always one more piece than there are separators; pieces may be empty.
pub open spec fn pieces(s: Seq<u8>, sep: u8) -> Seq<Seq<u8>>
    decreases s.len(),
{
    if s.len() == 0 {
        seq![Seq::<u8>::empty()]
    } else {
        let init = pieces(s.drop_last(), sep);
        if s.last() == sep {
            init.push(Seq::<u8>::empty())
        } else {
            init.drop_last().push(init.last().push(s.last()))
        }
    }
}

/// There is at least one piece.
pub proof fn lemma_pieces_nonempty(s: Seq<u8>, sep: u8)
    ensures
        pieces(s, sep).len() >= 1,
    decreases s.len(),
{
    if s.len() > 0 {
        lemma_pieces_nonempty(s.drop_last(), sep);
    }
}

/// One more byte either opens a new piece or extends the last one.
pub proof fn lemma_pieces_push(s: Seq<u8>, b: u8, sep: u8)
    ensures
        pieces(s.push(b), sep) == if b == sep {
            pieces(s, sep).push(Seq::<u8>::empty())
        } else {
            pieces(s, sep).drop_last().push(pieces(s, sep).last().push(b))
        },
{
    assert(s.push(b).drop_last() =~= s);
}

/// Cutting may be done in two goes: the last piece of the first part is where
/// the second part carries on.
pub proof fn lemma_pieces_concat(a: Seq<u8>, b: Seq<u8>, sep: u8)
    ensures
        pieces(a + b, sep) == pieces(a, sep).drop_last() + pieces(
            pieces(a, sep).last() + b,
            sep,
        ),
    decreases b.len(),
{
    lemma_pieces_nonempty(a, sep);
    let head = pieces(a, sep).drop_last();
    let open = pieces(a, sep).last();
    if b.len() == 0 {
        assert(a + b =~= a);
        assert(open + b =~= open);
        lemma_last_piece_is_whole(a, sep);
        assert(pieces(a, sep) =~= head + seq![open]);
    } else {
        let b0 = b.drop_last();
        lemma_pieces_concat(a, b0, sep);
        lemma_pieces_nonempty(open + b0, sep);
        assert(a + b =~= (a + b0).push(b.last()));
        assert(open + b =~= (open + b0).push(b.last()));
        lemma_pieces_push(a + b0, b.last(), sep);
        lemma_pieces_push(open + b0, b.last(), sep);
        let left = pieces(a + b0, sep);
        let right = pieces(open + b0, sep);
        assert(left.last() == right.last());
        assert(left.drop_last() =~= head + right.drop_last());
        assert(pieces(a + b, sep) =~= head + pieces(open + b, sep));
    }
}

/// No piece holds the separator, so cutting the last piece again changes nothing.
pub proof fn lemma_last_piece_is_whole(s: Seq<u8>, sep: u8)
    ensures
        pieces(pieces(s, sep).last(), sep) == seq![pieces(s, sep).last()],
    decreases s.len(),
{
    if s.len() > 0 {
        lemma_last_piece_is_whole(s.drop_last(), sep);
        lemma_pieces_nonempty(s.drop_last(), sep);
        let before = pieces(s.drop_last(), sep).last();
        if s.last() != sep {
            lemma_pieces_push(before, s.last(), sep);
            assert(pieces(s, sep).last() == before.push(s.last()));
            assert(seq![before].drop_last().push(before.push(s.last())) =~= seq![
                before.push(s.last()),
            ]);
        }
    }
}

/// Reading on never takes a piece away.
pub proof fn lemma_pieces_grow(s: Seq<u8>, i: int, sep: u8)
    requires
        0 <= i <= s.len(),
    ensures
        pieces(s.take(i), sep).len() <= pieces(s, sep).len(),
    decreases s.len() - i,
{
    if i == s.len() {
        assert(s.take(i) =~= s);
    } else {
        lemma_pieces_grow(s, i + 1, sep);
        assert(s.take(i + 1) =~= s.take(i).push(s[i]));
        lemma_pieces_push(s.take(i), s[i], sep);
        lemma_pieces_nonempty(s.take(i), sep);
    }
}

/// The pieces with the separator between them.
pub open spec fn joined_with(cut: Seq<Seq<u8>>, sep: u8) -> Seq<u8>
    decreases cut.len(),
{
    if cut.len() == 0 {
        Seq::empty()
    } else if cut.len() == 1 {
        cut[0]
    } else {
        joined_with(cut.drop_last(), sep).push(sep) + cut.last()
    }
}

/// No piece holds the separator, and the pieces with separators between them
/// are the whole again.
pub proof fn law_pieces_join(s: Seq<u8>, sep: u8)
    ensures
        joined_with(pieces(s, sep), sep) == s,
        forall|k: int, i: int|
            0 <= k < pieces(s, sep).len() && 0 <= i < pieces(s, sep)[k].len()
                ==> #[trigger] pieces(s, sep)[k][i] != sep,
    decreases s.len(),
{
    let cut = pieces(s, sep);
    if s.len() == 0 {
        assert(cut[0] =~= s);
    } else {
        let init = pieces(s.drop_last(), sep);
        law_pieces_join(s.drop_last(), sep);
        lemma_pieces_nonempty(s.drop_last(), sep);
        if s.last() == sep {
            assert(cut.drop_last() =~= init);
            assert(joined_with(cut, sep) =~= s);
        } else {
            assert(cut.drop_last() =~= init.drop_last());
            assert(joined_with(cut, sep) =~= joined_with(init, sep).push(s.last()));
            assert(joined_with(cut, sep) =~= s);
        }
        assert forall|k: int, i: int|
            0 <= k < cut.len() && 0 <= i < cut[k].len() implies #[trigger] cut[k][i] != sep by {
            if k < cut.len() - 1 {
                assert(cut[k] == init[k]);
                assert(init[k][i] != sep);
            } else if s.last() != sep && i < cut[k].len() - 1 {
                assert(cut[k][i] == init[k][i]);
            }
        }
    }
}

/// A byte that is not in the whole is in none of the pieces.
pub proof fn lemma_pieces_without(s: Seq<u8>, sep: u8, b: u8)
    requires
        forall|i: int| 0 <= i < s.len() ==> #[trigger] s[i] != b,
    ensures
        forall|k: int, i: int|
            0 <= k < pieces(s, sep).len() && 0 <= i < pieces(s, sep)[k].len()
                ==> #[trigger] pieces(s, sep)[k][i] != b,
    decreases s.len(),
{
    if s.len() > 0 {
        let cut = pieces(s, sep);
        let init = pieces(s.drop_last(), sep);
        assert(forall|i: int| 0 <= i < s.len() - 1 ==> s.drop_last()[i] == s[i]);
        lemma_pieces_without(s.drop_last(), sep, b);
        lemma_pieces_nonempty(s.drop_last(), sep);
        assert(s[s.len() - 1] != b);
        assert forall|k: int, i: int|
            0 <= k < cut.len() && 0 <= i < cut[k].len() implies #[trigger] cut[k][i] != b by {
            if k < cut.len() - 1 {
                assert(cut[k] == init[k]);
                assert(init[k][i] != b);
            } else if s.last() != sep && i < cut[k].len() - 1 {
                assert(cut[k][i] == init[k][i]);
            }
        }
    }
}

/// A sequence without the separator is one piece.
pub proof fn lemma_one_piece(s: Seq<u8>, sep: u8)
    requires
        forall|i: int| 0 <= i < s.len() ==> #[trigger] s[i] != sep,
    ensures
        pieces(s, sep) == seq![s],
    decreases s.len(),
{
    if s.len() > 0 {
        let init = s.drop_last();
        assert(forall|i: int| 0 <= i < init.len() ==> init[i] == s[i]);
        lemma_one_piece(init, sep);
        assert(s[s.len() - 1] != sep);
        assert(init.push(s.last()) =~= s);
        assert(pieces(s, sep) =~= seq![s]);
    } else {
        assert(s =~= Seq::<u8>::empty());
    }
}

/// None of the sequences holds the separator.
pub open spec fn without(cut: Seq<Seq<u8>>, sep: u8) -> bool {
    forall|k: int, i: int|
        0 <= k < cut.len() && 0 <= i < cut[k].len() ==> #[trigger] cut[k][i] != sep
}

/// One more piece comes behind a separator.
pub proof fn lemma_join_push(cut: Seq<Seq<u8>>, last: Seq<u8>, sep: u8)
    requires
        cut.len() > 0,
    ensures
        joined_with(cut.push(last), sep) == joined_with(cut, sep).push(sep) + last,
{
    assert(cut.push(last).drop_last() =~= cut);
}

/// Pieces without the separator that are joined with it are cut into the same
/// pieces again.
pub proof fn law_join_then_cut(cut: Seq<Seq<u8>>, sep: u8)
    requires
        cut.len() > 0,
        without(cut, sep),
    ensures
        pieces(joined_with(cut, sep), sep) == cut,
    decreases cut.len(),
{
    let last = cut.last();
    assert(last == cut[cut.len() - 1]);
    lemma_one_piece(last, sep);
    if cut.len() == 1 {
        assert(cut =~= seq![last]);
    } else {
        let init = cut.drop_last();
        assert(without(init, sep)) by {
            assert forall|k: int, i: int|
                0 <= k < init.len() && 0 <= i < init[k].len() implies #[trigger] init[k][i]
                != sep by {
                assert(cut[k][i] != sep);
            }
        }
        law_join_then_cut(init, sep);
        let head = joined_with(init, sep);
        lemma_pieces_push(head, sep, sep);
        lemma_pieces_concat(head.push(sep), last, sep);
        assert(init.push(Seq::<u8>::empty()).drop_last() =~= init);
        assert(Seq::<u8>::empty() + last =~= last);
        assert(cut =~= init + seq![last]);
    }
}

/// How often a byte occurs.
pub open spec fn occurrences(s: Seq<u8>, b: u8) -> nat
    decreases s.len(),
{
    if s.len() == 0 {
        0
    } else {
        occurrences(s.drop_last(), b) + if s.last() == b {
            1nat
        } else {
            0
        }
    }
}

/// There is one piece more than there are separators.
pub proof fn law_pieces_count(s: Seq<u8>, sep: u8)
    ensures
        pieces(s, sep).len() == occurrences(s, sep) + 1,
    decreases s.len(),
{
    if s.len() > 0 {
        law_pieces_count(s.drop_last(), sep);
    }
}

} // verus!
