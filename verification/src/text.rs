//! Splitting byte strings at a separator byte, as `str::split` does with an
//! ASCII separator.
use vstd::prelude::*;

verus! {

/// Position of the first `sep` in `s`, or `s.len()` when there is none.
pub open spec fn first_index(s: Seq<u8>, sep: u8) -> int
    decreases s.len(),
{
    if s.len() == 0 {
        0
    } else if s[0] == sep {
        0
    } else {
        1 + first_index(s.drop_first(), sep)
    }
}

/// The pieces of `s` between occurrences of `sep`: one more piece than there
/// are separators, empty pieces included.
pub open spec fn split_on(s: Seq<u8>, sep: u8) -> Seq<Seq<u8>>
    decreases s.len(),
{
    let i = first_index(s, sep);
    if 0 <= i < s.len() {
        seq![s.take(i)] + split_on(s.skip(i + 1), sep)
    } else {
        seq![s]
    }
}

/// `first_index` is the position of the first separator.
pub proof fn lemma_first_index(s: Seq<u8>, sep: u8, k: int)
    requires
        0 <= k <= s.len(),
        forall|j: int| 0 <= j < k ==> s[j] != sep,
        k == s.len() || s[k] == sep,
    ensures
        first_index(s, sep) == k,
    decreases k,
{
    if k > 0 {
        lemma_first_index(s.drop_first(), sep, k - 1);
    }
}

/// `first_index` lies within the sequence.
pub proof fn lemma_first_index_bounds(s: Seq<u8>, sep: u8)
    ensures
        0 <= first_index(s, sep) <= s.len(),
        first_index(s, sep) < s.len() ==> s[first_index(s, sep)] == sep,
        forall|j: int| 0 <= j < first_index(s, sep) ==> s[j] != sep,
    decreases s.len(),
{
    if s.len() > 0 && s[0] != sep {
        lemma_first_index_bounds(s.drop_first(), sep);
        assert forall|j: int| 0 <= j < first_index(s, sep) implies s[j] != sep by {
            if j > 0 {
                assert(s[j] == s.drop_first()[j - 1]);
            }
        }
    }
}

/// Every piece is free of the separator, and there is at least one piece.
pub proof fn lemma_split_on_pieces(s: Seq<u8>, sep: u8)
    ensures
        split_on(s, sep).len() >= 1,
        split_on(s, sep)[0] == s.take(first_index(s, sep)),
        forall|k: int, j: int|
            0 <= k < split_on(s, sep).len() && 0 <= j < split_on(s, sep)[k].len() ==> #[trigger] split_on(s, sep)[k][j] != sep,
    decreases s.len(),
{
    lemma_first_index_bounds(s, sep);
    let i = first_index(s, sep);
    if 0 <= i < s.len() {
        lemma_split_on_pieces(s.skip(i + 1), sep);
        let rest = split_on(s.skip(i + 1), sep);
        assert forall|k: int, j: int|
            0 <= k < split_on(s, sep).len() && 0 <= j < split_on(s, sep)[k].len() implies #[trigger] split_on(s, sep)[k][j] != sep by {
            if k > 0 {
                assert(split_on(s, sep)[k] == rest[k - 1]);
            }
        }
    } else {
        assert(s.take(i) =~= s);
    }
}

/// Copies `s[from..to]` into a vector.
pub fn copy_range(s: &[u8], from: usize, to: usize) -> (r: Vec<u8>)
    requires
        from <= to <= s.len(),
    ensures
        r@ == s@.subrange(from as int, to as int),
{
    let mut r: Vec<u8> = Vec::new();
    let mut k: usize = from;
    while k < to
        invariant
            from <= k <= to <= s.len(),
            r@ == s@.subrange(from as int, k as int),
        decreases to - k,
    {
        r.push(s[k]);
        proof {
            assert(r@ =~= s@.subrange(from as int, k + 1));
        }
        k = k + 1;
    }
    r
}

/// The views of a vector of byte vectors.
pub open spec fn views(v: Seq<Vec<u8>>) -> Seq<Seq<u8>> {
    v.map_values(|x: Vec<u8>| x@)
}

/// Splits `s` at every `sep`, as `str::split` with an ASCII separator does.
pub fn split_fields(s: &[u8], sep: u8) -> (r: Vec<Vec<u8>>)
    ensures
        views(r@) == split_on(s@, sep),
{
    let n = s.len();
    let mut r: Vec<Vec<u8>> = Vec::new();
    let mut pos: usize = 0;
    proof {
        assert(s@.skip(0) =~= s@);
    }
    loop
        invariant
            n == s.len(),
            pos <= n,
            split_on(s@, sep) == views(r@) + split_on(s@.skip(pos as int), sep),
        decreases n - pos,
    {
        let mut e: usize = pos;
        while e < n && s[e] != sep
            invariant
                pos <= e <= n,
                n == s.len(),
                forall|j: int| pos <= j < e ==> s@[j] != sep,
            decreases n - e,
        {
            e = e + 1;
        }
        let piece = copy_range(s, pos, e);
        let ghost rest = s@.skip(pos as int);
        proof {
            assert forall|j: int| 0 <= j < e - pos implies rest[j] != sep by {
                assert(rest[j] == s@[pos + j]);
            }
            lemma_first_index(rest, sep, e - pos);
            assert(rest.take(e - pos) =~= piece@);
        }
        let ghost old_r = r@;
        r.push(piece);
        proof {
            assert(views(r@) =~= views(old_r).push(piece@));
        }
        if e == n {
            proof {
                assert(rest.take(e - pos) =~= rest);
                assert(split_on(rest, sep) == seq![rest]);
                assert(views(r@) =~= views(old_r) + seq![rest]);
            }
            return r;
        }
        proof {
            assert(rest.skip(e - pos + 1) =~= s@.skip(e + 1));
            assert(split_on(rest, sep) == seq![rest.take(e - pos)] + split_on(s@.skip(e + 1), sep));
            assert(views(old_r) + split_on(rest, sep) =~= views(r@) + split_on(s@.skip(e + 1), sep));
        }
        pos = e + 1;
    }
}

/// The pieces joined back together with `sep` between them.
pub open spec fn join_on(pieces: Seq<Seq<u8>>, sep: u8) -> Seq<u8>
    decreases pieces.len(),
{
    if pieces.len() == 0 {
        Seq::empty()
    } else if pieces.len() == 1 {
        pieces[0]
    } else {
        pieces[0] + seq![sep] + join_on(pieces.drop_first(), sep)
    }
}

/// Joining the pieces of a split with the separator gives back the text.
pub proof fn lemma_join_split(s: Seq<u8>, sep: u8)
    ensures
        join_on(split_on(s, sep), sep) == s,
    decreases s.len(),
{
    lemma_first_index_bounds(s, sep);
    let i = first_index(s, sep);
    if 0 <= i < s.len() {
        let rest = s.skip(i + 1);
        lemma_join_split(rest, sep);
        lemma_split_on_pieces(rest, sep);
        let pieces = split_on(s, sep);
        assert(pieces.drop_first() =~= split_on(rest, sep));
        assert(s.take(i) + seq![sep] + rest =~= s);
    } else {
        assert(s.take(i) =~= s);
    }
}

/// The last piece of a split is the longest end of the text without the
/// separator: it ends the text, holds no separator, and is either the whole
/// text or preceded by a separator.
pub proof fn lemma_last_piece(s: Seq<u8>, sep: u8)
    ensures
        ({
            let last = split_on(s, sep).last();
            &&& last.len() <= s.len()
            &&& last == s.skip(s.len() - last.len())
            &&& forall|j: int| 0 <= j < last.len() ==> last[j] != sep
            &&& (last.len() == s.len() || s[s.len() - last.len() - 1] == sep)
        }),
    decreases s.len(),
{
    lemma_first_index_bounds(s, sep);
    lemma_split_on_pieces(s, sep);
    let i = first_index(s, sep);
    if 0 <= i < s.len() {
        let rest = s.skip(i + 1);
        lemma_last_piece(rest, sep);
        lemma_split_on_pieces(rest, sep);
        let last = split_on(rest, sep).last();
        assert(split_on(s, sep).last() == last);
        assert(s.skip(s.len() - last.len()) =~= rest.skip(rest.len() - last.len()));
        if last.len() == rest.len() {
            assert(s[s.len() - last.len() - 1] == s[i]);
        } else {
            assert(s[s.len() - last.len() - 1] == rest[rest.len() - last.len() - 1]);
        }
    } else {
        assert(s.take(i) =~= s);
        assert(s.skip(0) =~= s);
    }
}

/// The first piece of a split is the longest start of the text without the
/// separator: it starts the text, holds no separator, and is either the
/// whole text or followed by a separator.
pub proof fn lemma_first_piece(s: Seq<u8>, sep: u8)
    ensures
        ({
            let first = split_on(s, sep)[0];
            &&& first.len() <= s.len()
            &&& first == s.take(first.len() as int)
            &&& forall|j: int| 0 <= j < first.len() ==> first[j] != sep
            &&& (first.len() == s.len() || s[first.len() as int] == sep)
        }),
{
    lemma_first_index_bounds(s, sep);
    lemma_split_on_pieces(s, sep);
    let i = first_index(s, sep);
    assert(split_on(s, sep)[0] =~= s.take(i));
}

/// Every byte of a piece occurs in the text.
pub proof fn lemma_pieces_within(s: Seq<u8>, sep: u8)
    ensures
        forall|k: int, j: int|
            0 <= k < split_on(s, sep).len() && 0 <= j < split_on(s, sep)[k].len() ==> s.contains(
                #[trigger] split_on(s, sep)[k][j],
            ),
    decreases s.len(),
{
    lemma_first_index_bounds(s, sep);
    let i = first_index(s, sep);
    if 0 <= i < s.len() {
        let rest = s.skip(i + 1);
        lemma_pieces_within(rest, sep);
        assert forall|k: int, j: int|
            0 <= k < split_on(s, sep).len() && 0 <= j < split_on(s, sep)[k].len() implies s.contains(
                #[trigger] split_on(s, sep)[k][j],
            ) by {
            if k == 0 {
                assert(split_on(s, sep)[0][j] == s[j]);
            } else {
                assert(split_on(s, sep)[k] == split_on(rest, sep)[k - 1]);
                let x = split_on(s, sep)[k][j];
                assert(rest.contains(x));
                let w = choose|w: int| 0 <= w < rest.len() && rest[w] == x;
                assert(s[i + 1 + w] == x);
            }
        }
    } else {
        assert forall|k: int, j: int|
            0 <= k < split_on(s, sep).len() && 0 <= j < split_on(s, sep)[k].len() implies s.contains(
                #[trigger] split_on(s, sep)[k][j],
            ) by {
            assert(split_on(s, sep)[k][j] == s[j]);
        }
    }
}

} // verus!
