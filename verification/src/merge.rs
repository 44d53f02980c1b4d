//! The slide-and-merge pass on one line of the board.
//!
//! A line is read head first. Its non-empty values slide toward the head and
//! each adjacent equal pair combines, once, into one cell holding their sum;
//! a combined cell takes no further part in the same pass.

use vstd::prelude::*;

verus! {

/// Largest value a tile may hold: one more doubling still fits in `u64`.
pub const TILE_MAX: u64 = 0x7fff_ffff_ffff_ffff;

/// The non-empty values of a line, in scan order.
pub open spec fn tiles_of(s: Seq<u64>) -> Seq<u64>
    decreases s.len(),
{
    if s.len() == 0 {
        Seq::empty()
    } else if s[0] == 0 {
        tiles_of(s.skip(1))
    } else {
        seq![s[0]] + tiles_of(s.skip(1))
    }
}

/// Greedy pairwise merging: the two leading values combine exactly when they
/// are equal, and a combined pair takes no further part in the pass.
pub open spec fn merge_pairs(s: Seq<u64>) -> Seq<u64>
    decreases s.len(),
{
    if s.len() >= 2 && s[0] == s[1] {
        seq![(s[0] + s[1]) as u64] + merge_pairs(s.skip(2))
    } else if s.len() >= 1 {
        seq![s[0]] + merge_pairs(s.skip(1))
    } else {
        Seq::empty()
    }
}

/// The exact machine limit on a merge pass over the tile values `s`: every
/// pair that combines sums within `u64`. Tiles all bounded by `TILE_MAX`
/// satisfy it, and so does any line in which nothing merges.
pub open spec fn merge_pairs_fit(s: Seq<u64>) -> bool
    decreases s.len(),
{
    if s.len() >= 2 && s[0] == s[1] {
        s[0] + s[1] <= u64::MAX && merge_pairs_fit(s.skip(2))
    } else if s.len() >= 1 {
        merge_pairs_fit(s.skip(1))
    } else {
        true
    }
}

/// What one merge pass leaves in a line of six cells: the merged tiles packed
/// against the head, empty cells behind them.
pub open spec fn merged_line(s: Seq<u64>) -> Seq<u64> {
    merge_pairs(tiles_of(s)) + Seq::new(
        (6 - merge_pairs(tiles_of(s)).len()) as nat,
        |i: int| 0u64,
    )
}

proof fn lemma_tiles_of_len(s: Seq<u64>)
    ensures
        tiles_of(s).len() <= s.len(),
    decreases s.len(),
{
    if s.len() > 0 {
        lemma_tiles_of_len(s.skip(1));
    }
}

proof fn lemma_merge_pairs_len(s: Seq<u64>)
    ensures
        merge_pairs(s).len() <= s.len(),
    decreases s.len(),
{
    if s.len() >= 2 && s[0] == s[1] {
        lemma_merge_pairs_len(s.skip(2));
    } else if s.len() >= 1 {
        lemma_merge_pairs_len(s.skip(1));
    }
}

/// Unfolds `tiles_of` one cell further into a line's suffix.
proof fn lemma_tiles_of_step(s: Seq<u64>, k: int)
    requires
        0 <= k < s.len(),
    ensures
        tiles_of(s.skip(k)) == if s[k] == 0 {
            tiles_of(s.skip(k + 1))
        } else {
            seq![s[k]] + tiles_of(s.skip(k + 1))
        },
{
    assert(s.skip(k)[0] == s[k]);
    assert(s.skip(k).skip(1) =~= s.skip(k + 1));
}

proof fn lemma_merge_pairs_single(a: u64)
    ensures
        merge_pairs(seq![a]) == seq![a],
{
    assert(seq![a].len() == 1);
    assert(seq![a][0] == a);
    assert(seq![a].skip(1) =~= Seq::<u64>::empty());
    assert(merge_pairs(Seq::<u64>::empty()) == Seq::<u64>::empty());
    assert(merge_pairs(seq![a]) == seq![a] + merge_pairs(seq![a].skip(1)));
    assert(seq![a] + Seq::<u64>::empty() =~= seq![a]);
}

/// The two leading equal values combine and drop out of the rest of the pass.
proof fn lemma_merge_pairs_match(a: u64, rest: Seq<u64>)
    ensures
        merge_pairs(seq![a, a] + rest) == seq![(a + a) as u64] + merge_pairs(rest),
        merge_pairs_fit(seq![a, a] + rest) == (a + a <= u64::MAX && merge_pairs_fit(
            rest,
        )),
{
    let s = seq![a, a] + rest;
    assert(s[0] == a && s[1] == a);
    assert(s.skip(2) =~= rest);
}

/// A leading value different from its successor stays as it is.
proof fn lemma_merge_pairs_mismatch(a: u64, b: u64, rest: Seq<u64>)
    requires
        a != b,
    ensures
        merge_pairs(seq![a] + (seq![b] + rest)) == seq![a] + merge_pairs(seq![b] + rest),
        merge_pairs_fit(seq![a] + (seq![b] + rest)) == merge_pairs_fit(seq![b] + rest),
{
    let s = seq![a] + (seq![b] + rest);
    assert(s[0] == a && s[1] == b);
    assert(s.skip(1) =~= seq![b] + rest);
}

/// Tiles all bounded by `TILE_MAX` leave room for every doubling.
pub proof fn lemma_bounded_fit(s: Seq<u64>)
    requires
        forall|i: int| 0 <= i < s.len() ==> s[i] <= TILE_MAX,
    ensures
        merge_pairs_fit(s),
    decreases s.len(),
{
    if s.len() >= 2 && s[0] == s[1] {
        assert(forall|i: int| 0 <= i < s.skip(2).len() ==> #[trigger] s.skip(2)[i] == s[i
            + 2]);
        lemma_bounded_fit(s.skip(2));
    } else if s.len() >= 1 {
        assert(forall|i: int| 0 <= i < s.skip(1).len() ==> #[trigger] s.skip(1)[i] == s[i
            + 1]);
        lemma_bounded_fit(s.skip(1));
    }
}

/// A line whose tiles all leave room for one more doubling meets the merge
/// pass's machine limit.
pub proof fn lemma_bounded_line_fit(s: Seq<u64>)
    requires
        forall|i: int| 0 <= i < s.len() ==> s[i] <= TILE_MAX,
    ensures
        merge_pairs_fit(tiles_of(s)),
{
    lemma_tiles_of_bound(s, TILE_MAX);
    lemma_bounded_fit(tiles_of(s));
}

pub proof fn lemma_merged_line_len(s: Seq<u64>)
    requires
        s.len() == 6,
    ensures
        merged_line(s).len() == 6,
{
    lemma_tiles_of_len(s);
    lemma_merge_pairs_len(tiles_of(s));
}

proof fn lemma_tiles_of_identity(s: Seq<u64>)
    requires
        forall|i: int| 0 <= i < s.len() ==> s[i] != 0,
    ensures
        tiles_of(s) == s,
    decreases s.len(),
{
    if s.len() == 0 {
        assert(tiles_of(s) =~= s);
    } else {
        lemma_tiles_of_identity(s.skip(1));
        assert(seq![s[0]] + s.skip(1) =~= s);
    }
}

proof fn lemma_merge_pairs_identity(s: Seq<u64>)
    requires
        forall|i: int| 0 <= i < s.len() - 1 ==> (#[trigger] s[i]) != s[i + 1],
    ensures
        merge_pairs(s) == s,
    decreases s.len(),
{
    if s.len() == 0 {
        assert(merge_pairs(s) =~= s);
    } else {
        assert(forall|i: int| 0 <= i < s.skip(1).len() - 1 ==> (#[trigger] s.skip(1)[i])
            != s.skip(1)[i + 1]) by {
            assert(forall|i: int| 0 <= i < s.len() - 1 ==> #[trigger] s.skip(1)[i] == s[i
                + 1]);
        }
        lemma_merge_pairs_identity(s.skip(1));
        assert(seq![s[0]] + s.skip(1) =~= s);
    }
}

proof fn lemma_no_pairs_fit(s: Seq<u64>)
    requires
        forall|i: int| 0 <= i < s.len() - 1 ==> (#[trigger] s[i]) != s[i + 1],
    ensures
        merge_pairs_fit(s),
    decreases s.len(),
{
    if s.len() >= 1 {
        assert(forall|i: int| 0 <= i < s.skip(1).len() - 1 ==> (#[trigger] s.skip(1)[i])
            != s.skip(1)[i + 1]) by {
            assert(forall|i: int| 0 <= i < s.len() - 1 ==> #[trigger] s.skip(1)[i] == s[i
                + 1]);
        }
        lemma_no_pairs_fit(s.skip(1));
    }
}

/// No-move idempotence: a full line with no equal adjacent values meets the
/// merge pass's machine limit outright (nothing combines) and is left exactly
/// as it is by the pass.
pub proof fn lemma_full_line_without_pairs_unchanged(s: Seq<u64>)
    requires
        s.len() == 6,
        forall|i: int| 0 <= i < 6 ==> s[i] != 0,
        forall|i: int| 0 <= i < 5 ==> (#[trigger] s[i]) != s[i + 1],
    ensures
        merge_pairs_fit(tiles_of(s)),
        merged_line(s) == s,
{
    lemma_tiles_of_identity(s);
    lemma_merge_pairs_identity(s);
    lemma_no_pairs_fit(s);
    assert(merged_line(s) =~= s);
}

proof fn lemma_tiles_of_bound(s: Seq<u64>, b: u64)
    requires
        forall|i: int| 0 <= i < s.len() ==> s[i] <= b,
    ensures
        forall|j: int| 0 <= j < tiles_of(s).len() ==> tiles_of(s)[j] <= b,
    decreases s.len(),
{
    if s.len() > 0 {
        assert(forall|i: int| 0 <= i < s.skip(1).len() ==> #[trigger] s.skip(1)[i] == s[i
            + 1]);
        lemma_tiles_of_bound(s.skip(1), b);
        if s[0] == 0 {
            assert(tiles_of(s) == tiles_of(s.skip(1)));
        } else {
            assert forall|j: int| 0 <= j < tiles_of(s).len() implies tiles_of(s)[j]
                <= b by {
                if j == 0 {
                    assert(tiles_of(s)[0] == s[0]);
                } else {
                    assert(tiles_of(s)[j] == tiles_of(s.skip(1))[j - 1]);
                }
            }
        }
    }
}

proof fn lemma_tiles_of_keeps(s: Seq<u64>, i: int)
    requires
        0 <= i < s.len(),
        s[i] != 0,
    ensures
        exists|j: int| 0 <= j < tiles_of(s).len() && tiles_of(s)[j] == s[i],
    decreases s.len(),
{
    if i == 0 {
        assert(tiles_of(s)[0] == s[0]);
    } else {
        assert(s.skip(1)[i - 1] == s[i]);
        lemma_tiles_of_keeps(s.skip(1), i - 1);
        let j = choose|j: int| 0 <= j < tiles_of(s.skip(1)).len() && tiles_of(s.skip(1))[j]
            == s.skip(1)[i - 1];
        if s[0] == 0 {
            assert(tiles_of(s)[j] == s[i]);
        } else {
            assert(tiles_of(s)[j + 1] == s[i]);
        }
    }
}

proof fn lemma_merge_pairs_keeps_large(s: Seq<u64>, t: u64, i: int)
    requires
        forall|m: int| 0 <= m < s.len() ==> s[m] <= TILE_MAX,
        0 <= i < s.len(),
        s[i] >= t,
    ensures
        exists|j: int| 0 <= j < merge_pairs(s).len() && merge_pairs(s)[j] >= t,
    decreases s.len(),
{
    if s.len() >= 2 && s[0] == s[1] {
        if i <= 1 {
            assert(s[0] + s[1] <= u64::MAX);
            assert(merge_pairs(s)[0] == (s[0] + s[1]) as u64);
            assert(merge_pairs(s)[0] >= t);
        } else {
            assert(s.skip(2)[i - 2] == s[i]);
            assert(forall|m: int| 0 <= m < s.skip(2).len() ==> s.skip(2)[m] == s[m + 2]);
            lemma_merge_pairs_keeps_large(s.skip(2), t, i - 2);
            let j = choose|j: int| 0 <= j < merge_pairs(s.skip(2)).len() && merge_pairs(
                s.skip(2),
            )[j] >= t;
            assert(merge_pairs(s)[j + 1] >= t);
        }
    } else {
        if i == 0 {
            assert(merge_pairs(s)[0] >= t);
        } else {
            assert(s.skip(1)[i - 1] == s[i]);
            assert(forall|m: int| 0 <= m < s.skip(1).len() ==> s.skip(1)[m] == s[m + 1]);
            lemma_merge_pairs_keeps_large(s.skip(1), t, i - 1);
            let j = choose|j: int| 0 <= j < merge_pairs(s.skip(1)).len() && merge_pairs(
                s.skip(1),
            )[j] >= t;
            assert(merge_pairs(s)[j + 1] >= t);
        }
    }
}

/// Win preservation: if some cell of a line holds at least 2048, so does some
/// cell of the merged line.
pub proof fn lemma_merged_line_keeps_win(s: Seq<u64>, i: int)
    requires
        s.len() == 6,
        forall|m: int| 0 <= m < 6 ==> s[m] <= TILE_MAX,
        0 <= i < 6,
        s[i] >= 2048,
    ensures
        exists|j: int| 0 <= j < 6 && merged_line(s)[j] >= 2048,
{
    lemma_tiles_of_keeps(s, i);
    lemma_tiles_of_bound(s, TILE_MAX);
    lemma_tiles_of_len(s);
    let j0 = choose|j: int| 0 <= j < tiles_of(s).len() && tiles_of(s)[j] == s[i];
    lemma_merge_pairs_keeps_large(tiles_of(s), 2048, j0);
    lemma_merge_pairs_len(tiles_of(s));
    let j1 = choose|j: int| 0 <= j < merge_pairs(tiles_of(s)).len() && merge_pairs(
        tiles_of(s),
    )[j] >= 2048;
    assert(merged_line(s)[j1] >= 2048);
}

/// The value staged at the write cursor, if any: a value that may still merge
/// with the next one read.
pub open spec fn staged(pending: bool, out: Seq<u64>, write: int) -> Seq<u64> {
    if pending {
        seq![out[write]]
    } else {
        Seq::empty()
    }
}

/// One merge pass over a single line of six values, head first.
pub fn merge_line_values(vals: &Vec<u64>) -> (r: Vec<u64>)
    requires
        vals@.len() == 6,
        merge_pairs_fit(tiles_of(vals@)),
    ensures
        r@.len() == 6,
        r@ == merged_line(vals@),
{
    let mut out: Vec<u64> = vec![0u64, 0u64, 0u64, 0u64, 0u64, 0u64];
    let mut write: usize = 0;
    let mut pending: bool = false;
    let mut k: usize = 0;
    proof {
        assert(vals@.skip(0) =~= vals@);
        assert(out@.subrange(0, 0) =~= Seq::<u64>::empty());
        assert(Seq::<u64>::empty() + tiles_of(vals@) =~= tiles_of(vals@));
        assert(Seq::<u64>::empty() + merge_pairs(tiles_of(vals@)) =~= merge_pairs(
            tiles_of(vals@),
        ));
    }
    while k < 6
        invariant
            vals@.len() == 6,
            out@.len() == 6,
            k <= 6,
            write as int + (if pending { 1int } else { 0int }) <= k as int,
            pending ==> out@[write as int] != 0,
            forall|i: int| write as int + (if pending { 1int } else { 0int }) <= i < 6
                ==> out@[i] == 0,
            merge_pairs_fit(staged(pending, out@, write as int) + tiles_of(
                vals@.skip(k as int),
            )),
            out@.subrange(0, write as int) + merge_pairs(
                staged(pending, out@, write as int) + tiles_of(vals@.skip(k as int)),
            ) == merge_pairs(tiles_of(vals@)),
        decreases 6 - k,
    {
        let v = vals[k];
        proof {
            lemma_tiles_of_step(vals@, k as int);
        }
        if v == 0 {
            k = k + 1;
        } else if !pending {
            let ghost prev = out@;
            out[write] = v;
            pending = true;
            k = k + 1;
            proof {
                assert(out@.subrange(0, write as int) =~= prev.subrange(0, write as int));
                assert(staged(true, out@, write as int) + tiles_of(vals@.skip(k as int))
                    =~= Seq::<u64>::empty() + tiles_of(vals@.skip(k as int - 1)));
            }
        } else {
            let w = out[write];
            if w == v {
                let ghost prev = out@;
                proof {
                    let rest = tiles_of(vals@.skip(k as int + 1));
                    assert(staged(true, out@, write as int) + tiles_of(
                        vals@.skip(k as int),
                    ) =~= seq![w, w] + rest);
                    lemma_merge_pairs_match(w, rest);
                    assert(w + v <= u64::MAX);
                }
                out[write] = w + v;
                write = write + 1;
                pending = false;
                k = k + 1;
                proof {
                    let rest = tiles_of(vals@.skip(k as int));
                    assert(staged(true, prev, write as int - 1) + tiles_of(
                        vals@.skip(k as int - 1),
                    ) =~= seq![w, w] + rest);
                    lemma_merge_pairs_match(w, rest);
                    assert(out@.subrange(0, write as int) =~= prev.subrange(
                        0,
                        write as int - 1,
                    ) + seq![(w + v) as u64]);
                    assert(staged(false, out@, write as int) + rest =~= rest);
                    assert(merge_pairs_fit(staged(false, out@, write as int) + rest));
                    assert(out@.subrange(0, write as int) + merge_pairs(rest)
                        =~= (prev.subrange(0, write as int - 1) + (seq![(w + w) as u64]
                            + merge_pairs(rest))));
                }
            } else {
                let ghost prev = out@;
                write = write + 1;
                out[write] = v;
                k = k + 1;
                proof {
                    let rest = tiles_of(vals@.skip(k as int));
                    assert(staged(true, prev, write as int - 1) + tiles_of(
                        vals@.skip(k as int - 1),
                    ) =~= seq![w] + (seq![v] + rest));
                    lemma_merge_pairs_mismatch(w, v, rest);
                    assert(out@.subrange(0, write as int) =~= prev.subrange(
                        0,
                        write as int - 1,
                    ) + seq![w]);
                    assert(staged(true, out@, write as int) + rest =~= seq![v] + rest);
                    assert(merge_pairs_fit(staged(true, out@, write as int) + rest));
                    assert(out@.subrange(0, write as int) + merge_pairs(seq![v] + rest)
                        =~= (prev.subrange(0, write as int - 1) + (seq![w] + merge_pairs(
                            seq![v] + rest,
                        ))));
                }
            }
        }
    }
    proof {
        assert(vals@.skip(6) =~= Seq::<u64>::empty());
        let closed = out@.subrange(0, write as int);
        let st = staged(pending, out@, write as int);
        assert(st + tiles_of(vals@.skip(6)) =~= st);
        if pending {
            lemma_merge_pairs_single(out@[write as int]);
            assert(closed + merge_pairs(st) =~= out@.subrange(0, write as int + 1));
        } else {
            assert(merge_pairs(st) =~= Seq::<u64>::empty());
            assert(closed + merge_pairs(st) =~= closed);
        }
        assert(out@ =~= merged_line(vals@));
    }
    out
}

} // verus!
