//! Counting open walls in a wall array. A wall flag of `false` means the wall
//! is open (passable).

use vstd::prelude::*;

verus! {

/// How many entries of `s` are `false`, that is, how many walls are open.
pub open spec fn count_open(s: Seq<bool>) -> int
    decreases s.len(),
{
    if s.len() == 0 {
        0
    } else {
        count_open(s.drop_last()) + if s.last() {
            0int
        } else {
            1int
        }
    }
}

/// Appending one wall flag adds one open wall exactly when the flag is `false`.
pub proof fn lemma_count_open_push(s: Seq<bool>, b: bool)
    ensures
        count_open(s.push(b)) == count_open(s) + if b {
            0int
        } else {
            1int
        },
{
    assert(s.push(b).drop_last() =~= s);
}

/// Overwriting one wall flag changes the open count by the difference between
/// the openness of the new and the old flag.
pub proof fn lemma_count_open_update(s: Seq<bool>, i: int, b: bool)
    requires
        0 <= i < s.len(),
    ensures
        count_open(s.update(i, b)) == count_open(s) - (if s[i] {
            0int
        } else {
            1int
        }) + (if b {
            0int
        } else {
            1int
        }),
    decreases s.len(),
{
    if i == s.len() - 1 {
        assert(s.update(i, b).drop_last() =~= s.drop_last());
        assert(s.update(i, b).last() == b);
    } else {
        assert(s.update(i, b).drop_last() =~= s.drop_last().update(i, b));
        assert(s.update(i, b).last() == s.last());
        lemma_count_open_update(s.drop_last(), i, b);
        assert(s.drop_last()[i] == s[i]);
    }
}

/// Opening one closed wall and closing one other open wall leaves the open
/// count unchanged.
pub proof fn lemma_count_open_open_close(s: Seq<bool>, i1: int, i2: int)
    requires
        0 <= i1 < s.len(),
        0 <= i2 < s.len(),
        i1 != i2,
        s[i1],
        !s[i2],
    ensures
        count_open(s.update(i1, false).update(i2, true)) == count_open(s),
{
    lemma_count_open_update(s, i1, false);
    assert(s.update(i1, false)[i2] == s[i2]);
    lemma_count_open_update(s.update(i1, false), i2, true);
}

} // verus!
