//! Edit distance between two words, taken as byte sequences.

use vstd::prelude::*;
use vstd::string::*;
use vstd::utf8::{encode_utf8, encode_utf8_decode_utf8};

verus! {

/// The smallest of three numbers.
pub open spec fn least(x: nat, y: nat, z: nat) -> nat {
    if x <= y && x <= z {
        x
    } else if y <= z {
        y
    } else {
        z
    }
}

/// What it costs to turn byte `x` into byte `y`: nothing when they agree.
pub open spec fn substitution_cost(x: u8, y: u8) -> nat {
    if x == y {
        0
    } else {
        1
    }
}

/// The edit distance between `a` and `b`, by the recurrence on their last
/// bytes: drop the last byte of `a`, or supply the last byte of `b`, or turn
/// one last byte into the other.
pub open spec fn edit_distance(a: Seq<u8>, b: Seq<u8>) -> nat
    decreases a.len() + b.len(),
{
    if a.len() == 0 {
        b.len()
    } else if b.len() == 0 {
        a.len()
    } else {
        least(
            edit_distance(a.drop_last(), b) + 1,
            edit_distance(a, b.drop_last()) + 1,
            edit_distance(a.drop_last(), b.drop_last()) + substitution_cost(a.last(), b.last()),
        )
    }
}

/// The distance does not depend on the order of the two words.
pub proof fn distance_symmetric(a: Seq<u8>, b: Seq<u8>)
    ensures
        edit_distance(a, b) == edit_distance(b, a),
    decreases a.len() + b.len(),
{
    if a.len() != 0 && b.len() != 0 {
        distance_symmetric(a.drop_last(), b);
        distance_symmetric(a, b.drop_last());
        distance_symmetric(a.drop_last(), b.drop_last());
    }
}

/// A word is at distance zero from itself.
pub proof fn distance_to_self(a: Seq<u8>)
    ensures
        edit_distance(a, a) == 0,
    decreases a.len(),
{
    if a.len() != 0 {
        distance_to_self(a.drop_last());
    }
}

/// Two words are at distance zero exactly when they are the same bytes.
pub proof fn distance_zero_iff_equal(a: Seq<u8>, b: Seq<u8>)
    ensures
        edit_distance(a, b) == 0 <==> a == b,
    decreases a.len() + b.len(),
{
    if a == b {
        distance_to_self(a);
    } else if a.len() == 0 || b.len() == 0 {
        assert(a.len() != b.len()) by {
            if a.len() == b.len() {
                assert(a =~= b);
            }
        }
    } else {
        distance_zero_iff_equal(a.drop_last(), b.drop_last());
        if a.drop_last() == b.drop_last() && a.last() == b.last() {
            assert(a =~= a.drop_last().push(a.last()));
            assert(b =~= b.drop_last().push(b.last()));
        }
    }
}

/// The distance never exceeds the length of the longer word, and is never
/// less than the difference of the two lengths.
pub proof fn distance_bounds(a: Seq<u8>, b: Seq<u8>)
    ensures
        edit_distance(a, b) <= if a.len() >= b.len() { a.len() } else { b.len() },
        edit_distance(a, b) >= a.len() - b.len(),
        edit_distance(a, b) >= b.len() - a.len(),
    decreases a.len() + b.len(),
{
    if a.len() != 0 && b.len() != 0 {
        distance_bounds(a.drop_last(), b);
        distance_bounds(a, b.drop_last());
        distance_bounds(a.drop_last(), b.drop_last());
    }
}

/// Two texts are the same characters exactly when they are the same bytes.
pub proof fn same_text_iff_same_bytes(a: Seq<char>, b: Seq<char>)
    ensures
        a == b <==> encode_utf8(a) == encode_utf8(b),
{
    encode_utf8_decode_utf8(a);
    encode_utf8_decode_utf8(b);
}

/// Computes the edit distance between `s1` and `s2`, byte by byte, one row of
/// the table at a time. The row runs across the shorter word.
pub fn wagner_fischer(s1: &str, s2: &str) -> (distance: usize)
    ensures
        distance == edit_distance(s1.spec_bytes(), s2.spec_bytes()),
        distance == 0 <==> s1.spec_bytes() == s2.spec_bytes(),
{
    let first: &[u8] = s1.as_bytes();
    let second: &[u8] = s2.as_bytes();
    let swapped: bool = first.len() > second.len();
    let across: &[u8] = if swapped { second } else { first };
    let down: &[u8] = if swapped { first } else { second };
    let width: usize = across.len();
    let height: usize = down.len();
    proof {
        distance_symmetric(first@, second@);
        distance_zero_iff_equal(first@, second@);
    }

    // row[j] is the distance from the first j + 1 bytes of `across` to the
    // bytes of `down` read so far; against no byte at all that is j + 1.
    let mut row: Vec<usize> = Vec::new();
    let mut j: usize = 0;
    while j < width
        invariant
            j <= width,
            width == across@.len(),
            row@.len() == j,
            forall|k: int|
                0 <= k < j ==> #[trigger] row@[k] == edit_distance(
                    across@.take(k + 1),
                    down@.take(0),
                ),
        decreases width - j,
    {
        row.push(j + 1);
        j += 1;
    }

    let mut i: usize = 0;
    while i < height
        invariant
            i <= height,
            width == across@.len(),
            height == down@.len(),
            row@.len() == width,
            forall|k: int|
                0 <= k < width ==> #[trigger] row@[k] == edit_distance(
                    across@.take(k + 1),
                    down@.take(i as int),
                ),
        decreases height - i,
    {
        // `corner` and `left` start in the column of the empty prefix.
        let mut corner: usize = i;
        let mut left: usize = i + 1;
        let mut j: usize = 0;
        while j < width
            invariant
                j <= width,
                i < height,
                width == across@.len(),
                height == down@.len(),
                row@.len() == width,
                corner == edit_distance(across@.take(j as int), down@.take(i as int)),
                left == edit_distance(across@.take(j as int), down@.take(i + 1)),
                forall|k: int|
                    0 <= k < j ==> #[trigger] row@[k] == edit_distance(
                        across@.take(k + 1),
                        down@.take(i + 1),
                    ),
                forall|k: int|
                    j <= k < width ==> #[trigger] row@[k] == edit_distance(
                        across@.take(k + 1),
                        down@.take(i as int),
                    ),
            decreases width - j,
        {
            let above: usize = row[j];
            proof {
                let a = across@.take(j + 1);
                let b = down@.take(i + 1);
                assert(a.drop_last() =~= across@.take(j as int));
                assert(b.drop_last() =~= down@.take(i as int));
                distance_bounds(a.drop_last(), b.drop_last());
            }
            let turned: usize = if across[j] == down[i] {
                corner
            } else {
                corner + 1
            };
            // One more step is added to the cheaper neighbour only where that
            // beats `turned`, so no sum exceeds the longer length.
            let shifted: usize = if above < left {
                above
            } else {
                left
            };
            let cell: usize = if shifted < turned {
                shifted + 1
            } else {
                turned
            };
            row[j] = cell;
            corner = above;
            left = cell;
            j += 1;
        }
        i += 1;
    }

    proof {
        assert(across@.take(width as int) =~= across@);
        assert(down@.take(height as int) =~= down@);
    }
    if width == 0 {
        height
    } else {
        row[width - 1]
    }
}

} // verus!
