//! Single-byte edits, and the edit distance as the least number of them
//! that turns one word into another.

use vstd::prelude::*;
use crate::distance::{distance_to_self, edit_distance};

verus! {

/// `after` comes from `before` by one edit: a byte is inserted, a byte is
/// deleted, or a byte is replaced by a different one.
pub open spec fn one_edit(before: Seq<u8>, after: Seq<u8>) -> bool {
    ||| exists|at: int, byte: u8|
        0 <= at <= before.len() && after == #[trigger] before.insert(at, byte)
    ||| exists|at: int| 0 <= at < before.len() && after == #[trigger] before.remove(at)
    ||| exists|at: int, byte: u8|
        0 <= at < before.len() && before[at] != byte && after == #[trigger] before.update(
            at,
            byte,
        )
}

/// Each word of `path` comes from the one before it by one edit.
pub open spec fn is_edit_path(path: Seq<Seq<u8>>) -> bool {
    forall|k: int| 0 <= k < path.len() - 1 ==> one_edit(#[trigger] path[k], path[k + 1])
}

/// `path` leads from `a` to `b` by one edit at a time.
pub open spec fn connects(path: Seq<Seq<u8>>, a: Seq<u8>, b: Seq<u8>) -> bool {
    &&& path.len() > 0
    &&& path.first() == a
    &&& path.last() == b
    &&& is_edit_path(path)
}

/// Inserting a byte into a word moves it by at most one from any other.
proof fn insertion_moves_by_one(s: Seq<u8>, at: int, byte: u8, b: Seq<u8>)
    requires
        0 <= at <= s.len(),
    ensures
        edit_distance(s.insert(at, byte), b) <= edit_distance(s, b) + 1,
    decreases s.len() + b.len(),
{
    let t = s.insert(at, byte);
    if b.len() != 0 {
        if at == s.len() {
            assert(t.drop_last() =~= s);
        } else {
            // The last bytes stay; the insertion happens in front of them.
            assert(t.drop_last() =~= s.drop_last().insert(at, byte));
            insertion_moves_by_one(s.drop_last(), at, byte, b);
            insertion_moves_by_one(s, at, byte, b.drop_last());
            insertion_moves_by_one(s.drop_last(), at, byte, b.drop_last());
        }
    }
}

/// Dropping the last byte of a word moves it by at most one from any other.
proof fn dropping_last_moves_by_one(s: Seq<u8>, b: Seq<u8>)
    requires
        s.len() > 0,
    ensures
        edit_distance(s.drop_last(), b) <= edit_distance(s, b) + 1,
    decreases b.len(),
{
    if b.len() != 0 {
        dropping_last_moves_by_one(s, b.drop_last());
    }
}

/// Deleting a byte from a word moves it by at most one from any other.
proof fn deletion_moves_by_one(s: Seq<u8>, at: int, b: Seq<u8>)
    requires
        0 <= at < s.len(),
    ensures
        edit_distance(s.remove(at), b) <= edit_distance(s, b) + 1,
    decreases s.len() + b.len(),
{
    let t = s.remove(at);
    if b.len() != 0 {
        if at == s.len() - 1 {
            dropping_last_moves_by_one(s, b);
        } else {
            // The last bytes stay; the deletion happens in front of them.
            assert(t.drop_last() =~= s.drop_last().remove(at));
            deletion_moves_by_one(s.drop_last(), at, b);
            deletion_moves_by_one(s, at, b.drop_last());
            deletion_moves_by_one(s.drop_last(), at, b.drop_last());
        }
    }
}

/// Replacing a byte of a word moves it by at most one from any other.
proof fn substitution_moves_by_one(s: Seq<u8>, at: int, byte: u8, b: Seq<u8>)
    requires
        0 <= at < s.len(),
    ensures
        edit_distance(s.update(at, byte), b) <= edit_distance(s, b) + 1,
    decreases s.len() + b.len(),
{
    let t = s.update(at, byte);
    if b.len() != 0 {
        if at == s.len() - 1 {
            assert(t.drop_last() =~= s.drop_last());
            substitution_moves_by_one(s, at, byte, b.drop_last());
        } else {
            // The last bytes stay; the change happens in front of them.
            assert(t.drop_last() =~= s.drop_last().update(at, byte));
            substitution_moves_by_one(s.drop_last(), at, byte, b);
            substitution_moves_by_one(s, at, byte, b.drop_last());
            substitution_moves_by_one(s.drop_last(), at, byte, b.drop_last());
        }
    }
}

/// One edit changes the distance to any word by at most one.
pub proof fn one_edit_moves_by_one(before: Seq<u8>, after: Seq<u8>, b: Seq<u8>)
    requires
        one_edit(before, after),
    ensures
        edit_distance(before, b) <= edit_distance(after, b) + 1,
        edit_distance(after, b) <= edit_distance(before, b) + 1,
{
    if exists|at: int, byte: u8|
        0 <= at <= before.len() && after == #[trigger] before.insert(at, byte) {
        let (at, byte) = choose|at: int, byte: u8|
            0 <= at <= before.len() && after == #[trigger] before.insert(at, byte);
        assert(before =~= after.remove(at));
        insertion_moves_by_one(before, at, byte, b);
        deletion_moves_by_one(after, at, b);
    } else if exists|at: int| 0 <= at < before.len() && after == #[trigger] before.remove(at) {
        let at = choose|at: int| 0 <= at < before.len() && after == #[trigger] before.remove(at);
        assert(before =~= after.insert(at, before[at]));
        deletion_moves_by_one(before, at, b);
        insertion_moves_by_one(after, at, before[at], b);
    } else {
        let (at, byte) = choose|at: int, byte: u8|
            0 <= at < before.len() && before[at] != byte && after == #[trigger] before.update(
                at,
                byte,
            );
        assert(before =~= after.update(at, before[at]));
        substitution_moves_by_one(before, at, byte, b);
        substitution_moves_by_one(after, at, before[at], b);
    }
}

/// No path from `a` to `b` takes fewer edits than their distance.
pub proof fn edits_are_needed(path: Seq<Seq<u8>>, a: Seq<u8>, b: Seq<u8>)
    requires
        connects(path, a, b),
    ensures
        edit_distance(a, b) <= path.len() - 1,
    decreases path.len(),
{
    if path.len() == 1 {
        distance_to_self(a);
    } else {
        let rest = path.drop_first();
        edits_are_needed(rest, path[1], b);
        one_edit_moves_by_one(a, path[1], b);
    }
}

/// An edit stays an edit when the same byte is appended to both words.
proof fn edit_under_push(before: Seq<u8>, after: Seq<u8>, last: u8)
    requires
        one_edit(before, after),
    ensures
        one_edit(before.push(last), after.push(last)),
{
    let longer = before.push(last);
    if exists|at: int, byte: u8|
        0 <= at <= before.len() && after == #[trigger] before.insert(at, byte) {
        let (at, byte) = choose|at: int, byte: u8|
            0 <= at <= before.len() && after == #[trigger] before.insert(at, byte);
        assert(after.push(last) =~= longer.insert(at, byte));
    } else if exists|at: int| 0 <= at < before.len() && after == #[trigger] before.remove(at) {
        let at = choose|at: int| 0 <= at < before.len() && after == #[trigger] before.remove(at);
        assert(after.push(last) =~= longer.remove(at));
    } else {
        let (at, byte) = choose|at: int, byte: u8|
            0 <= at < before.len() && before[at] != byte && after == #[trigger] before.update(
                at,
                byte,
            );
        assert(after.push(last) =~= longer.update(at, byte));
    }
}

/// Some path from `a` to `b` takes exactly as many edits as their distance.
pub proof fn edits_suffice(a: Seq<u8>, b: Seq<u8>) -> (path: Seq<Seq<u8>>)
    ensures
        connects(path, a, b),
        path.len() - 1 == edit_distance(a, b),
    decreases a.len() + b.len(),
{
    if a.len() == 0 {
        // Write `b` byte by byte.
        let path = Seq::new(b.len() + 1, |k: int| b.take(k));
        assert(path.first() =~= a);
        assert(path.last() =~= b);
        assert forall|k: int| 0 <= k < path.len() - 1 implies one_edit(
            #[trigger] path[k],
            path[k + 1],
        ) by {
            assert(path[k + 1] =~= path[k].insert(k, b[k]));
        }
        path
    } else if b.len() == 0 {
        // Delete `a` byte by byte, from its end.
        let path = Seq::new(a.len() + 1, |k: int| a.take(a.len() - k));
        assert(path.first() =~= a);
        assert(path.last() =~= b);
        assert forall|k: int| 0 <= k < path.len() - 1 implies one_edit(
            #[trigger] path[k],
            path[k + 1],
        ) by {
            assert(path[k + 1] =~= path[k].remove(a.len() - k - 1));
        }
        path
    } else if edit_distance(a, b) == edit_distance(a.drop_last(), b) + 1 {
        // Delete the last byte of `a`, then go on from there.
        let rest = edits_suffice(a.drop_last(), b);
        let path = seq![a] + rest;
        assert(a.drop_last() =~= a.remove(a.len() - 1));
        path
    } else if edit_distance(a, b) == edit_distance(a, b.drop_last()) + 1 {
        // Go to `b` without its last byte, then append that byte.
        let rest = edits_suffice(a, b.drop_last());
        let path = rest.push(b);
        assert(b =~= b.drop_last().insert(b.len() - 1, b.last()));
        path
    } else {
        // Edit all but the last byte, carrying the last byte of `a` along,
        // and replace it at the end where it differs from that of `b`.
        let rest = edits_suffice(a.drop_last(), b.drop_last());
        let carried = Seq::new(rest.len(), |k: int| rest[k].push(a.last()));
        assert(carried.first() =~= a);
        assert forall|k: int| 0 <= k < carried.len() - 1 implies one_edit(
            #[trigger] carried[k],
            carried[k + 1],
        ) by {
            edit_under_push(rest[k], rest[k + 1], a.last());
        }
        if a.last() == b.last() {
            assert(carried.last() =~= b);
            carried
        } else {
            let path = carried.push(b);
            assert(b =~= carried.last().update(b.len() - 1, b.last()));
            path
        }
    }
}

/// Going from `a` to `c` by way of `b` is never shorter than going straight.
pub proof fn distance_triangle(a: Seq<u8>, b: Seq<u8>, c: Seq<u8>)
    ensures
        edit_distance(a, c) <= edit_distance(a, b) + edit_distance(b, c),
{
    let first = edits_suffice(a, b);
    let second = edits_suffice(b, c);
    let path = first + second.drop_first();
    edits_are_needed(path, a, c);
}

} // verus!
