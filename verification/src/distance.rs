//! Edit distance between texts, and the test of similarity that a search
//! applies to a task's name.

use vstd::prelude::*;

verus! {

/// The least of three numbers.
pub open spec fn least(x: nat, y: nat, z: nat) -> nat {
    if x <= y && x <= z {
        x
    } else if y <= z {
        y
    } else {
        z
    }
}

/// The edit distance of `a` and `b`: the least number of characters to
/// insert, delete or replace by another that turns `a` into `b`.
pub open spec fn edit_distance(a: Seq<char>, b: Seq<char>) -> nat
    decreases a.len() + b.len(),
{
    if a.len() == 0 {
        b.len()
    } else if b.len() == 0 {
        a.len()
    } else {
        let replaced: nat = if a.last() == b.last() {
            0
        } else {
            1
        };
        least(
            edit_distance(a.drop_last(), b) + 1,
            edit_distance(a, b.drop_last()) + 1,
            edit_distance(a.drop_last(), b.drop_last()) + replaced,
        )
    }
}

/// The length of the longer of two texts.
pub open spec fn longer_len(a: Seq<char>, b: Seq<char>) -> nat {
    if a.len() >= b.len() {
        a.len()
    } else {
        b.len()
    }
}

/// Whether a distance is close for texts of which the longer has `longer`
/// characters: the similarity, one minus the distance divided by `longer`,
/// exceeds three quarters. A similarity of three quarters itself, where
/// four times the distance is `longer`, is not close. Two empty texts are
/// similar.
pub open spec fn is_close(distance: nat, longer: nat) -> bool {
    longer == 0 || 4 * distance < longer
}

/// Whether `a` and `b` are similar: their edit distance is close for their
/// lengths.
pub open spec fn is_similar(a: Seq<char>, b: Seq<char>) -> bool {
    is_close(edit_distance(a, b), longer_len(a, b))
}

/// `strsim::levenshtein`: the least number of insertions, deletions and
/// substitutions of single characters that changes one string into the
/// other.
#[verifier::external_body]
pub(crate) fn levenshtein(a: &str, b: &str) -> (distance: usize)
    ensures
        distance == edit_distance(a@, b@),
{
    strsim::levenshtein(a, b)
}

/// Decides `is_close`.
pub fn close_enough(distance: usize, longer: usize) -> (r: bool)
    ensures
        r == is_close(distance as nat, longer as nat),
{
    longer == 0 || distance < longer / 4 || (distance == longer / 4 && longer % 4 != 0)
}

} // verus!
