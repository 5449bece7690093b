use crate::errors::LshError;
use vstd::prelude::*;

verus! {

/// Number of positions at which two equal-length character sequences differ.
/// On sequences of unequal length it pairs positions from the end and ignores
/// the overhang; the executable comparator rejects that case instead.
pub open spec fn hamming(a: Seq<char>, b: Seq<char>) -> nat
    decreases a.len(),
{
    if a.len() == 0 || b.len() == 0 {
        0
    } else {
        hamming(a.drop_last(), b.drop_last()) + (if a.last() != b.last() {
            1nat
        } else {
            0nat
        })
    }
}

/// The Hamming distance never exceeds the length of either sequence.
proof fn lemma_hamming_le(a: Seq<char>, b: Seq<char>)
    ensures
        hamming(a, b) <= a.len(),
        hamming(a, b) <= b.len(),
    decreases a.len(),
{
    if a.len() != 0 && b.len() != 0 {
        lemma_hamming_le(a.drop_last(), b.drop_last());
    }
}

/// Law: Hamming distance is symmetric, `hamming(a, b) == hamming(b, a)`.
pub proof fn lemma_hamming_symmetric(a: Seq<char>, b: Seq<char>)
    ensures
        hamming(a, b) == hamming(b, a),
    decreases a.len(),
{
    if a.len() != 0 && b.len() != 0 {
        lemma_hamming_symmetric(a.drop_last(), b.drop_last());
    }
}

/// Law: the Hamming distance of a code to itself is zero.
pub proof fn lemma_hamming_self(a: Seq<char>)
    ensures
        hamming(a, a) == 0,
    decreases a.len(),
{
    if a.len() != 0 {
        lemma_hamming_self(a.drop_last());
    }
}

/// Count of character positions at which the two codes differ, scanning
/// pairwise by position; codes of unequal length are rejected with
/// `LengthMismatch`, never truncated or padded. The count is returned as a
/// `u16`, so equal-length inputs longer than `u16::MAX` are outside the
/// contract; unequal lengths of any size are rejected.
pub fn hamming_distance(str1: String, str2: String) -> (r: Result<u16, LshError>)
    requires
        str1@.len() == str2@.len() ==> str1@.len() <= u16::MAX,
    ensures
        str1@.len() != str2@.len() <==> r == Err::<u16, LshError>(LshError::LengthMismatch),
        str1@.len() == str2@.len() ==> (r matches Ok(d) && d as nat == hamming(str1@, str2@)),
{
    let n1 = str1.as_str().unicode_len();
    let n2 = str2.as_str().unicode_len();
    if n1 != n2 {
        return Err(LshError::LengthMismatch);
    }
    let mut distance: u16 = 0;
    let mut i: usize = 0;
    while i < n1
        invariant
            n1 == str1@.len(),
            n2 == str2@.len(),
            n1 == n2,
            n1 <= u16::MAX,
            i <= n1,
            distance as nat == hamming(str1@.take(i as int), str2@.take(i as int)),
        decreases n1 - i,
    {
        let c1 = str1.as_str().get_char(i);
        let c2 = str2.as_str().get_char(i);
        proof {
            let a1 = str1@.take(i + 1);
            let b1 = str2@.take(i + 1);
            assert(a1.drop_last() =~= str1@.take(i as int));
            assert(b1.drop_last() =~= str2@.take(i as int));
            assert(a1.last() == str1@[i as int]);
            assert(b1.last() == str2@[i as int]);
            lemma_hamming_le(a1, b1);
        }
        if c1 != c2 {
            distance = distance + 1;
        }
        i = i + 1;
    }
    proof {
        assert(str1@.take(n1 as int) =~= str1@);
        assert(str2@.take(n2 as int) =~= str2@);
    }
    Ok(distance)
}

} // verus!
