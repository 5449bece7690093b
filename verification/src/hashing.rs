use crate::errors::LshError;
use vstd::prelude::*;

verus! {

/// A hash code is a string over the alphabet {'0','1'}.
pub open spec fn is_bit_code(s: Seq<char>) -> bool {
    forall|i: int| 0 <= i < s.len() ==> s[i] == '0' || s[i] == '1'
}

/// The hash code that a sequence of half-space signs encodes: '1' at each
/// position where the projection was strictly positive, '0' elsewhere, in
/// hyperplane row order.
pub open spec fn code_of_signs(signs: Seq<bool>) -> Seq<char> {
    signs.map_values(|b: bool| if b { '1' } else { '0' })
}

/// Rejects a hyperplane matrix shape with zero rows (`nbits`) or zero
/// columns (`dim`): generation must fail explicitly rather than hand back an
/// empty matrix.
pub fn validate_matrix_size(nbits: usize, dim: usize) -> (r: Result<(), LshError>)
    ensures
        r == (if nbits >= 1 && dim >= 1 {
            Ok::<(), LshError>(())
        } else {
            Err::<(), LshError>(LshError::InvalidSize)
        }),
{
    if nbits >= 1 && dim >= 1 {
        Ok(())
    } else {
        Err(LshError::InvalidSize)
    }
}

/// Checks, before any projection is computed, that an embedding vector's
/// length equals the hyperplane matrix's column count; a mismatch is the
/// caller's error and is reported, never truncated or zero-padded.
pub fn check_dimensions(dim: usize, vector_len: usize) -> (r: Result<(), LshError>)
    ensures
        r == (if vector_len == dim {
            Ok::<(), LshError>(())
        } else {
            Err::<(), LshError>(LshError::DimensionMismatch)
        }),
{
    if vector_len == dim {
        Ok(())
    } else {
        Err(LshError::DimensionMismatch)
    }
}

/// Builds the hash-code string from the per-hyperplane signs of the dot
/// products, row 0 first: a pure function of its input, so codes are
/// reproducible across runs.
pub fn code_from_signs(signs: &Vec<bool>) -> (code: String)
    ensures
        code@ == code_of_signs(signs@),
        code@.len() == signs@.len(),
        is_bit_code(code@),
{
    let mut code = String::new();
    let mut i: usize = 0;
    while i < signs.len()
        invariant
            i <= signs@.len(),
            code@ == code_of_signs(signs@.take(i as int)),
        decreases signs@.len() - i,
    {
        proof {
            reveal_strlit("0");
            reveal_strlit("1");
        }
        if signs[i] {
            code.append("1");
        } else {
            code.append("0");
        }
        proof {
            assert(code@ =~= code_of_signs(signs@.take(i + 1)));
        }
        i = i + 1;
    }
    proof {
        assert(signs@.take(signs@.len() as int) =~= signs@);
    }
    code
}

} // verus!
