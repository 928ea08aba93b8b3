//! Optional sub-feature: a self-check that formats the unsigned 64-bit value
//! 128 as decimal text and compares the result against the literal "128".
//! The comparison is returned to the caller, which decides whether a mismatch
//! aborts; the contract proves that it can never report a mismatch.
use vstd::prelude::*;

verus! {

/// Formats 128 as decimal text and reports whether the text equals "128".
/// The result is provably true.
pub fn foo() -> (ok: bool)
    ensures
        ok,
{
    let printed = crate::digits::u64_to_decimal(128);
    let expected = "128".to_owned();
    proof {
        reveal_strlit("128");
        assert(crate::digits::dec_digits(1) =~= seq!['1']);
        assert(crate::digits::dec_digits(12) =~= crate::digits::dec_digits(1) + seq![
            crate::digits::digit_char(2),
        ]);
        assert(crate::digits::dec_digits(12) =~= seq!['1', '2']);
        assert(crate::digits::dec_digits(128) =~= crate::digits::dec_digits(12) + seq![
            crate::digits::digit_char(8),
        ]);
        assert(crate::digits::dec_digits(128) =~= seq!['1', '2', '8']);
        assert("128"@ =~= seq!['1', '2', '8']);
    }
    let ok = printed.eq(&expected);
    ok
}

} // verus!
