//! Interleaving of two integer sequences: alternate one element from each
//! side, starting with the first, and append the remainder of the longer side
//! once the shorter is exhausted.
use vstd::prelude::*;

verus! {

/// Mathematical interleaving: alternate one element of `a`, one of `b`,
/// starting with `a`; once one side is exhausted, the rest of the other side
/// follows unchanged.
pub open spec fn interleave_seq(a: Seq<i32>, b: Seq<i32>) -> Seq<i32>
    decreases a.len() + b.len(),
{
    if a.len() == 0 {
        b
    } else {
        seq![a[0]] + interleave_seq(b, a.skip(1))
    }
}

/// Interleaving an empty sequence with `b` yields exactly `b`, unchanged.
pub proof fn lemma_interleave_empty_left(b: Seq<i32>)
    ensures
        interleave_seq(Seq::<i32>::empty(), b) == b,
{
}

/// Interleaving `a` with an empty sequence yields exactly `a`, unchanged.
pub proof fn lemma_interleave_empty_right(a: Seq<i32>)
    ensures
        interleave_seq(a, Seq::<i32>::empty()) == a,
    decreases a.len(),
{
    if a.len() == 0 {
        assert(interleave_seq(a, Seq::<i32>::empty()) =~= a);
    } else {
        assert(interleave_seq(a, Seq::<i32>::empty()) == seq![a[0]] + interleave_seq(
            Seq::<i32>::empty(),
            a.skip(1),
        ));
        assert(seq![a[0]] + a.skip(1) =~= a);
    }
}

/// With both sides nonempty, interleaving starts with the two heads and
/// continues as the interleaving of the two tails.
proof fn lemma_interleave_step(a: Seq<i32>, b: Seq<i32>)
    requires
        a.len() > 0,
        b.len() > 0,
    ensures
        interleave_seq(a, b) == seq![a[0], b[0]] + interleave_seq(a.skip(1), b.skip(1)),
{
    assert(interleave_seq(b, a.skip(1)) == seq![b[0]] + interleave_seq(a.skip(1), b.skip(1)));
    assert(seq![a[0]] + (seq![b[0]] + interleave_seq(a.skip(1), b.skip(1))) =~= seq![a[0], b[0]]
        + interleave_seq(a.skip(1), b.skip(1)));
}

/// Interleaving two equal-length sequences yields exactly twice as many
/// elements, alternating strictly: the elements of `a` at even positions and
/// the elements of `b` at odd positions.
pub proof fn lemma_interleave_equal_len(a: Seq<i32>, b: Seq<i32>)
    requires
        a.len() == b.len(),
    ensures
        interleave_seq(a, b).len() == 2 * a.len(),
        forall|j: int|
            0 <= j < 2 * a.len() ==> #[trigger] interleave_seq(a, b)[j] == (if j % 2 == 0 {
                a[j / 2]
            } else {
                b[j / 2]
            }),
    decreases a.len(),
{
    if a.len() > 0 {
        lemma_interleave_step(a, b);
        lemma_interleave_equal_len(a.skip(1), b.skip(1));
        assert forall|j: int| 0 <= j < 2 * a.len() implies #[trigger] interleave_seq(a, b)[j] == (
        if j % 2 == 0 {
            a[j / 2]
        } else {
            b[j / 2]
        }) by {
            if j >= 2 {
                assert(interleave_seq(a, b)[j] == interleave_seq(a.skip(1), b.skip(1))[j - 2]);
                assert((j - 2) % 2 == j % 2);
                assert((j - 2) / 2 == j / 2 - 1);
                assert(a.skip(1)[j / 2 - 1] == a[j / 2]);
                assert(b.skip(1)[j / 2 - 1] == b[j / 2]);
            }
        }
    }
}

/// Interleaves two vectors, starting with `a`; the remainder of the longer
/// vector follows once the shorter is exhausted.
pub fn interleave(a: &Vec<i32>, b: &Vec<i32>) -> (r: Vec<i32>)
    ensures
        r@ == interleave_seq(a@, b@),
{
    let mut r: Vec<i32> = Vec::new();
    let mut i: usize = 0;
    proof {
        assert(a@.skip(0) =~= a@);
        assert(b@.skip(0) =~= b@);
        assert(Seq::<i32>::empty() + interleave_seq(a@, b@) =~= interleave_seq(a@, b@));
    }
    while i < a.len() && i < b.len()
        invariant
            i <= a@.len(),
            i <= b@.len(),
            interleave_seq(a@, b@) == r@ + interleave_seq(
                a@.skip(i as int),
                b@.skip(i as int),
            ),
        decreases a@.len() - i,
    {
        let ghost r0 = r@;
        r.push(a[i]);
        r.push(b[i]);
        proof {
            lemma_interleave_step(a@.skip(i as int), b@.skip(i as int));
            assert(a@.skip(i as int).skip(1) =~= a@.skip(i as int + 1));
            assert(b@.skip(i as int).skip(1) =~= b@.skip(i as int + 1));
            assert(a@.skip(i as int)[0] == a@[i as int]);
            assert(b@.skip(i as int)[0] == b@[i as int]);
            assert(r@ =~= r0 + seq![a@[i as int], b@[i as int]]);
            assert(r0 + (seq![a@[i as int], b@[i as int]] + interleave_seq(
                a@.skip(i as int + 1),
                b@.skip(i as int + 1),
            )) =~= r@ + interleave_seq(a@.skip(i as int + 1), b@.skip(i as int + 1)));
        }
        i += 1;
    }
    if i < a.len() {
        proof {
            assert(b@.skip(i as int) =~= Seq::<i32>::empty());
            lemma_interleave_empty_right(a@.skip(i as int));
        }
        while i < a.len()
            invariant
                i <= a@.len(),
                interleave_seq(a@, b@) == r@ + a@.skip(i as int),
            decreases a@.len() - i,
        {
            let ghost r0 = r@;
            r.push(a[i]);
            proof {
                assert(a@.skip(i as int) =~= seq![a@[i as int]] + a@.skip(i as int + 1));
                assert(r0 + (seq![a@[i as int]] + a@.skip(i as int + 1)) =~= r@ + a@.skip(
                    i as int + 1,
                ));
            }
            i += 1;
        }
        proof {
            assert(a@.skip(i as int) =~= Seq::<i32>::empty());
            assert(r@ + Seq::<i32>::empty() =~= r@);
        }
    } else {
        proof {
            assert(a@.skip(i as int) =~= Seq::<i32>::empty());
        }
        while i < b.len()
            invariant
                i <= b@.len(),
                interleave_seq(a@, b@) == r@ + b@.skip(i as int),
            decreases b@.len() - i,
        {
            let ghost r0 = r@;
            r.push(b[i]);
            proof {
                assert(b@.skip(i as int) =~= seq![b@[i as int]] + b@.skip(i as int + 1));
                assert(r0 + (seq![b@[i as int]] + b@.skip(i as int + 1)) =~= r@ + b@.skip(
                    i as int + 1,
                ));
            }
            i += 1;
        }
        proof {
            assert(b@.skip(i as int) =~= Seq::<i32>::empty());
            assert(r@ + Seq::<i32>::empty() =~= r@);
        }
    }
    r
}

/// The interleaving of one through nine with one, two, three, element by
/// element: the first three pairs alternate, then the tail of the longer side
/// follows.
proof fn lemma_demo_value()
    ensures
        interleave_seq(seq![1i32, 2, 3, 4, 5, 6, 7, 8, 9], seq![1i32, 2, 3]) == seq![1i32, 1, 2, 2, 3, 3, 4, 5, 6, 7, 8, 9],
{
    let a0 = seq![1i32, 2, 3, 4, 5, 6, 7, 8, 9];
    let b0 = seq![1i32, 2, 3];
    lemma_interleave_step(a0, b0);
    let a1 = a0.skip(1);
    let b1 = b0.skip(1);
    lemma_interleave_step(a1, b1);
    let a2 = a1.skip(1);
    let b2 = b1.skip(1);
    lemma_interleave_step(a2, b2);
    let a3 = a2.skip(1);
    let b3 = b2.skip(1);
    assert(b3 =~= Seq::<i32>::empty());
    lemma_interleave_empty_right(a3);
    assert(a3 =~= seq![4i32, 5, 6, 7, 8, 9]);
    assert(interleave_seq(a0, b0) =~= seq![1i32, 1, 2, 2, 3, 3, 4, 5, 6, 7, 8, 9]);
}

/// The interleaving walk the executable entry point prints: the range one
/// through nine interleaved with the sequence one, two, three.
pub fn interleave_demo() -> (r: Vec<i32>)
    ensures
        r@ == interleave_seq(seq![1i32, 2, 3, 4, 5, 6, 7, 8, 9], seq![1i32, 2, 3]),
        r@ == seq![1i32, 1, 2, 2, 3, 3, 4, 5, 6, 7, 8, 9],
{
    let a: Vec<i32> = vec![1, 2, 3, 4, 5, 6, 7, 8, 9];
    let b: Vec<i32> = vec![1, 2, 3];
    let r = interleave(&a, &b);
    proof {
        assert(a@ =~= seq![1i32, 2, 3, 4, 5, 6, 7, 8, 9]);
        assert(b@ =~= seq![1i32, 2, 3]);
        lemma_demo_value();
    }
    r
}

} // verus!
