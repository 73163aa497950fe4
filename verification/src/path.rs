//! Device node paths: a fixed prefix followed by a decimal index.

use vstd::prelude::*;

verus! {

/// The ASCII decimal digits of `n`, most significant first, with no leading zeros.
pub open spec fn decimal(n: nat) -> Seq<u8>
    decreases n,
{
    if n < 10 {
        seq![(48 + n) as u8]
    } else {
        decimal(n / 10).push((48 + n % 10) as u8)
    }
}

/// Ten to the power `digits`.
pub open spec fn power_of_ten(digits: nat) -> nat
    decreases digits,
{
    if digits == 0 {
        1
    } else {
        10 * power_of_ten((digits - 1) as nat)
    }
}

proof fn lemma_decimal_length(n: nat, digits: nat)
    requires
        digits >= 1,
        n < power_of_ten(digits),
    ensures
        1 <= decimal(n).len() <= digits,
    decreases n,
{
    if n >= 10 {
        assert(digits >= 2) by {
            if digits == 1 {
                assert(power_of_ten(1) == 10) by {
                    reveal_with_fuel(power_of_ten, 2);
                }
            }
        }
        lemma_decimal_length(n / 10, (digits - 1) as nat);
    }
}

fn push_decimal(out: &mut Vec<u8>, n: u32)
    ensures
        final(out)@ == old(out)@ + decimal(n as nat),
    decreases n,
{
    if n >= 10 {
        push_decimal(out, n / 10);
    }
    let digit: u8 = (n % 10) as u8;
    out.push(48u8 + digit);
    proof {
        if n >= 10 {
            assert(decimal(n as nat) == decimal((n / 10) as nat).push((48 + n % 10) as u8));
        }
    }
}

/// The path of device node `index` under `prefix`, zero-padded to 32 bytes, and its length.
pub fn indexed_path(prefix: &[u8], index: u32) -> (path: ([u8; 32], usize))
    requires
        prefix@.len() <= 22,
    ensures
        path.1 == prefix@.len() + decimal(index as nat).len(),
        path.1 <= 32,
        path.0@.take(path.1 as int) == prefix@ + decimal(index as nat),
        forall|i: int| path.1 <= i < 32 ==> path.0@[i] == 0,
{
    let mut bytes: Vec<u8> = Vec::new();
    let mut i: usize = 0;
    while i < prefix.len()
        invariant
            i <= prefix@.len(),
            bytes@ == prefix@.take(i as int),
        decreases prefix@.len() - i,
    {
        bytes.push(prefix[i]);
        i = i + 1;
        assert(bytes@ =~= prefix@.take(i as int));
    }
    assert(prefix@.take(prefix@.len() as int) =~= prefix@);
    push_decimal(&mut bytes, index);
    proof {
        assert(power_of_ten(10) == 10_000_000_000) by {
            reveal_with_fuel(power_of_ten, 11);
        }
        lemma_decimal_length(index as nat, 10);
    }
    let mut path: [u8; 32] = [0u8; 32];
    let mut j: usize = 0;
    while j < bytes.len()
        invariant
            j <= bytes@.len(),
            bytes@.len() <= 32,
            forall|k: int| 0 <= k < j ==> path@[k] == bytes@[k],
            forall|k: int| j <= k < 32 ==> path@[k] == 0,
        decreases bytes@.len() - j,
    {
        path[j] = bytes[j];
        j = j + 1;
    }
    assert(path@.take(bytes@.len() as int) =~= bytes@);
    (path, bytes.len())
}

proof fn lemma_decimal_nonempty(n: nat)
    ensures
        decimal(n).len() >= 1,
        n >= 10 ==> decimal(n).len() >= 2,
    decreases n,
{
    if n >= 10 {
        lemma_decimal_nonempty(n / 10);
    }
}

/// Distinct indices are written differently, so two device nodes under one prefix never share a
/// path.
pub proof fn distinct_indices_have_distinct_paths(prefix: Seq<u8>, a: nat, b: nat)
    ensures
        prefix + decimal(a) == prefix + decimal(b) ==> a == b,
    decreases a,
{
    if prefix + decimal(a) == prefix + decimal(b) {
        assert(decimal(a) =~= (prefix + decimal(a)).skip(prefix.len() as int));
        assert(decimal(b) =~= (prefix + decimal(b)).skip(prefix.len() as int));
        lemma_decimal_nonempty(a);
        lemma_decimal_nonempty(b);
        if a < 10 && b < 10 {
            assert(decimal(a)[0] == decimal(b)[0]);
        } else if a >= 10 && b >= 10 {
            let da = decimal(a);
            let db = decimal(b);
            assert(da.last() == db.last());
            assert(da.drop_last() =~= decimal(a / 10));
            assert(db.drop_last() =~= decimal(b / 10));
            assert(Seq::<u8>::empty() + decimal(a / 10) =~= decimal(a / 10));
            assert(Seq::<u8>::empty() + decimal(b / 10) =~= decimal(b / 10));
            distinct_indices_have_distinct_paths(Seq::empty(), a / 10, b / 10);
        }
    }
}

} // verus!
