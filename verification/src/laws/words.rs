//! What holds of names and numerals.
use crate::names::text_before;
use crate::text::{decimal, digit_char};
use vstd::prelude::*;

verus! {

/// `a` comes before `b` in a dictionary: up to some place both are alike, and there `a` ends or
/// has the smaller code point.
pub open spec fn comes_first(a: Seq<char>, b: Seq<char>) -> bool {
    exists|n: int|
        0 <= n <= a.len() && n < b.len() && #[trigger] a.take(n) == b.take(n) && (n == a.len()
            || a[n] < b[n])
}

/// Names are in the order of a dictionary.
pub proof fn law_names_are_in_dictionary_order(a: Seq<char>, b: Seq<char>)
    ensures
        text_before(a, b) <==> comes_first(a, b),
    decreases a.len(),
{
    if a.len() > 0 && b.len() > 0 {
        let rest_a = a.drop_first();
        let rest_b = b.drop_first();
        law_names_are_in_dictionary_order(rest_a, rest_b);
        if text_before(a, b) {
            if a[0] < b[0] {
                assert(a.take(0) =~= b.take(0));
            } else {
                let n = choose|n: int|
                    0 <= n <= rest_a.len() && n < rest_b.len() && #[trigger] rest_a.take(n)
                        == rest_b.take(n) && (n == rest_a.len() || rest_a[n] < rest_b[n]);
                let longer = a.take(n + 1);
                assert forall|i: int| 0 <= i < n + 1 implies #[trigger] longer[i] == b[i] by {
                    if i > 0 {
                        assert(rest_a.take(n)[i - 1] == rest_b.take(n)[i - 1]);
                    }
                }
                assert(longer =~= b.take(n + 1));
            }
        }
        if comes_first(a, b) {
            let n = choose|n: int|
                0 <= n <= a.len() && n < b.len() && #[trigger] a.take(n) == b.take(n) && (n
                    == a.len() || a[n] < b[n]);
            if n > 0 {
                assert(a.take(n)[0] == b.take(n)[0]);
                let shorter = rest_a.take(n - 1);
                assert forall|i: int| 0 <= i < n - 1 implies #[trigger] shorter[i] == rest_b[i] by {
                    assert(a.take(n)[i + 1] == b.take(n)[i + 1]);
                }
                assert(shorter =~= rest_b.take(n - 1));
                assert(comes_first(rest_a, rest_b));
            }
        }
    } else if b.len() > 0 {
        assert(a.take(0) =~= b.take(0));
    }
}

/// A numeral has decimal digits only, no leading zero, and the value of its number.
pub proof fn law_numeral_has_its_value(n: nat)
    ensures
        decimal(n).len() > 0,
        forall|i: int| 0 <= i < decimal(n).len() ==> '0' <= #[trigger] decimal(n)[i] <= '9',
        decimal(n).len() > 1 ==> decimal(n)[0] != '0',
        decimal(n).fold_left(
            0int,
            |value: int, digit: char| 10 * value + (digit as int - '0' as int),
        ) == n,
    decreases n,
{
    let value = |value: int, digit: char| 10 * value + (digit as int - '0' as int);
    reveal_with_fuel(Seq::fold_left, 2);
    if n < 10 {
        assert(decimal(n).drop_last() =~= Seq::empty());
    } else {
        law_numeral_has_its_value(n / 10);
        assert(decimal(n).drop_last() =~= decimal(n / 10));
        assert(decimal(n).last() == digit_char(n % 10));
        assert forall|i: int| 0 <= i < decimal(n).len() implies '0' <= #[trigger] decimal(n)[i]
            <= '9' by {
            if i < decimal(n / 10).len() {
                assert(decimal(n)[i] == decimal(n / 10)[i]);
            }
        }
        assert(decimal(n)[0] == decimal(n / 10)[0]);
        if decimal(n / 10).len() == 1 {
            assert(n / 10 < 10) by {
                if n / 10 >= 10 {
                    law_numeral_has_its_value(n / 100);
                    assert(n / 10 / 10 == n / 100);
                }
            }
        }
    }
}

} // verus!
