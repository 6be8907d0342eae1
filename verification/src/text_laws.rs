//! Numbers as text, and the order of texts.

use crate::text::{decimal, digit, lemma_decimal_nonempty, text_less, text_less_from};
use vstd::prelude::*;

verus! {

/// Whether a text is made of the ten digits.
pub open spec fn is_numeral(text: Seq<char>) -> bool {
    forall|i: int| 0 <= i < text.len() ==> '0' <= #[trigger] text[i] && text[i] <= '9'
}

/// The number that a numeral stands for.
pub open spec fn number_of(text: Seq<char>) -> int
    decreases text.len(),
{
    if text.len() == 0 {
        0
    } else {
        10 * number_of(text.drop_last()) + (text.last() as int - '0' as int)
    }
}

/// The decimal notation of a number is a numeral for it, and starts with a zero only if it is zero.
pub proof fn law_decimal_reads_back(n: nat)
    ensures
        is_numeral(decimal(n)),
        number_of(decimal(n)) == n,
        decimal(n).len() > 0,
        decimal(n)[0] == '0' ==> n == 0,
        decimal(n).len() == 1 <==> n < 10,
    decreases n,
{
    lemma_decimal_nonempty(n);
    if n < 10 {
        reveal_with_fuel(number_of, 2);
        assert(decimal(n).drop_last() =~= Seq::empty());
        assert(decimal(n).last() == digit(n));
    } else {
        law_decimal_reads_back(n / 10);
        let front = decimal(n / 10);
        assert(decimal(n).drop_last() =~= front);
        assert(decimal(n).last() == digit(n % 10));
        assert(decimal(n)[0] == front[0]);
        assert forall|i: int| 0 <= i < decimal(n).len() implies '0' <= #[trigger] decimal(n)[i]
            && decimal(n)[i] <= '9' by {
            if i < front.len() {
                assert(decimal(n)[i] == front[i]);
            }
        }
    }
}

/// A text comes before another if it is a proper start of it, or has the smaller character at the
/// first place where the two differ; and only then.
pub proof fn law_text_order_is_lexicographic(a: Seq<char>, b: Seq<char>, k: int)
    requires
        0 <= k <= a.len(),
        k <= b.len(),
        a.take(k) == b.take(k),
        k < a.len() && k < b.len() ==> a[k] != b[k],
    ensures
        text_less(a, b) <==> k < b.len() && (k == a.len() || a[k] < b[k]),
{
    lemma_common_start(a, b, k, k);
}

proof fn lemma_common_start(a: Seq<char>, b: Seq<char>, k: int, steps: int)
    requires
        0 <= steps <= k,
        k <= a.len(),
        k <= b.len(),
        a.take(k) == b.take(k),
    ensures
        text_less_from(a, b, k - steps) == text_less_from(a, b, k),
    decreases steps,
{
    if steps > 0 {
        lemma_common_start(a, b, k, steps - 1);
        let i = k - steps;
        assert(a.take(k)[i] == a[i]);
        assert(b.take(k)[i] == b[i]);
    }
}

} // verus!
