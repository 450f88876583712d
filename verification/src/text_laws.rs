//! What numbers and times as text stand for.

use crate::text;
use vstd::prelude::*;

verus! {

/// The number that decimal digits stand for.
pub open spec fn value_of(s: Seq<char>) -> int
    decreases s.len(),
{
    if s.len() == 0 {
        0
    } else {
        10 * value_of(s.drop_last()) + (s.last() as int - '0' as int)
    }
}

/// Every character is a decimal digit.
pub open spec fn is_numeric(s: Seq<char>) -> bool {
    forall|k: int| 0 <= k < s.len() ==> '0' as int <= #[trigger] s[k] as int <= '9' as int
}

/// A number is written with decimal digits that stand for it, and without leading zeros.
pub proof fn law_decimal(n: nat)
    ensures
        value_of(text::decimal(n)) == n,
        is_numeric(text::decimal(n)),
        text::decimal(n).len() >= 1,
        text::decimal(n).len() >= 2 <==> n >= 10,
        text::decimal(n).len() >= 2 ==> text::decimal(n)[0] != '0',
        n > 0 ==> text::decimal(n)[0] != '0',
        n < 100 ==> text::decimal(n).len() <= 2,
    decreases n,
{
    let s = text::decimal(n);
    if n < 10 {
        assert(s.drop_last() =~= Seq::<char>::empty());
        assert(value_of(s.drop_last()) == 0);
        assert(s.last() == text::digit_char(n as int));
    } else {
        let t = text::decimal(n / 10);
        law_decimal(n / 10);
        assert(s.drop_last() =~= t);
        assert(s.last() == text::digit_char(n as int % 10));
        assert(s[0] == t[0]);
        assert forall|k: int| 0 <= k < s.len() implies '0' as int <= #[trigger] s[k] as int <= '9'
            as int by {
            if k < t.len() {
                assert(s[k] == t[k]);
            }
        }
    }
}

proof fn lemma_two_digits(n: nat)
    ensures
        value_of(text::two_digits(n)) == n,
        is_numeric(text::two_digits(n)),
        text::two_digits(n).len() >= 2,
        n < 100 ==> text::two_digits(n).len() == 2,
        text::two_digits(n).len() > 2 ==> text::two_digits(n)[0] != '0',
{
    law_decimal(n);
    if n < 10 {
        let s = text::two_digits(n);
        let t = text::decimal(n);
        assert(t.len() == 1);
        assert(s.drop_last() =~= seq!['0']);
        assert(seq!['0'].drop_last() =~= Seq::<char>::empty());
        assert(value_of(seq!['0']) == 0) by {
            assert(value_of(Seq::<char>::empty()) == 0);
            assert(seq!['0'].last() == '0');
        }
        assert(t.drop_last() =~= Seq::<char>::empty());
        assert(value_of(t.drop_last()) == 0);
        assert(s.last() == t.last());
    }
}

/// A time is written as minutes, a colon and the seconds that are left, which are below
/// sixty and have two digits; the minutes have two digits at least, and no leading zero
/// beyond that.
pub proof fn law_clock(seconds: nat)
    ensures
        ({
            let c = text::clock(seconds);
            let k = c.len() - 3;
            &&& k >= 2
            &&& c[k] == ':'
            &&& is_numeric(c.take(k))
            &&& is_numeric(c.skip(k + 1))
            &&& value_of(c.skip(k + 1)) < 60
            &&& 60 * value_of(c.take(k)) + value_of(c.skip(k + 1)) == seconds
            &&& k > 2 ==> c[0] != '0'
        }),
{
    let (m, s) = (text::two_digits(seconds / 60), text::two_digits(seconds % 60));
    lemma_two_digits(seconds / 60);
    lemma_two_digits(seconds % 60);
    let c = text::clock(seconds);
    assert(c.take(c.len() - 3) =~= m);
    assert(c.skip(c.len() - 2) =~= s);
}

} // verus!
