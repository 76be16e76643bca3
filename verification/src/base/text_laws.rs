//! Laws on numerals and on the order of texts.
use crate::base::text::{bracketed, comma_separated, decimal, precedes};
use vstd::prelude::*;

verus! {

/// The number that a numeral stands for: each digit counts ten times what the next one does.
pub open spec fn number_of(s: Seq<char>) -> int
    decreases s.len(),
{
    if s.len() == 0 {
        0
    } else {
        10 * number_of(s.drop_last()) + (s.last() as int - '0' as int)
    }
}

/// Numerals read back as their numbers, have digits only, and begin with none that could be left
/// out.
pub proof fn numerals_read_back(n: nat)
    ensures
        number_of(decimal(n)) == n,
        decimal(n).len() > 0,
        forall|i: int| 0 <= i < decimal(n).len() ==> '0' <= #[trigger] decimal(n)[i] <= '9',
        n > 0 ==> decimal(n)[0] != '0',
    decreases n,
{
    let s = decimal(n);
    if n < 10 {
        assert(s.drop_last() =~= Seq::empty());
        assert(number_of(s.drop_last()) == 0);
    } else {
        numerals_read_back(n / 10);
        assert(s.drop_last() =~= decimal(n / 10));
        assert(s[0] == decimal(n / 10)[0]);
    }
}

/// Different numbers have different numerals.
pub proof fn numerals_differ(a: nat, b: nat)
    requires
        decimal(a) == decimal(b),
    ensures
        a == b,
{
    numerals_read_back(a);
    numerals_read_back(b);
}

/// A text comes before every text that it begins. Of two texts that begin alike, the one comes
/// first whose next character does.
pub proof fn first_difference_decides(p: Seq<char>, x: char, a: Seq<char>, y: char, b: Seq<char>)
    ensures
        precedes(p, p + seq![x] + a),
        !precedes(p + seq![x] + a, p),
        x < y ==> precedes(p + seq![x] + a, p + seq![y] + b),
        y < x ==> !precedes(p + seq![x] + a, p + seq![y] + b),
    decreases p.len(),
{
    let s = p + seq![x] + a;
    let t = p + seq![y] + b;
    if p.len() > 0 {
        first_difference_decides(p.skip(1), x, a, y, b);
        assert(s[0] == p[0] && t[0] == p[0]);
        assert(s.skip(1) =~= p.skip(1) + seq![x] + a);
        assert(t.skip(1) =~= p.skip(1) + seq![y] + b);
    } else {
        assert(s[0] == x && t[0] == y);
    }
}

/// A list of numbers is written with each number once, in order.
pub proof fn lists_grow_by_their_last_number(s: Seq<usize>, n: usize)
    ensures
        comma_separated(Seq::empty()) == Seq::<char>::empty(),
        comma_separated(seq![n]) == decimal(n as nat),
        s.len() > 0 ==> comma_separated(s.push(n)) == comma_separated(s) + ", "@ + decimal(
            n as nat,
        ),
        bracketed(s) == "["@ + comma_separated(s) + "]"@,
{
    assert(s.push(n).drop_last() =~= s);
}

} // verus!
